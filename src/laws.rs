//! Laws of the parser, proved over its spec functions.
use vstd::prelude::*;
use crate::mas::{Func, Inst};
use crate::parse::{
    at_end, has_func, ident_end, is_space, lines, parse_line, parse_lines, parse_program, skip_ws,
    stray_backslash, LineItem,
};

verus! {

/// A `debug` instruction records line `line` of `ls`, which read alone is
/// that instruction; other instructions record nothing.
pub open spec fn debug_line_ok(ls: Seq<Seq<char>>, i: Inst) -> bool {
    match i {
        Inst::Debug { line, .. } => 1 <= line <= ls.len() && parse_line(ls[line - 1], line)
            == Ok::<Option<LineItem>, crate::parse::ParseErrorKind>(Some(LineItem::Op(i))),
        _ => true,
    }
}

pub open spec fn debug_lines_ok(ls: Seq<Seq<char>>, fs: Seq<Func>) -> bool {
    forall|f: int, i: int|
        0 <= f < fs.len() && 0 <= i < fs[f].instructions.len() ==> debug_line_ok(
            ls,
            #[trigger] fs[f].instructions[i],
        )
}

proof fn lemma_debug_from_line(l: Seq<char>, n: nat)
    requires
        parse_line(l, n) matches Ok(Some(LineItem::Op(Inst::Debug { .. }))),
    ensures
        parse_line(l, n) matches Ok(Some(LineItem::Op(Inst::Debug { line, .. }))) && line == n,
{
}

proof fn lemma_debug_lines_prefix(ls: Seq<Seq<char>>)
    requires
        parse_lines(ls) is Ok,
    ensures
        debug_lines_ok(ls, parse_lines(ls)->Ok_0),
    decreases ls.len(),
{
    if ls.len() > 0 {
        let prev = ls.drop_last();
        lemma_debug_lines_prefix(prev);
        let fs = parse_lines(prev)->Ok_0;
        let n = ls.len();
        let g = parse_lines(ls)->Ok_0;
        assert forall|f: int, i: int|
            0 <= f < fs.len() && 0 <= i < fs[f].instructions.len() implies debug_line_ok(
            ls,
            #[trigger] fs[f].instructions[i],
        ) by {
            assert(debug_line_ok(prev, fs[f].instructions[i]));
            if let Inst::Debug { line, .. } = fs[f].instructions[i] {
                assert(ls[line - 1] == prev[line - 1]);
            }
        }
        match parse_line(ls.last(), n as nat) {
            Ok(Some(LineItem::Op(inst))) => {
                if inst is Debug {
                    lemma_debug_from_line(ls.last(), n as nat);
                }
                assert(debug_line_ok(ls, inst));
                assert forall|f: int, i: int|
                    0 <= f < g.len() && 0 <= i < g[f].instructions.len() implies debug_line_ok(
                    ls,
                    #[trigger] g[f].instructions[i],
                ) by {
                    if f == fs.len() - 1 && i == fs[f].instructions.len() {
                    } else {
                        assert(g[f].instructions[i] == fs[f].instructions[i]);
                    }
                }
            },
            Ok(Some(LineItem::Label(name, args))) => {
                assert forall|f: int, i: int|
                    0 <= f < g.len() && 0 <= i < g[f].instructions.len() implies debug_line_ok(
                    ls,
                    #[trigger] g[f].instructions[i],
                ) by {
                    assert(g[f].instructions[i] == fs[f].instructions[i]);
                }
            },
            _ => {},
        }
    }
}

/// Every `debug` instruction of a parsed program reports the 1-based number
/// of the source line it stands on: that line, read alone, is that very
/// instruction.
pub proof fn lemma_debug_line_fidelity(t: Seq<char>)
    requires
        parse_program(t) is Ok,
    ensures
        debug_lines_ok(lines(t), parse_program(t)->Ok_0),
{
    lemma_debug_lines_prefix(lines(t));
}

/// A label defined on one of the first `m` lines stays defined, as long as
/// those lines are accepted.
proof fn lemma_labels_kept(ls: Seq<Seq<char>>, m: int, j: int, name: Seq<char>)
    requires
        0 <= j < m <= ls.len(),
        parse_lines(ls.take(m)) is Ok,
        parse_line(ls[j], (j + 1) as nat) matches Ok(Some(LineItem::Label(n, _))) && n == name,
    ensures
        has_func(parse_lines(ls.take(m))->Ok_0, name),
    decreases m,
{
    let p = ls.take(m);
    assert(p.drop_last() =~= ls.take(m - 1));
    assert(p.last() == ls[m - 1]);
    let fs = parse_lines(ls.take(m - 1))->Ok_0;
    let g = parse_lines(p)->Ok_0;
    if m - 1 > j {
        lemma_labels_kept(ls, m - 1, j, name);
        let k = choose|k: int| 0 <= k < fs.len() && #[trigger] fs[k].name == name;
        assert(g[k].name == name);
    } else {
        assert(g[fs.len() as int].name == name);
    }
}

/// Without a label among the first `m` lines, accepted lines hold no function.
proof fn lemma_no_label_no_function(ls: Seq<Seq<char>>, m: int)
    requires
        0 <= m <= ls.len(),
        parse_lines(ls.take(m)) is Ok,
        forall|j: int|
            0 <= j < m ==> !(#[trigger] parse_line(ls[j], (j + 1) as nat) matches Ok(
                Some(LineItem::Label(_, _)),
            )),
    ensures
        parse_lines(ls.take(m))->Ok_0.len() == 0,
    decreases m,
{
    if m > 0 {
        let p = ls.take(m);
        assert(p.drop_last() =~= ls.take(m - 1));
        assert(p.last() == ls[m - 1]);
        let j = m - 1;
        assert(!(parse_line(ls[j], (j + 1) as nat) matches Ok(Some(LineItem::Label(_, _)))));
        assert((j + 1) as nat == m as nat);
        lemma_no_label_no_function(ls, m - 1);
    }
}

/// The lines up to line `k + 1` are rejected whenever line `k + 1` is read
/// against the accepted lines before it and rejected.
proof fn lemma_rejected_through(ls: Seq<Seq<char>>, k: int)
    requires
        0 <= k < ls.len(),
        parse_lines(ls.take(k + 1)) is Err,
    ensures
        parse_lines(ls) is Err,
{
    crate::parse::lemma_parse_lines_err(ls, k + 1);
}

/// A program in which two lines define the same label is rejected.
pub proof fn lemma_duplicate_label_rejected(t: Seq<char>, j: int, k: int, name: Seq<char>)
    requires
        0 <= j < k < lines(t).len(),
        parse_line(lines(t)[j], (j + 1) as nat) matches Ok(Some(LineItem::Label(n, _))) && n == name,
        parse_line(lines(t)[k], (k + 1) as nat) matches Ok(Some(LineItem::Label(n, _))) && n == name,
    ensures
        parse_program(t) is Err,
{
    let ls = lines(t);
    let p = ls.take(k + 1);
    assert(p.drop_last() =~= ls.take(k));
    assert(p.last() == ls[k]);
    if parse_lines(ls.take(k)) is Ok {
        lemma_labels_kept(ls, k, j, name);
    } else {
        crate::parse::lemma_parse_lines_err(p, k);
    }
    lemma_rejected_through(ls, k);
}

/// A program with an instruction before its first label is rejected.
pub proof fn lemma_instruction_outside_label_rejected(t: Seq<char>, k: int)
    requires
        0 <= k < lines(t).len(),
        parse_line(lines(t)[k], (k + 1) as nat) matches Ok(Some(LineItem::Op(_))),
        forall|j: int|
            0 <= j < k ==> !(#[trigger] parse_line(lines(t)[j], (j + 1) as nat) matches Ok(
                Some(LineItem::Label(_, _)),
            )),
    ensures
        parse_program(t) is Err,
{
    let ls = lines(t);
    let p = ls.take(k + 1);
    assert(p.drop_last() =~= ls.take(k));
    assert(p.last() == ls[k]);
    if parse_lines(ls.take(k)) is Ok {
        lemma_no_label_no_function(ls, k);
    } else {
        crate::parse::lemma_parse_lines_err(p, k);
    }
    lemma_rejected_through(ls, k);
}

/// A program with a line that cannot be read is rejected.
pub proof fn lemma_bad_line_rejected(t: Seq<char>, k: int)
    requires
        0 <= k < lines(t).len(),
        parse_line(lines(t)[k], (k + 1) as nat) is Err,
    ensures
        parse_program(t) is Err,
{
    let ls = lines(t);
    let p = ls.take(k + 1);
    assert(p.drop_last() =~= ls.take(k));
    assert(p.last() == ls[k]);
    if parse_lines(ls.take(k)) is Err {
        crate::parse::lemma_parse_lines_err(p, k);
    }
    lemma_rejected_through(ls, k);
}

/// The words that open an instruction.
pub open spec fn is_opcode(w: Seq<char>) -> bool {
    w == "cmd"@ || w == "debug"@ || w == "log"@ || w == "mov"@ || w == "set"@ || w == "load"@
        || w == "store"@ || w == "cmp"@ || w == "cmpin"@ || w == "b"@ || w == "bi"@ || w == "bn"@
        || w == "calc"@ || w == "rand"@ || w == "call"@ || w == "ret"@ || w == "yield"@
}

/// Line `l` is neither blank nor a label definition, and its first word is
/// no opcode.
pub open spec fn unknown_opcode_line(l: Seq<char>) -> bool {
    let i = skip_ws(l, 0);
    let w = ident_end(l, i);
    let j = skip_ws(l, w);
    &&& !at_end(l, 0)
    &&& !(w > i && j < l.len() && (l[j] == '(' || l[j] == ':'))
    &&& !is_opcode(l.subrange(i, w))
}

/// A program with a line whose first word is no opcode is rejected.
pub proof fn lemma_unknown_opcode_rejected(t: Seq<char>, k: int)
    requires
        0 <= k < lines(t).len(),
        unknown_opcode_line(lines(t)[k]),
    ensures
        parse_program(t) is Err,
{
    let l = lines(t)[k];
    assert(parse_line(l, (k + 1) as nat) is Err);
    lemma_bad_line_rejected(t, k);
}

proof fn lemma_stray_not_blank(l: Seq<char>, i: int)
    requires
        0 <= i,
        stray_backslash(l, i, false),
        forall|q: int| 0 <= q < i ==> is_space(#[trigger] l[q]),
    ensures
        !at_end(l, 0),
    decreases l.len() - i,
{
    if i < l.len() && is_space(l[i]) {
        lemma_stray_not_blank(l, i + 1);
    } else {
        lemma_skip_ws_run(l, 0, i);
    }
}

proof fn lemma_skip_ws_run(l: Seq<char>, a: int, i: int)
    requires
        0 <= a <= i,
        forall|q: int| a <= q < i ==> is_space(#[trigger] l[q]),
        !(0 <= i < l.len() && is_space(l[i])),
        i <= l.len(),
    ensures
        skip_ws(l, a) == i,
    decreases i - a,
{
    if a < i {
        lemma_skip_ws_run(l, a + 1, i);
    }
}

/// A program with a backslash outside string literals and comments is
/// rejected.
pub proof fn lemma_stray_backslash_rejected(t: Seq<char>, k: int)
    requires
        0 <= k < lines(t).len(),
        stray_backslash(lines(t)[k], 0, false),
    ensures
        parse_program(t) is Err,
{
    let l = lines(t)[k];
    lemma_stray_not_blank(l, 0);
    assert(parse_line(l, (k + 1) as nat) is Err);
    lemma_bad_line_rejected(t, k);
}

} // verus!
