//! The canonical printer and the parser agree: what the printer writes for a
//! valid program reads back as that program.
use vstd::prelude::*;
use crate::parse::{
    arg_list, args_at, at_end, blank, int_op, ident_op, label_at, line_at, line_end, lines, lines_from, str_op, calc_at, cmp_at, cmpin_op, has_at, ident_at, opt_int_at, range_at, reg_at, digits_end, digits_value, ident_end, int_at, is_digit, is_ident_char, is_space,
    skip_ws, string_at, string_close, stray_backslash,
};
use crate::text::{dec, dec_int, digit_char};
use crate::command::{line, one_line};
use crate::mas::{CalcOp, CmpOp, ExprCmpIn, Func, Inst, Register};
use crate::parse::{has_func, inst_at, parse_line, parse_lines, parse_program, LineItem, ParseErrorKind};
use crate::print::{func_src, insts_src, program_src, args_src, calc_src, cmp_src, inst_src, label_src, range_src, reg_src};
use crate::generate::opt_bound;

verus! {

/// `l[a..b]` is a run of blanks.
pub open spec fn spaces(l: Seq<char>, a: int, b: int) -> bool {
    forall|q: int| a <= q < b ==> is_space(#[trigger] l[q])
}

/// `s` is a non-empty run of identifier characters.
pub open spec fn is_ident(s: Seq<char>) -> bool {
    s.len() > 0 && forall|q: int| 0 <= q < s.len() ==> is_ident_char(#[trigger] s[q])
}

/// `l` holds `s` from position `a` on.
pub open spec fn holds_at(l: Seq<char>, a: int, s: Seq<char>) -> bool {
    0 <= a && a + s.len() <= l.len() && l.subrange(a, a + s.len()) == s
}

/// No character of `l[a..b]` starts an escape, a string or a comment.
pub open spec fn plain(l: Seq<char>, a: int, b: int) -> bool {
    forall|q: int| a <= q < b ==> (#[trigger] l[q] != '\\' && l[q] != '"' && l[q] != '#')
}

pub proof fn lemma_skip_ws_at(l: Seq<char>, a: int, b: int)
    requires
        0 <= a <= b <= l.len(),
        spaces(l, a, b),
        b == l.len() || !is_space(l[b]),
    ensures
        skip_ws(l, a) == b,
    decreases b - a,
{
    if a < b {
        lemma_skip_ws_at(l, a + 1, b);
    }
}

pub proof fn lemma_ident_end_at(l: Seq<char>, a: int, b: int)
    requires
        0 <= a <= b <= l.len(),
        forall|q: int| a <= q < b ==> is_ident_char(#[trigger] l[q]),
        b == l.len() || !is_ident_char(l[b]),
    ensures
        ident_end(l, a) == b,
    decreases b - a,
{
    if a < b {
        lemma_ident_end_at(l, a + 1, b);
    }
}

pub proof fn lemma_digits_end_at(l: Seq<char>, a: int, b: int)
    requires
        0 <= a <= b <= l.len(),
        forall|q: int| a <= q < b ==> is_digit(#[trigger] l[q]),
        b == l.len() || !is_digit(l[b]),
    ensures
        digits_end(l, a) == b,
    decreases b - a,
{
    if a < b {
        lemma_digits_end_at(l, a + 1, b);
    }
}

/// The decimal text of `n` holds digits only, and reads back as `n`.
pub proof fn lemma_dec_digits(n: nat)
    ensures
        forall|q: int| 0 <= q < dec(n).len() ==> is_digit(#[trigger] dec(n)[q]),
        dec(n).len() >= 1,
        digits_value(dec(n), 0, dec(n).len() as int) == n,
    decreases n,
{
    crate::text::lemma_digit_value(n % 10);
    assert(digit_char(n % 10) == crate::text::digit_table()[(n % 10) as int]);
    lemma_digit_char_value(n % 10);
    if n >= 10 {
        lemma_dec_digits(n / 10);
        let p = dec(n / 10);
        let d = dec(n);
        assert(d =~= p.push(digit_char(n % 10)));
        lemma_digits_value_prefix(d, p, p.len() as int);
        let k = p.len() as int;
        assert(digits_value(d, 0, k + 1) == digits_value(d, 0, k) * 10 + (d[k] as int - '0' as int));
        assert(digits_value(d, 0, k) == n / 10);
        assert(d[k] == digit_char(n % 10));
        assert((n / 10) * 10 + n % 10 == n);
    } else {
        let d = dec(n);
        assert(d =~= seq![digit_char(n)]);
        assert(n % 10 == n);
        assert(digits_value(d, 0, 1) == digits_value(d, 0, 0) * 10 + (d[0] as int - '0' as int));
    }
}

proof fn lemma_digit_char_value(d: nat)
    requires
        d < 10,
    ensures
        is_digit(digit_char(d)),
        digit_char(d) as int - '0' as int == d,
{
    if d == 0 {
        assert(digit_char(d) == '0');
    } else if d == 1 {
        assert(digit_char(d) == '1');
    } else if d == 2 {
        assert(digit_char(d) == '2');
    } else if d == 3 {
        assert(digit_char(d) == '3');
    } else if d == 4 {
        assert(digit_char(d) == '4');
    } else if d == 5 {
        assert(digit_char(d) == '5');
    } else if d == 6 {
        assert(digit_char(d) == '6');
    } else if d == 7 {
        assert(digit_char(d) == '7');
    } else if d == 8 {
        assert(digit_char(d) == '8');
    } else {
        assert(digit_char(d) == '9');
    }
}

/// `digits_value` reads only the characters in its range.
pub proof fn lemma_digits_value_prefix(l: Seq<char>, p: Seq<char>, j: int)
    requires
        0 <= j <= p.len(),
        j <= l.len(),
        forall|q: int| 0 <= q < j ==> l[q] == p[q],
    ensures
        digits_value(l, 0, j) == digits_value(p, 0, j),
    decreases j,
{
    if j > 0 {
        lemma_digits_value_prefix(l, p, j - 1);
    }
}

/// `digits_value` over a window of `l` that holds `p`.
pub proof fn lemma_digits_value_shift(l: Seq<char>, a: int, p: Seq<char>, j: int)
    requires
        0 <= j <= p.len(),
        holds_at(l, a, p),
    ensures
        digits_value(l, a, a + j) == digits_value(p, 0, j),
    decreases j,
{
    if j > 0 {
        assert(l[a + j - 1] == l.subrange(a, a + p.len())[j - 1]);
        lemma_digits_value_shift(l, a, p, j - 1);
    }
}

/// `s` can stand between quotes: the first unescaped quote after it is the
/// one that closes it.
pub open spec fn valid_body(s: Seq<char>) -> bool {
    string_close(s.push('"'), 0) == s.len()
}

pub proof fn lemma_int_at(l: Seq<char>, a: int, v: i32)
    requires
        holds_at(l, a, dec_int(v as int)),
        a + dec_int(v as int).len() == l.len() || !is_digit(l[a + dec_int(v as int).len()]),
    ensures
        int_at(l, a) == Some((v, a + dec_int(v as int).len())),
{
    let t = dec_int(v as int);
    let e = a + t.len();
    let m: nat = if v < 0 {
        (-v) as nat
    } else {
        v as nat
    };
    lemma_dec_digits(m);
    let d = dec(m);
    let s0 = if v < 0 {
        a + 1
    } else {
        a
    };
    assert(l.subrange(a, e) == t);
    if v < 0 {
        assert(t == seq!['-'] + d);
        assert(l[a] == t[0]);
    } else {
        assert(t == d);
        assert(l[a] == t[0]);
        assert(is_digit(d[0]));
    }
    assert(holds_at(l, s0, d)) by {
        assert forall|q: int| 0 <= q < d.len() implies l.subrange(s0, s0 + d.len())[q] == d[q] by {
            assert(l[s0 + q] == l.subrange(a, e)[s0 - a + q]);
            if v < 0 {
                assert(t[q + 1] == d[q]);
            }
        }
        assert(l.subrange(s0, s0 + d.len()) =~= d);
    }
    assert forall|q: int| s0 <= q < e implies is_digit(#[trigger] l[q]) by {
        assert(l[q] == l.subrange(s0, s0 + d.len())[q - s0]);
    }
    lemma_digits_end_at(l, s0, e);
    lemma_digits_value_shift(l, s0, d, d.len() as int);
}

/// `string_close` reads only the characters of the string it closes.
pub proof fn lemma_string_close_shift(l: Seq<char>, a: int, p: Seq<char>, i: int)
    requires
        holds_at(l, a, p),
        0 <= i <= p.len(),
        string_close(p, i) >= 0,
    ensures
        string_close(l, a + i) == a + string_close(p, i),
    decreases p.len() - i,
{
    assert(l[a + i] == l.subrange(a, a + p.len())[i]);
    if p[i] == '\\' && i + 1 < p.len() && p[i + 1] == '"' {
        assert(l[a + i + 1] == l.subrange(a, a + p.len())[i + 1]);
        lemma_string_close_shift(l, a, p, i + 2);
    } else if p[i] == '"' {
    } else {
        if p[i] == '\\' && i + 1 < p.len() {
            assert(l[a + i + 1] == l.subrange(a, a + p.len())[i + 1]);
        }
        if i + 1 == p.len() {
            assert(string_close(p, i + 1) == -1);
        }
        lemma_string_close_shift(l, a, p, i + 1);
    }
}

pub proof fn lemma_string_at(l: Seq<char>, a: int, s: Seq<char>)
    requires
        holds_at(l, a, crate::print::quoted(s)),
        valid_body(s),
    ensures
        string_at(l, a) == Some((s, a + s.len() + 2)),
{
    let q = crate::print::quoted(s);
    let p = s.push('"');
    assert(l[a] == l.subrange(a, a + q.len())[0]);
    assert(holds_at(l, a + 1, p)) by {
        assert forall|k: int| 0 <= k < p.len() implies l.subrange(a + 1, a + 1 + p.len())[k] == p[k] by {
            assert(l[a + 1 + k] == l.subrange(a, a + q.len())[1 + k]);
            assert(q[1 + k] == p[k]);
        }
        assert(l.subrange(a + 1, a + 1 + p.len()) =~= p);
    }
    lemma_string_close_shift(l, a + 1, p, 0);
    assert forall|k: int| 0 <= k < s.len() implies l.subrange(a + 1, a + 1 + s.len())[k] == s[k] by {
        assert(l[a + 1 + k] == l.subrange(a + 1, a + 1 + p.len())[k]);
    }
    assert(l.subrange(a + 1, a + 1 + s.len()) =~= s);
}

/// Plain characters are skipped by the scan for stray backslashes.
pub proof fn lemma_stray_plain(l: Seq<char>, a: int, b: int)
    requires
        0 <= a <= b <= l.len(),
        plain(l, a, b),
    ensures
        stray_backslash(l, a, false) == stray_backslash(l, b, false),
    decreases b - a,
{
    if a < b {
        lemma_stray_plain(l, a + 1, b);
    }
}

/// Inside a string literal, the scan for stray backslashes leaves it at its
/// closing quote.
pub proof fn lemma_stray_string(l: Seq<char>, a: int, p: Seq<char>, i: int)
    requires
        holds_at(l, a, p),
        0 <= i <= p.len(),
        p.len() > 0,
        string_close(p, i) == p.len() - 1,
    ensures
        stray_backslash(l, a + i, true) == stray_backslash(l, a + p.len(), false),
    decreases p.len() - i,
{
    assert(i < p.len());
    assert(l[a + i] == l.subrange(a, a + p.len())[i]);
    if p[i] == '\\' && i + 1 < p.len() && p[i + 1] == '"' {
        assert(l[a + i + 1] == l.subrange(a, a + p.len())[i + 1]);
        lemma_stray_string(l, a, p, i + 2);
    } else if p[i] == '"' {
    } else {
        if p[i] == '\\' && i + 1 < p.len() {
            assert(l[a + i + 1] == l.subrange(a, a + p.len())[i + 1]);
        }
        if i + 1 == p.len() {
            assert(string_close(p, i + 1) == -1);
        }
        lemma_stray_string(l, a, p, i + 1);
    }
}

pub proof fn lemma_keywords()
    ensures
        "cmd"@ == seq!['c', 'm', 'd'],
        "debug"@ == seq!['d', 'e', 'b', 'u', 'g'],
        "log"@ == seq!['l', 'o', 'g'],
        "mov"@ == seq!['m', 'o', 'v'],
        "set"@ == seq!['s', 'e', 't'],
        "load"@ == seq!['l', 'o', 'a', 'd'],
        "store"@ == seq!['s', 't', 'o', 'r', 'e'],
        "cmp"@ == seq!['c', 'm', 'p'],
        "cmpin"@ == seq!['c', 'm', 'p', 'i', 'n'],
        "b"@ == seq!['b'],
        "bi"@ == seq!['b', 'i'],
        "bn"@ == seq!['b', 'n'],
        "calc"@ == seq!['c', 'a', 'l', 'c'],
        "rand"@ == seq!['r', 'a', 'n', 'd'],
        "call"@ == seq!['c', 'a', 'l', 'l'],
        "ret"@ == seq!['r', 'e', 't'],
        "yield"@ == seq!['y', 'i', 'e', 'l', 'd'],
{
    reveal_strlit("cmd");
    reveal_strlit("debug");
    reveal_strlit("log");
    reveal_strlit("mov");
    reveal_strlit("set");
    reveal_strlit("load");
    reveal_strlit("store");
    reveal_strlit("cmp");
    reveal_strlit("cmpin");
    reveal_strlit("b");
    reveal_strlit("bi");
    reveal_strlit("bn");
    reveal_strlit("calc");
    reveal_strlit("rand");
    reveal_strlit("call");
    reveal_strlit("ret");
    reveal_strlit("yield");
}

/// The opening of an instruction line: two blanks, the opcode, one blank,
/// then operands that start with no blank, parenthesis or colon.
pub open spec fn op_line(kw: Seq<char>, rest: Seq<char>) -> Seq<char> {
    seq![' ', ' '] + kw + seq![' '] + rest
}

pub proof fn lemma_op_line_head(kw: Seq<char>, rest: Seq<char>)
    requires
        is_ident(kw),
        rest.len() > 0,
        !is_space(rest[0]),
        rest[0] != '(' && rest[0] != ':',
    ensures
        ({
            let l = op_line(kw, rest);
            let w = 2 + kw.len() as int;
            &&& skip_ws(l, 0) == 2
            &&& ident_end(l, 2) == w
            &&& l.subrange(2, w) == kw
            &&& skip_ws(l, w) == w + 1
            &&& blank(l, w) == Some(w + 1)
            &&& !at_end(l, 0)
            &&& holds_at(l, w + 1, rest)
            &&& l.len() == w + 1 + rest.len()
        }),
{
    let l = op_line(kw, rest);
    let w = 2 + kw.len() as int;
    assert(l[0] == ' ' && l[1] == ' ');
    assert(!is_space(l[2])) by {
        assert(l[2] == kw[0]);
    }
    lemma_skip_ws_at(l, 0, 2);
    assert forall|q: int| 2 <= q < w implies is_ident_char(#[trigger] l[q]) by {
        assert(l[q] == kw[q - 2]);
    }
    assert(l[w] == ' ');
    lemma_ident_end_at(l, 2, w);
    assert(l.subrange(2, w) =~= kw);
    assert(l[w + 1] == rest[0]);
    lemma_skip_ws_at(l, w, w + 1);
    assert(l.subrange(w + 1, w + 1 + rest.len()) =~= rest);
}

/// A character that opens no escape, string or comment, and ends no line.
pub open spec fn plain_char(c: char) -> bool {
    c != '\\' && c != '"' && c != '#' && c != '\n' && c != '\r'
}

pub open spec fn plain_seq(x: Seq<char>) -> bool {
    forall|q: int| 0 <= q < x.len() ==> plain_char(#[trigger] x[q])
}

pub proof fn lemma_plain_concat(a: Seq<char>, b: Seq<char>)
    requires
        plain_seq(a),
        plain_seq(b),
    ensures
        plain_seq(a + b),
{
    assert forall|q: int| 0 <= q < (a + b).len() implies plain_char(#[trigger] (a + b)[q]) by {
        if q >= a.len() {
            assert((a + b)[q] == b[q - a.len()]);
        } else {
            assert((a + b)[q] == a[q]);
        }
    }
}

pub proof fn lemma_ident_plain(x: Seq<char>)
    requires
        is_ident(x),
    ensures
        plain_seq(x),
{
    assert forall|q: int| 0 <= q < x.len() implies plain_char(#[trigger] x[q]) by {
        assert(is_ident_char(x[q]));
    }
}

pub proof fn lemma_dec_int_plain(v: int)
    ensures
        plain_seq(dec_int(v)),
        dec_int(v).len() >= 1,
        !is_space(dec_int(v)[0]),
        dec_int(v)[0] != '(' && dec_int(v)[0] != ':' && dec_int(v)[0] != '.',
        is_digit(dec_int(v).last()),
{
    let m: nat = if v < 0 {
        (-v) as nat
    } else {
        v as nat
    };
    lemma_dec_digits(m);
    reveal_strlit("-");
    let d = dec(m);
    assert forall|q: int| 0 <= q < d.len() implies plain_char(#[trigger] d[q]) by {
        assert(is_digit(d[q]));
    }
    if v < 0 {
        assert(plain_seq(seq!['-']));
        lemma_plain_concat(seq!['-'], d);
        assert(dec_int(v) == seq!['-'] + d);
        assert(dec_int(v).last() == d.last());
    } else {
        assert(is_digit(d[0]));
    }
}

/// A line of plain characters holds no stray backslash.
pub proof fn lemma_plain_no_stray(l: Seq<char>)
    requires
        plain_seq(l),
    ensures
        !stray_backslash(l, 0, false),
{
    lemma_stray_plain(l, 0, l.len() as int);
}

/// A line of plain characters, then a string literal, holds no stray
/// backslash.
pub proof fn lemma_string_line_no_stray(head: Seq<char>, s: Seq<char>)
    requires
        plain_seq(head),
        valid_body(s),
    ensures
        !stray_backslash(head + crate::print::quoted(s), 0, false),
{
    let q = crate::print::quoted(s);
    let l = head + q;
    let a = head.len() as int;
    assert(plain(l, 0, a)) by {
        assert forall|k: int| 0 <= k < a implies plain_char(#[trigger] l[k]) by {
            assert(l[k] == head[k]);
        }
    }
    lemma_stray_plain(l, 0, a);
    assert(l[a] == '"');
    let p = s.push('"');
    assert(holds_at(l, a + 1, p)) by {
        assert(l.subrange(a + 1, a + 1 + p.len()) =~= p);
    }
    lemma_stray_string(l, a + 1, p, 0);
    assert(a + 1 + p.len() == l.len());
}

/// An instruction that the printer writes in a form the parser reads back:
/// its strings close where they should and stay on one line, and the labels
/// it names are identifiers.
pub open spec fn valid_inst(i: Inst) -> bool {
    match i {
        Inst::RawCommand(s) => valid_body(s) && one_line(s),
        Inst::Log(s) => valid_body(s) && one_line(s),
        Inst::Debug { info, .. } => valid_body(info) && one_line(info),
        Inst::Branch(l) => is_ident(l),
        Inst::BranchIf(l) => is_ident(l),
        Inst::BranchIfNot(l) => is_ident(l),
        Inst::Call { label, .. } => is_ident(label),
        _ => true,
    }
}

/// `i` as read from line `n`: a `debug` records that line.
pub open spec fn at_line(i: Inst, n: nat) -> Inst {
    match i {
        Inst::Debug { info, .. } => Inst::Debug { line: n, info },
        _ => i,
    }
}

/// The printed line of `i`.
pub open spec fn inst_line(i: Inst) -> Seq<char> {
    seq![' ', ' '] + inst_src(i)
}

proof fn lemma_op_line_parse(kw: Seq<char>, rest: Seq<char>, n: nat, inst: Inst)
    requires
        is_ident(kw),
        rest.len() > 0,
        !is_space(rest[0]),
        rest[0] != '(' && rest[0] != ':',
        inst_at(op_line(kw, rest), kw, 2 + kw.len() as int, n) == Ok::<Inst, ParseErrorKind>(inst),
        !stray_backslash(op_line(kw, rest), 0, false),
    ensures
        parse_line(op_line(kw, rest), n) == Ok::<Option<LineItem>, ParseErrorKind>(Some(LineItem::Op(inst))),
{
    lemma_op_line_head(kw, rest);
    let l = op_line(kw, rest);
    assert(l[3 + kw.len() as int] == rest[0]);
}

proof fn lemma_head_plain(kw: Seq<char>)
    requires
        is_ident(kw),
    ensures
        plain_seq(seq![' ', ' '] + kw + seq![' ']),
{
    lemma_ident_plain(kw);
    assert(plain_seq(seq![' ', ' ']));
    assert(plain_seq(seq![' ']));
    lemma_plain_concat(seq![' ', ' '], kw);
    lemma_plain_concat(seq![' ', ' '] + kw, seq![' ']);
}

proof fn lemma_plain_op_line(kw: Seq<char>, rest: Seq<char>)
    requires
        is_ident(kw),
        plain_seq(rest),
    ensures
        !stray_backslash(op_line(kw, rest), 0, false),
{
    lemma_head_plain(kw);
    lemma_plain_concat(seq![' ', ' '] + kw + seq![' '], rest);
    lemma_plain_no_stray(op_line(kw, rest));
}

proof fn lemma_string_inst_line(kw: Seq<char>, s: Seq<char>, n: nat, inst: Inst)
    requires
        is_ident(kw),
        valid_body(s),
        inst == (if kw == "cmd"@ {
            Inst::RawCommand(s)
        } else if kw == "log"@ {
            Inst::Log(s)
        } else {
            Inst::Debug { line: n, info: s }
        }),
        kw == "cmd"@ || kw == "log"@ || kw == "debug"@,
    ensures
        parse_line(op_line(kw, crate::print::quoted(s)), n) == Ok::<Option<LineItem>, ParseErrorKind>(
            Some(LineItem::Op(inst)),
        ),
{
    lemma_keywords();
    let rest = crate::print::quoted(s);
    let l = op_line(kw, rest);
    let w = 2 + kw.len() as int;
    lemma_op_line_head(kw, rest);
    lemma_string_at(l, w + 1, s);
    assert(at_end(l, l.len() as int));
    lemma_head_plain(kw);
    lemma_string_line_no_stray(seq![' ', ' '] + kw + seq![' '], s);
    lemma_op_line_parse(kw, rest, n, inst);
}

pub proof fn lemma_holds_concat(l: Seq<char>, a: int, x: Seq<char>, y: Seq<char>)
    requires
        holds_at(l, a, x + y),
    ensures
        holds_at(l, a, x),
        holds_at(l, a + x.len(), y),
{
    assert forall|k: int| 0 <= k < x.len() implies l.subrange(a, a + x.len())[k] == x[k] by {
        assert(l[a + k] == l.subrange(a, a + (x + y).len())[k]);
        assert((x + y)[k] == x[k]);
    }
    assert(l.subrange(a, a + x.len()) =~= x);
    assert forall|k: int| 0 <= k < y.len() implies l.subrange(a + x.len(), a + x.len() + y.len())[k]
        == y[k] by {
        assert(l[a + x.len() + k] == l.subrange(a, a + (x + y).len())[x.len() + k]);
        assert((x + y)[x.len() + k] == y[k]);
    }
    assert(l.subrange(a + x.len(), a + x.len() + y.len()) =~= y);
}

pub proof fn lemma_char_at(l: Seq<char>, a: int, x: Seq<char>, k: int)
    requires
        holds_at(l, a, x),
        0 <= k < x.len(),
    ensures
        l[a + k] == x[k],
{
    assert(l[a + k] == l.subrange(a, a + x.len())[k]);
}

pub proof fn lemma_reg_at(l: Seq<char>, a: int, r: Register)
    requires
        holds_at(l, a, reg_src(r)),
    ensures
        reg_at(l, a) == Some(r),
{
    lemma_char_at(l, a, reg_src(r), 0);
    lemma_char_at(l, a, reg_src(r), 1);
}

pub proof fn lemma_ident_at(l: Seq<char>, a: int, x: Seq<char>)
    requires
        holds_at(l, a, x),
        is_ident(x),
        a + x.len() == l.len() || !is_ident_char(l[a + x.len()]),
    ensures
        ident_at(l, a) == Some((x, a + x.len())),
{
    assert forall|q: int| a <= q < a + x.len() implies is_ident_char(#[trigger] l[q]) by {
        lemma_char_at(l, a, x, q - a);
    }
    lemma_ident_end_at(l, a, a + x.len());
}

pub proof fn lemma_blank1(l: Seq<char>, a: int)
    requires
        0 <= a,
        a + 1 < l.len(),
        l[a] == ' ',
        !is_space(l[a + 1]),
    ensures
        blank(l, a) == Some(a + 1),
{
    lemma_skip_ws_at(l, a, a + 1);
}

proof fn lemma_reg_plain(r: Register)
    ensures
        plain_seq(reg_src(r)),
        !is_space(reg_src(r)[0]),
        reg_src(r)[0] != '(' && reg_src(r)[0] != ':' && reg_src(r)[0] != 'n',
        reg_src(r).len() == 2,
        !is_digit(reg_src(r)[0]),
{
}

proof fn lemma_kw_ident(kw: Seq<char>)
    requires
        kw.len() > 0,
        forall|q: int| 0 <= q < kw.len() ==> 'a' <= #[trigger] kw[q] && kw[q] <= 'z',
    ensures
        is_ident(kw),
{
}

proof fn lemma_mov_line(dst: Register, src: Register, n: nat)
    ensures
        parse_line(op_line("mov"@, reg_src(dst) + seq![' '] + reg_src(src)), n) == Ok::<
            Option<LineItem>,
            ParseErrorKind,
        >(Some(LineItem::Op(Inst::Move { dst, src }))),
{
    lemma_keywords();
    let kw = "mov"@;
    lemma_kw_ident(kw);
    let rest = reg_src(dst) + seq![' '] + reg_src(src);
    let l = op_line(kw, rest);
    let p = 3 + kw.len() as int;
    lemma_reg_plain(dst);
    lemma_reg_plain(src);
    lemma_op_line_head(kw, rest);
    lemma_holds_concat(l, p, reg_src(dst) + seq![' '], reg_src(src));
    lemma_holds_concat(l, p, reg_src(dst), seq![' ']);
    lemma_reg_at(l, p, dst);
    lemma_reg_at(l, p + 3, src);
    lemma_char_at(l, p + 2, seq![' '], 0);
    lemma_char_at(l, p + 3, reg_src(src), 0);
    lemma_blank1(l, p + 2);
    assert(plain_seq(seq![' ']));
    lemma_plain_concat(reg_src(dst), seq![' ']);
    lemma_plain_concat(reg_src(dst) + seq![' '], reg_src(src));
    lemma_plain_op_line(kw, rest);
    lemma_op_line_parse(kw, rest, n, Inst::Move { dst, src });
}

proof fn lemma_set_line(dst: Register, v: i32, n: nat)
    ensures
        parse_line(op_line("set"@, reg_src(dst) + seq![' '] + dec_int(v as int)), n) == Ok::<
            Option<LineItem>,
            ParseErrorKind,
        >(Some(LineItem::Op(Inst::SetConst { dst, value: v }))),
{
    lemma_keywords();
    let kw = "set"@;
    lemma_kw_ident(kw);
    let d = dec_int(v as int);
    let rest = reg_src(dst) + seq![' '] + d;
    let l = op_line(kw, rest);
    let p = 3 + kw.len() as int;
    lemma_reg_plain(dst);
    lemma_dec_int_plain(v as int);
    lemma_op_line_head(kw, rest);
    lemma_holds_concat(l, p, reg_src(dst) + seq![' '], d);
    lemma_holds_concat(l, p, reg_src(dst), seq![' ']);
    lemma_reg_at(l, p, dst);
    lemma_char_at(l, p + 2, seq![' '], 0);
    lemma_char_at(l, p + 3, d, 0);
    lemma_blank1(l, p + 2);
    lemma_int_at(l, p + 3, v);
    assert(plain_seq(seq![' ']));
    lemma_plain_concat(reg_src(dst), seq![' ']);
    lemma_plain_concat(reg_src(dst) + seq![' '], d);
    lemma_plain_op_line(kw, rest);
    lemma_op_line_parse(kw, rest, n, Inst::SetConst { dst, value: v });
}

#[verifier::rlimit(100)]
proof fn lemma_addr_line(kw: Seq<char>, a: i32, n: nat, inst: Inst)
    requires
        kw == "load"@ || kw == "store"@,
        inst == (if kw == "load"@ {
            Inst::Load { addr: a }
        } else {
            Inst::Store { addr: a }
        }),
    ensures
        parse_line(op_line(kw, dec_int(a as int)), n) == Ok::<Option<LineItem>, ParseErrorKind>(
            Some(LineItem::Op(inst)),
        ),
{
    lemma_keywords();
    lemma_kw_ident(kw);
    let d = dec_int(a as int);
    let l = op_line(kw, d);
    let p = 3 + kw.len() as int;
    lemma_dec_int_plain(a as int);
    lemma_op_line_head(kw, d);
    lemma_int_at(l, p, a);
    lemma_plain_op_line(kw, d);
    lemma_op_line_parse(kw, d, n, inst);
}

#[verifier::rlimit(100)]
proof fn lemma_label_op_line(kw: Seq<char>, x: Seq<char>, n: nat, inst: Inst)
    requires
        kw == "b"@ || kw == "bi"@ || kw == "bn"@,
        is_ident(x),
        inst == (if kw == "b"@ {
            Inst::Branch(x)
        } else if kw == "bi"@ {
            Inst::BranchIf(x)
        } else {
            Inst::BranchIfNot(x)
        }),
    ensures
        parse_line(op_line(kw, x), n) == Ok::<Option<LineItem>, ParseErrorKind>(
            Some(LineItem::Op(inst)),
        ),
{
    lemma_keywords();
    lemma_kw_ident(kw);
    let l = op_line(kw, x);
    let p = 3 + kw.len() as int;
    lemma_ident_plain(x);
    assert(is_ident_char(x[0]));
    lemma_op_line_head(kw, x);
    lemma_ident_at(l, p, x);
    lemma_plain_op_line(kw, x);
    lemma_op_line_parse(kw, x, n, inst);
}

proof fn lemma_cmp_line(op: CmpOp, n: nat)
    ensures
        parse_line(op_line("cmp"@, cmp_src(op)), n) == Ok::<Option<LineItem>, ParseErrorKind>(
            Some(LineItem::Op(Inst::Compare(op))),
        ),
{
    lemma_keywords();
    let kw = "cmp"@;
    lemma_kw_ident(kw);
    let x = cmp_src(op);
    let l = op_line(kw, x);
    let p = 3 + kw.len() as int;
    lemma_op_line_head(kw, x);
    lemma_char_at(l, p, x, 0);
    if x.len() == 2 {
        lemma_char_at(l, p, x, 1);
    }
    assert(l.len() == p + x.len());
    assert(cmp_at(l, p) == Some((op, p + x.len()))) by {
        if x.len() == 2 {
            assert(l.subrange(p, p + 2) =~= x);
        } else {
            assert(l.subrange(p, p + 1) =~= x);
        }
    }
    assert(plain_seq(x));
    lemma_plain_op_line(kw, x);
    lemma_op_line_parse(kw, x, n, Inst::Compare(op));
}

proof fn lemma_calc_line(op: CalcOp, n: nat)
    ensures
        parse_line(op_line("calc"@, calc_src(op)), n) == Ok::<Option<LineItem>, ParseErrorKind>(
            Some(LineItem::Op(Inst::Calculate(op))),
        ),
{
    lemma_keywords();
    let kw = "calc"@;
    lemma_kw_ident(kw);
    let x = calc_src(op);
    let l = op_line(kw, x);
    let p = 3 + kw.len() as int;
    lemma_op_line_head(kw, x);
    lemma_char_at(l, p, x, 0);
    assert(l.len() == p + 1);
    assert(calc_at(l, p) == Some((op, p + 1))) by {
        assert(l.subrange(p, p + 1) =~= x);
    }
    assert(plain_seq(x));
    lemma_plain_op_line(kw, x);
    lemma_op_line_parse(kw, x, n, Inst::Calculate(op));
}

proof fn lemma_range_src_facts(e: ExprCmpIn)
    ensures
        range_src(e).len() >= 1,
        plain_seq(range_src(e)),
        !is_space(range_src(e)[0]),
        range_src(e)[0] != 'n' && range_src(e)[0] != '(' && range_src(e)[0] != ':',
{
    match e {
        ExprCmpIn::Value(v) => {
            lemma_dec_int_plain(v as int);
            if v < 0 {
                reveal_strlit("-");
            }
            lemma_dec_first(v as int);
        },
        ExprCmpIn::Range(lb, ub) => {
            let a = opt_bound(lb);
            let b = opt_bound(ub);
            match lb {
                Some(x) => {
                    lemma_dec_int_plain(x as int);
                    lemma_dec_first(x as int);
                },
                None => {},
            }
            match ub {
                Some(y) => {
                    lemma_dec_int_plain(y as int);
                },
                None => {},
            }
            assert(plain_seq(a));
            assert(plain_seq(b));
            assert(plain_seq(seq!['.', '.']));
            lemma_plain_concat(a, seq!['.', '.']);
            lemma_plain_concat(a + seq!['.', '.'], b);
            if lb is None {
                assert(range_src(e)[0] == '.');
            } else {
                assert(range_src(e)[0] == a[0]);
            }
        },
    }
}

proof fn lemma_dec_first(v: int)
    ensures
        dec_int(v)[0] == '-' || is_digit(dec_int(v)[0]),
{
    let m: nat = if v < 0 {
        (-v) as nat
    } else {
        v as nat
    };
    lemma_dec_digits(m);
    if v < 0 {
        reveal_strlit("-");
        assert(dec_int(v)[0] == '-');
    }
}

proof fn lemma_opt_int_at(l: Seq<char>, a: int, b: Option<i32>)
    requires
        holds_at(l, a, opt_bound(b)),
        a + opt_bound(b).len() == l.len() || !is_digit(l[a + opt_bound(b).len()]),
        b is None ==> (a + 1 < l.len() && l[a] == '.'),
    ensures
        opt_int_at(l, a) == (b, a + opt_bound(b).len()),
{
    match b {
        Some(v) => {
            lemma_int_at(l, a, v);
        },
        None => {
            lemma_digits_end_at(l, a, a);
        },
    }
}

proof fn lemma_opt_int_at_end(l: Seq<char>)
    ensures
        opt_int_at(l, l.len() as int) == (None::<i32>, l.len() as int),
{
    lemma_digits_end_at(l, l.len() as int, l.len() as int);
}

proof fn lemma_range_at(l: Seq<char>, a: int, e: ExprCmpIn)
    requires
        holds_at(l, a, range_src(e)),
        a + range_src(e).len() == l.len(),
    ensures
        range_at(l, a) == Some((e, l.len() as int)),
{
    match e {
        ExprCmpIn::Value(v) => {
            lemma_int_at(l, a, v);
        },
        ExprCmpIn::Range(lb, ub) => {
            let x = opt_bound(lb);
            let y = opt_bound(ub);
            let dots = seq!['.', '.'];
            lemma_holds_concat(l, a, x + dots, y);
            lemma_holds_concat(l, a, x, dots);
            let p = a + x.len();
            lemma_char_at(l, p, dots, 0);
            lemma_char_at(l, p, dots, 1);
            lemma_opt_int_at(l, a, lb);
            assert(l.subrange(p, p + 2) =~= dots);
            match ub {
                Some(v) => {
                    lemma_int_at(l, p + 2, v);
                },
                None => {
                    lemma_opt_int_at_end(l);
                },
            }
        },
    }
}

pub open spec fn cmpin_rest(not: bool, e: ExprCmpIn) -> Seq<char> {
    if not {
        seq!['n', 'o', 't', ' '] + range_src(e)
    } else {
        range_src(e)
    }
}

#[verifier::rlimit(100)]
proof fn lemma_cmpin_operands(not: bool, e: ExprCmpIn)
    ensures
        cmpin_op(op_line("cmpin"@, cmpin_rest(not, e)), 2 + "cmpin"@.len() as int) == Some(
            (not, e, op_line("cmpin"@, cmpin_rest(not, e)).len() as int),
        ),
        !stray_backslash(op_line("cmpin"@, cmpin_rest(not, e)), 0, false),
        cmpin_rest(not, e).len() > 0,
        !is_space(cmpin_rest(not, e)[0]),
        cmpin_rest(not, e)[0] != '(' && cmpin_rest(not, e)[0] != ':',
{
    lemma_keywords();
    let kw = "cmpin"@;
    lemma_kw_ident(kw);
    let r = range_src(e);
    let nt = seq!['n', 'o', 't', ' '];
    let rest = cmpin_rest(not, e);
    let l = op_line(kw, rest);
    let p = 3 + kw.len() as int;
    lemma_range_src_facts(e);
    lemma_op_line_head(kw, rest);
    if not {
        lemma_holds_concat(l, p, nt, r);
        lemma_char_at(l, p, nt, 0);
        lemma_char_at(l, p, nt, 1);
        lemma_char_at(l, p, nt, 2);
        lemma_char_at(l, p, nt, 3);
        lemma_char_at(l, p + 4, r, 0);
        assert(l.subrange(p, p + 3) =~= seq!['n', 'o', 't']);
        lemma_blank1(l, p + 3);
        lemma_range_at(l, p + 4, e);
        assert(plain_seq(nt));
        lemma_plain_concat(nt, r);
    } else {
        lemma_char_at(l, p, r, 0);
        assert(!has_at(l, p, seq!['n', 'o', 't']));
        lemma_range_at(l, p, e);
    }
    lemma_plain_op_line(kw, rest);
}

#[verifier::rlimit(100)]
proof fn lemma_cmpin_line(not: bool, e: ExprCmpIn, n: nat)
    ensures
        parse_line(op_line("cmpin"@, cmpin_rest(not, e)), n) == Ok::<Option<LineItem>, ParseErrorKind>(
            Some(LineItem::Op(Inst::CompareIn { not, opr: e })),
        ),
{
    lemma_keywords();
    lemma_kw_ident("cmpin"@);
    lemma_cmpin_operands(not, e);
    let l = op_line("cmpin"@, cmpin_rest(not, e));
    assert(at_end(l, l.len() as int));
    lemma_op_line_parse("cmpin"@, cmpin_rest(not, e), n, Inst::CompareIn { not, opr: e });
}

proof fn lemma_rand_no_stray(dst: Register, lo: i32, hi: i32)
    ensures
        !stray_backslash(
            op_line(
                "rand"@,
                reg_src(dst) + seq![' '] + dec_int(lo as int) + seq![' '] + dec_int(hi as int),
            ),
            0,
            false,
        ),
{
    lemma_keywords();
    lemma_operands_plain(Inst::Random { dst, min: lo, max: hi });
    lemma_plain_op_line("rand"@, reg_src(dst) + seq![' '] + dec_int(lo as int) + seq![' '] + dec_int(hi as int));
}

#[verifier::rlimit(100)]
proof fn lemma_rand_line(dst: Register, lo: i32, hi: i32, n: nat)
    ensures
        parse_line(
            op_line(
                "rand"@,
                reg_src(dst) + seq![' '] + dec_int(lo as int) + seq![' '] + dec_int(hi as int),
            ),
            n,
        ) == Ok::<Option<LineItem>, ParseErrorKind>(
            Some(LineItem::Op(Inst::Random { dst, min: lo, max: hi })),
        ),
{
    lemma_keywords();
    let kw = "rand"@;
    lemma_kw_ident(kw);
    let a = dec_int(lo as int);
    let b = dec_int(hi as int);
    let sp = seq![' '];
    let rest = reg_src(dst) + sp + a + sp + b;
    let l = op_line(kw, rest);
    let p = 3 + kw.len() as int;
    lemma_reg_plain(dst);
    lemma_dec_int_plain(lo as int);
    lemma_dec_int_plain(hi as int);
    lemma_op_line_head(kw, rest);
    lemma_holds_concat(l, p, reg_src(dst) + sp + a + sp, b);
    lemma_holds_concat(l, p, reg_src(dst) + sp + a, sp);
    lemma_holds_concat(l, p, reg_src(dst) + sp, a);
    lemma_holds_concat(l, p, reg_src(dst), sp);
    let q1 = p + 2;
    let q2 = q1 + 1 + a.len();
    lemma_reg_at(l, p, dst);
    lemma_char_at(l, q1, sp, 0);
    lemma_char_at(l, q1 + 1, a, 0);
    lemma_blank1(l, q1);
    lemma_char_at(l, q2, sp, 0);
    lemma_char_at(l, q2 + 1, b, 0);
    lemma_int_at(l, q1 + 1, lo);
    lemma_blank1(l, q2);
    lemma_int_at(l, q2 + 1, hi);
    lemma_rand_no_stray(dst, lo, hi);
    lemma_op_line_parse(kw, rest, n, Inst::Random { dst, min: lo, max: hi });
}

#[verifier::rlimit(100)]
proof fn lemma_call_line(k: i32, x: Seq<char>, n: nat)
    requires
        is_ident(x),
    ensures
        parse_line(op_line("call"@, dec_int(k as int) + seq![' '] + x), n) == Ok::<
            Option<LineItem>,
            ParseErrorKind,
        >(Some(LineItem::Op(Inst::Call { offset_inc: k, label: x }))),
{
    lemma_keywords();
    let kw = "call"@;
    lemma_kw_ident(kw);
    let a = dec_int(k as int);
    let sp = seq![' '];
    let rest = a + sp + x;
    let l = op_line(kw, rest);
    let p = 3 + kw.len() as int;
    lemma_dec_int_plain(k as int);
    lemma_ident_plain(x);
    lemma_dec_first(k as int);
    lemma_op_line_head(kw, rest);
    lemma_holds_concat(l, p, a + sp, x);
    lemma_holds_concat(l, p, a, sp);
    let q = p + a.len();
    lemma_char_at(l, q, sp, 0);
    lemma_char_at(l, q + 1, x, 0);
    assert(is_ident_char(x[0]));
    lemma_int_at(l, p, k);
    lemma_blank1(l, q);
    lemma_ident_at(l, q + 1, x);
    assert(plain_seq(sp));
    lemma_plain_concat(a, sp);
    lemma_plain_concat(a + sp, x);
    lemma_plain_op_line(kw, rest);
    lemma_op_line_parse(kw, rest, n, Inst::Call { offset_inc: k, label: x });
}

#[verifier::rlimit(100)]
proof fn lemma_bare_line(kw: Seq<char>, n: nat, inst: Inst)
    requires
        kw == "ret"@ || kw == "yield"@,
        inst == (if kw == "ret"@ {
            Inst::Return
        } else {
            Inst::Yield
        }),
    ensures
        parse_line(seq![' ', ' '] + kw, n) == Ok::<Option<LineItem>, ParseErrorKind>(
            Some(LineItem::Op(inst)),
        ),
{
    lemma_keywords();
    lemma_kw_ident(kw);
    let l = seq![' ', ' '] + kw;
    let w = l.len() as int;
    assert(l[2] == kw[0]);
    lemma_skip_ws_at(l, 0, 2);
    assert forall|q: int| 2 <= q < w implies is_ident_char(#[trigger] l[q]) by {
        assert(l[q] == kw[q - 2]);
    }
    lemma_ident_end_at(l, 2, w);
    assert(l.subrange(2, w) =~= kw);
    lemma_skip_ws_at(l, w, w);
    lemma_head_plain(kw);
    assert(plain_seq(l)) by {
        assert forall|q: int| 0 <= q < l.len() implies plain_char(#[trigger] l[q]) by {
            if q >= 2 {
                assert(l[q] == kw[q - 2]);
            }
        }
    }
    lemma_plain_no_stray(l);
}

proof fn lemma_raw_inst(i: Inst, x: Seq<char>, n: nat)
    requires
        i == Inst::RawCommand(x),
        valid_body(x),
    ensures
        parse_line(inst_line(i), n) == Ok::<Option<LineItem>, ParseErrorKind>(
            Some(LineItem::Op(at_line(i, n))),
        ),
{
    lemma_keywords();
    lemma_kw_ident("cmd"@);
    assert(inst_line(i) =~= op_line("cmd"@, crate::print::quoted(x)));
    lemma_string_inst_line("cmd"@, x, n, i);
}

proof fn lemma_debug_inst(i: Inst, m: nat, x: Seq<char>, n: nat)
    requires
        i == (Inst::Debug { line: m, info: x }),
        valid_body(x),
    ensures
        parse_line(inst_line(i), n) == Ok::<Option<LineItem>, ParseErrorKind>(
            Some(LineItem::Op(at_line(i, n))),
        ),
{
    lemma_keywords();
    lemma_kw_ident("debug"@);
    assert(inst_line(i) =~= op_line("debug"@, crate::print::quoted(x)));
    lemma_string_inst_line("debug"@, x, n, at_line(i, n));
}

proof fn lemma_log_inst(i: Inst, x: Seq<char>, n: nat)
    requires
        i == Inst::Log(x),
        valid_body(x),
    ensures
        parse_line(inst_line(i), n) == Ok::<Option<LineItem>, ParseErrorKind>(
            Some(LineItem::Op(at_line(i, n))),
        ),
{
    lemma_keywords();
    lemma_kw_ident("log"@);
    assert(inst_line(i) =~= op_line("log"@, crate::print::quoted(x)));
    lemma_string_inst_line("log"@, x, n, i);
}

proof fn lemma_mov_inst(i: Inst, dst: Register, src: Register, n: nat)
    requires
        i == (Inst::Move { dst, src }),
        true,
    ensures
        parse_line(inst_line(i), n) == Ok::<Option<LineItem>, ParseErrorKind>(
            Some(LineItem::Op(at_line(i, n))),
        ),
{
    assert(inst_line(i) =~= op_line("mov"@, reg_src(dst) + seq![' '] + reg_src(src)));
    lemma_mov_line(dst, src, n);
}

proof fn lemma_set_inst(i: Inst, dst: Register, value: i32, n: nat)
    requires
        i == (Inst::SetConst { dst, value }),
        true,
    ensures
        parse_line(inst_line(i), n) == Ok::<Option<LineItem>, ParseErrorKind>(
            Some(LineItem::Op(at_line(i, n))),
        ),
{
    assert(inst_line(i) =~= op_line("set"@, reg_src(dst) + seq![' '] + dec_int(value as int)));
    lemma_set_line(dst, value, n);
}

proof fn lemma_load_inst(i: Inst, addr: i32, n: nat)
    requires
        i == (Inst::Load { addr }),
        true,
    ensures
        parse_line(inst_line(i), n) == Ok::<Option<LineItem>, ParseErrorKind>(
            Some(LineItem::Op(at_line(i, n))),
        ),
{
    assert(inst_line(i) =~= op_line("load"@, dec_int(addr as int)));
    lemma_addr_line("load"@, addr, n, i);
}

proof fn lemma_store_inst(i: Inst, addr: i32, n: nat)
    requires
        i == (Inst::Store { addr }),
        true,
    ensures
        parse_line(inst_line(i), n) == Ok::<Option<LineItem>, ParseErrorKind>(
            Some(LineItem::Op(at_line(i, n))),
        ),
{
    lemma_keywords();
    assert(inst_line(i) =~= op_line("store"@, dec_int(addr as int)));
    lemma_addr_line("store"@, addr, n, i);
}

proof fn lemma_cmp_inst(i: Inst, op: CmpOp, n: nat)
    requires
        i == Inst::Compare(op),
        true,
    ensures
        parse_line(inst_line(i), n) == Ok::<Option<LineItem>, ParseErrorKind>(
            Some(LineItem::Op(at_line(i, n))),
        ),
{
    assert(inst_line(i) =~= op_line("cmp"@, cmp_src(op)));
    lemma_cmp_line(op, n);
}

proof fn lemma_cmpin_inst(i: Inst, not: bool, opr: ExprCmpIn, n: nat)
    requires
        i == (Inst::CompareIn { not, opr }),
        true,
    ensures
        parse_line(inst_line(i), n) == Ok::<Option<LineItem>, ParseErrorKind>(
            Some(LineItem::Op(at_line(i, n))),
        ),
{
    assert(inst_line(i) =~= op_line("cmpin"@, cmpin_rest(not, opr)));
    lemma_cmpin_line(not, opr, n);
}

proof fn lemma_branch_inst(i: Inst, x: Seq<char>, n: nat)
    requires
        i == Inst::Branch(x),
        is_ident(x),
    ensures
        parse_line(inst_line(i), n) == Ok::<Option<LineItem>, ParseErrorKind>(
            Some(LineItem::Op(at_line(i, n))),
        ),
{
    assert(inst_line(i) =~= op_line("b"@, x));
    lemma_label_op_line("b"@, x, n, i);
}

proof fn lemma_branch_if_inst(i: Inst, x: Seq<char>, n: nat)
    requires
        i == Inst::BranchIf(x),
        is_ident(x),
    ensures
        parse_line(inst_line(i), n) == Ok::<Option<LineItem>, ParseErrorKind>(
            Some(LineItem::Op(at_line(i, n))),
        ),
{
    lemma_keywords();
    assert(inst_line(i) =~= op_line("bi"@, x));
    lemma_label_op_line("bi"@, x, n, i);
}

proof fn lemma_branch_if_not_inst(i: Inst, x: Seq<char>, n: nat)
    requires
        i == Inst::BranchIfNot(x),
        is_ident(x),
    ensures
        parse_line(inst_line(i), n) == Ok::<Option<LineItem>, ParseErrorKind>(
            Some(LineItem::Op(at_line(i, n))),
        ),
{
    lemma_keywords();
    assert(inst_line(i) =~= op_line("bn"@, x));
    lemma_label_op_line("bn"@, x, n, i);
}

proof fn lemma_calc_inst(i: Inst, op: CalcOp, n: nat)
    requires
        i == Inst::Calculate(op),
        true,
    ensures
        parse_line(inst_line(i), n) == Ok::<Option<LineItem>, ParseErrorKind>(
            Some(LineItem::Op(at_line(i, n))),
        ),
{
    assert(inst_line(i) =~= op_line("calc"@, calc_src(op)));
    lemma_calc_line(op, n);
}

proof fn lemma_rand_inst(i: Inst, dst: Register, min: i32, max: i32, n: nat)
    requires
        i == (Inst::Random { dst, min, max }),
        true,
    ensures
        parse_line(inst_line(i), n) == Ok::<Option<LineItem>, ParseErrorKind>(
            Some(LineItem::Op(at_line(i, n))),
        ),
{
    assert(inst_line(i) =~= op_line(
        "rand"@,
        reg_src(dst) + seq![' '] + dec_int(min as int) + seq![' '] + dec_int(max as int),
    ));
    lemma_rand_line(dst, min, max, n);
}

proof fn lemma_call_inst(i: Inst, offset_inc: i32, label: Seq<char>, n: nat)
    requires
        i == (Inst::Call { offset_inc, label }),
        is_ident(label),
    ensures
        parse_line(inst_line(i), n) == Ok::<Option<LineItem>, ParseErrorKind>(
            Some(LineItem::Op(at_line(i, n))),
        ),
{
    assert(inst_line(i) =~= op_line("call"@, dec_int(offset_inc as int) + seq![' '] + label));
    lemma_call_line(offset_inc, label, n);
}

proof fn lemma_yield_inst(i: Inst, n: nat)
    requires
        i == Inst::Yield,
        true,
    ensures
        parse_line(inst_line(i), n) == Ok::<Option<LineItem>, ParseErrorKind>(
            Some(LineItem::Op(at_line(i, n))),
        ),
{
    lemma_keywords();
    lemma_bare_line("yield"@, n, i);
}

proof fn lemma_ret_inst(i: Inst, n: nat)
    requires
        i == Inst::Return,
        true,
    ensures
        parse_line(inst_line(i), n) == Ok::<Option<LineItem>, ParseErrorKind>(
            Some(LineItem::Op(at_line(i, n))),
        ),
{
    lemma_keywords();
    lemma_bare_line("ret"@, n, i);
}

/// The printed line of an instruction reads back as that instruction, with
/// a `debug` recording the line number it is read at.
pub proof fn lemma_inst_line(i: Inst, n: nat)
    requires
        valid_inst(i),
    ensures
        parse_line(inst_line(i), n) == Ok::<Option<LineItem>, ParseErrorKind>(
            Some(LineItem::Op(at_line(i, n))),
        ),
{
    match i {
        Inst::RawCommand(x) => lemma_raw_inst(i, x, n),
        Inst::Debug { line: m, info: x } => lemma_debug_inst(i, m, x, n),
        Inst::Log(x) => lemma_log_inst(i, x, n),
        Inst::Move { dst, src } => lemma_mov_inst(i, dst, src, n),
        Inst::SetConst { dst, value } => lemma_set_inst(i, dst, value, n),
        Inst::Load { addr } => lemma_load_inst(i, addr, n),
        Inst::Store { addr } => lemma_store_inst(i, addr, n),
        Inst::Compare(op) => lemma_cmp_inst(i, op, n),
        Inst::CompareIn { not, opr } => lemma_cmpin_inst(i, not, opr, n),
        Inst::Branch(x) => lemma_branch_inst(i, x, n),
        Inst::BranchIf(x) => lemma_branch_if_inst(i, x, n),
        Inst::BranchIfNot(x) => lemma_branch_if_not_inst(i, x, n),
        Inst::Calculate(op) => lemma_calc_inst(i, op, n),
        Inst::Random { dst, min, max } => lemma_rand_inst(i, dst, min, max, n),
        Inst::Call { offset_inc, label } => lemma_call_inst(i, offset_inc, label, n),
        Inst::Yield => lemma_yield_inst(i, n),
        Inst::Return => lemma_ret_inst(i, n),
    }
}

pub open spec fn all_idents(args: Seq<Seq<char>>) -> bool {
    forall|k: int| 0 <= k < args.len() ==> is_ident(#[trigger] args[k])
}

proof fn lemma_args_src_front(args: Seq<Seq<char>>)
    requires
        args.len() >= 2,
    ensures
        args_src(args) == args[0] + seq![',', ' '] + args_src(args.drop_first()),
    decreases args.len(),
{
    let dl = args.drop_last();
    let df = args.drop_first();
    assert(dl[0] == args[0]);
    if args.len() == 2 {
        assert(dl.len() == 1);
        assert(df.len() == 1);
        assert(df[0] == args[1]);
        assert(args_src(dl) == args[0]);
        assert(args_src(df) == args[1]);
        assert(args_src(args) == args_src(dl) + seq![',', ' '] + args.last());
    } else {
        lemma_args_src_front(args.drop_last());
        assert(args_src(df) == args_src(df.drop_last()) + seq![',', ' '] + df.last());
        assert(args.drop_last().drop_first() =~= args.drop_first().drop_last());
        assert(args.drop_first().last() == args.last());
        assert(args_src(args) =~= args[0] + seq![',', ' '] + args_src(args.drop_first()));
    }
}

proof fn lemma_args_plain(args: Seq<Seq<char>>)
    requires
        args.len() >= 1,
        all_idents(args),
    ensures
        plain_seq(args_src(args)),
        args_src(args).len() >= 1,
        is_ident_char(args_src(args)[0]),
    decreases args.len(),
{
    lemma_ident_plain(args[0]);
    if args.len() >= 2 {
        lemma_args_plain(args.drop_last());
        lemma_ident_plain(args.last());
        assert(plain_seq(seq![',', ' ']));
        lemma_plain_concat(args_src(args.drop_last()), seq![',', ' ']);
        lemma_plain_concat(args_src(args.drop_last()) + seq![',', ' '], args.last());
        assert(args_src(args)[0] == args_src(args.drop_last())[0]);
    }
}

/// The printed parameter list, after an optional blank, reads back.
proof fn lemma_arg_list(l: Seq<char>, i: int, lead: Seq<char>, args: Seq<Seq<char>>)
    requires
        lead == Seq::<char>::empty() || lead == seq![' '],
        args.len() >= 1,
        all_idents(args),
        holds_at(l, i, lead + args_src(args) + seq![')']),
    ensures
        arg_list(l, i) == Some((args, i + lead.len() + args_src(args).len() + 1)),
    decreases args.len(),
{
    let a0 = args[0];
    let a = i + lead.len();
    lemma_holds_concat(l, i, lead + args_src(args), seq![')']);
    lemma_holds_concat(l, i, lead, args_src(args));
    assert(is_ident(a0));
    assert(is_ident_char(a0[0]));
    if args.len() == 1 {
        assert(args_src(args) == a0);
    } else {
        lemma_args_src_front(args);
    }
    let rest_src = if args.len() == 1 {
        seq![')']
    } else {
        seq![',', ' '] + args_src(args.drop_first()) + seq![')']
    };
    assert(holds_at(l, a, a0 + rest_src)) by {
        assert(args_src(args) + seq![')'] =~= a0 + rest_src);
        assert(lead + args_src(args) + seq![')'] =~= lead + (args_src(args) + seq![')']));
        lemma_holds_concat(l, i, lead, args_src(args) + seq![')']);
    }
    lemma_holds_concat(l, a, a0, rest_src);
    let e = a + a0.len();
    lemma_char_at(l, e, rest_src, 0);
    lemma_char_at(l, a, a0, 0);
    if lead.len() == 1 {
        lemma_char_at(l, i, lead, 0);
        lemma_skip_ws_at(l, i, a);
    } else {
        lemma_skip_ws_at(l, i, i);
    }
    assert forall|q: int| a <= q < e implies is_ident_char(#[trigger] l[q]) by {
        lemma_char_at(l, a, a0, q - a);
    }
    lemma_ident_end_at(l, a, e);
    lemma_skip_ws_at(l, e, e);
    assert(l.subrange(a, e) == a0);
    if args.len() >= 2 {
        let tail = args.drop_first();
        assert(all_idents(tail)) by {
            assert forall|k: int| 0 <= k < tail.len() implies is_ident(#[trigger] tail[k]) by {
                assert(tail[k] == args[k + 1]);
            }
        }
        assert(rest_src =~= seq![','] + (seq![' '] + args_src(tail) + seq![')']));
        lemma_holds_concat(l, e, seq![','], seq![' '] + args_src(tail) + seq![')']);
        lemma_arg_list(l, e + 1, seq![' '], tail);
        assert(seq![a0] + tail =~= args);
    } else {
        assert(seq![a0] =~= args);
    }
}

/// The printed label line of a function reads back as its definition.
pub proof fn lemma_label_line(name: Seq<char>, args: Seq<Seq<char>>, n: nat)
    requires
        is_ident(name),
        all_idents(args),
    ensures
        parse_line(label_src(Func { name, args, instructions: Seq::empty() }), n) == Ok::<
            Option<LineItem>,
            ParseErrorKind,
        >(Some(LineItem::Label(name, args))),
{
    let f = Func { name, args, instructions: Seq::empty() };
    let l = label_src(f);
    let w = name.len() as int;
    lemma_ident_plain(name);
    assert(l[0] == name[0]);
    assert(is_ident_char(name[0]));
    lemma_skip_ws_at(l, 0, 0);
    assert forall|q: int| 0 <= q < w implies is_ident_char(#[trigger] l[q]) by {
        assert(l[q] == name[q]);
    }
    lemma_ident_end_at(l, 0, w);
    lemma_skip_ws_at(l, w, w);
    assert(l.subrange(0, w) =~= name);
    if args.len() == 0 {
        assert(l[w] == ':');
        lemma_skip_ws_at(l, w + 1, w + 1);
        assert(plain_seq(seq![':']));
        lemma_plain_concat(name, seq![':']);
        assert(args =~= Seq::<Seq<char>>::empty());
        assert(l.len() == w + 1);
        assert(label_at(l, 0, w) == Some(LineItem::Label(name, args)));
    } else {
        let a = args_src(args);
        lemma_args_plain(args);
        assert(l =~= name + seq!['('] + a + seq![')', ':']);
        assert(l[w] == '(');
        assert(holds_at(l, w + 1, seq![] + a + seq![')'])) by {
            assert(l.subrange(w + 1, w + 1 + a.len() + 1) =~= seq![] + a + seq![')']);
        }
        assert(l[w + 1] == a[0]);
        lemma_skip_ws_at(l, w + 1, w + 1);
        lemma_arg_list(l, w + 1, seq![], args);
        let q = w + 1 + a.len() + 1;
        assert(l[q] == ':');
        lemma_skip_ws_at(l, q, q);
        lemma_skip_ws_at(l, q + 1, q + 1);
        assert(plain_seq(seq!['(']));
        assert(plain_seq(seq![')', ':']));
        lemma_plain_concat(name, seq!['(']);
        lemma_plain_concat(name + seq!['('], a);
        lemma_plain_concat(name + seq!['('] + a, seq![')', ':']);
        assert(l.len() == q + 1);
        assert(args_at(l, w + 1) == Some((args, q)));
        assert(label_at(l, 0, w) == Some(LineItem::Label(name, args)));
    }
    lemma_plain_no_stray(l);
    assert(!at_end(l, 0));
    assert(l[w] == '(' || l[w] == ':');
    assert(label_at(l, 0, w) == Some(LineItem::Label(name, args)));
}

/// `l` is one line that no carriage return ends.
pub open spec fn line_ok(l: Seq<char>) -> bool {
    one_line(l) && l.len() > 0 && l.last() != '\r'
}

proof fn lemma_plain_line_ok(l: Seq<char>)
    requires
        plain_seq(l),
        l.len() > 0,
    ensures
        line_ok(l),
{
    assert(plain_char(l[l.len() - 1]));
}

proof fn lemma_plain3(a: Seq<char>, b: Seq<char>, c: Seq<char>)
    requires
        plain_seq(a),
        plain_seq(b),
        plain_seq(c),
    ensures
        plain_seq(a + b + c),
{
    lemma_plain_concat(a, b);
    lemma_plain_concat(a + b, c);
}

/// The operands that the printer writes after an opcode hold plain
/// characters only, for every instruction without a string.
proof fn lemma_operands_plain(i: Inst)
    requires
        valid_inst(i),
        !(i is RawCommand || i is Debug || i is Log || i is Yield || i is Return),
    ensures
        ({
            let (kw, rest) = split_src(i);
            &&& plain_seq(rest)
            &&& is_ident(kw)
            &&& inst_line(i) == op_line(kw, rest)
        }),
{
    lemma_keywords();
    let sp = seq![' '];
    assert(plain_seq(sp));
    let (kw, rest) = split_src(i);
    match i {
        Inst::Move { dst, src } => {
            lemma_reg_plain(dst);
            lemma_reg_plain(src);
            lemma_plain3(reg_src(dst), sp, reg_src(src));
        },
        Inst::SetConst { dst, value } => {
            lemma_reg_plain(dst);
            lemma_dec_int_plain(value as int);
            lemma_plain3(reg_src(dst), sp, dec_int(value as int));
        },
        Inst::Load { addr } => {
            lemma_dec_int_plain(addr as int);
        },
        Inst::Store { addr } => {
            lemma_dec_int_plain(addr as int);
        },
        Inst::Compare(op) => {
            assert(plain_seq(cmp_src(op)));
        },
        Inst::CompareIn { not, opr } => {
            lemma_range_src_facts(opr);
            if not {
                assert(plain_seq(seq!['n', 'o', 't', ' ']));
                lemma_plain_concat(seq!['n', 'o', 't', ' '], range_src(opr));
            }
        },
        Inst::Branch(x) => {
            lemma_ident_plain(x);
        },
        Inst::BranchIf(x) => {
            lemma_ident_plain(x);
        },
        Inst::BranchIfNot(x) => {
            lemma_ident_plain(x);
        },
        Inst::Calculate(op) => {
            assert(plain_seq(calc_src(op)));
        },
        Inst::Random { dst, min, max } => {
            lemma_reg_plain(dst);
            lemma_dec_int_plain(min as int);
            lemma_dec_int_plain(max as int);
            lemma_plain3(reg_src(dst), sp, dec_int(min as int));
            lemma_plain3(reg_src(dst) + sp + dec_int(min as int), sp, dec_int(max as int));
        },
        Inst::Call { offset_inc, label } => {
            lemma_dec_int_plain(offset_inc as int);
            lemma_ident_plain(label);
            lemma_plain3(dec_int(offset_inc as int), sp, label);
        },
        _ => {},
    }
    lemma_kw_ident(kw);
    assert(inst_line(i) =~= op_line(kw, rest));
}

/// An instruction's opcode and the operand text after it.
pub open spec fn split_src(i: Inst) -> (Seq<char>, Seq<char>) {
    match i {
        Inst::Move { dst, src } => ("mov"@, reg_src(dst) + seq![' '] + reg_src(src)),
        Inst::SetConst { dst, value } => ("set"@, reg_src(dst) + seq![' '] + dec_int(value as int)),
        Inst::Load { addr } => ("load"@, dec_int(addr as int)),
        Inst::Store { addr } => ("store"@, dec_int(addr as int)),
        Inst::Compare(op) => ("cmp"@, cmp_src(op)),
        Inst::CompareIn { not, opr } => ("cmpin"@, cmpin_rest(not, opr)),
        Inst::Branch(x) => ("b"@, x),
        Inst::BranchIf(x) => ("bi"@, x),
        Inst::BranchIfNot(x) => ("bn"@, x),
        Inst::Calculate(op) => ("calc"@, calc_src(op)),
        Inst::Random { dst, min, max } => (
            "rand"@,
            reg_src(dst) + seq![' '] + dec_int(min as int) + seq![' '] + dec_int(max as int),
        ),
        Inst::Call { offset_inc, label } => ("call"@, dec_int(offset_inc as int) + seq![' '] + label),
        Inst::RawCommand(s) => ("cmd"@, crate::print::quoted(s)),
        Inst::Debug { info, .. } => ("debug"@, crate::print::quoted(info)),
        Inst::Log(s) => ("log"@, crate::print::quoted(s)),
        Inst::Yield => ("yield"@, Seq::empty()),
        Inst::Return => ("ret"@, Seq::empty()),
    }
}

/// The printed line of a valid instruction is one line, not ended by a
/// carriage return.
pub proof fn lemma_inst_line_ok(i: Inst)
    requires
        valid_inst(i),
    ensures
        line_ok(inst_line(i)),
{
    lemma_keywords();
    let l = inst_line(i);
    if i is RawCommand || i is Debug || i is Log {
        let (kw, rest) = split_src(i);
        let s = match i {
            Inst::RawCommand(x) => x,
            Inst::Debug { info, .. } => info,
            Inst::Log(x) => x,
            _ => Seq::empty(),
        };
        lemma_kw_ident(kw);
        lemma_head_plain(kw);
        assert(l =~= (seq![' ', ' '] + kw + seq![' ']) + seq!['"'] + s + seq!['"']);
        let h = seq![' ', ' '] + kw + seq![' '];
        assert forall|q: int| 0 <= q < l.len() implies l[q] != '\n' by {
            if q < h.len() {
                assert(plain_char(h[q]));
            } else if q == h.len() || q == l.len() - 1 {
            } else {
                assert(l[q] == s[q - h.len() - 1]);
            }
        }
    } else if i is Yield || i is Return {
        let (kw, rest) = split_src(i);
        lemma_kw_ident(kw);
        lemma_head_plain(kw);
        assert(l =~= seq![' ', ' '] + kw);
        lemma_ident_plain(kw);
        assert(plain_seq(seq![' ', ' ']));
        lemma_plain_concat(seq![' ', ' '], kw);
        lemma_plain_line_ok(l);
    } else {
        lemma_operands_plain(i);
        let (kw, rest) = split_src(i);
        lemma_head_plain(kw);
        lemma_plain_concat(seq![' ', ' '] + kw + seq![' '], rest);
        lemma_plain_line_ok(l);
    }
}

/// Lines joined, each followed by a line break.
pub open spec fn join(ls: Seq<Seq<char>>) -> Seq<char>
    decreases ls.len(),
{
    if ls.len() == 0 {
        Seq::empty()
    } else {
        join(ls.drop_last()) + line(ls.last())
    }
}

proof fn lemma_join_one(x: Seq<char>)
    ensures
        join(seq![x]) == line(x),
{
    let one = seq![x];
    assert(one.drop_last() =~= Seq::<Seq<char>>::empty());
    assert(join(Seq::<Seq<char>>::empty()) == Seq::<char>::empty());
    assert(join(one) == join(one.drop_last()) + line(one.last()));
    assert(join(one) =~= line(x));
}

proof fn lemma_join_concat(a: Seq<Seq<char>>, b: Seq<Seq<char>>)
    ensures
        join(a + b) == join(a) + join(b),
    decreases b.len(),
{
    if b.len() == 0 {
        assert(a + b =~= a);
        assert(join(a) + join(b) =~= join(a));
    } else {
        lemma_join_concat(a, b.drop_last());
        assert((a + b).drop_last() =~= a + b.drop_last());
        assert((a + b).last() == b.last());
        assert(join(a + b) =~= join(a) + join(b));
    }
}

proof fn lemma_line_end_at(t: Seq<char>, i: int, k: int)
    requires
        0 <= i <= k < t.len(),
        forall|q: int| i <= q < k ==> #[trigger] t[q] != '\n',
        t[k] == '\n',
    ensures
        line_end(t, i) == k,
    decreases k - i,
{
    if i < k {
        lemma_line_end_at(t, i + 1, k);
    }
}

/// Joined lines split back into those lines.
proof fn lemma_lines_of_join(p: Seq<char>, ls: Seq<Seq<char>>)
    requires
        forall|j: int| 0 <= j < ls.len() ==> line_ok(#[trigger] ls[j]),
    ensures
        lines_from(p + join(ls), p.len() as int) == ls,
    decreases ls.len(),
{
    let t = p + join(ls);
    let i = p.len() as int;
    if ls.len() == 0 {
        assert(t =~= p);
    } else {
        let x = ls[0];
        let rest = ls.drop_first();
        assert(ls =~= seq![x] + rest);
        lemma_join_concat(seq![x], rest);
        lemma_join_one(x);
        reveal_strlit("\n");
        let p2 = p + line(x);
        assert(t =~= p2 + join(rest));
        assert(line_ok(x));
        let e = i + x.len();
        assert forall|q: int| i <= q < e implies #[trigger] t[q] != '\n' by {
            assert(t[q] == x[q - i]);
        }
        assert(t[e] == '\n');
        lemma_line_end_at(t, i, e);
        assert(t.subrange(i, e) =~= x);
        assert(x.last() != '\r');
        assert(line_at(t, i) == x);
        assert forall|j: int| 0 <= j < rest.len() implies line_ok(#[trigger] rest[j]) by {
            assert(rest[j] == ls[j + 1]);
        }
        lemma_lines_of_join(p2, rest);
        assert(p2.len() == e + 1);
        assert(lines_from(t, i) =~= seq![x] + rest);
    }
}

/// The printed lines of a function: its label line, then one line per
/// instruction.
pub open spec fn func_lines(f: Func) -> Seq<Seq<char>> {
    seq![label_src(f)] + Seq::new(f.instructions.len(), |k: int| inst_line(f.instructions[k]))
}

pub open spec fn program_lines(fs: Seq<Func>) -> Seq<Seq<char>>
    decreases fs.len(),
{
    if fs.len() == 0 {
        Seq::empty()
    } else {
        program_lines(fs.drop_last()) + func_lines(fs.last())
    }
}

proof fn lemma_insts_src_join(is: Seq<Inst>)
    ensures
        insts_src(is) == join(Seq::new(is.len(), |k: int| inst_line(is[k]))),
    decreases is.len(),
{
    let v = Seq::new(is.len(), |k: int| inst_line(is[k]));
    if is.len() > 0 {
        lemma_insts_src_join(is.drop_last());
        assert(v.drop_last() =~= Seq::new(is.drop_last().len(), |k: int| inst_line(is.drop_last()[k])));
    } else {
        assert(v =~= Seq::<Seq<char>>::empty());
    }
}

proof fn lemma_program_src_join(fs: Seq<Func>)
    ensures
        program_src(fs) == join(program_lines(fs)),
    decreases fs.len(),
{
    if fs.len() > 0 {
        let f = fs.last();
        lemma_program_src_join(fs.drop_last());
        lemma_join_concat(program_lines(fs.drop_last()), func_lines(f));
        let v = Seq::new(f.instructions.len(), |k: int| inst_line(f.instructions[k]));
        lemma_join_concat(seq![label_src(f)], v);
        lemma_join_one(label_src(f));
        lemma_insts_src_join(f.instructions);
        assert(func_src(f) =~= join(func_lines(f)));
    }
}

/// A program that the printer writes in a form the parser reads back:
/// distinct identifier names, identifier parameters, valid instructions.
pub open spec fn valid_program(fs: Seq<Func>) -> bool {
    &&& forall|a: int, b: int|
        0 <= a < b < fs.len() ==> (#[trigger] fs[a]).name != (#[trigger] fs[b]).name
    &&& forall|j: int|
        0 <= j < fs.len() ==> is_ident((#[trigger] fs[j]).name) && all_idents(fs[j].args)
    &&& forall|j: int, q: int|
        0 <= j < fs.len() && 0 <= q < fs[j].instructions.len() ==> valid_inst(
            #[trigger] fs[j].instructions[q],
        )
}

proof fn lemma_label_line_ok(f: Func)
    requires
        is_ident(f.name),
        all_idents(f.args),
    ensures
        line_ok(label_src(f)),
{
    lemma_ident_plain(f.name);
    assert(plain_seq(seq![':']));
    if f.args.len() == 0 {
        lemma_plain_concat(f.name, seq![':']);
    } else {
        lemma_args_plain(f.args);
        assert(plain_seq(seq!['(']));
        assert(plain_seq(seq![')', ':']));
        lemma_plain_concat(f.name, seq!['(']);
        lemma_plain_concat(f.name + seq!['('], args_src(f.args));
        lemma_plain_concat(f.name + seq!['('] + args_src(f.args), seq![')', ':']);
    }
    lemma_plain_line_ok(label_src(f));
}

proof fn lemma_program_lines_ok(fs: Seq<Func>)
    requires
        valid_program(fs),
    ensures
        forall|j: int| 0 <= j < program_lines(fs).len() ==> line_ok(#[trigger] program_lines(fs)[j]),
    decreases fs.len(),
{
    if fs.len() > 0 {
        let d = fs.drop_last();
        let f = fs.last();
        assert(valid_program(d)) by {
            assert forall|a: int, b: int| 0 <= a < b < d.len() implies (#[trigger] d[a]).name
                != (#[trigger] d[b]).name by {
                assert(fs[a].name != fs[b].name);
            }
            assert forall|j: int| 0 <= j < d.len() implies is_ident((#[trigger] d[j]).name)
                && all_idents(d[j].args) by {
                assert(d[j] == fs[j]);
            }
            assert forall|j: int, q: int|
                0 <= j < d.len() && 0 <= q < d[j].instructions.len() implies valid_inst(
                #[trigger] d[j].instructions[q],
            ) by {
                assert(d[j] == fs[j]);
            }
        }
        lemma_program_lines_ok(d);
        assert(is_ident(fs[fs.len() - 1].name));
        lemma_label_line_ok(f);
        let a = program_lines(d);
        let b = func_lines(f);
        assert forall|j: int| 0 <= j < (a + b).len() implies line_ok(#[trigger] (a + b)[j]) by {
            if j >= a.len() {
                let k = j - a.len();
                if k > 0 {
                    assert(valid_inst(fs[fs.len() - 1].instructions[k - 1]));
                    lemma_inst_line_ok(f.instructions[k - 1]);
                }
            }
        }
    }
}

/// Function `g` read back agrees with `f` on its name, its parameters and
/// its first `k` instructions, up to the line numbers that `debug` records,
/// and has no more.
pub open spec fn agree_func(g: Func, f: Func, k: int) -> bool {
    &&& g.name == f.name
    &&& g.args == f.args
    &&& g.instructions.len() == k
    &&& forall|q: int|
        0 <= q < k ==> at_line(#[trigger] g.instructions[q], 0) == at_line(f.instructions[q], 0)
}

/// Program `g` read back agrees with `fs`, function by function.
pub open spec fn agree(g: Seq<Func>, fs: Seq<Func>) -> bool {
    &&& g.len() == fs.len()
    &&& forall|j: int|
        0 <= j < fs.len() ==> agree_func(#[trigger] g[j], fs[j], fs[j].instructions.len() as int)
}

/// The printed lines of the first `m` functions, then the label line and
/// the first `k` instruction lines of function `m`.
pub open spec fn partial_lines(fs: Seq<Func>, m: int, k: int) -> Seq<Seq<char>> {
    program_lines(fs.take(m)) + seq![label_src(fs[m])] + Seq::new(
        k as nat,
        |q: int| inst_line(fs[m].instructions[q]),
    )
}

proof fn lemma_fold_funcs(fs: Seq<Func>, m: int)
    requires
        valid_program(fs),
        0 <= m <= fs.len(),
    ensures
        parse_lines(program_lines(fs.take(m))) is Ok,
        agree(parse_lines(program_lines(fs.take(m)))->Ok_0, fs.take(m)),
    decreases m, 0nat,
{
    if m == 0 {
        assert(fs.take(0) =~= Seq::<Func>::empty());
        assert(program_lines(fs.take(0)) =~= Seq::<Seq<char>>::empty());
    } else {
        let f = fs[m - 1];
        let n = f.instructions.len() as int;
        lemma_fold_insts(fs, m - 1, n);
        assert(fs.take(m).drop_last() =~= fs.take(m - 1));
        assert(fs.take(m).last() == f);
        assert(partial_lines(fs, m - 1, n) =~= program_lines(fs.take(m)));
        let g = parse_lines(program_lines(fs.take(m)))->Ok_0;
        assert forall|j: int| 0 <= j < m implies agree_func(
            #[trigger] g[j],
            fs.take(m)[j],
            fs.take(m)[j].instructions.len() as int,
        ) by {
            if j < m - 1 {
                assert(g.take(m - 1)[j] == g[j]);
                assert(fs.take(m - 1)[j] == fs.take(m)[j]);
                assert(agree_func(g.take(m - 1)[j], fs.take(m - 1)[j], fs.take(m - 1)[j].instructions.len() as int));
            }
        }
    }
}

proof fn lemma_fold_insts(fs: Seq<Func>, m: int, k: int)
    requires
        valid_program(fs),
        0 <= m < fs.len(),
        0 <= k <= fs[m].instructions.len(),
    ensures
        parse_lines(partial_lines(fs, m, k)) is Ok,
        parse_lines(partial_lines(fs, m, k))->Ok_0.len() == m + 1,
        agree(parse_lines(partial_lines(fs, m, k))->Ok_0.take(m), fs.take(m)),
        agree_func(parse_lines(partial_lines(fs, m, k))->Ok_0[m], fs[m], k),
    decreases m, k + 1,
{
    let f = fs[m];
    let ls = partial_lines(fs, m, k);
    if k == 0 {
        lemma_fold_funcs(fs, m);
        let pl = program_lines(fs.take(m));
        let g0 = parse_lines(pl)->Ok_0;
        assert(ls =~= pl.push(label_src(f)));
        assert(ls.drop_last() =~= pl);
        assert(is_ident(f.name) && all_idents(f.args));
        lemma_label_line(f.name, f.args, ls.len() as nat);
        assert(label_src(f) == label_src(Func { name: f.name, args: f.args, instructions: Seq::empty() }));
        assert(!has_func(g0, f.name)) by {
            if has_func(g0, f.name) {
                let j = choose|j: int| 0 <= j < g0.len() && #[trigger] g0[j].name == f.name;
                assert(agree_func(g0[j], fs.take(m)[j], fs.take(m)[j].instructions.len() as int));
                assert(fs[j].name != fs[m].name);
            }
        }
        let g = parse_lines(ls)->Ok_0;
        assert(g =~= g0.push(Func { name: f.name, args: f.args, instructions: Seq::empty() }));
        assert(g.take(m) =~= g0);
    } else {
        lemma_fold_insts(fs, m, k - 1);
        let prev = partial_lines(fs, m, k - 1);
        let g1 = parse_lines(prev)->Ok_0;
        let x = f.instructions[k - 1];
        assert(ls =~= prev.push(inst_line(x)));
        assert(ls.drop_last() =~= prev);
        assert(valid_inst(fs[m].instructions[k - 1]));
        lemma_inst_line(x, ls.len() as nat);
        let y = at_line(x, ls.len() as nat);
        let g = parse_lines(ls)->Ok_0;
        assert(g == g1.update(m, Func { instructions: g1[m].instructions.push(y), ..g1[m] }));
        assert(g.take(m) =~= g1.take(m));
        assert(at_line(y, 0) == at_line(x, 0));
        assert forall|q: int| 0 <= q < k implies at_line(#[trigger] g[m].instructions[q], 0) == at_line(
            f.instructions[q],
            0,
        ) by {
            if q < k - 1 {
                assert(g[m].instructions[q] == g1[m].instructions[q]);
            }
        }
    }
}

/// Printing a valid program in canonical form and reading the text back
/// gives the program again: the same functions with the same names and
/// parameters, and the same instructions, up to the line numbers that
/// `debug` records (which become the lines of the printed text).
pub proof fn lemma_round_trip(fs: Seq<Func>)
    requires
        valid_program(fs),
    ensures
        parse_program(program_src(fs)) is Ok,
        agree(parse_program(program_src(fs))->Ok_0, fs),
{
    lemma_program_src_join(fs);
    lemma_program_lines_ok(fs);
    lemma_lines_of_join(Seq::empty(), program_lines(fs));
    assert(Seq::<char>::empty() + join(program_lines(fs)) =~= join(program_lines(fs)));
    lemma_fold_funcs(fs, fs.len() as int);
    assert(fs.take(fs.len() as int) =~= fs);
}

// Programs as the parser reads them are valid.

proof fn lemma_line_end_chars(t: Seq<char>, i: int)
    requires
        0 <= i <= t.len(),
    ensures
        i <= line_end(t, i) <= t.len(),
        forall|q: int| i <= q < line_end(t, i) ==> #[trigger] t[q] != '\n',
    decreases t.len() - i,
{
    if i < t.len() && t[i] != '\n' {
        lemma_line_end_chars(t, i + 1);
    }
}

proof fn lemma_lines_from_one_line(t: Seq<char>, i: int)
    requires
        0 <= i,
    ensures
        forall|k: int| 0 <= k < lines_from(t, i).len() ==> one_line(#[trigger] lines_from(t, i)[k]),
    decreases t.len() - i,
{
    if i < t.len() {
        lemma_line_end_chars(t, i);
        let e = line_end(t, i);
        let l = line_at(t, i);
        assert(one_line(l)) by {
            assert forall|q: int| 0 <= q < l.len() implies l[q] != '\n' by {
                assert(l[q] == t[i + q]);
            }
        }
        if e < t.len() {
            lemma_lines_from_one_line(t, e + 1);
            let r = lines_from(t, e + 1);
            assert forall|k: int| 0 <= k < lines_from(t, i).len() implies one_line(
                #[trigger] lines_from(t, i)[k],
            ) by {
                if k > 0 {
                    assert(lines_from(t, i)[k] == r[k - 1]);
                }
            }
        }
    }
}

proof fn lemma_close_quote(l: Seq<char>, i: int)
    requires
        0 <= i,
        string_close(l, i) >= 0,
    ensures
        i <= string_close(l, i) < l.len(),
        l[string_close(l, i)] == '"',
    decreases l.len() - i,
{
    if l[i] == '\\' && i + 1 < l.len() && l[i + 1] == '"' {
        lemma_close_quote(l, i + 2);
    } else if l[i] != '"' {
        lemma_close_quote(l, i + 1);
    }
}

/// The text that `string_close` finds in a line, with its closing quote, is
/// closed by that quote on its own.
proof fn lemma_string_window(l: Seq<char>, a: int, c: int, i: int)
    requires
        0 <= a <= a + i <= c < l.len(),
        string_close(l, a + i) == c,
        l[c] == '"',
    ensures
        string_close(l.subrange(a, c + 1), i) == c - a,
    decreases c - a - i,
{
    let p = l.subrange(a, c + 1);
    let j = a + i;
    assert(p[i] == l[j]);
    if l[j] == '\\' && j + 1 < l.len() && l[j + 1] == '"' {
        lemma_close_quote(l, j + 2);
        assert(p[i + 1] == l[j + 1]);
        lemma_string_window(l, a, c, i + 2);
    } else if l[j] == '"' {
    } else {
        lemma_close_quote(l, j + 1);
        if l[j] == '\\' && i + 1 < p.len() {
            assert(p[i + 1] == l[j + 1]);
        }
        lemma_string_window(l, a, c, i + 1);
    }
}

proof fn lemma_str_op_valid(l: Seq<char>, p: int)
    requires
        0 <= p,
        one_line(l),
        str_op(l, p) is Some,
    ensures
        valid_body((str_op(l, p)->0).0) && one_line((str_op(l, p)->0).0),
{
    let b = blank(l, p)->0;
    crate::parse::lemma_skip_ws(l, p);
    lemma_close_quote(l, b + 1);
    let c = string_close(l, b + 1);
    let s = l.subrange(b + 1, c);
    assert((str_op(l, p)->0).0 == s);
    lemma_string_window(l, b + 1, c, 0);
    assert(s.push('"') =~= l.subrange(b + 1, c + 1));
    assert forall|q: int| 0 <= q < s.len() implies s[q] != '\n' by {
        assert(s[q] == l[b + 1 + q]);
    }
}

proof fn lemma_ident_op_valid(l: Seq<char>, p: int)
    requires
        0 <= p,
        ident_op(l, p) is Some,
    ensures
        is_ident((ident_op(l, p)->0).0),
{
    let b = blank(l, p)->0;
    crate::parse::lemma_skip_ws(l, p);
    crate::parse::lemma_ident_end(l, b);
    let e = ident_end(l, b);
    let x = (ident_op(l, p)->0).0;
    assert(blank(l, p) == Some(b));
    assert(ident_at(l, b) == Some((l.subrange(b, e), e)));
    assert(x == l.subrange(b, e));
    assert(e > b);
    assert(is_ident_char(l[e - 1]) && e - 1 < l.len());
    assert forall|q: int| 0 <= q < x.len() implies is_ident_char(#[trigger] x[q]) by {
        assert(is_ident_char(l[b + q]) && b + q < l.len());
        assert(x[q] == l[b + q]);
    }
}

/// Every instruction that a line reads as is valid.
#[verifier::rlimit(100)]
proof fn lemma_inst_at_valid(l: Seq<char>, w: Seq<char>, p: int, n: nat)
    requires
        0 <= p,
        one_line(l),
        inst_at(l, w, p, n) is Ok,
    ensures
        valid_inst(inst_at(l, w, p, n)->Ok_0),
{
    if w == "cmd"@ || w == "debug"@ || w == "log"@ {
        lemma_str_op_valid(l, p);
    } else if w == "mov"@ || w == "set"@ || w == "load"@ || w == "store"@ || w == "cmp"@
        || w == "cmpin"@ {
    } else if w == "b"@ || w == "bi"@ || w == "bn"@ {
        lemma_ident_op_valid(l, p);
    } else if w == "calc"@ || w == "rand"@ {
    } else if w == "call"@ {
        let q = (int_op(l, p)->0).1;
        assert(q >= 0) by {
            let b = blank(l, p)->0;
            crate::parse::lemma_skip_ws(l, p);
            lemma_int_at_end(l, b);
        }
        lemma_ident_op_valid(l, q);
    }
}

proof fn lemma_int_at_end(l: Seq<char>, i: int)
    requires
        0 <= i,
        int_at(l, i) is Some,
    ensures
        (int_at(l, i)->0).1 >= i,
{
    let signed = 0 <= i < l.len() && (l[i] == '-' || l[i] == '+');
    let s = if signed {
        i + 1
    } else {
        i
    };
    lemma_digits_end_ge(l, s);
}

proof fn lemma_digits_end_ge(l: Seq<char>, i: int)
    requires
        0 <= i,
    ensures
        digits_end(l, i) >= i,
    decreases l.len() - i,
{
    if 0 <= i < l.len() && is_digit(l[i]) {
        lemma_digits_end_ge(l, i + 1);
    }
}

proof fn lemma_arg_list_valid(l: Seq<char>, i: int)
    requires
        0 <= i,
        arg_list(l, i) is Some,
    ensures
        all_idents((arg_list(l, i)->0).0),
    decreases l.len() - i,
{
    let a = skip_ws(l, i);
    crate::parse::lemma_skip_ws(l, i);
    crate::parse::lemma_ident_end(l, a);
    let e = ident_end(l, a);
    let b = skip_ws(l, e);
    crate::parse::lemma_skip_ws(l, e);
    let x = l.subrange(a, e);
    assert(is_ident(x)) by {
        assert forall|q: int| 0 <= q < x.len() implies is_ident_char(#[trigger] x[q]) by {
            assert(x[q] == l[a + q]);
        }
    }
    let args = (arg_list(l, i)->0).0;
    if l[b] == ',' {
        lemma_arg_list_valid(l, b + 1);
        let rest = (arg_list(l, b + 1)->0).0;
        assert(args == seq![x] + rest);
        assert forall|k: int| 0 <= k < args.len() implies is_ident(#[trigger] args[k]) by {
            if k > 0 {
                assert(args[k] == rest[k - 1]);
            }
        }
    } else {
        assert(args == seq![x]);
        assert forall|k: int| 0 <= k < args.len() implies is_ident(#[trigger] args[k]) by {
            assert(args[k] == x);
        }
    }
}

/// What a line of a program reads as is valid: an instruction as
/// `valid_inst` has it, or a label that is an identifier with identifier
/// parameters.
proof fn lemma_line_valid(l: Seq<char>, n: nat)
    requires
        one_line(l),
    ensures
        parse_line(l, n) matches Ok(Some(LineItem::Op(i))) ==> valid_inst(i),
        parse_line(l, n) matches Ok(Some(LineItem::Label(name, args))) ==> is_ident(name)
            && all_idents(args),
{
    let i = skip_ws(l, 0);
    crate::parse::lemma_skip_ws(l, 0);
    let w = ident_end(l, i);
    crate::parse::lemma_ident_end(l, i);
    let j = skip_ws(l, w);
    crate::parse::lemma_skip_ws(l, w);
    if !at_end(l, 0) && !stray_backslash(l, 0, false) {
        if w > i && j < l.len() && (l[j] == '(' || l[j] == ':') {
            let name = l.subrange(i, w);
            assert(is_ident(name)) by {
                assert forall|q: int| 0 <= q < name.len() implies is_ident_char(#[trigger] name[q]) by {
                    assert(name[q] == l[i + q]);
                }
            }
            if l[j] == '(' {
                let a = skip_ws(l, j + 1);
                if !(0 <= a < l.len() && l[a] == ')') && arg_list(l, j + 1) is Some {
                    lemma_arg_list_valid(l, j + 1);
                }
            }
        } else if inst_at(l, l.subrange(i, w), w, n) is Ok {
            lemma_inst_at_valid(l, l.subrange(i, w), w, n);
        }
    }
}

proof fn lemma_parse_lines_valid(ls: Seq<Seq<char>>)
    requires
        forall|k: int| 0 <= k < ls.len() ==> one_line(#[trigger] ls[k]),
        parse_lines(ls) is Ok,
    ensures
        valid_program(parse_lines(ls)->Ok_0),
    decreases ls.len(),
{
    if ls.len() > 0 {
        let prev = ls.drop_last();
        assert forall|k: int| 0 <= k < prev.len() implies one_line(#[trigger] prev[k]) by {
            assert(prev[k] == ls[k]);
        }
        lemma_parse_lines_valid(prev);
        let fs = parse_lines(prev)->Ok_0;
        let g = parse_lines(ls)->Ok_0;
        let n = ls.len() as nat;
        assert(one_line(ls[ls.len() - 1]));
        lemma_line_valid(ls.last(), n);
        match parse_line(ls.last(), n) {
            Ok(Some(LineItem::Label(name, args))) => {
                assert(!has_func(fs, name));
                assert(g == fs.push(Func { name, args, instructions: Seq::empty() }));
                assert forall|a: int, b: int|
                    0 <= a < b < g.len() implies (#[trigger] g[a]).name != (#[trigger] g[b]).name by {
                    if b == fs.len() {
                        assert(g[a] == fs[a]);
                    } else {
                        assert(fs[a].name != fs[b].name);
                    }
                }
                assert forall|j: int|
                    0 <= j < g.len() implies is_ident((#[trigger] g[j]).name) && all_idents(
                    g[j].args,
                ) by {
                    if j < fs.len() {
                        assert(g[j] == fs[j]);
                    }
                }
                assert forall|j: int, q: int|
                    0 <= j < g.len() && 0 <= q < g[j].instructions.len() implies valid_inst(
                    #[trigger] g[j].instructions[q],
                ) by {
                    assert(g[j] == fs[j]);
                }
            },
            Ok(Some(LineItem::Op(inst))) => {
                let last = fs.len() - 1;
                assert forall|a: int, b: int|
                    0 <= a < b < g.len() implies (#[trigger] g[a]).name != (#[trigger] g[b]).name by {
                    assert(fs[a].name != fs[b].name);
                }
                assert forall|j: int|
                    0 <= j < g.len() implies is_ident((#[trigger] g[j]).name) && all_idents(
                    g[j].args,
                ) by {
                    assert(g[j].name == fs[j].name && g[j].args == fs[j].args);
                }
                assert forall|j: int, q: int|
                    0 <= j < g.len() && 0 <= q < g[j].instructions.len() implies valid_inst(
                    #[trigger] g[j].instructions[q],
                ) by {
                    if j == last && q == fs[last].instructions.len() {
                        assert(g[j].instructions[q] == inst);
                    } else {
                        assert(g[j].instructions[q] == fs[j].instructions[q]);
                    }
                }
            },
            _ => {},
        }
    }
}

/// Every program that the parser accepts is valid in the sense of
/// `valid_program`, so the canonical printer writes it in a form that reads
/// back.
pub proof fn lemma_parsed_is_valid(t: Seq<char>)
    requires
        parse_program(t) is Ok,
    ensures
        valid_program(parse_program(t)->Ok_0),
{
    lemma_lines_from_one_line(t, 0);
    lemma_parse_lines_valid(lines(t));
}

/// Reading a text, printing the program in canonical form and reading that
/// back gives the program again, up to the line numbers that `debug`
/// records.
pub proof fn lemma_parse_print_parse(t: Seq<char>)
    requires
        parse_program(t) is Ok,
    ensures
        parse_program(program_src(parse_program(t)->Ok_0)) is Ok,
        agree(parse_program(program_src(parse_program(t)->Ok_0))->Ok_0, parse_program(t)->Ok_0),
{
    lemma_parsed_is_valid(t);
    lemma_round_trip(parse_program(t)->Ok_0);
}

} // verus!
