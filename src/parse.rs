//! The MAS parser: line splitting, the grammar of one line, and the fold of
//! lines into labelled functions, each as a spec function with an executable
//! counterpart proved equal to it.
use vstd::prelude::*;
use vstd::string::*;
use crate::text::chars_of;
use crate::command::one_line;
use crate::mas::{
    funcs_view, names_ok, strings_view, CalcOp, CmpOp, ExprCmpIn, Func, Function, Inst, Instruction, Register,
    VirtualMachine,
};

verus! {

/// What is wrong with a line.
#[derive(Clone, Copy, Debug, PartialEq, Eq, Structural)]
pub enum ParseErrorKind {
    /// The line's first word is no instruction.
    UnknownOpcode,
    /// An instruction's operands do not match its form.
    BadOperand,
    /// A label definition is malformed.
    BadLabel,
    /// A backslash stands outside any string literal.
    StrayBackslash,
    /// An instruction comes before the first label.
    MissingLabel,
    /// A label is defined a second time.
    DuplicateLabel,
}

/// A rejected program: the 1-based number of the offending line and why.
#[derive(Clone, Copy, Debug, PartialEq, Eq, Structural)]
pub struct ParseError {
    pub line: usize,
    pub kind: ParseErrorKind,
}

/// What a non-blank line holds.
pub enum LineItem {
    Label(Seq<char>, Seq<Seq<char>>),
    Op(Inst),
}

// Lines.

/// Position of the first line break at or after `i`, or the end of `t`.
pub open spec fn line_end(t: Seq<char>, i: int) -> int
    decreases t.len() - i,
{
    if i < 0 || i >= t.len() || t[i] == '\n' {
        i
    } else {
        line_end(t, i + 1)
    }
}

/// The line that starts at `i`, without its line break, and without a
/// carriage return before that break.
pub open spec fn line_at(t: Seq<char>, i: int) -> Seq<char> {
    let e = line_end(t, i);
    let raw = t.subrange(i, e);
    if e < t.len() && raw.len() > 0 && raw.last() == '\r' {
        raw.drop_last()
    } else {
        raw
    }
}

/// The lines of `t` from position `i` on; a final line break ends the last
/// line and starts none.
pub open spec fn lines_from(t: Seq<char>, i: int) -> Seq<Seq<char>>
    decreases t.len() - i,
{
    let e = line_end(t, i);
    if i < 0 || i >= t.len() || e < i || e >= t.len() {
        if 0 <= i < t.len() {
            seq![line_at(t, i)]
        } else {
            Seq::empty()
        }
    } else {
        seq![line_at(t, i)] + lines_from(t, e + 1)
    }
}

pub open spec fn lines(t: Seq<char>) -> Seq<Seq<char>> {
    lines_from(t, 0)
}

// Characters.

pub open spec fn is_space(c: char) -> bool {
    c == ' ' || c == '\t'
}

pub open spec fn is_ident_char(c: char) -> bool {
    ('a' <= c && c <= 'z') || ('A' <= c && c <= 'Z') || ('0' <= c && c <= '9') || c == '_'
}

pub open spec fn is_digit(c: char) -> bool {
    '0' <= c && c <= '9'
}

/// First position at or after `i` that holds no space or tab.
pub open spec fn skip_ws(l: Seq<char>, i: int) -> int
    decreases l.len() - i,
{
    if 0 <= i < l.len() && is_space(l[i]) {
        skip_ws(l, i + 1)
    } else {
        i
    }
}

/// End of the run of identifier characters that starts at `i`.
pub open spec fn ident_end(l: Seq<char>, i: int) -> int
    decreases l.len() - i,
{
    if 0 <= i < l.len() && is_ident_char(l[i]) {
        ident_end(l, i + 1)
    } else {
        i
    }
}

/// End of the run of decimal digits that starts at `i`.
pub open spec fn digits_end(l: Seq<char>, i: int) -> int
    decreases l.len() - i,
{
    if 0 <= i < l.len() && is_digit(l[i]) {
        digits_end(l, i + 1)
    } else {
        i
    }
}

/// Value of the decimal digits in `l[i..j]`.
pub open spec fn digits_value(l: Seq<char>, i: int, j: int) -> int
    decreases j - i,
{
    if j <= i {
        0
    } else {
        digits_value(l, i, j - 1) * 10 + (l[j - 1] as int - '0' as int)
    }
}

/// Nothing but blanks, then a comment or the end of the line, from `i` on.
pub open spec fn at_end(l: Seq<char>, i: int) -> bool {
    let j = skip_ws(l, i);
    j >= l.len() || l[j] == '#'
}

/// Whether a backslash stands outside string literals and comments, scanning
/// from `i`, inside a string literal when `in_str`.
pub open spec fn stray_backslash(l: Seq<char>, i: int, in_str: bool) -> bool
    decreases l.len() - i,
{
    if i < 0 || i >= l.len() {
        false
    } else if in_str {
        if l[i] == '\\' && i + 1 < l.len() && l[i + 1] == '"' {
            stray_backslash(l, i + 2, true)
        } else if l[i] == '"' {
            stray_backslash(l, i + 1, false)
        } else {
            stray_backslash(l, i + 1, true)
        }
    } else if l[i] == '\\' {
        true
    } else if l[i] == '#' {
        false
    } else if l[i] == '"' {
        stray_backslash(l, i + 1, true)
    } else {
        stray_backslash(l, i + 1, false)
    }
}

// Operands. Each one needs at least one blank before it, and yields its
// value and the position after it.

/// The position after the blanks at `i`, if there is at least one.
pub open spec fn blank(l: Seq<char>, i: int) -> Option<int> {
    if skip_ws(l, i) > i {
        Some(skip_ws(l, i))
    } else {
        None
    }
}

pub open spec fn reg_at(l: Seq<char>, i: int) -> Option<Register> {
    if 0 <= i && i + 1 < l.len() && l[i] == 'R' {
        if l[i + 1] == '0' {
            Some(Register::R0)
        } else if l[i + 1] == '1' {
            Some(Register::R1)
        } else if l[i + 1] == '2' {
            Some(Register::R2)
        } else if l[i + 1] == '3' {
            Some(Register::R3)
        } else {
            None
        }
    } else {
        None
    }
}

/// A signed 32-bit decimal integer at `i`: an optional sign, then digits.
pub open spec fn int_at(l: Seq<char>, i: int) -> Option<(i32, int)> {
    let signed = 0 <= i < l.len() && (l[i] == '-' || l[i] == '+');
    let s = if signed {
        i + 1
    } else {
        i
    };
    let e = digits_end(l, s);
    let m = digits_value(l, s, e);
    let v = if signed && l[i] == '-' {
        -m
    } else {
        m
    };
    if e > s && i32::MIN <= v <= i32::MAX {
        Some((v as i32, e))
    } else {
        None
    }
}

pub open spec fn ident_at(l: Seq<char>, i: int) -> Option<(Seq<char>, int)> {
    let e = ident_end(l, i);
    if e > i {
        Some((l.subrange(i, e), e))
    } else {
        None
    }
}

/// Position of the quote that closes a string literal whose text starts at
/// `i`, where `\"` stands for a quote; -1 when no quote closes it.
pub open spec fn string_close(l: Seq<char>, i: int) -> int
    decreases l.len() - i,
{
    if i < 0 || i >= l.len() {
        -1
    } else if l[i] == '\\' && i + 1 < l.len() && l[i + 1] == '"' {
        string_close(l, i + 2)
    } else if l[i] == '"' {
        i
    } else {
        string_close(l, i + 1)
    }
}

/// A string literal at `i`: its text between the quotes, escapes kept.
pub open spec fn string_at(l: Seq<char>, i: int) -> Option<(Seq<char>, int)> {
    if 0 <= i < l.len() && l[i] == '"' && string_close(l, i + 1) >= 0 {
        Some((l.subrange(i + 1, string_close(l, i + 1)), string_close(l, i + 1) + 1))
    } else {
        None
    }
}

/// `l[i..]` starts with `w`.
pub open spec fn has_at(l: Seq<char>, i: int, w: Seq<char>) -> bool {
    0 <= i && i + w.len() <= l.len() && l.subrange(i, i + w.len()) == w
}

/// A `cmp` operator at `i`, the two-character ones first.
pub open spec fn cmp_at(l: Seq<char>, i: int) -> Option<(CmpOp, int)> {
    if has_at(l, i, seq!['=', '=']) {
        Some((CmpOp::Equals, i + 2))
    } else if has_at(l, i, seq!['!', '=']) {
        Some((CmpOp::NotEquals, i + 2))
    } else if has_at(l, i, seq!['>', '=']) {
        Some((CmpOp::GreaterEq, i + 2))
    } else if has_at(l, i, seq!['>']) {
        Some((CmpOp::GreaterThan, i + 1))
    } else if has_at(l, i, seq!['<', '=']) {
        Some((CmpOp::LessEq, i + 2))
    } else if has_at(l, i, seq!['<']) {
        Some((CmpOp::LessThan, i + 1))
    } else {
        None
    }
}

pub open spec fn calc_at(l: Seq<char>, i: int) -> Option<(CalcOp, int)> {
    if has_at(l, i, seq!['+']) {
        Some((CalcOp::Add, i + 1))
    } else if has_at(l, i, seq!['-']) {
        Some((CalcOp::Sub, i + 1))
    } else if has_at(l, i, seq!['*']) {
        Some((CalcOp::Mul, i + 1))
    } else if has_at(l, i, seq!['/']) {
        Some((CalcOp::Div, i + 1))
    } else if has_at(l, i, seq!['%']) {
        Some((CalcOp::Rem, i + 1))
    } else if has_at(l, i, seq!['<']) {
        Some((CalcOp::Min, i + 1))
    } else if has_at(l, i, seq!['>']) {
        Some((CalcOp::Max, i + 1))
    } else {
        None
    }
}

/// An optional integer at `i`, and the position after it.
pub open spec fn opt_int_at(l: Seq<char>, i: int) -> (Option<i32>, int) {
    match int_at(l, i) {
        Some((v, e)) => (Some(v), e),
        None => (None, i),
    }
}

/// The operand of `cmpin`: `a..b` with either bound left out, or one value.
pub open spec fn range_at(l: Seq<char>, i: int) -> Option<(ExprCmpIn, int)> {
    let (lb, p) = opt_int_at(l, i);
    if has_at(l, p, seq!['.', '.']) {
        let (ub, q) = opt_int_at(l, p + 2);
        Some((ExprCmpIn::Range(lb, ub), q))
    } else {
        match int_at(l, i) {
            Some((v, e)) => Some((ExprCmpIn::Value(v), e)),
            None => None,
        }
    }
}

pub open spec fn str_op(l: Seq<char>, p: int) -> Option<(Seq<char>, int)> {
    match blank(l, p) {
        Some(b) => string_at(l, b),
        None => None,
    }
}

pub open spec fn reg_op(l: Seq<char>, p: int) -> Option<(Register, int)> {
    match blank(l, p) {
        Some(b) => match reg_at(l, b) {
            Some(r) => Some((r, b + 2)),
            None => None,
        },
        None => None,
    }
}

pub open spec fn int_op(l: Seq<char>, p: int) -> Option<(i32, int)> {
    match blank(l, p) {
        Some(b) => int_at(l, b),
        None => None,
    }
}

pub open spec fn ident_op(l: Seq<char>, p: int) -> Option<(Seq<char>, int)> {
    match blank(l, p) {
        Some(b) => ident_at(l, b),
        None => None,
    }
}

pub open spec fn cmp_op(l: Seq<char>, p: int) -> Option<(CmpOp, int)> {
    match blank(l, p) {
        Some(b) => cmp_at(l, b),
        None => None,
    }
}

pub open spec fn calc_op(l: Seq<char>, p: int) -> Option<(CalcOp, int)> {
    match blank(l, p) {
        Some(b) => calc_at(l, b),
        None => None,
    }
}

/// The operands of `cmpin`: an optional `not`, then the range.
pub open spec fn cmpin_op(l: Seq<char>, p: int) -> Option<(bool, ExprCmpIn, int)> {
    match blank(l, p) {
        Some(b) => {
            let negated = has_at(l, b, seq!['n', 'o', 't']) && blank(l, b + 3) is Some;
            let at = if negated {
                blank(l, b + 3)->0
            } else {
                b
            };
            match range_at(l, at) {
                Some((e, q)) => Some((negated, e, q)),
                None => None,
            }
        },
        None => None,
    }
}

/// `i` once nothing but a comment follows `q`.
pub open spec fn finish(l: Seq<char>, q: int, i: Inst) -> Result<Inst, ParseErrorKind> {
    if at_end(l, q) {
        Ok(i)
    } else {
        Err(ParseErrorKind::BadOperand)
    }
}

pub open spec fn bad() -> Result<Inst, ParseErrorKind> {
    Err(ParseErrorKind::BadOperand)
}

/// The instruction of opcode `w` whose operands follow position `p` of line
/// `n`.
pub open spec fn inst_at(l: Seq<char>, w: Seq<char>, p: int, n: nat) -> Result<Inst, ParseErrorKind> {
    if w == "cmd"@ {
        match str_op(l, p) {
            Some((s, q)) => finish(l, q, Inst::RawCommand(s)),
            None => bad(),
        }
    } else if w == "debug"@ {
        match str_op(l, p) {
            Some((s, q)) => finish(l, q, Inst::Debug { line: n, info: s }),
            None => bad(),
        }
    } else if w == "log"@ {
        match str_op(l, p) {
            Some((s, q)) => finish(l, q, Inst::Log(s)),
            None => bad(),
        }
    } else if w == "mov"@ {
        match reg_op(l, p) {
            Some((dst, q)) => match reg_op(l, q) {
                Some((src, q2)) => finish(l, q2, Inst::Move { dst, src }),
                None => bad(),
            },
            None => bad(),
        }
    } else if w == "set"@ {
        match reg_op(l, p) {
            Some((dst, q)) => match int_op(l, q) {
                Some((value, q2)) => finish(l, q2, Inst::SetConst { dst, value }),
                None => bad(),
            },
            None => bad(),
        }
    } else if w == "load"@ {
        match int_op(l, p) {
            Some((addr, q)) => finish(l, q, Inst::Load { addr }),
            None => bad(),
        }
    } else if w == "store"@ {
        match int_op(l, p) {
            Some((addr, q)) => finish(l, q, Inst::Store { addr }),
            None => bad(),
        }
    } else if w == "cmp"@ {
        match cmp_op(l, p) {
            Some((op, q)) => finish(l, q, Inst::Compare(op)),
            None => bad(),
        }
    } else if w == "cmpin"@ {
        match cmpin_op(l, p) {
            Some((not, opr, q)) => finish(l, q, Inst::CompareIn { not, opr }),
            None => bad(),
        }
    } else if w == "b"@ {
        match ident_op(l, p) {
            Some((t, q)) => finish(l, q, Inst::Branch(t)),
            None => bad(),
        }
    } else if w == "bi"@ {
        match ident_op(l, p) {
            Some((t, q)) => finish(l, q, Inst::BranchIf(t)),
            None => bad(),
        }
    } else if w == "bn"@ {
        match ident_op(l, p) {
            Some((t, q)) => finish(l, q, Inst::BranchIfNot(t)),
            None => bad(),
        }
    } else if w == "calc"@ {
        match calc_op(l, p) {
            Some((op, q)) => finish(l, q, Inst::Calculate(op)),
            None => bad(),
        }
    } else if w == "rand"@ {
        match reg_op(l, p) {
            Some((dst, q)) => match int_op(l, q) {
                Some((min, q2)) => match int_op(l, q2) {
                    Some((max, q3)) => finish(l, q3, Inst::Random { dst, min, max }),
                    None => bad(),
                },
                None => bad(),
            },
            None => bad(),
        }
    } else if w == "call"@ {
        match int_op(l, p) {
            Some((offset_inc, q)) => match ident_op(l, q) {
                Some((label, q2)) => finish(l, q2, Inst::Call { offset_inc, label }),
                None => bad(),
            },
            None => bad(),
        }
    } else if w == "ret"@ {
        finish(l, p, Inst::Return)
    } else if w == "yield"@ {
        finish(l, p, Inst::Yield)
    } else {
        Err(ParseErrorKind::UnknownOpcode)
    }
}

/// A comma-separated list of identifiers from `i`, closed by `)`; the
/// position after the parenthesis.
pub open spec fn arg_list(l: Seq<char>, i: int) -> Option<(Seq<Seq<char>>, int)>
    decreases l.len() - i,
{
    let a = skip_ws(l, i);
    let e = ident_end(l, a);
    let b = skip_ws(l, e);
    if e <= a || i < 0 || b < i || b >= l.len() {
        None
    } else if l[b] == ')' {
        Some((seq![l.subrange(a, e)], b + 1))
    } else if l[b] == ',' {
        match arg_list(l, b + 1) {
            Some((rest, q)) => Some((seq![l.subrange(a, e)] + rest, q)),
            None => None,
        }
    } else {
        None
    }
}

/// The parameter list after an opening parenthesis at `i - 1`.
pub open spec fn args_at(l: Seq<char>, i: int) -> Option<(Seq<Seq<char>>, int)> {
    let a = skip_ws(l, i);
    if 0 <= a < l.len() && l[a] == ')' {
        Some((Seq::empty(), a + 1))
    } else {
        arg_list(l, i)
    }
}

/// A label definition whose name spans `l[i..w]`: `name:` or `name(args):`.
pub open spec fn label_at(l: Seq<char>, i: int, w: int) -> Option<LineItem> {
    let name = l.subrange(i, w);
    let j = skip_ws(l, w);
    if 0 <= j < l.len() && l[j] == ':' {
        if at_end(l, j + 1) {
            Some(LineItem::Label(name, Seq::empty()))
        } else {
            None
        }
    } else if 0 <= j < l.len() && l[j] == '(' {
        match args_at(l, j + 1) {
            Some((args, q)) => {
                let k = skip_ws(l, q);
                if 0 <= k < l.len() && l[k] == ':' && at_end(l, k + 1) {
                    Some(LineItem::Label(name, args))
                } else {
                    None
                }
            },
            None => None,
        }
    } else {
        None
    }
}

/// Line `n` (1-based) of a program: blank, a label definition or an
/// instruction.
pub open spec fn parse_line(l: Seq<char>, n: nat) -> Result<Option<LineItem>, ParseErrorKind> {
    let i = skip_ws(l, 0);
    let w = ident_end(l, i);
    let j = skip_ws(l, w);
    if at_end(l, 0) {
        Ok(None)
    } else if stray_backslash(l, 0, false) {
        Err(ParseErrorKind::StrayBackslash)
    } else if w > i && j < l.len() && (l[j] == '(' || l[j] == ':') {
        match label_at(l, i, w) {
            Some(item) => Ok(Some(item)),
            None => Err(ParseErrorKind::BadLabel),
        }
    } else {
        match inst_at(l, l.subrange(i, w), w, n) {
            Ok(inst) => Ok(Some(LineItem::Op(inst))),
            Err(k) => Err(k),
        }
    }
}

/// `fs` has a function named `name`.
pub open spec fn has_func(fs: Seq<Func>, name: Seq<char>) -> bool {
    exists|j: int| 0 <= j < fs.len() && #[trigger] fs[j].name == name
}

/// The functions after one more line item.
pub open spec fn apply(fs: Seq<Func>, item: LineItem) -> Result<Seq<Func>, ParseErrorKind> {
    match item {
        LineItem::Label(name, args) => if has_func(fs, name) {
            Err(ParseErrorKind::DuplicateLabel)
        } else {
            Ok(fs.push(Func { name, args, instructions: Seq::empty() }))
        },
        LineItem::Op(i) => if fs.len() == 0 {
            Err(ParseErrorKind::MissingLabel)
        } else {
            Ok(
                fs.update(
                    fs.len() - 1,
                    Func { instructions: fs.last().instructions.push(i), ..fs.last() },
                ),
            )
        },
    }
}

/// The program that lines `ls` hold, or the first error with its line.
pub open spec fn parse_lines(ls: Seq<Seq<char>>) -> Result<Seq<Func>, ParseError>
    decreases ls.len(),
{
    if ls.len() == 0 {
        Ok(Seq::empty())
    } else {
        match parse_lines(ls.drop_last()) {
            Err(e) => Err(e),
            Ok(fs) => {
                let n = ls.len();
                match parse_line(ls.last(), n) {
                    Err(k) => Err(ParseError { line: n as usize, kind: k }),
                    Ok(None) => Ok(fs),
                    Ok(Some(item)) => match apply(fs, item) {
                        Err(k) => Err(ParseError { line: n as usize, kind: k }),
                        Ok(g) => Ok(g),
                    },
                }
            },
        }
    }
}

/// The program that text `t` holds.
pub open spec fn parse_program(t: Seq<char>) -> Result<Seq<Func>, ParseError> {
    parse_lines(lines(t))
}

// Executable scanners.

fn skip_ws_exec(l: &Vec<char>, i: usize) -> (j: usize)
    requires
        i <= l@.len(),
    ensures
        j == skip_ws(l@, i as int),
        i <= j <= l@.len(),
{
    let mut j = i;
    while j < l.len() && (l[j] == ' ' || l[j] == '\t')
        invariant
            i <= j <= l@.len(),
            skip_ws(l@, j as int) == skip_ws(l@, i as int),
        decreases l@.len() - j,
    {
        j = j + 1;
    }
    j
}

fn ident_end_exec(l: &Vec<char>, i: usize) -> (j: usize)
    requires
        i <= l@.len(),
    ensures
        j == ident_end(l@, i as int),
        i <= j <= l@.len(),
{
    let mut j = i;
    while j < l.len() && (('a' <= l[j] && l[j] <= 'z') || ('A' <= l[j] && l[j] <= 'Z') || ('0'
        <= l[j] && l[j] <= '9') || l[j] == '_')
        invariant
            i <= j <= l@.len(),
            ident_end(l@, j as int) == ident_end(l@, i as int),
        decreases l@.len() - j,
    {
        j = j + 1;
    }
    j
}

fn at_end_exec(l: &Vec<char>, i: usize) -> (r: bool)
    requires
        i <= l@.len(),
    ensures
        r == at_end(l@, i as int),
{
    let j = skip_ws_exec(l, i);
    j >= l.len() || l[j] == '#'
}

fn stray_backslash_exec(l: &Vec<char>) -> (r: bool)
    ensures
        r == stray_backslash(l@, 0, false),
{
    let mut i: usize = 0;
    let mut in_str = false;
    while i < l.len()
        invariant
            i <= l@.len() + 1,
            stray_backslash(l@, i as int, in_str) == stray_backslash(l@, 0, false),
        decreases l@.len() + 1 - i,
    {
        if in_str {
            if l[i] == '\\' && l.len() - i >= 2 && l[i + 1] == '"' {
                i = i + 2;
            } else {
                if l[i] == '"' {
                    in_str = false;
                }
                i = i + 1;
            }
        } else {
            if l[i] == '\\' {
                return true;
            }
            if l[i] == '#' {
                return false;
            }
            if l[i] == '"' {
                in_str = true;
            }
            i = i + 1;
        }
    }
    false
}

fn blank_exec(l: &Vec<char>, p: usize) -> (r: Option<usize>)
    requires
        p <= l@.len(),
    ensures
        r is Some <==> blank(l@, p as int) is Some,
        r is Some ==> r->0 as int == blank(l@, p as int)->0 && r->0 <= l@.len(),
{
    let j = skip_ws_exec(l, p);
    if j > p {
        Some(j)
    } else {
        None
    }
}

fn reg_at_exec(l: &Vec<char>, i: usize) -> (r: Option<Register>)
    requires
        i <= l@.len(),
    ensures
        r == reg_at(l@, i as int),
        r is Some ==> i + 2 <= l.len(),
{
    if i < l.len() && l.len() - i >= 2 && l[i] == 'R' {
        let c = l[i + 1];
        if c == '0' {
            Some(Register::R0)
        } else if c == '1' {
            Some(Register::R1)
        } else if c == '2' {
            Some(Register::R2)
        } else if c == '3' {
            Some(Register::R3)
        } else {
            None
        }
    } else {
        None
    }
}

proof fn lemma_digits_value_grows(l: Seq<char>, s: int, k: int)
    requires
        s <= k < l.len(),
        forall|q: int| s <= q <= k ==> is_digit(#[trigger] l[q]),
    ensures
        digits_value(l, s, k + 1) >= digits_value(l, s, k),
        digits_value(l, s, k) >= 0,
    decreases k - s,
{
    if k > s {
        lemma_digits_value_grows(l, s, k - 1);
    }
}

fn int_at_exec(l: &Vec<char>, i: usize) -> (r: Option<(i32, usize)>)
    requires
        i <= l@.len(),
    ensures
        match (r, int_at(l@, i as int)) {
            (Some((v, e)), Some((w, f))) => v == w && e as int == f && e <= l@.len(),
            (None, None) => true,
            _ => false,
        },
{
    let signed = i < l.len() && (l[i] == '-' || l[i] == '+');
    let negative = signed && l[i] == '-';
    let s = if signed {
        i + 1
    } else {
        i
    };
    let mut e = s;
    let mut value: i64 = 0;
    let mut big = false;
    while e < l.len() && '0' <= l[e] && l[e] <= '9'
        invariant
            s <= e <= l@.len(),
            s <= i + 1,
            digits_end(l@, e as int) == digits_end(l@, s as int),
            forall|q: int| s <= q < e ==> is_digit(#[trigger] l@[q]),
            !big ==> value == digits_value(l@, s as int, e as int),
            big ==> digits_value(l@, s as int, e as int) > 0x8000_0000,
            0 <= value <= 0x8000_0000,
        decreases l@.len() - e,
    {
        proof {
            lemma_digits_value_grows(l@, s as int, e as int);
        }
        let d = (l[e] as u32 - '0' as u32) as i64;
        if !big {
            let next = value * 10 + d;
            if next > 0x8000_0000 {
                big = true;
            } else {
                value = next;
            }
        }
        e = e + 1;
    }
    if e == s || big {
        return None;
    }
    let v: i64 = if negative {
        0 - value
    } else {
        value
    };
    if v < i32::MIN as i64 || v > i32::MAX as i64 {
        return None;
    }
    Some((v as i32, e))
}

fn ident_at_exec(l: &Vec<char>, ls: &str, i: usize) -> (r: Option<(String, usize)>)
    requires
        i <= l@.len(),
        ls@ == l@,
    ensures
        match (r, ident_at(l@, i as int)) {
            (Some((v, e)), Some((w, f))) => v@ == w && e as int == f && e <= l@.len(),
            (None, None) => true,
            _ => false,
        },
{
    let e = ident_end_exec(l, i);
    if e > i {
        Some((ls.substring_char(i, e).to_owned(), e))
    } else {
        None
    }
}

fn string_close_exec(l: &Vec<char>, i: usize) -> (r: Option<usize>)
    requires
        i <= l@.len(),
    ensures
        r is None <==> string_close(l@, i as int) == -1,
        r is Some ==> r->0 as int == string_close(l@, i as int) && i <= r->0 < l@.len(),
{
    let mut k = i;
    while k < l.len()
        invariant
            i <= k <= l@.len() + 1,
            string_close(l@, k as int) == string_close(l@, i as int),
        decreases l@.len() + 1 - k,
    {
        if l[k] == '\\' && l.len() - k >= 2 && l[k + 1] == '"' {
            k = k + 2;
        } else if l[k] == '"' {
            proof {
                lemma_string_close_bounds(l@, i as int);
            }
            return Some(k);
        } else {
            k = k + 1;
        }
    }
    None
}

pub proof fn lemma_string_close_bounds(l: Seq<char>, i: int)
    requires
        0 <= i,
    ensures
        string_close(l, i) == -1 || i <= string_close(l, i) < l.len(),
    decreases l.len() - i,
{
    if 0 <= i < l.len() {
        if l[i] == '\\' && i + 1 < l.len() && l[i + 1] == '"' {
            lemma_string_close_bounds(l, i + 2);
        } else if l[i] != '"' {
            lemma_string_close_bounds(l, i + 1);
        }
    }
}

fn string_at_exec(l: &Vec<char>, ls: &str, i: usize) -> (r: Option<(String, usize)>)
    requires
        i <= l@.len(),
        ls@ == l@,
    ensures
        match (r, string_at(l@, i as int)) {
            (Some((v, e)), Some((w, f))) => v@ == w && e as int == f && e <= l@.len(),
            (None, None) => true,
            _ => false,
        },
{
    if i < l.len() && l[i] == '"' {
        match string_close_exec(l, i + 1) {
            Some(c) => Some((ls.substring_char(i + 1, c).to_owned(), c + 1)),
            None => None,
        }
    } else {
        None
    }
}

fn has1(l: &Vec<char>, i: usize, a: char) -> (r: bool)
    requires
        i <= l@.len(),
    ensures
        r == has_at(l@, i as int, seq![a]),
        r ==> i + 1 <= l.len(),
{
    let r = i < l.len() && l[i] == a;
    proof {
        if r {
            assert(l@.subrange(i as int, i + 1) =~= seq![a]);
        }
        if has_at(l@, i as int, seq![a]) {
            assert(l@.subrange(i as int, i + 1)[0] == l@[i as int]);
        }
    }
    r
}

fn has2(l: &Vec<char>, i: usize, a: char, b: char) -> (r: bool)
    requires
        i <= l@.len(),
    ensures
        r == has_at(l@, i as int, seq![a, b]),
        r ==> i + 2 <= l.len(),
{
    let r = i < l.len() && l.len() - i >= 2 && l[i] == a && l[i + 1] == b;
    proof {
        if r {
            assert(l@.subrange(i as int, i + 2) =~= seq![a, b]);
        }
        if has_at(l@, i as int, seq![a, b]) {
            assert(l@.subrange(i as int, i + 2)[0] == l@[i as int]);
            assert(l@.subrange(i as int, i + 2)[1] == l@[i + 1]);
        }
    }
    r
}

fn has3(l: &Vec<char>, i: usize, a: char, b: char, c: char) -> (r: bool)
    requires
        i <= l@.len(),
    ensures
        r == has_at(l@, i as int, seq![a, b, c]),
        r ==> i + 3 <= l.len(),
{
    let r = i < l.len() && l.len() - i >= 3 && l[i] == a && l[i + 1] == b && l[i + 2] == c;
    proof {
        if r {
            assert(l@.subrange(i as int, i + 3) =~= seq![a, b, c]);
        }
        if has_at(l@, i as int, seq![a, b, c]) {
            assert(l@.subrange(i as int, i + 3)[0] == l@[i as int]);
            assert(l@.subrange(i as int, i + 3)[1] == l@[i + 1]);
            assert(l@.subrange(i as int, i + 3)[2] == l@[i + 2]);
        }
    }
    r
}

fn cmp_at_exec(l: &Vec<char>, i: usize) -> (r: Option<(CmpOp, usize)>)
    requires
        i <= l@.len(),
    ensures
        match (r, cmp_at(l@, i as int)) {
            (Some((v, e)), Some((w, f))) => v == w && e as int == f && e <= l@.len(),
            (None, None) => true,
            _ => false,
        },
{
    if has2(l, i, '=', '=') {
        Some((CmpOp::Equals, i + 2))
    } else if has2(l, i, '!', '=') {
        Some((CmpOp::NotEquals, i + 2))
    } else if has2(l, i, '>', '=') {
        Some((CmpOp::GreaterEq, i + 2))
    } else if has1(l, i, '>') {
        Some((CmpOp::GreaterThan, i + 1))
    } else if has2(l, i, '<', '=') {
        Some((CmpOp::LessEq, i + 2))
    } else if has1(l, i, '<') {
        Some((CmpOp::LessThan, i + 1))
    } else {
        None
    }
}

fn calc_at_exec(l: &Vec<char>, i: usize) -> (r: Option<(CalcOp, usize)>)
    requires
        i <= l@.len(),
    ensures
        match (r, calc_at(l@, i as int)) {
            (Some((v, e)), Some((w, f))) => v == w && e as int == f && e <= l@.len(),
            (None, None) => true,
            _ => false,
        },
{
    if has1(l, i, '+') {
        Some((CalcOp::Add, i + 1))
    } else if has1(l, i, '-') {
        Some((CalcOp::Sub, i + 1))
    } else if has1(l, i, '*') {
        Some((CalcOp::Mul, i + 1))
    } else if has1(l, i, '/') {
        Some((CalcOp::Div, i + 1))
    } else if has1(l, i, '%') {
        Some((CalcOp::Rem, i + 1))
    } else if has1(l, i, '<') {
        Some((CalcOp::Min, i + 1))
    } else if has1(l, i, '>') {
        Some((CalcOp::Max, i + 1))
    } else {
        None
    }
}

fn opt_int_at_exec(l: &Vec<char>, i: usize) -> (r: (Option<i32>, usize))
    requires
        i <= l@.len(),
    ensures
        r.0 == opt_int_at(l@, i as int).0,
        r.1 as int == opt_int_at(l@, i as int).1,
        r.1 <= l@.len(),
{
    match int_at_exec(l, i) {
        Some((v, e)) => (Some(v), e),
        None => (None, i),
    }
}

fn range_at_exec(l: &Vec<char>, i: usize) -> (r: Option<(ExprCmpIn, usize)>)
    requires
        i <= l@.len(),
    ensures
        match (r, range_at(l@, i as int)) {
            (Some((v, e)), Some((w, f))) => v == w && e as int == f && e <= l@.len(),
            (None, None) => true,
            _ => false,
        },
{
    let (lb, p) = opt_int_at_exec(l, i);
    if has2(l, p, '.', '.') {
        let (ub, q) = opt_int_at_exec(l, p + 2);
        Some((ExprCmpIn::Range(lb, ub), q))
    } else {
        match int_at_exec(l, i) {
            Some((v, e)) => Some((ExprCmpIn::Value(v), e)),
            None => None,
        }
    }
}

fn str_op_exec(l: &Vec<char>, ls: &str, p: usize) -> (r: Option<(String, usize)>)
    requires
        p <= l@.len(),
        ls@ == l@,
    ensures
        match (r, str_op(l@, p as int)) {
            (Some((v, e)), Some((w, f))) => v@ == w && e as int == f && e <= l@.len(),
            (None, None) => true,
            _ => false,
        },
{
    match blank_exec(l, p) {
        Some(b) => string_at_exec(l, ls, b),
        None => None,
    }
}

fn reg_op_exec(l: &Vec<char>, p: usize) -> (r: Option<(Register, usize)>)
    requires
        p <= l@.len(),
    ensures
        match (r, reg_op(l@, p as int)) {
            (Some((v, e)), Some((w, f))) => v == w && e as int == f && e <= l@.len(),
            (None, None) => true,
            _ => false,
        },
{
    match blank_exec(l, p) {
        Some(b) => match reg_at_exec(l, b) {
            Some(r) => Some((r, b + 2)),
            None => None,
        },
        None => None,
    }
}

fn int_op_exec(l: &Vec<char>, p: usize) -> (r: Option<(i32, usize)>)
    requires
        p <= l@.len(),
    ensures
        match (r, int_op(l@, p as int)) {
            (Some((v, e)), Some((w, f))) => v == w && e as int == f && e <= l@.len(),
            (None, None) => true,
            _ => false,
        },
{
    match blank_exec(l, p) {
        Some(b) => int_at_exec(l, b),
        None => None,
    }
}

fn ident_op_exec(l: &Vec<char>, ls: &str, p: usize) -> (r: Option<(String, usize)>)
    requires
        p <= l@.len(),
        ls@ == l@,
    ensures
        match (r, ident_op(l@, p as int)) {
            (Some((v, e)), Some((w, f))) => v@ == w && e as int == f && e <= l@.len(),
            (None, None) => true,
            _ => false,
        },
{
    match blank_exec(l, p) {
        Some(b) => ident_at_exec(l, ls, b),
        None => None,
    }
}

fn cmp_op_exec(l: &Vec<char>, p: usize) -> (r: Option<(CmpOp, usize)>)
    requires
        p <= l@.len(),
    ensures
        match (r, cmp_op(l@, p as int)) {
            (Some((v, e)), Some((w, f))) => v == w && e as int == f && e <= l@.len(),
            (None, None) => true,
            _ => false,
        },
{
    match blank_exec(l, p) {
        Some(b) => cmp_at_exec(l, b),
        None => None,
    }
}

fn calc_op_exec(l: &Vec<char>, p: usize) -> (r: Option<(CalcOp, usize)>)
    requires
        p <= l@.len(),
    ensures
        match (r, calc_op(l@, p as int)) {
            (Some((v, e)), Some((w, f))) => v == w && e as int == f && e <= l@.len(),
            (None, None) => true,
            _ => false,
        },
{
    match blank_exec(l, p) {
        Some(b) => calc_at_exec(l, b),
        None => None,
    }
}

fn cmpin_op_exec(l: &Vec<char>, p: usize) -> (r: Option<(bool, ExprCmpIn, usize)>)
    requires
        p <= l@.len(),
    ensures
        match (r, cmpin_op(l@, p as int)) {
            (Some((n, v, e)), Some((m, w, f))) => n == m && v == w && e as int == f && e
                <= l@.len(),
            (None, None) => true,
            _ => false,
        },
{
    match blank_exec(l, p) {
        Some(b) => {
            let mut at = b;
            let mut negated = false;
            if has3(l, b, 'n', 'o', 't') {
                match blank_exec(l, b + 3) {
                    Some(b2) => {
                        negated = true;
                        at = b2;
                    },
                    None => {},
                }
            }
            match range_at_exec(l, at) {
                Some((e, q)) => Some((negated, e, q)),
                None => None,
            }
        },
        None => None,
    }
}

/// Whether `l[i..j]` spells `kw`.
fn word_is(l: &Vec<char>, i: usize, j: usize, kw: &str) -> (r: bool)
    requires
        i <= j <= l@.len(),
    ensures
        r == (l@.subrange(i as int, j as int) == kw@),
{
    let k = chars_of(kw);
    if k.len() != j - i {
        return false;
    }
    let mut q: usize = 0;
    while q < k.len()
        invariant
            k@ == kw@,
            k@.len() == j - i,
            i <= j <= l@.len(),
            q <= k@.len(),
            forall|x: int| 0 <= x < q ==> k@[x] == l@[i + x],
        decreases k@.len() - q,
    {
        if k[q] != l[i + q] {
            assert(l@.subrange(i as int, j as int)[q as int] != kw@[q as int]);
            return false;
        }
        q = q + 1;
    }
    assert(l@.subrange(i as int, j as int) =~= kw@);
    true
}

/// `inst` once nothing but a comment follows `q`.
fn finish_exec(l: &Vec<char>, q: usize, inst: Instruction) -> (r: Result<Instruction, ParseErrorKind>)
    requires
        q <= l@.len(),
    ensures
        inst_result_view(r) == finish(l@, q as int, inst@),
{
    if at_end_exec(l, q) {
        Ok(inst)
    } else {
        Err(ParseErrorKind::BadOperand)
    }
}

pub open spec fn inst_result_view(r: Result<Instruction, ParseErrorKind>) -> Result<Inst, ParseErrorKind> {
    match r {
        Ok(i) => Ok(i@),
        Err(k) => Err(k),
    }
}

/// The instruction of opcode `l[i..w]`.
fn inst_at_exec(l: &Vec<char>, ls: &str, i: usize, w: usize, n: usize) -> (r: Result<
    Instruction,
    ParseErrorKind,
>)
    requires
        i <= w <= l@.len(),
        ls@ == l@,
    ensures
        inst_result_view(r) == inst_at(l@, l@.subrange(i as int, w as int), w as int, n as nat),
{
    let bad = Err(ParseErrorKind::BadOperand);
    if word_is(l, i, w, "cmd") {
        match str_op_exec(l, ls, w) {
            Some((s, q)) => finish_exec(l, q, Instruction::RawCommand(s)),
            None => bad,
        }
    } else if word_is(l, i, w, "debug") {
        match str_op_exec(l, ls, w) {
            Some((s, q)) => finish_exec(l, q, Instruction::Debug { line: n, info: s }),
            None => bad,
        }
    } else if word_is(l, i, w, "log") {
        match str_op_exec(l, ls, w) {
            Some((s, q)) => finish_exec(l, q, Instruction::Log(s)),
            None => bad,
        }
    } else if word_is(l, i, w, "mov") {
        match reg_op_exec(l, w) {
            Some((dst, q)) => match reg_op_exec(l, q) {
                Some((src, q2)) => finish_exec(l, q2, Instruction::Move { dst, src }),
                None => bad,
            },
            None => bad,
        }
    } else if word_is(l, i, w, "set") {
        match reg_op_exec(l, w) {
            Some((dst, q)) => match int_op_exec(l, q) {
                Some((value, q2)) => finish_exec(l, q2, Instruction::SetConst { dst, value }),
                None => bad,
            },
            None => bad,
        }
    } else if word_is(l, i, w, "load") {
        match int_op_exec(l, w) {
            Some((addr, q)) => finish_exec(l, q, Instruction::Load { addr }),
            None => bad,
        }
    } else if word_is(l, i, w, "store") {
        match int_op_exec(l, w) {
            Some((addr, q)) => finish_exec(l, q, Instruction::Store { addr }),
            None => bad,
        }
    } else if word_is(l, i, w, "cmp") {
        match cmp_op_exec(l, w) {
            Some((op, q)) => finish_exec(l, q, Instruction::Compare(op)),
            None => bad,
        }
    } else if word_is(l, i, w, "cmpin") {
        match cmpin_op_exec(l, w) {
            Some((not, opr, q)) => finish_exec(l, q, Instruction::CompareIn { not, opr }),
            None => bad,
        }
    } else if word_is(l, i, w, "b") {
        match ident_op_exec(l, ls, w) {
            Some((t, q)) => finish_exec(l, q, Instruction::Branch(t)),
            None => bad,
        }
    } else if word_is(l, i, w, "bi") {
        match ident_op_exec(l, ls, w) {
            Some((t, q)) => finish_exec(l, q, Instruction::BranchIf(t)),
            None => bad,
        }
    } else if word_is(l, i, w, "bn") {
        match ident_op_exec(l, ls, w) {
            Some((t, q)) => finish_exec(l, q, Instruction::BranchIfNot(t)),
            None => bad,
        }
    } else if word_is(l, i, w, "calc") {
        match calc_op_exec(l, w) {
            Some((op, q)) => finish_exec(l, q, Instruction::Calculate(op)),
            None => bad,
        }
    } else if word_is(l, i, w, "rand") {
        match reg_op_exec(l, w) {
            Some((dst, q)) => match int_op_exec(l, q) {
                Some((min, q2)) => match int_op_exec(l, q2) {
                    Some((max, q3)) => finish_exec(l, q3, Instruction::Random { dst, min, max }),
                    None => bad,
                },
                None => bad,
            },
            None => bad,
        }
    } else if word_is(l, i, w, "call") {
        match int_op_exec(l, w) {
            Some((offset_inc, q)) => match ident_op_exec(l, ls, q) {
                Some((label, q2)) => finish_exec(l, q2, Instruction::Call { offset_inc, label }),
                None => bad,
            },
            None => bad,
        }
    } else if word_is(l, i, w, "ret") {
        finish_exec(l, w, Instruction::Return)
    } else if word_is(l, i, w, "yield") {
        finish_exec(l, w, Instruction::Yield)
    } else {
        Err(ParseErrorKind::UnknownOpcode)
    }
}

fn arg_list_exec(l: &Vec<char>, ls: &str, i: usize) -> (r: Option<(Vec<String>, usize)>)
    requires
        i <= l@.len(),
        ls@ == l@,
    ensures
        match (r, arg_list(l@, i as int)) {
            (Some((v, e)), Some((w, f))) => strings_view(v@) == w && e as int == f && e <= l@.len(),
            (None, None) => true,
            _ => false,
        },
    decreases l@.len() - i,
{
    let a = skip_ws_exec(l, i);
    let e = ident_end_exec(l, a);
    let b = skip_ws_exec(l, e);
    if e <= a || b >= l.len() {
        return None;
    }
    let name = ls.substring_char(a, e).to_owned();
    if l[b] == ')' {
        let mut v: Vec<String> = Vec::new();
        v.push(name);
        assert(strings_view(v@) =~= seq![l@.subrange(a as int, e as int)]);
        Some((v, b + 1))
    } else if l[b] == ',' {
        match arg_list_exec(l, ls, b + 1) {
            Some((rest, q)) => {
                let mut v: Vec<String> = Vec::new();
                v.push(name);
                let mut rest = rest;
                let ghost rv = rest@;
                v.append(&mut rest);
                assert(strings_view(v@) =~= seq![l@.subrange(a as int, e as int)] + strings_view(rv));
                Some((v, q))
            },
            None => None,
        }
    } else {
        None
    }
}

fn args_at_exec(l: &Vec<char>, ls: &str, i: usize) -> (r: Option<(Vec<String>, usize)>)
    requires
        i <= l@.len(),
        ls@ == l@,
    ensures
        match (r, args_at(l@, i as int)) {
            (Some((v, e)), Some((w, f))) => strings_view(v@) == w && e as int == f && e <= l@.len(),
            (None, None) => true,
            _ => false,
        },
{
    let a = skip_ws_exec(l, i);
    if a < l.len() && l[a] == ')' {
        let v: Vec<String> = Vec::new();
        assert(strings_view(v@) =~= Seq::<Seq<char>>::empty());
        Some((v, a + 1))
    } else {
        arg_list_exec(l, ls, i)
    }
}

/// What a non-blank line holds.
pub enum Parsed {
    Label(String, Vec<String>),
    Op(Instruction),
}

impl View for Parsed {
    type V = LineItem;

    open spec fn view(&self) -> LineItem {
        match self {
            Parsed::Label(name, args) => LineItem::Label(name@, strings_view(args@)),
            Parsed::Op(i) => LineItem::Op(i@),
        }
    }
}

fn label_at_exec(l: &Vec<char>, ls: &str, i: usize, w: usize) -> (r: Option<Parsed>)
    requires
        i <= w <= l@.len(),
        ls@ == l@,
    ensures
        match (r, label_at(l@, i as int, w as int)) {
            (Some(v), Some(x)) => v@ == x,
            (None, None) => true,
            _ => false,
        },
{
    let name = ls.substring_char(i, w).to_owned();
    let j = skip_ws_exec(l, w);
    if j < l.len() && l[j] == ':' {
        if at_end_exec(l, j + 1) {
            let v: Vec<String> = Vec::new();
            assert(strings_view(v@) =~= Seq::<Seq<char>>::empty());
            Some(Parsed::Label(name, v))
        } else {
            None
        }
    } else if j < l.len() && l[j] == '(' {
        match args_at_exec(l, ls, j + 1) {
            Some((args, q)) => {
                let k = skip_ws_exec(l, q);
                if k < l.len() && l[k] == ':' && at_end_exec(l, k + 1) {
                    Some(Parsed::Label(name, args))
                } else {
                    None
                }
            },
            None => None,
        }
    } else {
        None
    }
}

pub open spec fn line_result_view(r: Result<Option<Parsed>, ParseErrorKind>) -> Result<
    Option<LineItem>,
    ParseErrorKind,
> {
    match r {
        Ok(Some(p)) => Ok(Some(p@)),
        Ok(None) => Ok(None),
        Err(k) => Err(k),
    }
}

/// Parses line `n` (1-based), given as characters `l` and as text `ls`.
fn parse_line_exec(l: &Vec<char>, ls: &str, n: usize) -> (r: Result<Option<Parsed>, ParseErrorKind>)
    requires
        ls@ == l@,
    ensures
        line_result_view(r) == parse_line(l@, n as nat),
{
    let i = skip_ws_exec(l, 0);
    let w = ident_end_exec(l, i);
    let j = skip_ws_exec(l, w);
    if at_end_exec(l, 0) {
        Ok(None)
    } else if stray_backslash_exec(l) {
        Err(ParseErrorKind::StrayBackslash)
    } else if w > i && j < l.len() && (l[j] == '(' || l[j] == ':') {
        match label_at_exec(l, ls, i, w) {
            Some(item) => Ok(Some(item)),
            None => Err(ParseErrorKind::BadLabel),
        }
    } else {
        match inst_at_exec(l, ls, i, w, n) {
            Ok(inst) => Ok(Some(Parsed::Op(inst))),
            Err(k) => Err(k),
        }
    }
}

pub proof fn lemma_ident_end(l: Seq<char>, i: int)
    requires
        0 <= i,
    ensures
        i <= ident_end(l, i),
        forall|q: int| i <= q < ident_end(l, i) ==> is_ident_char(#[trigger] l[q]) && 0 <= q < l.len(),
    decreases l.len() - i,
{
    if 0 <= i < l.len() && is_ident_char(l[i]) {
        lemma_ident_end(l, i + 1);
    }
}

pub proof fn lemma_skip_ws(l: Seq<char>, i: int)
    requires
        0 <= i,
    ensures
        i <= skip_ws(l, i),
    decreases l.len() - i,
{
    if 0 <= i < l.len() && is_space(l[i]) {
        lemma_skip_ws(l, i + 1);
    }
}

/// A label that a line defines is a single line of identifier characters.
proof fn lemma_label_name(l: Seq<char>, n: nat)
    requires
        parse_line(l, n) matches Ok(Some(LineItem::Label(_, _))),
    ensures
        parse_line(l, n) matches Ok(Some(LineItem::Label(name, _))) && one_line(name),
{
    let i = skip_ws(l, 0);
    lemma_skip_ws(l, 0);
    lemma_ident_end(l, i);
    let w = ident_end(l, i);
    let name = l.subrange(i, w);
    assert forall|q: int| 0 <= q < name.len() implies name[q] != '\n' by {
        assert(is_ident_char(l[i + q]));
    }
}

fn has_func_exec(fs: &Vec<Function>, name: &String) -> (r: bool)
    ensures
        r == has_func(funcs_view(fs@), name@),
{
    let ghost v = funcs_view(fs@);
    let mut j: usize = 0;
    while j < fs.len()
        invariant
            v == funcs_view(fs@),
            j <= fs@.len(),
            forall|k: int| 0 <= k < j ==> (#[trigger] v[k]).name != name@,
        decreases fs@.len() - j,
    {
        if fs[j].name == *name {
            assert(v[j as int].name == name@);
            return true;
        }
        assert(v[j as int].name != name@);
        j = j + 1;
    }
    proof {
        if has_func(v, name@) {
            let k = choose|k: int| 0 <= k < v.len() && #[trigger] v[k].name == name@;
            assert(v[k].name != name@);
        }
    }
    false
}

pub proof fn lemma_line_end(t: Seq<char>, i: int)
    requires
        0 <= i <= t.len(),
    ensures
        i <= line_end(t, i) <= t.len(),
    decreases t.len() - i,
{
    if i < t.len() && t[i] != '\n' {
        lemma_line_end(t, i + 1);
    }
}

/// The line of `text` that starts at `start`: its characters, its text, and
/// the position of the line break that ends it (or the end of the text).
fn next_line(cs: &Vec<char>, text: &str, start: usize) -> (r: (Vec<char>, String, usize))
    requires
        cs@ == text@,
        start < cs@.len(),
    ensures
        r.0@ == line_at(text@, start as int),
        r.1@ == r.0@,
        r.2 as int == line_end(text@, start as int),
        start <= r.2 <= cs@.len(),
{
    let ghost t = text@;
    let mut e = start;
    while e < cs.len() && cs[e] != '\n'
        invariant
            cs@ == t,
            start <= e <= cs@.len(),
            line_end(t, e as int) == line_end(t, start as int),
        decreases cs@.len() - e,
    {
        e = e + 1;
    }
    let stop = if e < cs.len() && e > start && cs[e - 1] == '\r' {
        e - 1
    } else {
        e
    };
    let mut l: Vec<char> = Vec::new();
    let mut k = start;
    while k < stop
        invariant
            cs@ == t,
            start <= k <= stop <= cs@.len(),
            l@ == t.subrange(start as int, k as int),
        decreases stop - k,
    {
        l.push(cs[k]);
        assert(l@ =~= t.subrange(start as int, k + 1));
        k = k + 1;
    }
    let ls = text.substring_char(start, stop).to_owned();
    assert(l@ =~= line_at(t, start as int));
    (l, ls, e)
}

/// Adds one line item to the functions read so far.
fn apply_exec(blocks: &mut Vec<Function>, item: Parsed) -> (r: Result<(), ParseErrorKind>)
    requires
        names_ok(funcs_view(old(blocks)@)),
        item is Label ==> one_line(item->Label_0@),
    ensures
        match (r, apply(funcs_view(old(blocks)@), item@)) {
            (Ok(()), Ok(g)) => funcs_view(final(blocks)@) == g,
            (Err(k), Err(j)) => k == j,
            _ => false,
        },
        names_ok(funcs_view(final(blocks)@)),
{
    match item {
        Parsed::Label(name, args) => {
            if has_func_exec(blocks, &name) {
                return Err(ParseErrorKind::DuplicateLabel);
            }
            let f = Function { name, args, instructions: Vec::new() };
            let ghost before = funcs_view(blocks@);
            blocks.push(f);
            assert(f@.instructions =~= Seq::<Inst>::empty());
            assert(funcs_view(blocks@) =~= before.push(f@));
            assert forall|a: int, b: int|
                0 <= a < b < funcs_view(blocks@).len() implies (#[trigger] funcs_view(blocks@)[a]).name
                != (#[trigger] funcs_view(blocks@)[b]).name by {
                if b == before.len() {
                    assert(before[a].name != f@.name);
                } else {
                    assert(before[a].name != before[b].name);
                }
            }
            Ok(())
        },
        Parsed::Op(inst) => {
            if blocks.len() == 0 {
                return Err(ParseErrorKind::MissingLabel);
            }
            let last = blocks.len() - 1;
            let ghost before = funcs_view(blocks@);
            let ghost iv = inst@;
            blocks[last].instructions.push(inst);
            assert(funcs_view(blocks@)[last as int].instructions =~= before.last().instructions.push(iv));
            assert(funcs_view(blocks@) =~= before.update(
                last as int,
                Func { instructions: before.last().instructions.push(iv), ..before.last() },
            ));
            assert forall|a: int, b: int|
                0 <= a < b < funcs_view(blocks@).len() implies (#[trigger] funcs_view(blocks@)[a]).name
                != (#[trigger] funcs_view(blocks@)[b]).name by {
                assert(before[a].name != before[b].name);
            }
            Ok(())
        },
    }
}

/// Once a prefix of the lines is rejected, so are all the lines, with the
/// same error.
pub proof fn lemma_parse_lines_err(ls: Seq<Seq<char>>, m: int)
    requires
        0 <= m <= ls.len(),
        parse_lines(ls.take(m)) is Err,
    ensures
        parse_lines(ls) == parse_lines(ls.take(m)),
    decreases ls.len(),
{
    if m < ls.len() {
        assert(ls.drop_last().take(m) =~= ls.take(m));
        lemma_parse_lines_err(ls.drop_last(), m);
    } else {
        assert(ls.take(m) =~= ls);
    }
}

impl VirtualMachine {
    /// Parses MAS source text. Lines are split at line breaks; a blank or
    /// comment line is skipped, a label line opens a new function, and an
    /// instruction line goes to the function last opened.
    pub fn parse(text: &str) -> (r: Result<VirtualMachine, ParseError>)
        ensures
            match (r, parse_program(text@)) {
                (Ok(vm), Ok(fs)) => vm@ == fs,
                (Err(e), Err(f)) => e == f,
                _ => false,
            },
    {
        let cs = chars_of(text);
        let ghost t = text@;
        let mut blocks: Vec<Function> = Vec::new();
        let mut start: usize = 0;
        let mut n: usize = 0;
        let ghost mut done: Seq<Seq<char>> = Seq::empty();
        assert(funcs_view(blocks@) =~= Seq::<Func>::empty());
        while start < cs.len()
            invariant
                cs@ == t,
                t == text@,
                start <= cs@.len(),
                n == done.len(),
                n <= start,
                lines(t) == done + lines_from(t, start as int),
                parse_lines(done) == Ok::<Seq<Func>, ParseError>(funcs_view(blocks@)),
                names_ok(funcs_view(blocks@)),
            decreases cs@.len() - start,
        {
            let (l, ls, e) = next_line(&cs, text, start);
            let ghost line = line_at(t, start as int);
            n = n + 1;
            let ghost prev = done;
            proof {
                done = done.push(line);
                assert(done.drop_last() =~= prev);
                let next = if e < cs.len() { e + 1 } else { cs.len() as int };
                assert(lines_from(t, start as int) =~= seq![line] + lines_from(t, next));
                assert(lines(t) =~= done + lines_from(t, next));
                assert(lines(t).take(done.len() as int) =~= done);
            }
            match parse_line_exec(&l, ls.as_str(), n) {
                Err(k) => {
                    proof {
                        lemma_parse_lines_err(lines(t), done.len() as int);
                    }
                    return Err(ParseError { line: n, kind: k });
                },
                Ok(None) => {},
                Ok(Some(item)) => {
                    proof {
                        if item is Label {
                            lemma_label_name(line, n as nat);
                        }
                    }
                    match apply_exec(&mut blocks, item) {
                        Err(k) => {
                            proof {
                                lemma_parse_lines_err(lines(t), done.len() as int);
                            }
                            return Err(ParseError { line: n, kind: k });
                        },
                        Ok(()) => {},
                    }
                },
            }
            start = if e < cs.len() {
                e + 1
            } else {
                cs.len()
            };
        }
        proof {
            assert(lines(t) =~= done);
        }
        Ok(VirtualMachine::from_functions(blocks))
    }
}

} // verus!
