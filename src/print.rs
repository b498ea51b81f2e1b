//! The canonical MAS printer: one label line per function, then its
//! instructions, each indented by two spaces, one per line.
use vstd::prelude::*;
use crate::command::line;
use crate::generate::opt_bound;
use crate::mas::{CalcOp, CmpOp, ExprCmpIn, Func, Function, Inst, Instruction, Register, VirtualMachine, funcs_view, strings_view, insts_view};
use crate::text::{dec_int, push_dec_i32};

verus! {

pub open spec fn reg_src(r: Register) -> Seq<char> {
    match r {
        Register::R0 => seq!['R', '0'],
        Register::R1 => seq!['R', '1'],
        Register::R2 => seq!['R', '2'],
        Register::R3 => seq!['R', '3'],
    }
}

pub open spec fn cmp_src(op: CmpOp) -> Seq<char> {
    match op {
        CmpOp::Equals => seq!['=', '='],
        CmpOp::NotEquals => seq!['!', '='],
        CmpOp::GreaterEq => seq!['>', '='],
        CmpOp::GreaterThan => seq!['>'],
        CmpOp::LessEq => seq!['<', '='],
        CmpOp::LessThan => seq!['<'],
    }
}

pub open spec fn calc_src(op: CalcOp) -> Seq<char> {
    match op {
        CalcOp::Add => seq!['+'],
        CalcOp::Sub => seq!['-'],
        CalcOp::Mul => seq!['*'],
        CalcOp::Div => seq!['/'],
        CalcOp::Rem => seq!['%'],
        CalcOp::Min => seq!['<'],
        CalcOp::Max => seq!['>'],
    }
}

pub open spec fn range_src(e: ExprCmpIn) -> Seq<char> {
    match e {
        ExprCmpIn::Value(v) => dec_int(v as int),
        ExprCmpIn::Range(lb, ub) => opt_bound(lb) + seq!['.', '.'] + opt_bound(ub),
    }
}

pub open spec fn quoted(s: Seq<char>) -> Seq<char> {
    seq!['"'] + s + seq!['"']
}

/// An opcode and its operand text, separated by one space.
pub open spec fn with_operands(op: Seq<char>, rest: Seq<char>) -> Seq<char> {
    op + seq![' '] + rest
}

/// The source text of one instruction, without indentation.
pub open spec fn inst_src(i: Inst) -> Seq<char> {
    match i {
        Inst::RawCommand(s) => with_operands("cmd"@, quoted(s)),
        Inst::Debug { info, .. } => with_operands("debug"@, quoted(info)),
        Inst::Log(s) => with_operands("log"@, quoted(s)),
        Inst::Move { dst, src } => with_operands("mov"@, reg_src(dst) + seq![' '] + reg_src(src)),
        Inst::SetConst { dst, value } => with_operands(
            "set"@,
            reg_src(dst) + seq![' '] + dec_int(value as int),
        ),
        Inst::Load { addr } => with_operands("load"@, dec_int(addr as int)),
        Inst::Store { addr } => with_operands("store"@, dec_int(addr as int)),
        Inst::Compare(op) => with_operands("cmp"@, cmp_src(op)),
        Inst::CompareIn { not, opr } => with_operands(
            "cmpin"@,
            if not {
                seq!['n', 'o', 't', ' '] + range_src(opr)
            } else {
                range_src(opr)
            },
        ),
        Inst::Branch(l) => with_operands("b"@, l),
        Inst::BranchIf(l) => with_operands("bi"@, l),
        Inst::BranchIfNot(l) => with_operands("bn"@, l),
        Inst::Calculate(op) => with_operands("calc"@, calc_src(op)),
        Inst::Random { dst, min, max } => with_operands(
            "rand"@,
            reg_src(dst) + seq![' '] + dec_int(min as int) + seq![' '] + dec_int(max as int),
        ),
        Inst::Call { offset_inc, label } => with_operands(
            "call"@,
            dec_int(offset_inc as int) + seq![' '] + label,
        ),
        Inst::Yield => "yield"@,
        Inst::Return => "ret"@,
    }
}

/// Parameter names joined by `, `.
pub open spec fn args_src(args: Seq<Seq<char>>) -> Seq<char>
    decreases args.len(),
{
    if args.len() == 0 {
        Seq::empty()
    } else if args.len() == 1 {
        args[0]
    } else {
        args_src(args.drop_last()) + seq![',', ' '] + args.last()
    }
}

/// `name:`, or `name(a, b):` where there are parameters.
pub open spec fn label_src(f: Func) -> Seq<char> {
    if f.args.len() == 0 {
        f.name + seq![':']
    } else {
        f.name + seq!['('] + args_src(f.args) + seq![')', ':']
    }
}

pub open spec fn insts_src(is: Seq<Inst>) -> Seq<char>
    decreases is.len(),
{
    if is.len() == 0 {
        Seq::empty()
    } else {
        insts_src(is.drop_last()) + line(seq![' ', ' '] + inst_src(is.last()))
    }
}

pub open spec fn func_src(f: Func) -> Seq<char> {
    line(label_src(f)) + insts_src(f.instructions)
}

/// The canonical source text of a program.
pub open spec fn program_src(fs: Seq<Func>) -> Seq<char>
    decreases fs.len(),
{
    if fs.len() == 0 {
        Seq::empty()
    } else {
        program_src(fs.drop_last()) + func_src(fs.last())
    }
}

fn reg_str(r: Register) -> (s: &'static str)
    ensures
        s@ == reg_src(r),
{
    proof {
        reveal_strlit("R0");
        reveal_strlit("R1");
        reveal_strlit("R2");
        reveal_strlit("R3");
    }
    match r {
        Register::R0 => "R0",
        Register::R1 => "R1",
        Register::R2 => "R2",
        Register::R3 => "R3",
    }
}

fn cmp_str(op: CmpOp) -> (s: &'static str)
    ensures
        s@ == cmp_src(op),
{
    proof {
        reveal_strlit("==");
        reveal_strlit("!=");
        reveal_strlit(">=");
        reveal_strlit(">");
        reveal_strlit("<=");
        reveal_strlit("<");
    }
    match op {
        CmpOp::Equals => "==",
        CmpOp::NotEquals => "!=",
        CmpOp::GreaterEq => ">=",
        CmpOp::GreaterThan => ">",
        CmpOp::LessEq => "<=",
        CmpOp::LessThan => "<",
    }
}

fn calc_str(op: CalcOp) -> (s: &'static str)
    ensures
        s@ == calc_src(op),
{
    proof {
        reveal_strlit("+");
        reveal_strlit("-");
        reveal_strlit("*");
        reveal_strlit("/");
        reveal_strlit("%");
        reveal_strlit("<");
        reveal_strlit(">");
    }
    match op {
        CalcOp::Add => "+",
        CalcOp::Sub => "-",
        CalcOp::Mul => "*",
        CalcOp::Div => "/",
        CalcOp::Rem => "%",
        CalcOp::Min => "<",
        CalcOp::Max => ">",
    }
}

fn push_bound(s: &mut String, b: Option<i32>)
    ensures
        final(s)@ == old(s)@ + opt_bound(b),
{
    match b {
        Some(v) => push_dec_i32(s, v),
        None => {
            assert(s@ =~= old(s)@ + opt_bound(b));
        },
    }
}

fn push_range(s: &mut String, e: ExprCmpIn)
    ensures
        final(s)@ == old(s)@ + range_src(e),
{
    match e {
        ExprCmpIn::Value(v) => push_dec_i32(s, v),
        ExprCmpIn::Range(lb, ub) => {
            push_bound(s, lb);
            proof {
                reveal_strlit("..");
            }
            s.append("..");
            push_bound(s, ub);
            assert(s@ =~= old(s)@ + range_src(e));
        },
    }
}

/// Appends `"<s>"`.
fn push_quoted(s: &mut String, body: &str)
    ensures
        final(s)@ == old(s)@ + quoted(body@),
{
    proof {
        reveal_strlit("\"");
    }
    s.append("\"");
    s.append(body);
    s.append("\"");
    assert(s@ =~= old(s)@ + quoted(body@));
}

/// Appends `op` and the space after it.
fn push_op_word(s: &mut String, op: &str)
    ensures
        final(s)@ == old(s)@ + op@ + seq![' '],
{
    proof {
        reveal_strlit(" ");
    }
    s.append(op);
    s.append(" ");
}

fn push_space(s: &mut String)
    ensures
        final(s)@ == old(s)@ + seq![' '],
{
    proof {
        reveal_strlit(" ");
    }
    s.append(" ");
}

/// Appends the source text of `inst`.
#[verifier::rlimit(40)]
fn push_inst(s: &mut String, inst: &Instruction)
    ensures
        final(s)@ == old(s)@ + inst_src(inst@),
{
    match inst {
        Instruction::RawCommand(x) => {
            push_op_word(s, "cmd");
            push_quoted(s, x.as_str());
        },
        Instruction::Debug { info, .. } => {
            push_op_word(s, "debug");
            push_quoted(s, info.as_str());
        },
        Instruction::Log(x) => {
            push_op_word(s, "log");
            push_quoted(s, x.as_str());
        },
        Instruction::Move { dst, src } => {
            push_op_word(s, "mov");
            s.append(reg_str(*dst));
            push_space(s);
            s.append(reg_str(*src));
        },
        Instruction::SetConst { dst, value } => {
            push_op_word(s, "set");
            s.append(reg_str(*dst));
            push_space(s);
            push_dec_i32(s, *value);
        },
        Instruction::Load { addr } => {
            push_op_word(s, "load");
            push_dec_i32(s, *addr);
        },
        Instruction::Store { addr } => {
            push_op_word(s, "store");
            push_dec_i32(s, *addr);
        },
        Instruction::Compare(op) => {
            push_op_word(s, "cmp");
            s.append(cmp_str(*op));
        },
        Instruction::CompareIn { not, opr } => {
            push_op_word(s, "cmpin");
            if *not {
                proof {
                    reveal_strlit("not ");
                }
                s.append("not ");
            }
            push_range(s, *opr);
        },
        Instruction::Branch(l) => {
            push_op_word(s, "b");
            s.append(l.as_str());
        },
        Instruction::BranchIf(l) => {
            push_op_word(s, "bi");
            s.append(l.as_str());
        },
        Instruction::BranchIfNot(l) => {
            push_op_word(s, "bn");
            s.append(l.as_str());
        },
        Instruction::Calculate(op) => {
            push_op_word(s, "calc");
            s.append(calc_str(*op));
        },
        Instruction::Random { dst, min, max } => {
            push_op_word(s, "rand");
            s.append(reg_str(*dst));
            push_space(s);
            push_dec_i32(s, *min);
            push_space(s);
            push_dec_i32(s, *max);
        },
        Instruction::Call { offset_inc, label } => {
            push_op_word(s, "call");
            push_dec_i32(s, *offset_inc);
            push_space(s);
            s.append(label.as_str());
        },
        Instruction::Yield => {
            s.append("yield");
        },
        Instruction::Return => {
            s.append("ret");
        },
    }
    assert(s@ =~= old(s)@ + inst_src(inst@));
}

/// Appends the label line of `f`, without its line break.
fn push_label(s: &mut String, f: &Function)
    ensures
        final(s)@ == old(s)@ + label_src(f@),
{
    proof {
        reveal_strlit(":");
        reveal_strlit("(");
        reveal_strlit(")");
        reveal_strlit(", ");
    }
    s.append(f.name.as_str());
    let args = &f.args;
    let ghost av = strings_view(args@);
    if args.len() > 0 {
        s.append("(");
        let ghost head = s@;
        let mut k: usize = 0;
        while k < args.len()
            invariant
                av == strings_view(args@),
                args@.len() > 0,
                k <= args@.len(),
                k == 0 ==> s@ == head,
                k > 0 ==> s@ == head + args_src(av.take(k as int)),
            decreases args@.len() - k,
        {
            proof {
                reveal_strlit(", ");
            }
            if k > 0 {
                s.append(", ");
            }
            s.append(args[k].as_str());
            assert(av[k as int] == args@[k as int]@);
            assert(av.take(k + 1).drop_last() =~= av.take(k as int));
            assert(av.take(k + 1).last() == av[k as int]);
            if k == 0 {
                assert(av.take(1)[0] == av[0]);
            }
            assert(s@ =~= head + args_src(av.take(k + 1)));
            k = k + 1;
        }
        assert(av.take(args@.len() as int) =~= av);
        proof {
            reveal_strlit("):");
        }
        s.append("):");
    } else {
        s.append(":");
    }
    assert(s@ =~= old(s)@ + label_src(f@));
}

impl VirtualMachine {
    /// The program in canonical source form.
    pub fn to_source(&self) -> (r: String)
        ensures
            r@ == program_src(self@),
    {
        let fs = self.functions();
        let ghost v = self@;
        let mut s = String::new();
        let mut f: usize = 0;
        while f < fs.len()
            invariant
                v == funcs_view(fs@),
                f <= fs@.len(),
                s@ == program_src(v.take(f as int)),
            decreases fs@.len() - f,
        {
            let func = &fs[f];
            let ghost start = s@;
            push_label(&mut s, func);
            s.append("\n");
            let insts = &func.instructions;
            let ghost iv = insts_view(insts@);
            let ghost mid = s@;
            assert(mid == start + line(label_src(func@)));
            let mut i: usize = 0;
            while i < insts.len()
                invariant
                    iv == insts_view(insts@),
                    i <= insts@.len(),
                    s@ == mid + insts_src(iv.take(i as int)),
                decreases insts@.len() - i,
            {
                let ghost before = s@;
                s.append("  ");
                push_inst(&mut s, &insts[i]);
                s.append("\n");
                proof {
                    reveal_strlit("  ");
                    assert(iv.take(i + 1).drop_last() =~= iv.take(i as int));
                }
                assert(s@ =~= mid + insts_src(iv.take(i + 1)));
                i = i + 1;
            }
            assert(iv.take(insts@.len() as int) =~= iv);
            assert(v.take(f + 1).drop_last() =~= v.take(f as int));
            assert(s@ =~= program_src(v.take(f + 1)));
            f = f + 1;
        }
        assert(v.take(fs@.len() as int) =~= v);
        s
    }
}

} // verus!
