//! Instruction lowering: each MAS instruction becomes host
//! commands appended to the current block, switching emission into a fresh
//! anonymous block where control leaves it; and the driver that lowers a
//! whole program into scripts.
use vstd::prelude::*;
use vstd::string::*;
use crate::command::{
    add_cmd, cond_cmd, func_cmd, line, matches_test, op_cmd, push_add_head, push_cond_head, push_op,
    push_score, push_set_head, score, set_cmd,
};
use crate::ctx::{
    anon_label, flushed, is_reserved, lemma_add_anon_keeps, lemma_anon_label,
    lemma_anon_label_injective, lemma_append_keeps, lemma_append_shape, mangled, random_u64, Context,
    ContextView,
};
use crate::mas::{funcs_view, names_ok, CalcOp, CmpOp, ExprCmpIn, Func, Function, Inst, Instruction, Register, VirtualMachine};
use crate::dispatch::{scripts_view, Script};
use crate::names::{MAIN, FUNC_EXEC, FUNC_LOAD, FUNC_STORE, MEM_OFFSET, MEM_POINTER, PROGRAM_COUNTER, REG_R0, REG_R1, REG_R2, REG_R3};
use crate::text::{chars_of, dec, dec_int, push_dec, push_dec_i32, push_hex};

verus! {

pub open spec fn reg_name(r: Register) -> Seq<char> {
    match r {
        Register::R0 => REG_R0@,
        Register::R1 => REG_R1@,
        Register::R2 => REG_R2@,
        Register::R3 => REG_R3@,
    }
}

/// `s` with every backslash removed.
pub open spec fn decode(s: Seq<char>) -> Seq<char>
    decreases s.len(),
{
    if s.len() == 0 {
        s
    } else if s.last() == '\\' {
        decode(s.drop_last())
    } else {
        decode(s.drop_last()).push(s.last())
    }
}

/// Operator of a `cmp` test.
pub open spec fn cmp_symbol(op: CmpOp) -> Seq<char> {
    match op {
        CmpOp::Equals => "="@,
        CmpOp::NotEquals => "="@,
        CmpOp::GreaterEq => ">="@,
        CmpOp::GreaterThan => ">"@,
        CmpOp::LessEq => "<="@,
        CmpOp::LessThan => "<"@,
    }
}

/// Operator of a `calc` operation; `<` and `>` keep the smaller and the larger.
pub open spec fn calc_symbol(op: CalcOp) -> Seq<char> {
    match op {
        CalcOp::Add => "+="@,
        CalcOp::Sub => "-="@,
        CalcOp::Mul => "*="@,
        CalcOp::Div => "/="@,
        CalcOp::Rem => "%="@,
        CalcOp::Min => "<"@,
        CalcOp::Max => ">"@,
    }
}

pub open spec fn opt_bound(b: Option<i32>) -> Seq<char> {
    match b {
        Some(v) => dec_int(v as int),
        None => Seq::empty(),
    }
}

/// The range that `cmpin` tests.
pub open spec fn range_text(e: ExprCmpIn) -> Seq<char> {
    match e {
        ExprCmpIn::Value(v) => dec_int(v as int),
        ExprCmpIn::Range(lb, ub) => opt_bound(lb) + ".."@ + opt_bound(ub),
    }
}

/// Sets `R0` to 1 when the test holds, and to 0 when `R0` is not 1 after that.
pub open spec fn to_flag(cond: Seq<char>, test: Seq<char>) -> Seq<char> {
    line(cond_cmd(cond, REG_R0@, test, set_cmd(REG_R0@, "1"@))) + line(
        cond_cmd("unless"@, REG_R0@, matches_test("1"@), set_cmd(REG_R0@, "0"@)),
    )
}

/// Points `Pointer` at `addr` in the current frame and runs `func`.
pub open spec fn mem_access(addr: int, func: Seq<char>) -> Seq<char> {
    line(set_cmd(MEM_POINTER@, dec_int(addr))) + line(op_cmd(MEM_POINTER@, "+="@, MEM_OFFSET@))
        + line(func_cmd(func))
}

/// The label that a branch or a call names.
pub open spec fn target(i: Inst) -> Option<Seq<char>> {
    match i {
        Inst::Branch(l) => Some(l),
        Inst::BranchIf(l) => Some(l),
        Inst::BranchIfNot(l) => Some(l),
        Inst::Call { label, .. } => Some(label),
        _ => None,
    }
}

/// Instructions after which emission goes on in a new anonymous block.
pub open spec fn switches(i: Inst) -> bool {
    match i {
        Inst::Branch(_) | Inst::BranchIf(_) | Inst::BranchIfNot(_) | Inst::Call { .. } | Inst::Yield
        | Inst::Return => true,
        _ => false,
    }
}

/// What the return block of `call k` starts with: the frame shift undone.
pub open spec fn call_return_text(k: i32) -> Seq<char> {
    line(add_cmd(MEM_OFFSET@, dec_int(-(k + 1))))
}

/// The text that instruction `i` appends to the current block, in table `c`
/// where `a` labels the anonymous block made for it, if it needs one.
///
/// `call k L` stores the id of its return block at address `k` of the
/// current frame, as `store k` does (`Pointer` is `k`, then `Offset` is
/// added), rather than at the absolute address `k`: after the frame moves up
/// by `k + 1` that cell is address `-1` of the callee's frame, which is
/// where `ret` loads it from, and so nested calls each find their own.
pub open spec fn lowering(c: ContextView, a: Seq<char>, i: Inst) -> Seq<char> {
    match i {
        Inst::RawCommand(s) => line(decode(s)),
        Inst::Debug { line: n, info } => line("say (at: "@ + dec(n) + ") "@ + decode(info)),
        Inst::Log(s) => line("say "@ + decode(s)),
        Inst::Move { dst, src } => line(op_cmd(reg_name(dst), "="@, reg_name(src))),
        Inst::SetConst { dst, value } => line(set_cmd(reg_name(dst), dec_int(value as int))),
        Inst::Load { addr } => mem_access(addr as int, FUNC_LOAD@),
        Inst::Store { addr } => mem_access(addr as int, FUNC_STORE@),
        Inst::Compare(op) => to_flag(
            if op == CmpOp::NotEquals {
                "unless"@
            } else {
                "if"@
            },
            cmp_symbol(op) + " "@ + score(REG_R1@),
        ),
        Inst::CompareIn { not, opr } => to_flag(
            if not {
                "unless"@
            } else {
                "if"@
            },
            matches_test(range_text(opr)),
        ),
        Inst::Calculate(op) => line(op_cmd(REG_R0@, calc_symbol(op), REG_R1@)),
        Inst::Random { dst, min, max } => line(
            "scoreboard players random "@ + score(reg_name(dst)) + " "@ + dec_int(min as int) + " "@
                + dec_int(max as int),
        ),
        Inst::Branch(l) => line(set_cmd(PROGRAM_COUNTER@, dec(c.block(l).id))) + line(
            func_cmd(c.block(l).fn_name),
        ),
        Inst::BranchIf(l) => line(
            cond_cmd("unless"@, REG_R0@, matches_test("0"@), func_cmd(c.block(l).fn_name)),
        ) + line(cond_cmd("if"@, REG_R0@, matches_test("0"@), func_cmd(c.block(a).fn_name))),
        Inst::BranchIfNot(l) => line(
            cond_cmd("if"@, REG_R0@, matches_test("0"@), func_cmd(c.block(l).fn_name)),
        ) + line(cond_cmd("unless"@, REG_R0@, matches_test("0"@), func_cmd(c.block(a).fn_name))),
        Inst::Call { offset_inc, label } => line(set_cmd(REG_R0@, dec(c.block(a).id))) + mem_access(
            offset_inc as int,
            FUNC_STORE@,
        ) + line(add_cmd(MEM_OFFSET@, dec_int(offset_inc + 1))) + line(func_cmd(c.block(label).fn_name)),
        Inst::Yield => set_cmd(PROGRAM_COUNTER@, dec(c.block(a).id)),
        Inst::Return => mem_access(-1, FUNC_LOAD@) + line(op_cmd(PROGRAM_COUNTER@, "="@, REG_R0@))
            + line(func_cmd(FUNC_EXEC@)),
    }
}

/// The table after lowering `i` into the block labelled `cur`, and the
/// label that emission goes on in.
pub open spec fn step(c: ContextView, cur: Seq<char>, i: Inst) -> (ContextView, Seq<char>) {
    let a = anon_label(c.anon);
    let c1 = if switches(i) {
        c.add_anon()
    } else {
        c
    };
    let c2 = match i {
        Inst::Call { offset_inc, .. } => c1.append(a, call_return_text(offset_inc)),
        _ => c1,
    };
    (c2.append(cur, lowering(c1, a, i)), if switches(i) {
        a
    } else {
        cur
    })
}

fn register(reg: Register) -> (r: &'static str)
    ensures
        r@ == reg_name(reg),
{
    match reg {
        Register::R0 => REG_R0,
        Register::R1 => REG_R1,
        Register::R2 => REG_R2,
        Register::R3 => REG_R3,
    }
}

/// `input` with every backslash removed.
pub fn decode_string(input: &str) -> (r: String)
    ensures
        r@ == decode(input@),
{
    let cs = chars_of(input);
    let mut out = String::new();
    let mut i: usize = 0;
    while i < cs.len()
        invariant
            cs@ == input@,
            i <= cs@.len(),
            out@ == decode(input@.take(i as int)),
        decreases cs@.len() - i,
    {
        assert(input@.take(i + 1).drop_last() =~= input@.take(i as int));
        if cs[i] != '\\' {
            out.append(input.substring_char(i, i + 1));
            assert(out@ =~= decode(input@.take(i + 1)));
        }
        i = i + 1;
    }
    assert(input@.take(cs@.len() as int) =~= input@);
    out
}

fn line_of(s: String) -> (r: String)
    ensures
        r@ == line(s@),
{
    let mut s = s;
    s.append("\n");
    s
}

fn int_string(v: i64) -> (r: String)
    requires
        i32::MIN <= v <= i32::MAX as i64 + 1,
    ensures
        r@ == dec_int(v as int),
{
    let mut s = String::new();
    if v < 0 {
        s.append("-");
        push_dec(&mut s, (0 - v) as u64);
        proof {
            reveal_strlit("-");
        }
        assert(s@ =~= dec_int(v as int));
    } else {
        push_dec(&mut s, v as u64);
        assert(s@ =~= dec_int(v as int));
    }
    s
}

fn set_string(obj: &str, v: &str) -> (r: String)
    ensures
        r@ == set_cmd(obj@, v@),
{
    let mut s = String::new();
    push_set_head(&mut s, obj);
    s.append(v);
    assert(s@ =~= set_cmd(obj@, v@));
    s
}

fn add_string(obj: &str, v: &str) -> (r: String)
    ensures
        r@ == add_cmd(obj@, v@),
{
    let mut s = String::new();
    push_add_head(&mut s, obj);
    s.append(v);
    assert(s@ =~= add_cmd(obj@, v@));
    s
}

fn op_string(dst: &str, op: &str, src: &str) -> (r: String)
    ensures
        r@ == op_cmd(dst@, op@, src@),
{
    let mut s = String::new();
    push_op(&mut s, dst, op, src);
    assert(s@ =~= op_cmd(dst@, op@, src@));
    s
}

fn func_string(name: &str) -> (r: String)
    ensures
        r@ == func_cmd(name@),
{
    let mut s = String::from_str("function ");
    s.append(name);
    s
}

fn cond_string(cond: &str, obj: &str, test: &str, cmd: &str) -> (r: String)
    ensures
        r@ == cond_cmd(cond@, obj@, test@, cmd@),
{
    let mut s = String::new();
    push_cond_head(&mut s, cond, obj);
    s.append(test);
    s.append(" run ");
    s.append(cmd);
    assert(s@ =~= cond_cmd(cond@, obj@, test@, cmd@));
    s
}

fn matches_string(range: &str) -> (r: String)
    ensures
        r@ == matches_test(range@),
{
    let mut s = String::from_str("matches ");
    s.append(range);
    s
}

fn concat(a: String, b: &str) -> (r: String)
    ensures
        r@ == a@ + b@,
{
    let mut a = a;
    a.append(b);
    a
}

fn to_flag_string(cond: &str, test: &str) -> (r: String)
    ensures
        r@ == to_flag(cond@, test@),
{
    let one = set_string(REG_R0, "1");
    let zero = set_string(REG_R0, "0");
    let first = line_of(cond_string(cond, REG_R0, test, one.as_str()));
    let second = line_of(
        cond_string("unless", REG_R0, matches_string("1").as_str(), zero.as_str()),
    );
    concat(first, second.as_str())
}

fn mem_access_string(addr: i64, func: &str) -> (r: String)
    requires
        i32::MIN <= addr <= i32::MAX,
    ensures
        r@ == mem_access(addr as int, func@),
{
    let a = line_of(set_string(MEM_POINTER, int_string(addr).as_str()));
    let b = line_of(op_string(MEM_POINTER, "+=", MEM_OFFSET));
    let c = line_of(func_string(func));
    concat(concat(a, b.as_str()), c.as_str())
}

fn cmp_symbol_str(op: CmpOp) -> (r: &'static str)
    ensures
        r@ == cmp_symbol(op),
{
    match op {
        CmpOp::Equals => "=",
        CmpOp::NotEquals => "=",
        CmpOp::GreaterEq => ">=",
        CmpOp::GreaterThan => ">",
        CmpOp::LessEq => "<=",
        CmpOp::LessThan => "<",
    }
}

fn calc_symbol_str(op: CalcOp) -> (r: &'static str)
    ensures
        r@ == calc_symbol(op),
{
    match op {
        CalcOp::Add => "+=",
        CalcOp::Sub => "-=",
        CalcOp::Mul => "*=",
        CalcOp::Div => "/=",
        CalcOp::Rem => "%=",
        CalcOp::Min => "<",
        CalcOp::Max => ">",
    }
}

fn bound_string(b: Option<i32>) -> (r: String)
    ensures
        r@ == opt_bound(b),
{
    match b {
        Some(v) => int_string(v as i64),
        None => String::new(),
    }
}

fn range_string(e: ExprCmpIn) -> (r: String)
    ensures
        r@ == range_text(e),
{
    match e {
        ExprCmpIn::Value(v) => int_string(v as i64),
        ExprCmpIn::Range(lb, ub) => {
            let s = concat(bound_string(lb), "..");
            concat(s, bound_string(ub).as_str())
        },
    }
}

fn id_string(id: u64) -> (r: String)
    ensures
        r@ == dec(id as nat),
{
    let mut s = String::new();
    push_dec(&mut s, id);
    assert(s@ =~= dec(id as nat));
    s
}

/// The text that `inst` appends to the current block; `anon` labels the
/// anonymous block made for it, where it needs one.
fn lower(ctx: &Context, anon: &str, inst: &Instruction) -> (r: String)
    requires
        ctx@.wf(),
        target(inst@) is Some ==> ctx@.has_label(target(inst@)->0),
        switches(inst@) ==> ctx@.has_label(anon@),
    ensures
        r@ == lowering(ctx@, anon@, inst@),
{
    match inst {
        Instruction::RawCommand(s) => line_of(decode_string(s.as_str())),
        Instruction::Debug { line, info } => {
            let mut s = String::from_str("say (at: ");
            push_dec(&mut s, *line as u64);
            s.append(") ");
            s.append(decode_string(info.as_str()).as_str());
            s.append("\n");
            assert(s@ =~= lowering(ctx@, anon@, inst@));
            s
        },
        Instruction::Log(m) => {
            let s = concat(String::from_str("say "), decode_string(m.as_str()).as_str());
            line_of(s)
        },
        Instruction::Move { dst, src } => line_of(op_string(register(*dst), "=", register(*src))),
        Instruction::SetConst { dst, value } => line_of(
            set_string(register(*dst), int_string(*value as i64).as_str()),
        ),
        Instruction::Load { addr } => mem_access_string(*addr as i64, FUNC_LOAD),
        Instruction::Store { addr } => mem_access_string(*addr as i64, FUNC_STORE),
        Instruction::Compare(op) => {
            let test = concat(concat(String::from_str(cmp_symbol_str(*op)), " "), score_string(REG_R1).as_str());
            let cond = match op {
                CmpOp::NotEquals => "unless",
                _ => "if",
            };
            to_flag_string(cond, test.as_str())
        },
        Instruction::CompareIn { not, opr } => {
            let cond = if *not {
                "unless"
            } else {
                "if"
            };
            to_flag_string(cond, matches_string(range_string(*opr).as_str()).as_str())
        },
        Instruction::Calculate(op) => line_of(op_string(REG_R0, calc_symbol_str(*op), REG_R1)),
        Instruction::Random { dst, min, max } => {
            let mut s = String::from_str("scoreboard players random ");
            push_score(&mut s, register(*dst));
            s.append(" ");
            push_dec_i32(&mut s, *min);
            s.append(" ");
            push_dec_i32(&mut s, *max);
            s.append("\n");
            assert(s@ =~= lowering(ctx@, anon@, inst@));
            s
        },
        Instruction::Branch(l) => {
            let b = ctx.get_label(l.as_str());
            let a = line_of(set_string(PROGRAM_COUNTER, id_string(b.id()).as_str()));
            let c = line_of(func_string(b.fn_name()));
            concat(a, c.as_str())
        },
        Instruction::BranchIf(l) => {
            let yes = func_string(ctx.get_label(l.as_str()).fn_name());
            let no = func_string(ctx.get_label(anon).fn_name());
            let zero = matches_string("0");
            let a = line_of(cond_string("unless", REG_R0, zero.as_str(), yes.as_str()));
            let b = line_of(cond_string("if", REG_R0, zero.as_str(), no.as_str()));
            concat(a, b.as_str())
        },
        Instruction::BranchIfNot(l) => {
            let yes = func_string(ctx.get_label(l.as_str()).fn_name());
            let no = func_string(ctx.get_label(anon).fn_name());
            let zero = matches_string("0");
            let a = line_of(cond_string("if", REG_R0, zero.as_str(), yes.as_str()));
            let b = line_of(cond_string("unless", REG_R0, zero.as_str(), no.as_str()));
            concat(a, b.as_str())
        },
        Instruction::Call { offset_inc, label } => {
            let ret_id = ctx.get_label(anon).id();
            let callee = ctx.get_label(label.as_str()).fn_name();
            let a = line_of(set_string(REG_R0, id_string(ret_id).as_str()));
            let b = mem_access_string(*offset_inc as i64, FUNC_STORE);
            let c = line_of(
                add_string(MEM_OFFSET, int_string(*offset_inc as i64 + 1).as_str()),
            );
            let d = line_of(func_string(callee));
            concat(concat(concat(a, b.as_str()), c.as_str()), d.as_str())
        },
        Instruction::Yield => {
            let id = ctx.get_label(anon).id();
            set_string(PROGRAM_COUNTER, id_string(id).as_str())
        },
        Instruction::Return => {
            let a = mem_access_string(-1, FUNC_LOAD);
            let b = line_of(op_string(PROGRAM_COUNTER, "=", REG_R0));
            let c = line_of(func_string(FUNC_EXEC));
            concat(concat(a, b.as_str()), c.as_str())
        },
    }
}

fn score_string(obj: &str) -> (r: String)
    ensures
        r@ == score(obj@),
{
    let mut s = String::new();
    push_score(&mut s, obj);
    assert(s@ =~= score(obj@));
    s
}

/// Translates `inst` into the block labelled `label`. Returns the label of
/// the anonymous block that emission goes on in, where `inst` leaves the
/// current one.
pub fn translate(label: &str, ctx: &mut Context, inst: &Instruction) -> (r: Option<String>)
    requires
        old(ctx)@.wf(),
        old(ctx)@.has_label(label@),
        old(ctx)@.blocks.len() + 1 < u64::MAX,
        target(inst@) is Some ==> old(ctx)@.has_label(target(inst@)->0),
        switches(inst@) ==> !old(ctx)@.has_label(anon_label(old(ctx)@.anon)),
    ensures
        final(ctx)@ == step(old(ctx)@, label@, inst@).0,
        final(ctx)@.wf(),
        r is Some <==> switches(inst@),
        r is Some ==> r->0@ == step(old(ctx)@, label@, inst@).1,
        final(ctx)@.has_label(step(old(ctx)@, label@, inst@).1),
        forall|key: Seq<char>| old(ctx)@.has_label(key) ==> final(ctx)@.has_label(key),
        final(ctx)@.blocks.len() <= old(ctx)@.blocks.len() + 1,
        step_shape(old(ctx)@, final(ctx)@, inst@),
{
    let ghost c = ctx@;
    let ghost a = anon_label(c.anon);
    let switch = if switches_exec(inst) {
        proof {
            lemma_add_anon_keeps(c, label@);
            if target(inst@) is Some {
                lemma_add_anon_keeps(c, target(inst@)->0);
            }
        }
        Some(ctx.new_anonymous_label())
    } else {
        None
    };
    let ghost c1 = ctx@;
    proof {
        assert forall|key: Seq<char>| c.has_label(key) implies c1.has_label(key) by {
            if switches(inst@) {
                lemma_add_anon_keeps(c, key);
            }
        }
        if switches(inst@) {
            lemma_add_anon_keeps(c, label@);
        }
    }
    let text = match &switch {
        Some(anon) => lower(ctx, anon.as_str(), inst),
        None => lower(ctx, "", inst),
    };
    assert(text@ == lowering(c1, a, inst@));
    if let Instruction::Call { offset_inc, .. } = inst {
        let anon = switch.as_ref().unwrap();
        let back = line_of(add_string(MEM_OFFSET, int_string(0 - (*offset_inc as i64 + 1)).as_str()));
        proof {
            lemma_append_keeps(c1, a, back@, label@);
        }
        ctx.push_str(anon.as_str(), back.as_str());
        proof {
            assert forall|key: Seq<char>| c1.has_label(key) implies ctx@.has_label(key) by {
                lemma_append_keeps(c1, a, back@, key);
            }
            lemma_add_anon_keeps(c, label@);
            lemma_append_shape(c1, a, back@);
        }
    }
    let ghost c2 = ctx@;
    ctx.push_str(label, text.as_str());
    proof {
        assert forall|key: Seq<char>| c2.has_label(key) implies ctx@.has_label(key) by {
            lemma_append_keeps(c2, label@, text@, key);
        }
        lemma_append_shape(c2, label@, text@);
        if switches(inst@) {
            assert(c1.blocks[c.blocks.len() as int].label == anon_label(c.anon));
        }
    }
    switch
}

/// `d` is table `c` after lowering `i`: the same blocks under the same
/// labels, then, where `i` leaves the current block, one anonymous block
/// more.
pub open spec fn step_shape(c: ContextView, d: ContextView, i: Inst) -> bool {
    let s: nat = if switches(i) {
        1
    } else {
        0
    };
    &&& d.anon == c.anon + s
    &&& d.blocks.len() == c.blocks.len() + s
    &&& forall|j: int| 0 <= j < c.blocks.len() ==> (#[trigger] d.blocks[j]).label == c.blocks[j].label
    &&& switches(i) ==> d.blocks[c.blocks.len() as int].label == anon_label(c.anon)
}

fn switches_exec(inst: &Instruction) -> (r: bool)
    ensures
        r == switches(inst@),
{
    match inst {
        Instruction::Branch(_) | Instruction::BranchIf(_) | Instruction::BranchIfNot(_)
        | Instruction::Call { .. } | Instruction::Yield | Instruction::Return => true,
        _ => false,
    }
}

/// Why a program could not be lowered.
#[derive(Clone, Debug, PartialEq, Eq)]
pub enum GenerateError {
    /// A function's label equals the label of an anonymous block that
    /// lowering the program makes.
    ReservedLabel(String),
    /// A branch or a call names a label that no function has.
    UndefinedLabel(String),
    /// The program would need more blocks than ids can count.
    TooManyBlocks,
}

/// Script name of program label `l`: the entry label `main` or `__main__`
/// is written as `main`; any other label is mangled. A program defines at
/// most one of the two entry labels.
pub open spec fn label_fn_name(uuid: u64, l: Seq<char>) -> Seq<char> {
    if l == MAIN@ || l == "__main__"@ {
        MAIN@
    } else {
        mangled(uuid, l)
    }
}

/// The table with one block per function, in order.
pub open spec fn insert_all(c: ContextView, fs: Seq<Func>) -> ContextView
    decreases fs.len(),
{
    if fs.len() == 0 {
        c
    } else {
        let d = insert_all(c, fs.drop_last());
        d.add(fs.last().name, label_fn_name(c.uuid, fs.last().name))
    }
}

/// The table and the current label after lowering `is` from label `cur`.
pub open spec fn run_insts(c: ContextView, cur: Seq<char>, is: Seq<Inst>) -> (ContextView, Seq<char>)
    decreases is.len(),
{
    if is.len() == 0 {
        (c, cur)
    } else {
        let (d, l) = run_insts(c, cur, is.drop_last());
        step(d, l, is.last())
    }
}

/// The table after lowering every function in order, each from its own block.
pub open spec fn run_funcs(c: ContextView, fs: Seq<Func>) -> ContextView
    decreases fs.len(),
{
    if fs.len() == 0 {
        c
    } else {
        run_insts(run_funcs(c, fs.drop_last()), fs.last().name, fs.last().instructions).0
    }
}

/// The block table that program `fs` lowers to under mangling suffix `uuid`.
pub open spec fn lowered(fs: Seq<Func>, uuid: u64) -> ContextView {
    let empty = ContextView { uuid, anon: 0, blocks: Seq::empty() };
    run_funcs(insert_all(empty, fs), fs)
}

/// The scripts that program `fs` lowers to under mangling suffix `uuid`.
pub open spec fn compiled(fs: Seq<Func>, uuid: u64) -> Seq<(Seq<char>, Seq<char>)> {
    flushed(lowered(fs, uuid))
}

pub open spec fn defines(fs: Seq<Func>, l: Seq<char>) -> bool {
    exists|j: int| 0 <= j < fs.len() && #[trigger] fs[j].name == l
}

/// Label `l` is named by a branch or a call of `fs`.
pub open spec fn referenced(fs: Seq<Func>, l: Seq<char>) -> bool {
    exists|f: int, i: int|
        0 <= f < fs.len() && 0 <= i < fs[f].instructions.len() && #[trigger] target(
            fs[f].instructions[i],
        ) == Some(l)
}

pub open spec fn refs_defined(fs: Seq<Func>) -> bool {
    forall|f: int, i: int|
        0 <= f < fs.len() && 0 <= i < fs[f].instructions.len() && (#[trigger] target(
            fs[f].instructions[i],
        )) is Some ==> defines(fs, target(fs[f].instructions[i])->0)
}

/// Anonymous blocks that the instructions `is` make.
pub open spec fn switch_count_insts(is: Seq<Inst>) -> nat
    decreases is.len(),
{
    if is.len() == 0 {
        0
    } else {
        switch_count_insts(is.drop_last()) + if switches(is.last()) {
            1nat
        } else {
            0nat
        }
    }
}

/// Anonymous blocks that lowering program `fs` makes.
pub open spec fn switch_count(fs: Seq<Func>) -> nat
    decreases fs.len(),
{
    if fs.len() == 0 {
        0
    } else {
        switch_count(fs.drop_last()) + switch_count_insts(fs.last().instructions)
    }
}

/// Label `l` is the label of an anonymous block that lowering `fs` makes.
pub open spec fn clashes(fs: Seq<Func>, l: Seq<char>) -> bool {
    exists|m: nat| m < switch_count(fs) && l == #[trigger] anon_label(m)
}

/// No function of `fs` has the label of an anonymous block that lowering
/// `fs` makes.
pub open spec fn no_clash(fs: Seq<Func>) -> bool {
    forall|f: int| 0 <= f < fs.len() ==> !clashes(fs, #[trigger] fs[f].name)
}

pub open spec fn total_insts(fs: Seq<Func>) -> nat
    decreases fs.len(),
{
    if fs.len() == 0 {
        0
    } else {
        total_insts(fs.drop_last()) + fs.last().instructions.len()
    }
}

/// Every block id of `fs`, and the dispatcher over them, can be counted.
pub open spec fn fits(fs: Seq<Func>) -> bool {
    2 * (fs.len() + total_insts(fs) + 1) <= usize::MAX
}

/// `s` starts like the labels of anonymous blocks.
fn is_reserved_label(s: &str) -> (r: bool)
    ensures
        r == is_reserved(s@),
{
    let cs = chars_of(s);
    let pre = chars_of("_anonymous_");
    if cs.len() < pre.len() {
        return false;
    }
    let mut i: usize = 0;
    while i < pre.len()
        invariant
            cs@ == s@,
            pre@ == "_anonymous_"@,
            pre@.len() <= cs@.len(),
            i <= pre@.len(),
            forall|j: int| 0 <= j < i ==> pre@[j] == cs@[j],
        decreases pre@.len() - i,
    {
        if cs[i] != pre[i] {
            assert(pre@[i as int] != s@.subrange(0, pre@.len() as int)[i as int]);
            return false;
        }
        i = i + 1;
    }
    assert(pre@ =~= s@.subrange(0, pre@.len() as int));
    true
}

/// Whether `fs` has a function named `l`.
fn defines_exec(fs: &Vec<Function>, l: &String) -> (r: bool)
    ensures
        r == defines(funcs_view(fs@), l@),
{
    let ghost v = funcs_view(fs@);
    let mut j: usize = 0;
    while j < fs.len()
        invariant
            v == funcs_view(fs@),
            j <= fs@.len(),
            forall|k: int| 0 <= k < j ==> (#[trigger] v[k]).name != l@,
        decreases fs@.len() - j,
    {
        if fs[j].name == *l {
            assert(v[j as int].name == l@);
            return true;
        }
        assert(v[j as int].name != l@);
        j = j + 1;
    }
    proof {
        if defines(v, l@) {
            let k = choose|k: int| 0 <= k < v.len() && #[trigger] v[k].name == l@;
            assert(v[k].name != l@);
        }
    }
    false
}

fn target_exec(inst: &Instruction) -> (r: Option<&String>)
    ensures
        r is Some <==> target(inst@) is Some,
        r is Some ==> target(inst@) == Some(r->0@),
{
    match inst {
        Instruction::Branch(l) => Some(l),
        Instruction::BranchIf(l) => Some(l),
        Instruction::BranchIfNot(l) => Some(l),
        Instruction::Call { label, .. } => Some(label),
        _ => None,
    }
}

proof fn lemma_total_insts_take(fs: Seq<Func>, n: int)
    requires
        0 <= n < fs.len(),
    ensures
        total_insts(fs.take(n + 1)) == total_insts(fs.take(n)) + fs[n].instructions.len(),
        total_insts(fs.take(n + 1)) <= total_insts(fs),
    decreases fs.len() - n,
{
    assert(fs.take(n + 1).drop_last() =~= fs.take(n));
    if n + 1 < fs.len() {
        lemma_total_insts_take(fs, n + 1);
    } else {
        assert(fs.take(n + 1) =~= fs);
    }
}

proof fn lemma_switch_insts_take(is: Seq<Inst>, n: int)
    requires
        0 <= n < is.len(),
    ensures
        switch_count_insts(is.take(n + 1)) == switch_count_insts(is.take(n)) + if switches(is[n]) {
            1nat
        } else {
            0nat
        },
        switch_count_insts(is.take(n + 1)) <= switch_count_insts(is),
    decreases is.len() - n,
{
    assert(is.take(n + 1).drop_last() =~= is.take(n));
    if n + 1 < is.len() {
        lemma_switch_insts_take(is, n + 1);
    } else {
        assert(is.take(n + 1) =~= is);
    }
}

proof fn lemma_switch_take(fs: Seq<Func>, n: int)
    requires
        0 <= n < fs.len(),
    ensures
        switch_count(fs.take(n + 1)) == switch_count(fs.take(n)) + switch_count_insts(fs[n].instructions),
        switch_count(fs.take(n + 1)) <= switch_count(fs),
    decreases fs.len() - n,
{
    assert(fs.take(n + 1).drop_last() =~= fs.take(n));
    if n + 1 < fs.len() {
        lemma_switch_take(fs, n + 1);
    } else {
        assert(fs.take(n + 1) =~= fs);
    }
}

proof fn lemma_switch_insts_le(is: Seq<Inst>)
    ensures
        switch_count_insts(is) <= is.len(),
    decreases is.len(),
{
    if is.len() > 0 {
        lemma_switch_insts_le(is.drop_last());
    }
}

proof fn lemma_switch_le_total(fs: Seq<Func>)
    ensures
        switch_count(fs) <= total_insts(fs),
    decreases fs.len(),
{
    if fs.len() > 0 {
        lemma_switch_le_total(fs.drop_last());
        lemma_switch_insts_le(fs.last().instructions);
    }
}

/// A table with one empty block per function of `fs`, in order.
fn insert_labels(fs: &Vec<Function>, uuid: u64) -> (ctx: Context)
    requires
    names_ok(funcs_view(fs@)),
    fits(funcs_view(fs@)),
    ensures
    ctx@ == insert_all(ContextView { uuid, anon: 0, blocks: Seq::empty() }, funcs_view(fs@)),
    ctx@.wf(),
    ctx@.blocks.len() == fs@.len(),
    ctx@.anon == 0,
    forall|k: int| 0 <= k < fs@.len() ==> (#[trigger] ctx@.blocks[k]).label == funcs_view(fs@)[k].name,
    forall|k: int| 0 <= k < fs@.len() ==> ctx@.has_label(#[trigger] funcs_view(fs@)[k].name),
{
    let ghost v = funcs_view(fs@);
    let ghost c0 = ContextView { uuid, anon: 0, blocks: Seq::empty() };
    let mut ctx = Context::with_uuid(uuid);
    let mut f: usize = 0;
    while f < fs.len()
        invariant
            v == funcs_view(fs@),
            names_ok(v),
            fits(v),
            f <= fs@.len(),
            c0 == (ContextView { uuid, anon: 0, blocks: Seq::empty() }),
            ctx@ == insert_all(c0, v.take(f as int)),
            ctx@.wf(),
            ctx@.blocks.len() == f,
            ctx@.anon == 0,
            ctx@.uuid == uuid,
            forall|k: int| 0 <= k < f ==> (#[trigger] ctx@.blocks[k]).label == v[k].name,
        decreases fs@.len() - f,
    {
        let name = &fs[f].name;
        assert(v[f as int].name == name@);
        proof {
            if ctx@.has_label(name@) {
                let k = choose|k: int| 0 <= k < ctx@.blocks.len() && #[trigger] ctx@.blocks[k].label == name@;
                assert(v[k].name == v[f as int].name);
            }
            lemma_total_insts_take(v, f as int);
        }
        let entry = *name == String::from_str(MAIN) || *name == String::from_str("__main__");
        let ghost before = ctx@;
        if entry {
            ctx.insert_entry(name.as_str());
        } else {
            ctx.insert_label(name.as_str(), true);
        }
        assert(v.take(f + 1).drop_last() =~= v.take(f as int));
        assert(v.take(f + 1).last() == v[f as int]);
        assert(ctx@ == before.add(name@, label_fn_name(uuid, name@)));
        f = f + 1;
    }
    assert(v.take(fs.len() as int) =~= v);
    assert forall|k: int| 0 <= k < fs@.len() implies ctx@.has_label(#[trigger] v[k].name) by {
    assert(ctx@.blocks[k].label == v[k].name);
    }
    ctx
}

/// Translates every function of `fs` in order, each from its own block.
fn lower_all(fs: &Vec<Function>, ctx: Context) -> (r: Context)
    requires
    refs_defined(funcs_view(fs@)),
    fits(funcs_view(fs@)),
    no_clash(funcs_view(fs@)),
    ctx@.wf(),
    ctx@.blocks.len() == fs@.len(),
    ctx@.anon == 0,
    forall|k: int| 0 <= k < fs@.len() ==> (#[trigger] ctx@.blocks[k]).label == funcs_view(fs@)[k].name,
    forall|k: int| 0 <= k < fs@.len() ==> ctx@.has_label(#[trigger] funcs_view(fs@)[k].name),
    ensures
    r@ == run_funcs(ctx@, funcs_view(fs@)),
    r@.wf(),
    2 * (r@.blocks.len() + 1) <= usize::MAX,
{
    let ghost v = funcs_view(fs@);
    let mut ctx = ctx;
    let mut f: usize = 0;
    let ghost c1 = ctx@;
    while f < fs.len()
        invariant
            v == funcs_view(fs@),
            refs_defined(v),
            fits(v),
            no_clash(v),
            f <= fs@.len(),
            ctx@ == run_funcs(c1, v.take(f as int)),
            ctx@.wf(),
            ctx@.blocks.len() <= v.len() + total_insts(v.take(f as int)),
            forall|k: int| 0 <= k < v.len() ==> ctx@.has_label(#[trigger] v[k].name),
            ctx@.anon == switch_count(v.take(f as int)),
            ctx@.blocks.len() == v.len() + ctx@.anon,
            forall|k: int| 0 <= k < v.len() ==> (#[trigger] ctx@.blocks[k]).label == v[k].name,
            forall|j: int|
                v.len() <= j < ctx@.blocks.len() ==> (#[trigger] ctx@.blocks[j]).label == anon_label(
                    (j - v.len()) as nat,
                ),
        decreases fs@.len() - f,
    {
        let insts = &fs[f].instructions;
        let ghost start = ctx@;
        let ghost is = v[f as int].instructions;
        assert(is == crate::mas::insts_view(insts@));
        let mut cur = fs[f].name.clone();
        assert(ctx@.has_label(v[f as int].name));
        proof {
            lemma_total_insts_take(v, f as int);
            lemma_switch_take(v, f as int);
            assert(is.take(0) =~= Seq::<Inst>::empty());
        }
        let mut i: usize = 0;
        while i < insts.len()
            invariant
                v == funcs_view(fs@),
                refs_defined(v),
                fits(v),
                f < fs@.len(),
                insts == fs@[f as int].instructions,
                is == v[f as int].instructions,
                is == crate::mas::insts_view(insts@),
                start == run_funcs(c1, v.take(f as int)),
                i <= insts@.len(),
                (ctx@, cur@) == run_insts(start, v[f as int].name, is.take(i as int)),
                ctx@.wf(),
                ctx@.has_label(cur@),
                ctx@.blocks.len() <= v.len() + total_insts(v.take(f as int)) + i,
                total_insts(v.take(f as int)) + is.len() <= total_insts(v),
                forall|k: int| 0 <= k < v.len() ==> ctx@.has_label(#[trigger] v[k].name),
                no_clash(v),
                switch_count(v.take(f as int)) + switch_count_insts(is) <= switch_count(v),
                switch_count(v.take(f as int + 1)) == switch_count(v.take(f as int)) + switch_count_insts(is),
                ctx@.anon == switch_count(v.take(f as int)) + switch_count_insts(is.take(i as int)),
                ctx@.blocks.len() == v.len() + ctx@.anon,
                forall|k: int| 0 <= k < v.len() ==> (#[trigger] ctx@.blocks[k]).label == v[k].name,
                forall|j: int|
                    v.len() <= j < ctx@.blocks.len() ==> (#[trigger] ctx@.blocks[j]).label
                        == anon_label((j - v.len()) as nat),
            decreases insts@.len() - i,
        {
            let inst = &insts[i];
            assert(is[i as int] == inst@);
            proof {
                if target(inst@) is Some {
                    assert(defines(v, target(v[f as int].instructions[i as int])->0));
                    let k = choose|k: int| 0 <= k < v.len() && #[trigger] v[k].name == target(inst@)->0;
                    assert(ctx@.has_label(v[k].name));
                }
                lemma_switch_insts_take(is, i as int);
                if switches(inst@) && ctx@.has_label(anon_label(ctx@.anon)) {
                    let c = ctx@;
                    let j = choose|j: int| 0 <= j < c.blocks.len() && #[trigger] c.blocks[j].label == anon_label(c.anon);
                    if j < v.len() {
                        assert(v[j].name == anon_label(c.anon));
                        assert(clashes(v, v[j].name));
                    } else {
                        assert(c.blocks[j].label == anon_label((j - v.len()) as nat));
                        lemma_anon_label_injective((j - v.len()) as nat, c.anon);
                    }
                }
            }
            let ghost before = ctx@;
            match translate(cur.as_str(), &mut ctx, inst) {
                Some(l) => {
                    cur = l;
                },
                None => {},
            }
            assert(is.take(i + 1).drop_last() =~= is.take(i as int));
            assert(is.take(i + 1).last() == inst@);
            assert forall|k: int| 0 <= k < v.len() implies ctx@.has_label(#[trigger] v[k].name) by {
                assert(before.has_label(v[k].name));
            }
            assert forall|k: int| 0 <= k < v.len() implies (#[trigger] ctx@.blocks[k]).label == v[k].name by {
                assert(before.blocks[k].label == v[k].name);
            }
            assert forall|j: int|
                v.len() <= j < ctx@.blocks.len() implies (#[trigger] ctx@.blocks[j]).label == anon_label(
                (j - v.len()) as nat,
            ) by {
                if j < before.blocks.len() {
                    assert(before.blocks[j].label == anon_label((j - v.len()) as nat));
                }
            }
            i = i + 1;
        }
        assert(is.take(insts.len() as int) =~= is);
        assert(v.take(f + 1).drop_last() =~= v.take(f as int));
        assert(v.take(f + 1).last() == v[f as int]);
        f = f + 1;
    }
    assert(v.take(fs.len() as int) =~= v);
    ctx
}

impl VirtualMachine {
    /// Number of anonymous blocks that lowering the program makes.
    fn switch_count_exec(&self) -> (r: usize)
        requires
            fits(self@),
        ensures
            r == switch_count(self@),
    {
        let fs = self.functions();
        let ghost v = self@;
        proof {
            lemma_switch_le_total(v);
        }
        let mut n: usize = 0;
        let mut f: usize = 0;
        while f < fs.len()
            invariant
                v == funcs_view(fs@),
                v == self@,
                fits(v),
                switch_count(v) <= total_insts(v),
                f <= fs@.len(),
                n == switch_count(v.take(f as int)),
            decreases fs@.len() - f,
        {
            let insts = &fs[f].instructions;
            let ghost is = v[f as int].instructions;
            assert(is == crate::mas::insts_view(insts@));
            proof {
                lemma_switch_take(v, f as int);
                assert(is.take(0) =~= Seq::<Inst>::empty());
            }
            let mut i: usize = 0;
            while i < insts.len()
                invariant
                    v == funcs_view(fs@),
                    fits(v),
                    switch_count(v) <= total_insts(v),
                    f < fs@.len(),
                    insts == fs@[f as int].instructions,
                    is == v[f as int].instructions,
                    is == crate::mas::insts_view(insts@),
                    i <= insts@.len(),
                    switch_count(v.take(f as int)) + switch_count_insts(is) <= switch_count(v),
                    n == switch_count(v.take(f as int)) + switch_count_insts(is.take(i as int)),
                decreases insts@.len() - i,
            {
                proof {
                    lemma_switch_insts_take(is, i as int);
                }
                assert(is[i as int] == insts@[i as int]@);
                if switches_exec(&insts[i]) {
                    n = n + 1;
                }
                i = i + 1;
            }
            assert(is.take(insts.len() as int) =~= is);
            f = f + 1;
        }
        assert(v.take(fs.len() as int) =~= v);
        n
    }

    /// The first function label that is also the label of an anonymous block
    /// that lowering the program makes.
    fn clashing_label(&self) -> (r: Option<String>)
        requires
            fits(self@),
        ensures
            r is None <==> no_clash(self@),
            r is Some ==> defines(self@, r->0@) && clashes(self@, r->0@),
    {
        let count = self.switch_count_exec();
        let fs = self.functions();
        let ghost v = self@;
        let mut j: usize = 0;
        while j < fs.len()
            invariant
                v == funcs_view(fs@),
                v == self@,
                count == switch_count(v),
                j <= fs@.len(),
                forall|k: int| 0 <= k < j ==> !clashes(v, #[trigger] v[k].name),
            decreases fs@.len() - j,
        {
            let name = &fs[j].name;
            assert(v[j as int].name == name@);
            if is_reserved_label(name.as_str()) {
                let mut m: usize = 0;
                while m < count
                    invariant
                        v == funcs_view(fs@),
                        v == self@,
                        count == switch_count(v),
                        j < fs@.len(),
                        name@ == v[j as int].name,
                        m <= count,
                        forall|q: nat| q < m ==> name@ != #[trigger] anon_label(q),
                    decreases count - m,
                {
                    let mut anon = String::from_str("_anonymous_");
                    push_hex(&mut anon, m as u64);
                    if *name == anon {
                        let r = name.clone();
                        assert(r@ == anon_label(m as nat));
                        assert(clashes(v, r@));
                        assert(defines(v, r@));
                        return Some(r);
                    }
                    m = m + 1;
                }
                proof {
                    if clashes(v, name@) {
                        let q = choose|q: nat| q < switch_count(v) && name@ == #[trigger] anon_label(q);
                        assert(name@ != anon_label(q));
                    }
                }
            } else {
                proof {
                    if clashes(v, name@) {
                        let q = choose|q: nat| q < switch_count(v) && name@ == #[trigger] anon_label(q);
                        lemma_anon_label(q);
                    }
                }
            }
            j = j + 1;
        }
        None
    }

    /// The first label named by a branch or a call that no function has.
    fn undefined_label(&self) -> (r: Option<String>)
        ensures
            r is None <==> refs_defined(self@),
            r is Some ==> referenced(self@, r->0@) && !defines(self@, r->0@),
    {
        let fs = self.functions();
        let ghost v = self@;
        let mut f: usize = 0;
        while f < fs.len()
            invariant
                v == funcs_view(fs@),
                v == self@,
                f <= fs@.len(),
                forall|g: int, i: int|
                    0 <= g < f && 0 <= i < v[g].instructions.len() && (#[trigger] target(
                        v[g].instructions[i],
                    )) is Some ==> defines(v, target(v[g].instructions[i])->0),
            decreases fs@.len() - f,
        {
            let insts = &fs[f].instructions;
            assert(v[f as int].instructions == crate::mas::insts_view(insts@));
            let mut i: usize = 0;
            while i < insts.len()
                invariant
                    v == funcs_view(fs@),
                v == self@,
                    f < fs@.len(),
                    insts == fs@[f as int].instructions,
                    v[f as int].instructions == crate::mas::insts_view(insts@),
                    i <= insts@.len(),
                    forall|g: int, k: int|
                        0 <= g < f && 0 <= k < v[g].instructions.len() && (#[trigger] target(
                            v[g].instructions[k],
                        )) is Some ==> defines(v, target(v[g].instructions[k])->0),
                    forall|k: int|
                        0 <= k < i && (#[trigger] target(v[f as int].instructions[k])) is Some
                            ==> defines(v, target(v[f as int].instructions[k])->0),
                decreases insts@.len() - i,
            {
                assert(v[f as int].instructions[i as int] == insts@[i as int]@);
                match target_exec(&insts[i]) {
                    Some(l) => {
                        if !defines_exec(fs, l) {
                            let r = l.clone();
                            assert(target(v[f as int].instructions[i as int]) == Some(r@));
                            assert(referenced(v, r@));
                            assert(!refs_defined(v));
                            return Some(r);
                        }
                    },
                    None => {},
                }
                i = i + 1;
            }
            f = f + 1;
        }
        None
    }

    /// Whether every block id of the program can be counted.
    fn fits_exec(&self) -> (r: bool)
        ensures
            r == fits(self@),
    {
        let fs = self.functions();
        let ghost v = self@;
        let mut total: usize = 0;
        let mut f: usize = 0;
        while f < fs.len()
            invariant
                v == funcs_view(fs@),
                v == self@,
                f <= fs@.len(),
                total == total_insts(v.take(f as int)),
            decreases fs@.len() - f,
        {
            proof {
                lemma_total_insts_take(v, f as int);
            }
            let n = fs[f].instructions.len();
            assert(v[f as int].instructions.len() == n);
            if total > usize::MAX - n {
                proof {
                    lemma_total_insts_take(v, f as int);
                }
                return false;
            }
            total = total + n;
            f = f + 1;
        }
        assert(v.take(f as int) =~= v);
        let m = fs.len();
        if total > usize::MAX - m || total + m > (usize::MAX - 2) / 2 {
            return false;
        }
        true
    }

    /// Lowers the program with mangling suffix `uuid`: one block per function,
    /// in order, then the anonymous blocks its instructions make, then the
    /// flush into scripts. The table it flushes is well formed: its block ids
    /// are exactly `1..=K`.
    pub fn generate_with_uuid(&self, uuid: u64) -> (r: Result<Vec<Script>, GenerateError>)
        ensures
            r is Ok <==> fits(self@) && refs_defined(self@) && no_clash(self@),
            r matches Err(GenerateError::TooManyBlocks) ==> !fits(self@),
            r matches Err(GenerateError::UndefinedLabel(l)) ==> fits(self@) && referenced(self@, l@)
                && !defines(self@, l@),
            r matches Err(GenerateError::ReservedLabel(l)) ==> fits(self@) && refs_defined(self@)
                && defines(self@, l@) && clashes(self@, l@),
            r is Ok ==> scripts_view(r->Ok_0@) == compiled(self@, uuid),
            r is Ok ==> lowered(self@, uuid).wf(),
    {
        if !self.fits_exec() {
            return Err(GenerateError::TooManyBlocks);
        }
        match self.undefined_label() {
            Some(l) => return Err(GenerateError::UndefinedLabel(l)),
            None => {},
        }
        match self.clashing_label() {
            Some(l) => return Err(GenerateError::ReservedLabel(l)),
            None => {},
        }
        let fs = self.functions();
        let ctx = insert_labels(fs, uuid);
        let ctx = lower_all(fs, ctx);
        assert(funcs_view(fs@) =~= self@);
        Ok(ctx.generate())
    }

    /// Lowers the program with a mangling suffix drawn at random.
    pub fn generate(&self) -> (r: Result<Vec<Script>, GenerateError>)
        ensures
            r is Ok <==> fits(self@) && refs_defined(self@) && no_clash(self@),
            r matches Err(GenerateError::TooManyBlocks) ==> !fits(self@),
            r matches Err(GenerateError::UndefinedLabel(l)) ==> fits(self@) && referenced(self@, l@)
                && !defines(self@, l@),
            r matches Err(GenerateError::ReservedLabel(l)) ==> fits(self@) && refs_defined(self@)
                && defines(self@, l@) && clashes(self@, l@),
            r is Ok ==> exists|uuid: u64| scripts_view(r->Ok_0@) == #[trigger] compiled(self@, uuid),
    {
        self.generate_with_uuid(random_u64())
    }
}

} // verus!
