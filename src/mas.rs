//! The MAS program: registers, operators, instructions and labelled functions,
//! with their mathematical views.
use vstd::prelude::*;
use crate::command::one_line;

verus! {

#[derive(Clone, Copy, Debug, PartialEq, Eq, Structural)]
pub enum Register {
    R0,
    R1,
    R2,
    R3,
}

#[derive(Clone, Copy, Debug, PartialEq, Eq, Structural)]
pub enum CmpOp {
    LessThan,
    GreaterThan,
    LessEq,
    GreaterEq,
    Equals,
    NotEquals,
}

#[derive(Clone, Copy, Debug, PartialEq, Eq, Structural)]
pub enum CalcOp {
    Add,
    Sub,
    Mul,
    Div,
    Rem,
    Min,
    Max,
}

/// Operand of `cmpin`: one value, or a range whose bounds may be open.
#[derive(Clone, Copy, Debug, PartialEq, Eq, Structural)]
pub enum ExprCmpIn {
    Value(i32),
    Range(Option<i32>, Option<i32>),
}

/// One MAS instruction. String operands hold the source text between the
/// quotes, escapes included; label operands hold the label's name.
#[derive(Clone, Debug, PartialEq, Eq)]
pub enum Instruction {
    RawCommand(String),
    Debug { line: usize, info: String },
    Log(String),
    Move { dst: Register, src: Register },
    SetConst { dst: Register, value: i32 },
    Load { addr: i32 },
    Store { addr: i32 },
    Compare(CmpOp),
    CompareIn { not: bool, opr: ExprCmpIn },
    Branch(String),
    BranchIf(String),
    BranchIfNot(String),
    Calculate(CalcOp),
    Random { dst: Register, min: i32, max: i32 },
    Call { offset_inc: i32, label: String },
    Yield,
    Return,
}

/// The view of an `Instruction`: its strings as character sequences.
pub enum Inst {
    RawCommand(Seq<char>),
    Debug { line: nat, info: Seq<char> },
    Log(Seq<char>),
    Move { dst: Register, src: Register },
    SetConst { dst: Register, value: i32 },
    Load { addr: i32 },
    Store { addr: i32 },
    Compare(CmpOp),
    CompareIn { not: bool, opr: ExprCmpIn },
    Branch(Seq<char>),
    BranchIf(Seq<char>),
    BranchIfNot(Seq<char>),
    Calculate(CalcOp),
    Random { dst: Register, min: i32, max: i32 },
    Call { offset_inc: i32, label: Seq<char> },
    Yield,
    Return,
}

impl View for Instruction {
    type V = Inst;

    open spec fn view(&self) -> Inst {
        match self {
            Instruction::RawCommand(s) => Inst::RawCommand(s@),
            Instruction::Debug { line, info } => Inst::Debug { line: *line as nat, info: info@ },
            Instruction::Log(s) => Inst::Log(s@),
            Instruction::Move { dst, src } => Inst::Move { dst: *dst, src: *src },
            Instruction::SetConst { dst, value } => Inst::SetConst { dst: *dst, value: *value },
            Instruction::Load { addr } => Inst::Load { addr: *addr },
            Instruction::Store { addr } => Inst::Store { addr: *addr },
            Instruction::Compare(op) => Inst::Compare(*op),
            Instruction::CompareIn { not, opr } => Inst::CompareIn { not: *not, opr: *opr },
            Instruction::Branch(l) => Inst::Branch(l@),
            Instruction::BranchIf(l) => Inst::BranchIf(l@),
            Instruction::BranchIfNot(l) => Inst::BranchIfNot(l@),
            Instruction::Calculate(op) => Inst::Calculate(*op),
            Instruction::Random { dst, min, max } => Inst::Random { dst: *dst, min: *min, max: *max },
            Instruction::Call { offset_inc, label } => Inst::Call {
                offset_inc: *offset_inc,
                label: label@,
            },
            Instruction::Yield => Inst::Yield,
            Instruction::Return => Inst::Return,
        }
    }
}

/// A labelled function: its name, its formal parameters and its body.
#[derive(Clone, Debug, PartialEq, Eq)]
pub struct Function {
    pub name: String,
    pub args: Vec<String>,
    pub instructions: Vec<Instruction>,
}

/// The view of a `Function`.
pub struct Func {
    pub name: Seq<char>,
    pub args: Seq<Seq<char>>,
    pub instructions: Seq<Inst>,
}

pub open spec fn strings_view(v: Seq<String>) -> Seq<Seq<char>> {
    v.map_values(|s: String| s@)
}

pub open spec fn insts_view(v: Seq<Instruction>) -> Seq<Inst> {
    v.map_values(|i: Instruction| i@)
}

impl View for Function {
    type V = Func;

    open spec fn view(&self) -> Func {
        Func {
            name: self.name@,
            args: strings_view(self.args@),
            instructions: insts_view(self.instructions@),
        }
    }
}

pub open spec fn funcs_view(v: Seq<Function>) -> Seq<Func> {
    v.map_values(|f: Function| f@)
}

/// Function names are unique and each is a single line.
pub open spec fn names_ok(fs: Seq<Func>) -> bool {
    &&& forall|i: int, j: int|
        0 <= i < j < fs.len() ==> (#[trigger] fs[i]).name != (#[trigger] fs[j]).name
    &&& forall|i: int| 0 <= i < fs.len() ==> one_line(#[trigger] fs[i].name)
}

/// A parsed MAS program: its functions in source order, names unique.
#[derive(Debug)]
pub struct VirtualMachine {
    pub(crate) blocks: Vec<Function>,
}

impl View for VirtualMachine {
    type V = Seq<Func>;

    closed spec fn view(&self) -> Seq<Func> {
        funcs_view(self.blocks@)
    }
}

impl VirtualMachine {
    #[verifier::type_invariant]
    spec fn inv(&self) -> bool {
        names_ok(funcs_view(self.blocks@))
    }

    pub(crate) fn from_functions(blocks: Vec<Function>) -> (r: VirtualMachine)
        requires
            names_ok(funcs_view(blocks@)),
        ensures
            r@ == funcs_view(blocks@),
    {
        VirtualMachine { blocks }
    }

    pub(crate) proof fn lemma_view(&self)
        ensures
            self@ == funcs_view(self.blocks@),
    {
    }

    /// The functions, in source order.
    pub fn functions(&self) -> (r: &Vec<Function>)
        ensures
            funcs_view(r@) == self@,
            names_ok(self@),
    {
        proof {
            self.lemma_view();
            use_type_invariant(self);
        }
        &self.blocks
    }
}

} // verus!
