use mcvm::mas::{CalcOp, CmpOp, ExprCmpIn, Instruction, Register, VirtualMachine};
use mcvm::parse::{ParseError, ParseErrorKind};

fn insts(src: &str) -> Vec<Instruction> {
    let vm = VirtualMachine::parse(src).expect("program parses");
    vm.functions()[0].instructions.clone()
}

fn err(src: &str) -> ParseError {
    VirtualMachine::parse(src).expect_err("program is rejected")
}

#[test]
fn every_opcode_parses() {
    let src = "main(a, b):\n\
  cmd \"say \\\"hi\\\"\"\n\
  mov R1 R2\n\
  set R3 -7\n\
  load 4\n\
  store -1\n\
  cmp !=\n\
  cmp >=\n\
  cmpin not ..5\n\
  cmpin 3\n\
  b main\n\
  bi main\n\
  bn main\n\
  calc %\n\
  calc <\n\
  rand R0 1 6\n\
  call 2 main\n\
  ret\n\
  yield\n\
  log \"x\"\n\
  debug \"y\"\n";
    let vm = VirtualMachine::parse(src).unwrap();
    let f = &vm.functions()[0];
    assert_eq!(f.name, "main");
    assert_eq!(f.args, vec!["a".to_string(), "b".to_string()]);
    let l = |s: &str| s.to_string();
    assert_eq!(
        f.instructions,
        vec![
            Instruction::RawCommand(l("say \\\"hi\\\"")),
            Instruction::Move { dst: Register::R1, src: Register::R2 },
            Instruction::SetConst { dst: Register::R3, value: -7 },
            Instruction::Load { addr: 4 },
            Instruction::Store { addr: -1 },
            Instruction::Compare(CmpOp::NotEquals),
            Instruction::Compare(CmpOp::GreaterEq),
            Instruction::CompareIn { not: true, opr: ExprCmpIn::Range(None, Some(5)) },
            Instruction::CompareIn { not: false, opr: ExprCmpIn::Value(3) },
            Instruction::Branch(l("main")),
            Instruction::BranchIf(l("main")),
            Instruction::BranchIfNot(l("main")),
            Instruction::Calculate(CalcOp::Rem),
            Instruction::Calculate(CalcOp::Min),
            Instruction::Random { dst: Register::R0, min: 1, max: 6 },
            Instruction::Call { offset_inc: 2, label: l("main") },
            Instruction::Return,
            Instruction::Yield,
            Instruction::Log(l("x")),
            Instruction::Debug { line: 21, info: l("y") },
        ]
    );
}

#[test]
fn comments_blank_lines_and_crlf() {
    let src = "# header\r\n\r\nmain: # entry\r\n  set R0 1   # one\r\n\t\r\n  ret\r\n";
    assert_eq!(
        insts(src),
        vec![Instruction::SetConst { dst: Register::R0, value: 1 }, Instruction::Return]
    );
}

#[test]
fn integer_bounds() {
    assert_eq!(
        insts("main:\n  set R0 -2147483648\n  set R1 2147483647\n  set R2 +5\n"),
        vec![
            Instruction::SetConst { dst: Register::R0, value: i32::MIN },
            Instruction::SetConst { dst: Register::R1, value: i32::MAX },
            Instruction::SetConst { dst: Register::R2, value: 5 },
        ]
    );
    assert_eq!(err("main:\n  set R0 2147483648\n").kind, ParseErrorKind::BadOperand);
}

#[test]
fn debug_reports_its_source_line() {
    let src = "main:\n\n  # note\n  debug \"a\"\n  set R0 1\n  debug \"b\"\n";
    let got: Vec<usize> = insts(src)
        .iter()
        .filter_map(|i| match i {
            Instruction::Debug { line, .. } => Some(*line),
            _ => None,
        })
        .collect();
    assert_eq!(got, vec![4, 6]);
}

#[test]
fn duplicate_label_is_rejected() {
    assert_eq!(
        err("main:\n  ret\nf:\n  ret\nmain:\n"),
        ParseError { line: 5, kind: ParseErrorKind::DuplicateLabel }
    );
}

#[test]
fn instruction_outside_label_is_rejected() {
    assert_eq!(
        err("# first\n  set R0 1\nmain:\n"),
        ParseError { line: 2, kind: ParseErrorKind::MissingLabel }
    );
}

#[test]
fn unknown_opcode_is_rejected() {
    assert_eq!(
        err("main:\n  jump main\n"),
        ParseError { line: 2, kind: ParseErrorKind::UnknownOpcode }
    );
    assert_eq!(err("main:\n  bx main\n").kind, ParseErrorKind::UnknownOpcode);
}

#[test]
fn backslash_outside_strings_is_rejected() {
    assert_eq!(
        err("main:\n  set R0 \\1\n"),
        ParseError { line: 2, kind: ParseErrorKind::StrayBackslash }
    );
    assert_eq!(err("main:\n  log \"a\" \\\n").kind, ParseErrorKind::StrayBackslash);
    assert!(VirtualMachine::parse("main:\n  log \"a\\\\b\" # c \\ d\n").is_ok());
}

#[test]
fn malformed_operands_and_labels() {
    assert_eq!(err("main:\n  set R4 1\n").kind, ParseErrorKind::BadOperand);
    assert_eq!(err("main:\n  cmd \"open\n").kind, ParseErrorKind::BadOperand);
    assert_eq!(err("main:\n  ret now\n").kind, ParseErrorKind::BadOperand);
    assert_eq!(err("main(a,):\n").kind, ParseErrorKind::BadLabel);
    assert_eq!(err("main: ret\n").kind, ParseErrorKind::BadLabel);
}

#[test]
fn canonical_source_round_trips() {
    let src = "start( x ,y ):\n  cmd \"a\\\"b\"\n\tcmpin not 1..\n  calc >\n  b start # loop\nnext:\n  rand R2 -3 3\n  debug \"d\"\n  call -1 start\n";
    let vm = VirtualMachine::parse(src).unwrap();
    let printed = vm.to_source();
    assert_eq!(
        printed,
        "start(x, y):\n  cmd \"a\\\"b\"\n  cmpin not 1..\n  calc >\n  b start\nnext:\n  rand R2 -3 3\n  debug \"d\"\n  call -1 start\n"
    );
    let again = VirtualMachine::parse(&printed).unwrap();
    assert_eq!(again.to_source(), printed);
    assert_eq!(again.functions()[0].instructions, vm.functions()[0].instructions);
    assert_eq!(
        again.functions()[1].instructions[1],
        Instruction::Debug { line: 8, info: "d".to_string() }
    );
}
