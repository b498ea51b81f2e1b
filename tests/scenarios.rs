use mcvm::dispatch::Script;
use mcvm::generate::GenerateError;
use mcvm::mas::VirtualMachine;
use mcvm::memory::generate_module_memory;

fn compile(src: &str) -> Vec<Script> {
    let vm = VirtualMachine::parse(src).expect("program parses");
    vm.generate_with_uuid(0).expect("program lowers")
}

fn script<'a>(scripts: &'a [Script], name: &str) -> &'a str {
    scripts
        .iter()
        .find(|s| s.name == name)
        .map(|s| s.content.as_str())
        .unwrap_or_else(|| panic!("no script named {name}"))
}

const POINTER_STORE: &str = "scoreboard players set MCVM_Memory Pointer 0\n\
scoreboard players operation MCVM_Memory Pointer += MCVM_Memory Offset\n\
function store\n";

#[test]
fn empty_program() {
    let scripts = compile("main:\n");
    assert_eq!(script(&scripts, "main"), "");
    assert_eq!(
        script(&scripts, "exec"),
        "execute if score MCVM_Memory Pc matches 2.. run say mcvm fatal error: pointer out of range\n\
execute if score MCVM_Memory Pc matches ..1 run function exec/SearchPoint_N1"
    );
    assert_eq!(
        script(&scripts, "exec/SearchPoint_N1"),
        "execute if score MCVM_Memory Pc matches 1 run function main\n\
execute if score MCVM_Memory Pc matches 0 run function nonexistence"
    );
    assert_eq!(scripts.len(), 3);
    let memory = generate_module_memory(128).expect("128 is a power of two");
    let init = script(&memory, "init");
    assert!(init.starts_with("scoreboard players reset MCVM_Memory\n"));
    for name in ["Pointer", "Offset", "Pc", "R0", "R1", "R2", "R3", "Mem0", "Mem127"] {
        let declared = format!(
            "scoreboard objectives add {name} dummy\nscoreboard players set MCVM_Memory {name} 0\n"
        );
        assert!(init.contains(&declared), "{name} is not declared");
    }
    assert!(!init.contains("Mem128 "));
}

#[test]
fn immediate_halt() {
    let scripts = compile("main:\n  set R0 42\n");
    assert_eq!(script(&scripts, "main"), "scoreboard players set MCVM_Memory R0 42\n");
}

#[test]
fn unconditional_branch_tail_is_dead() {
    let scripts = compile("main:\n  b next\n  set R0 99\nnext:\n  set R0 1\n");
    assert_eq!(
        script(&scripts, "main"),
        "scoreboard players set MCVM_Memory Pc 2\nfunction MCVM_Memory_next_mangled_0\n"
    );
    assert_eq!(
        script(&scripts, "MCVM_Memory__anonymous_0_mangled_0"),
        "scoreboard players set MCVM_Memory R0 99\n"
    );
    assert_eq!(
        script(&scripts, "MCVM_Memory_next_mangled_0"),
        "scoreboard players set MCVM_Memory R0 1\n"
    );
    for s in scripts.iter().filter(|s| !s.name.starts_with("exec")) {
        assert!(!s.content.contains("function MCVM_Memory__anonymous_0_mangled_0"));
    }
}

#[test]
fn call_and_return() {
    let scripts = compile("main:\n  call 0 f\n  set R0 7\nf:\n  ret\n");
    let expected_main = format!(
        "scoreboard players set MCVM_Memory R0 3\n{POINTER_STORE}\
scoreboard players add MCVM_Memory Offset 1\nfunction MCVM_Memory_f_mangled_0\n"
    );
    assert_eq!(script(&scripts, "main"), expected_main);
    assert_eq!(
        script(&scripts, "MCVM_Memory__anonymous_0_mangled_0"),
        "scoreboard players add MCVM_Memory Offset -1\nscoreboard players set MCVM_Memory R0 7\n"
    );
    assert_eq!(
        script(&scripts, "MCVM_Memory_f_mangled_0"),
        "scoreboard players set MCVM_Memory Pointer -1\n\
scoreboard players operation MCVM_Memory Pointer += MCVM_Memory Offset\n\
function load\n\
scoreboard players operation MCVM_Memory Pc = MCVM_Memory R0\n\
function exec\n"
    );
    assert!(script(&scripts, "exec/SearchPoint_N3").contains("matches 3 run function MCVM_Memory__anonymous_0_mangled_0"));
}

#[test]
fn cmpin_range() {
    let scripts = compile("main:\n  cmpin 0..10\n");
    assert_eq!(
        script(&scripts, "main"),
        "execute if score MCVM_Memory R0 matches 0..10 run scoreboard players set MCVM_Memory R0 1\n\
execute unless score MCVM_Memory R0 matches 1 run scoreboard players set MCVM_Memory R0 0\n"
    );
}

#[test]
fn memory_size_must_be_power_of_two() {
    let err = generate_module_memory(100).unwrap_err();
    assert!(err.message().contains("power of 2"));
    assert!(generate_module_memory(0).is_err());
    assert_eq!(generate_module_memory(4).unwrap().len(), 4 * 3 + 1);
}

#[test]
fn undefined_label_is_rejected() {
    let vm = VirtualMachine::parse("main:\n  b nowhere\n").unwrap();
    assert_eq!(
        vm.generate_with_uuid(0).unwrap_err(),
        GenerateError::UndefinedLabel("nowhere".to_string())
    );
}

#[test]
fn reserved_label_is_rejected() {
    let vm = VirtualMachine::parse("main:\n  b _anonymous_0\n_anonymous_0:\n  ret\n").unwrap();
    assert_eq!(
        vm.generate_with_uuid(0).unwrap_err(),
        GenerateError::ReservedLabel("_anonymous_0".to_string())
    );
}

#[test]
fn generate_with_random_suffix() {
    let vm = VirtualMachine::parse("main:\n  b f\nf:\n  yield\n").unwrap();
    let scripts = vm.generate().unwrap();
    let main = script(&scripts, "main");
    assert!(main.starts_with("scoreboard players set MCVM_Memory Pc 2\nfunction MCVM_Memory_f_mangled_"));
}

#[test]
fn labels_that_no_anonymous_block_takes_are_accepted() {
    let scripts = compile("main:\n  b _anonymous_zz\n_anonymous_zz:\n  b _anonymous_5\n_anonymous_5:\n  ret\n");
    assert_eq!(
        script(&scripts, "MCVM_Memory__anonymous_zz_mangled_0"),
        "scoreboard players set MCVM_Memory Pc 3\nfunction MCVM_Memory__anonymous_5_mangled_0\n"
    );
    assert!(scripts.iter().any(|s| s.name == "MCVM_Memory__anonymous_2_mangled_0"));
}

#[test]
fn label_of_a_made_anonymous_block_is_rejected() {
    let vm = VirtualMachine::parse("main:\n  b _anonymous_1\n_anonymous_1:\n  b main\n").unwrap();
    assert_eq!(
        vm.generate_with_uuid(0).unwrap_err(),
        GenerateError::ReservedLabel("_anonymous_1".to_string())
    );
}

#[test]
fn dunder_main_is_the_entry() {
    let scripts = compile("__main__:\n  set R1 5\n");
    assert_eq!(script(&scripts, "main"), "scoreboard players set MCVM_Memory R1 5\n");
}
