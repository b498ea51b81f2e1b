use mcvm::ctx::Context;
use mcvm::generate::translate;
use mcvm::mas::{CmpOp, Instruction, Register};

#[test]
fn labels_get_dense_ids_and_mangled_names() {
    let mut ctx = Context::with_uuid(255);
    assert_eq!(ctx.insert_label("main", false), 1);
    assert_eq!(ctx.insert_label("f", true), 2);
    let anon = ctx.new_anonymous_label();
    assert_eq!(anon, "_anonymous_0");
    assert_eq!(ctx.new_anonymous_label(), "_anonymous_1");
    assert_eq!(ctx.block_count(), 4);
    assert_eq!(ctx.get_label("main").fn_name(), "main");
    assert_eq!(ctx.get_label("f").fn_name(), "MCVM_Memory_f_mangled_ff");
    let b = ctx.get_label(&anon);
    assert_eq!(b.id(), 3);
    assert_eq!(b.fn_name(), "MCVM_Memory__anonymous_0_mangled_ff");
    assert_eq!(b.label(), "_anonymous_0");
    let ids: Vec<u64> = ctx.blocks().iter().map(|b| b.id()).collect();
    assert_eq!(ids, vec![1, 2, 3, 4]);
    assert_eq!(ctx.find_label("g"), None);
    assert_eq!(ctx.find_label("f"), Some(1));
}

#[test]
fn flush_pads_the_dispatcher_to_a_power_of_two() {
    let mut ctx = Context::with_uuid(1);
    ctx.insert_label("main", false);
    ctx.insert_label("a", true);
    ctx.insert_label("b", true);
    ctx.push_str("a", "say a\n");
    let scripts = ctx.generate();
    assert_eq!(scripts.len(), 4 + 3);
    assert_eq!(scripts[0].name, "exec");
    assert!(scripts[0].content.starts_with(
        "execute if score MCVM_Memory Pc matches 4.. run say mcvm fatal error: pointer out of range\n"
    ));
    assert_eq!(
        scripts[3].content,
        "execute if score MCVM_Memory Pc matches 3 run function MCVM_Memory_b_mangled_1\n\
execute if score MCVM_Memory Pc matches 2 run function MCVM_Memory_a_mangled_1"
    );
    assert_eq!(scripts[5].name, "MCVM_Memory_a_mangled_1");
    assert_eq!(scripts[5].content, "say a\n");
}

#[test]
fn yield_switches_to_a_new_block_without_a_line_break() {
    let mut ctx = Context::with_uuid(0);
    ctx.insert_label("main", false);
    let next = translate("main", &mut ctx, &Instruction::Yield);
    assert_eq!(next, Some("_anonymous_0".to_string()));
    assert_eq!(ctx.get_label("main").content(), "scoreboard players set MCVM_Memory Pc 2");
    let same = translate(
        "_anonymous_0",
        &mut ctx,
        &Instruction::Compare(CmpOp::NotEquals),
    );
    assert_eq!(same, None);
    assert_eq!(
        ctx.get_label("_anonymous_0").content(),
        "execute unless score MCVM_Memory R0 = MCVM_Memory R1 run scoreboard players set MCVM_Memory R0 1\n\
execute unless score MCVM_Memory R0 matches 1 run scoreboard players set MCVM_Memory R0 0\n"
    );
    translate("main", &mut ctx, &Instruction::Move { dst: Register::R2, src: Register::R3 });
    assert!(ctx.get_label("main").content().ends_with("scoreboard players operation MCVM_Memory R2 = MCVM_Memory R3\n"));
}

#[test]
fn random_suffix_context_starts_empty() {
    let ctx = Context::new();
    assert_eq!(ctx.block_count(), 0);
}
