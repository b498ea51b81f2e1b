//! The memory module: `load`, `store` and `swap` dispatch trees over the
//! memory cells, and the `init` script that declares every objective.
use vstd::prelude::*;
use crate::command::{
    lemma_dec_one_line, lemma_one_line_concat, lemma_op_cmd_one_line, line, one_line, op_cmd,
    push_op, push_set_head, set_cmd,
};
use crate::mas::strings_view;
use crate::dispatch::{gen_bin_search, is_pow2, scripts_view, tree_scripts, DispatchError, Script};
use crate::names::{
    FUNC_INIT, FUNC_LOAD, FUNC_STORE, FUNC_SWAP, MEM_CELL, MEM_OFFSET, MEM_POINTER, PREFIX,
    PROGRAM_COUNTER, REG_R0, REG_R1, REG_R2, REG_R3,
};
use crate::text::{dec, push_dec};

verus! {

/// Objective of memory cell `n`.
pub open spec fn mem_name(n: nat) -> Seq<char> {
    MEM_CELL@ + dec(n)
}

/// What `load` runs for cell `n`: copy the cell into `R0`.
pub open spec fn load_action(n: nat) -> Seq<char> {
    op_cmd(REG_R0@, "="@, mem_name(n))
}

/// What `store` runs for cell `n`: copy `R0` into the cell.
pub open spec fn store_action(n: nat) -> Seq<char> {
    op_cmd(mem_name(n), "="@, REG_R0@)
}

/// What `swap` runs for cell `n`: exchange the cell and `R0`.
pub open spec fn swap_action(n: nat) -> Seq<char> {
    op_cmd(mem_name(n), "><"@, REG_R0@)
}

/// The objectives that `init` declares: the cells, then the reserved ones.
pub open spec fn objectives(size: nat) -> Seq<Seq<char>> {
    Seq::new(size, |i: int| mem_name(i as nat)) + seq![
        MEM_POINTER@,
        MEM_OFFSET@,
        PROGRAM_COUNTER@,
        REG_R0@,
        REG_R1@,
        REG_R2@,
        REG_R3@,
    ]
}

/// Declares objective `name` and sets the machine's score in it to zero.
pub open spec fn declaration(name: Seq<char>) -> Seq<char> {
    line("scoreboard objectives add "@ + name + " dummy"@) + line(set_cmd(name, "0"@))
}

pub open spec fn declarations(names: Seq<Seq<char>>) -> Seq<char>
    decreases names.len(),
{
    if names.len() == 0 {
        Seq::empty()
    } else {
        declarations(names.drop_last()) + declaration(names.last())
    }
}

/// Text of `init`: forget the machine's scores, then declare every objective.
pub open spec fn init_text(size: nat) -> Seq<char> {
    line("scoreboard players reset "@ + PREFIX@) + declarations(objectives(size))
}

/// The scripts of the memory module over `size` cells: the `load`, `store`
/// and `swap` trees, then `init`.
pub open spec fn memory_scripts(size: nat) -> Seq<(Seq<char>, Seq<char>)> {
    tree_scripts(FUNC_LOAD@, MEM_POINTER@, Seq::new(size, |i: int| load_action(i as nat)))
        + tree_scripts(FUNC_STORE@, MEM_POINTER@, Seq::new(size, |i: int| store_action(i as nat)))
        + tree_scripts(FUNC_SWAP@, MEM_POINTER@, Seq::new(size, |i: int| swap_action(i as nat)))
        + seq![(FUNC_INIT@, init_text(size))]
}

fn nth_mem_name(nth: usize) -> (r: String)
    ensures
        r@ == mem_name(nth as nat),
{
    let mut s = String::from_str(MEM_CELL);
    push_dec(&mut s, nth as u64);
    s
}

proof fn lemma_mem_name_one_line(n: nat)
    ensures
        one_line(mem_name(n)),
{
    reveal_strlit("Mem");
    lemma_dec_one_line(n);
    lemma_one_line_concat(MEM_CELL@, dec(n));
}

/// The actions of one memory tree; `kind` 0 loads, 1 stores, 2 swaps.
fn memory_actions(size: usize, kind: u8) -> (r: Vec<String>)
    requires
        kind < 3,
    ensures
        r.len() == size,
        forall|i: int| 0 <= i < size ==> one_line(#[trigger] r@[i]@),
        kind == 0 ==> strings_view(r@) == Seq::new(size as nat, |i: int| load_action(i as nat)),
        kind == 1 ==> strings_view(r@) == Seq::new(size as nat, |i: int| store_action(i as nat)),
        kind == 2 ==> strings_view(r@) == Seq::new(size as nat, |i: int| swap_action(i as nat)),
{
    let mut r: Vec<String> = Vec::new();
    let mut nth: usize = 0;
    while nth < size
        invariant
            nth <= size,
            r.len() == nth,
            kind < 3,
            forall|i: int| 0 <= i < nth ==> one_line(#[trigger] r@[i]@),
            kind == 0 ==> strings_view(r@) =~= Seq::new(nth as nat, |i: int| load_action(i as nat)),
            kind == 1 ==> strings_view(r@) =~= Seq::new(nth as nat, |i: int| store_action(i as nat)),
            kind == 2 ==> strings_view(r@) =~= Seq::new(nth as nat, |i: int| swap_action(i as nat)),
        decreases size - nth,
    {
        let cell = nth_mem_name(nth);
        let mut a = String::new();
        proof {
            reveal_strlit("R0");
            reveal_strlit("=");
            reveal_strlit("><");
            lemma_mem_name_one_line(nth as nat);
        }
        if kind == 0 {
            push_op(&mut a, REG_R0, "=", cell.as_str());
            proof {
                lemma_op_cmd_one_line(REG_R0@, "="@, cell@);
            }
        } else if kind == 1 {
            push_op(&mut a, cell.as_str(), "=", REG_R0);
            proof {
                lemma_op_cmd_one_line(cell@, "="@, REG_R0@);
            }
        } else {
            push_op(&mut a, cell.as_str(), "><", REG_R0);
            proof {
                lemma_op_cmd_one_line(cell@, "><"@, REG_R0@);
            }
        }
        assert(a@ =~= Seq::<char>::empty() + a@);
        let ghost before = r@;
        r.push(a);
        assert(strings_view(r@) =~= strings_view(before).push(a@));
        nth = nth + 1;
    }
    r
}

/// Appends the declaration of objective `name`.
fn push_declaration(s: &mut String, name: &str)
    ensures
        final(s)@ == old(s)@ + declaration(name@),
{
    s.append("scoreboard objectives add ");
    s.append(name);
    s.append(" dummy");
    s.append("\n");
    push_set_head(s, name);
    s.append("0");
    s.append("\n");
    assert(s@ =~= old(s)@ + declaration(name@));
}

/// The text of the `init` script for `size` cells.
fn init_memory(size: usize) -> (r: String)
    ensures
        r@ == init_text(size as nat),
{
    let ghost names = objectives(size as nat);
    let mut s = String::from_str("scoreboard players reset ");
    s.append(PREFIX);
    s.append("\n");
    let ghost head = s@;
    let mut nth: usize = 0;
    while nth < size
        invariant
            nth <= size,
            names == objectives(size as nat),
            s@ == head + declarations(names.take(nth as int)),
        decreases size - nth,
    {
        let cell = nth_mem_name(nth);
        push_declaration(&mut s, cell.as_str());
        assert(names.take(nth + 1).drop_last() =~= names.take(nth as int));
        nth = nth + 1;
    }
    let reserved: [&str; 7] = [
        MEM_POINTER,
        MEM_OFFSET,
        PROGRAM_COUNTER,
        REG_R0,
        REG_R1,
        REG_R2,
        REG_R3,
    ];
    let mut j: usize = 0;
    while j < 7
        invariant
            j <= 7,
            names == objectives(size as nat),
            reserved@ == seq![MEM_POINTER, MEM_OFFSET, PROGRAM_COUNTER, REG_R0, REG_R1, REG_R2, REG_R3],
            s@ == head + declarations(names.take(size + j)),
        decreases 7 - j,
    {
        push_declaration(&mut s, reserved[j]);
        assert(names.take(size + j + 1).drop_last() =~= names.take(size + j));
        j = j + 1;
    }
    assert(names.take(size + 7) =~= names);
    s
}

/// Builds the memory module over `size` cells. Fails when `size` is not a
/// power of 2, before building anything.
pub fn generate_module_memory(size: usize) -> (r: Result<Vec<Script>, DispatchError>)
    ensures
        r is Err <==> !is_pow2(size as nat),
        r is Ok ==> scripts_view(r->Ok_0@) == memory_scripts(size as nat),
{
    let load = memory_actions(size, 0);
    let store = memory_actions(size, 1);
    let swap = memory_actions(size, 2);
    let mut out = match gen_bin_search(FUNC_LOAD, MEM_POINTER, &load) {
        Ok(v) => v,
        Err(e) => return Err(e),
    };
    let mut store_tree = match gen_bin_search(FUNC_STORE, MEM_POINTER, &store) {
        Ok(v) => v,
        Err(e) => return Err(e),
    };
    let mut swap_tree = match gen_bin_search(FUNC_SWAP, MEM_POINTER, &swap) {
        Ok(v) => v,
        Err(e) => return Err(e),
    };
    let ghost (a, b, c) = (out@, store_tree@, swap_tree@);
    out.append(&mut store_tree);
    out.append(&mut swap_tree);
    let init = Script { name: String::from_str(FUNC_INIT), content: init_memory(size) };
    out.push(init);
    assert(scripts_view(out@) =~= scripts_view(a) + scripts_view(b) + scripts_view(c) + seq![init@]);
    Ok(out)
}

} // verus!
