//! The host commands that every generator emits, as spec functions over
//! character sequences and as executable writers that append them.
use vstd::prelude::*;
use crate::names::PREFIX;
use crate::text::{dec, digit_char, hex};

verus! {

/// `s` holds no line break.
pub open spec fn one_line(s: Seq<char>) -> bool {
    forall|i: int| 0 <= i < s.len() ==> s[i] != '\n'
}

/// `t` followed by a line break.
pub open spec fn line(t: Seq<char>) -> Seq<char> {
    t + "\n"@
}

/// The score of objective `obj` held by the machine's player.
pub open spec fn score(obj: Seq<char>) -> Seq<char> {
    PREFIX@ + " "@ + obj
}

/// `scoreboard players set <player> <obj> <v>`
pub open spec fn set_cmd(obj: Seq<char>, v: Seq<char>) -> Seq<char> {
    "scoreboard players set "@ + score(obj) + " "@ + v
}

/// `scoreboard players add <player> <obj> <v>`
pub open spec fn add_cmd(obj: Seq<char>, v: Seq<char>) -> Seq<char> {
    "scoreboard players add "@ + score(obj) + " "@ + v
}

/// `scoreboard players operation <player> <dst> <op> <player> <src>`
pub open spec fn op_cmd(dst: Seq<char>, op: Seq<char>, src: Seq<char>) -> Seq<char> {
    "scoreboard players operation "@ + score(dst) + " "@ + op + " "@ + score(src)
}

/// `function <name>`
pub open spec fn func_cmd(name: Seq<char>) -> Seq<char> {
    "function "@ + name
}

/// `execute <cond> score <player> <obj> <test> run <cmd>`, where `cond` is
/// `if` or `unless`.
pub open spec fn cond_cmd(cond: Seq<char>, obj: Seq<char>, test: Seq<char>, cmd: Seq<char>) -> Seq<char> {
    "execute "@ + cond + " score "@ + score(obj) + " "@ + test + " run "@ + cmd
}

/// `matches <range>`
pub open spec fn matches_test(range: Seq<char>) -> Seq<char> {
    "matches "@ + range
}

pub proof fn lemma_one_line_concat(a: Seq<char>, b: Seq<char>)
    ensures
        one_line(a + b) <==> one_line(a) && one_line(b),
{
    if one_line(a) && one_line(b) {
        assert forall|i: int| 0 <= i < (a + b).len() implies (a + b)[i] != '\n' by {
            if i >= a.len() {
                assert((a + b)[i] == b[i - a.len()]);
            }
        }
    }
    if one_line(a + b) {
        assert forall|i: int| 0 <= i < b.len() implies b[i] != '\n' by {
            assert((a + b)[i + a.len()] == b[i]);
        }
        assert forall|i: int| 0 <= i < a.len() implies a[i] != '\n' by {
            assert((a + b)[i] == a[i]);
        }
    }
}

pub proof fn lemma_dec_one_line(n: nat)
    ensures
        one_line(dec(n)),
    decreases n,
{
    if n >= 10 {
        lemma_dec_one_line(n / 10);
        lemma_one_line_concat(dec(n / 10), seq![digit_char(n % 10)]);
        assert(dec(n) =~= dec(n / 10) + seq![digit_char(n % 10)]);
    }
}

pub proof fn lemma_hex_one_line(n: nat)
    ensures
        one_line(hex(n)),
    decreases n,
{
    if n >= 16 {
        lemma_hex_one_line(n / 16);
        lemma_one_line_concat(hex(n / 16), seq![digit_char(n % 16)]);
        assert(hex(n) =~= hex(n / 16) + seq![digit_char(n % 16)]);
    }
}

pub proof fn lemma_score_one_line(obj: Seq<char>)
    requires
        one_line(obj),
    ensures
        one_line(score(obj)),
{
    reveal_strlit("MCVM_Memory");
    reveal_strlit(" ");
    lemma_one_line_concat(PREFIX@, " "@);
    lemma_one_line_concat(PREFIX@ + " "@, obj);
}

pub proof fn lemma_op_cmd_one_line(dst: Seq<char>, op: Seq<char>, src: Seq<char>)
    requires
        one_line(dst),
        one_line(op),
        one_line(src),
    ensures
        one_line(op_cmd(dst, op, src)),
{
    reveal_strlit("scoreboard players operation ");
    reveal_strlit(" ");
    lemma_score_one_line(dst);
    lemma_score_one_line(src);
    let a = "scoreboard players operation "@;
    lemma_one_line_concat(a, score(dst));
    lemma_one_line_concat(a + score(dst), " "@);
    lemma_one_line_concat(a + score(dst) + " "@, op);
    lemma_one_line_concat(a + score(dst) + " "@ + op, " "@);
    lemma_one_line_concat(a + score(dst) + " "@ + op + " "@, score(src));
}

pub proof fn lemma_func_cmd_one_line(name: Seq<char>)
    requires
        one_line(name),
    ensures
        one_line(func_cmd(name)),
{
    reveal_strlit("function ");
    lemma_one_line_concat("function "@, name);
}

/// Appends `<player> <obj>`.
pub fn push_score(s: &mut String, obj: &str)
    ensures
        final(s)@ == old(s)@ + score(obj@),
{
    s.append(PREFIX);
    s.append(" ");
    s.append(obj);
    assert(s@ =~= old(s)@ + score(obj@));
}

/// Appends `scoreboard players set <player> <obj> ` and leaves the value to
/// the caller.
pub fn push_set_head(s: &mut String, obj: &str)
    ensures
        final(s)@ == old(s)@ + "scoreboard players set "@ + score(obj@) + " "@,
{
    s.append("scoreboard players set ");
    push_score(s, obj);
    s.append(" ");
}

/// Appends `scoreboard players add <player> <obj> ` and leaves the value to
/// the caller.
pub fn push_add_head(s: &mut String, obj: &str)
    ensures
        final(s)@ == old(s)@ + "scoreboard players add "@ + score(obj@) + " "@,
{
    s.append("scoreboard players add ");
    push_score(s, obj);
    s.append(" ");
}

/// Appends an `operation` command.
pub fn push_op(s: &mut String, dst: &str, op: &str, src: &str)
    ensures
        final(s)@ == old(s)@ + op_cmd(dst@, op@, src@),
{
    s.append("scoreboard players operation ");
    push_score(s, dst);
    s.append(" ");
    s.append(op);
    s.append(" ");
    push_score(s, src);
    assert(s@ =~= old(s)@ + op_cmd(dst@, op@, src@));
}

/// Appends `execute <cond> score <player> <obj> ` and leaves the test and
/// the command to the caller.
pub fn push_cond_head(s: &mut String, cond: &str, obj: &str)
    ensures
        final(s)@ == old(s)@ + "execute "@ + cond@ + " score "@ + score(obj@) + " "@,
{
    s.append("execute ");
    s.append(cond);
    s.append(" score ");
    push_score(s, obj);
    s.append(" ");
}

} // verus!
