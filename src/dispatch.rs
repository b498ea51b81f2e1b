//! The dispatch tree: a family of scripts that runs the `p`-th of `N` actions
//! when a pointer score holds `p`, by binary search over search points.
use vstd::prelude::*;
use crate::command::{cond_cmd, func_cmd, line, matches_test, one_line, push_cond_head, score};
use crate::mas::strings_view;
use crate::names::PREFIX;
use crate::text::{dec, push_dec};

verus! {

/// An emitted script: its path below the functions directory, without the
/// `.mcfunction` extension, and its text.
#[derive(Clone, Debug, PartialEq, Eq)]
pub struct Script {
    pub name: String,
    pub content: String,
}

impl View for Script {
    type V = (Seq<char>, Seq<char>);

    open spec fn view(&self) -> (Seq<char>, Seq<char>) {
        (self.name@, self.content@)
    }
}

pub open spec fn scripts_view(v: Seq<Script>) -> Seq<(Seq<char>, Seq<char>)> {
    v.map_values(|s: Script| s@)
}

/// Why no dispatch tree could be built.
#[derive(Clone, Copy, Debug, PartialEq, Eq, Structural)]
pub enum DispatchError {
    /// The number of actions is not a power of 2.
    NotPowerOfTwo,
}

impl DispatchError {
    /// A description of the error.
    pub fn message(&self) -> (r: String)
        ensures
            r@ == "dispatch size must be a power of 2"@,
    {
        String::from_str("dispatch size must be a power of 2")
    }
}

pub open spec fn is_pow2(n: nat) -> bool
    decreases n,
{
    if n <= 1 {
        n == 1
    } else {
        n % 2 == 0 && is_pow2(n / 2)
    }
}

/// The largest power of two that divides `k` (zero for zero).
pub open spec fn low_bit(k: nat) -> nat
    decreases k,
{
    if k == 0 {
        0
    } else if k % 2 == 1 {
        1
    } else {
        2 * low_bit(k / 2)
    }
}

/// Text of the fatal command run for a pointer out of range.
pub open spec fn out_of_range() -> Seq<char> {
    "say mcvm fatal error: pointer out of range"@
}

/// Script name of search point `k` of the tree entered at `cmd`.
pub open spec fn search_point_name(cmd: Seq<char>, k: nat) -> Seq<char> {
    cmd + "/SearchPoint_N"@ + dec(k)
}

/// `execute if score <player> <ptr> matches <range> run <cmd>`
pub open spec fn when_ptr(ptr: Seq<char>, range: Seq<char>, cmd: Seq<char>) -> Seq<char> {
    cond_cmd("if"@, ptr, matches_test(range), cmd)
}

/// Text of search point `k >= 1`. An odd `k` runs action `k` or action
/// `k - 1`; an even one bisects, into the point `low_bit(k) / 2` above it for
/// pointers from `k` on and into the one as far below it otherwise.
pub open spec fn search_point_text(
    cmd: Seq<char>,
    ptr: Seq<char>,
    actions: Seq<Seq<char>>,
    k: nat,
) -> Seq<char> {
    if k % 2 == 1 {
        line(when_ptr(ptr, dec(k), actions[k as int])) + when_ptr(
            ptr,
            dec((k - 1) as nat),
            actions[k - 1],
        )
    } else {
        let h = low_bit(k) / 2;
        line(when_ptr(ptr, dec(k) + ".."@, func_cmd(search_point_name(cmd, k + h)))) + when_ptr(
            ptr,
            ".."@ + dec((k - 1) as nat),
            func_cmd(search_point_name(cmd, (k - h) as nat)),
        )
    }
}

/// Text of the entry script of a tree over `actions.len() >= 1` actions.
pub open spec fn entry_text(cmd: Seq<char>, ptr: Seq<char>, actions: Seq<Seq<char>>) -> Seq<char> {
    let n = actions.len();
    line(when_ptr(ptr, dec(n) + ".."@, out_of_range())) + when_ptr(
        ptr,
        ".."@ + dec((n - 1) as nat),
        if n == 1 {
            actions[0]
        } else {
            func_cmd(search_point_name(cmd, n / 2))
        },
    )
}

/// The scripts of the tree: the entry at index 0, search point `k` at index `k`.
pub open spec fn tree_scripts(cmd: Seq<char>, ptr: Seq<char>, actions: Seq<Seq<char>>) -> Seq<
    (Seq<char>, Seq<char>),
> {
    Seq::new(
        actions.len(),
        |k: int|
            if k == 0 {
                (cmd, entry_text(cmd, ptr, actions))
            } else {
                (search_point_name(cmd, k as nat), search_point_text(cmd, ptr, actions, k as nat))
            },
    )
}

/// `n` is a power of two.
pub fn is_power_of_two(n: usize) -> (r: bool)
    ensures
        r == is_pow2(n as nat),
{
    let mut m = n;
    while m > 1 && m % 2 == 0
        invariant
            is_pow2(m as nat) == is_pow2(n as nat),
        decreases m,
    {
        m = m / 2;
    }
    m == 1
}

/// The largest power of two that divides `k > 0`.
fn lowest_bit(k: usize) -> (r: usize)
    requires
        k > 0,
    ensures
        r == low_bit(k as nat),
        1 <= r <= k,
    decreases k,
{
    if k % 2 == 1 {
        1
    } else {
        let h = lowest_bit(k / 2);
        2 * h
    }
}

fn bin_search_fn_name(id: &str, nth: usize) -> (r: String)
    ensures
        r@ == search_point_name(id@, nth as nat),
{
    let mut s = String::from_str(id);
    s.append("/SearchPoint_N");
    push_dec(&mut s, nth as u64);
    s
}

/// Appends `execute if score <player> <ptr> matches ` and leaves the range
/// and the command to the caller.
fn push_when_head(s: &mut String, ptr: &str)
    ensures
        final(s)@ == old(s)@ + "execute "@ + "if"@ + " score "@ + score(ptr@) + " "@ + "matches "@,
{
    push_cond_head(s, "if", ptr);
    s.append("matches ");
}

/// One line of a tree script: run `cmd` when the pointer matches `range`.
fn when_line(ptr: &str, range: &str, cmd: &str) -> (r: String)
    ensures
        r@ == when_ptr(ptr@, range@, cmd@),
{
    let mut s = String::new();
    push_cond_head(&mut s, "if", ptr);
    s.append("matches ");
    s.append(range);
    s.append(" run ");
    s.append(cmd);
    assert(s@ =~= when_ptr(ptr@, range@, cmd@));
    s
}

/// Decimal text of `n`.
fn dec_string(n: usize) -> (r: String)
    ensures
        r@ == dec(n as nat),
{
    let mut s = String::new();
    push_dec(&mut s, n as u64);
    assert(s@ =~= dec(n as nat));
    s
}

/// `<n>..`
fn from_range(n: usize) -> (r: String)
    ensures
        r@ == dec(n as nat) + ".."@,
{
    let mut s = String::new();
    push_dec(&mut s, n as u64);
    s.append("..");
    assert(s@ =~= dec(n as nat) + ".."@);
    s
}

/// `..<n>`
fn upto_range(n: usize) -> (r: String)
    ensures
        r@ == ".."@ + dec(n as nat),
{
    let mut s = String::from_str("..");
    push_dec(&mut s, n as u64);
    s
}

/// `function <name>`
fn call_string(name: &str) -> (r: String)
    ensures
        r@ == func_cmd(name@),
{
    let mut s = String::from_str("function ");
    s.append(name);
    s
}

/// Two lines joined by a line break.
fn two_lines(a: String, b: &str) -> (r: String)
    ensures
        r@ == line(a@) + b@,
{
    let mut s = a;
    s.append("\n");
    s.append(b);
    s
}

/// The text of search point `nth`.
fn bin_search(id: &str, pointer_reg: &str, nth: usize, actions: &Vec<String>) -> (r: String)
    requires
        1 <= nth < actions.len(),
        is_pow2(actions.len() as nat),
    ensures
        r@ == search_point_text(id@, pointer_reg@, strings_view(actions@), nth as nat),
{
    if nth % 2 == 1 {
        let first = when_line(pointer_reg, dec_string(nth).as_str(), actions[nth].as_str());
        let second = when_line(pointer_reg, dec_string(nth - 1).as_str(), actions[nth - 1].as_str());
        two_lines(first, second.as_str())
    } else {
        let half = lowest_bit(nth) / 2;
        proof {
            lemma_low_bit_even(nth as nat);
            lemma_low_bit_fits(actions.len() as nat, nth as nat);
        }
        let higher = nth + half;
        let lower = nth - half;
        let first = when_line(
            pointer_reg,
            from_range(nth).as_str(),
            call_string(bin_search_fn_name(id, higher).as_str()).as_str(),
        );
        let second = when_line(
            pointer_reg,
            upto_range(nth - 1).as_str(),
            call_string(bin_search_fn_name(id, lower).as_str()).as_str(),
        );
        two_lines(first, second.as_str())
    }
}

/// Below a power of two `s`, every `k > 0` ends at least `low_bit(k)` below `s`.
proof fn lemma_low_bit_fits(s: nat, k: nat)
    requires
        is_pow2(s),
        0 < k < s,
    ensures
        k + low_bit(k) <= s,
    decreases s,
{
    if k % 2 == 0 {
        lemma_low_bit_fits(s / 2, k / 2);
    }
}

proof fn lemma_low_bit_even(k: nat)
    requires
        k > 0,
        k % 2 == 0,
    ensures
        low_bit(k) >= 2,
        low_bit(k) % 2 == 0,
    decreases k,
{
    lemma_low_bit_pos(k / 2);
}

proof fn lemma_low_bit_pos(k: nat)
    requires
        k > 0,
    ensures
        low_bit(k) >= 1,
    decreases k,
{
    if k % 2 == 0 {
        lemma_low_bit_pos(k / 2);
    }
}

/// Builds the dispatch tree entered at script `cmd_name` that runs
/// `actions[p]` when score `pointer_reg` holds `p`, for every `p` below
/// `actions.len()`, and the fatal `out_of_range` command for every `p` from
/// there on. The number of actions must be a power of two; each action is
/// one command, without line breaks.
pub fn gen_bin_search(cmd_name: &str, pointer_reg: &str, actions: &Vec<String>) -> (r: Result<
    Vec<Script>,
    DispatchError,
>)
    requires
        forall|i: int| 0 <= i < actions.len() ==> one_line(#[trigger] actions@[i]@),
    ensures
        r is Err <==> !is_pow2(actions.len() as nat),
        r is Ok ==> scripts_view(r->Ok_0@) == tree_scripts(
            cmd_name@,
            pointer_reg@,
            strings_view(actions@),
        ),
{
    let size = actions.len();
    if !is_power_of_two(size) {
        return Err(DispatchError::NotPowerOfTwo);
    }
    let ghost acts = strings_view(actions@);
    let ghost want = tree_scripts(cmd_name@, pointer_reg@, acts);
    let first = when_line(
        pointer_reg,
        from_range(size).as_str(),
        "say mcvm fatal error: pointer out of range",
    );
    let target = if size == 1 {
        actions[0].clone()
    } else {
        call_string(bin_search_fn_name(cmd_name, size / 2).as_str())
    };
    let second = when_line(pointer_reg, upto_range(size - 1).as_str(), target.as_str());
    let entry = two_lines(first, second.as_str());
    let mut out: Vec<Script> = Vec::new();
    out.push(Script { name: String::from_str(cmd_name), content: entry });
    let mut nth: usize = 1;
    while nth < size
        invariant
            1 <= nth <= size,
            size == actions.len(),
            is_pow2(size as nat),
            want == tree_scripts(cmd_name@, pointer_reg@, acts),
            acts == strings_view(actions@),
            scripts_view(out@) =~= want.take(nth as int),
        decreases size - nth,
    {
        let content = bin_search(cmd_name, pointer_reg, nth, actions);
        let point = Script { name: bin_search_fn_name(cmd_name, nth), content };
        let ghost before = out@;
        out.push(point);
        assert(scripts_view(out@) =~= scripts_view(before).push(point@));
        nth = nth + 1;
    }
    assert(want.take(size as int) =~= want);
    Ok(out)
}

/// `2` to the power `d`.
pub open spec fn two_to(d: nat) -> nat
    decreases d,
{
    if d == 0 {
        1
    } else {
        2 * two_to((d - 1) as nat)
    }
}

/// The search point that a pointer holding `p` goes to from point `k`, as
/// `search_point_text` writes it.
pub open spec fn next_point(k: nat, p: int) -> nat {
    let h = low_bit(k) / 2;
    if p >= k {
        k + h
    } else {
        (k - h) as nat
    }
}

/// The search point reached from point `k` after `d` bisections.
pub open spec fn walk(k: nat, p: int, d: nat) -> nat
    decreases d,
{
    if d == 0 {
        k
    } else {
        walk(next_point(k, p), p, (d - 1) as nat)
    }
}

proof fn lemma_low_bit_odd_multiple(m: nat, d: nat)
    requires
        m % 2 == 1,
    ensures
        low_bit(m * two_to(d)) == two_to(d),
    decreases d,
{
    if d > 0 {
        let x = m * two_to(d);
        assert(x == 2 * (m * two_to((d - 1) as nat))) by (nonlinear_arith)
            requires
                x == m * two_to(d),
                two_to(d) == 2 * two_to((d - 1) as nat),
        ;
        lemma_two_to_pos((d - 1) as nat);
        assert(m * two_to((d - 1) as nat) > 0) by (nonlinear_arith)
            requires
                m >= 1,
                two_to((d - 1) as nat) >= 1,
        ;
        lemma_low_bit_odd_multiple(m, (d - 1) as nat);
        let y = m * two_to((d - 1) as nat);
        assert(x % 2 == 0 && x / 2 == y);
        assert(low_bit(x) == 2 * low_bit(y));
    } else {
        assert(two_to(0) == 1);
        assert(m * 1 == m);
    }
}

proof fn lemma_two_to_pos(d: nat)
    ensures
        two_to(d) >= 1,
    decreases d,
{
    if d > 0 {
        lemma_two_to_pos((d - 1) as nat);
    }
}

/// From point `k = m * 2^d` with `m` odd, a pointer within `2^d` of `k`
/// (from `k - 2^d` up to `k + 2^d - 1`) reaches, after `d` bisections, an
/// odd point `q` with the pointer at `q` or `q - 1`.
proof fn lemma_walk_reaches(m: nat, d: nat, p: int)
    requires
        m % 2 == 1,
        m * two_to(d) - two_to(d) <= p < m * two_to(d) + two_to(d),
    ensures
        walk(m * two_to(d), p, d) % 2 == 1,
        walk(m * two_to(d), p, d) == p || walk(m * two_to(d), p, d) == p + 1,
    decreases d,
{
    let k = m * two_to(d);
    if d == 0 {
        assert(two_to(0) == 1);
        assert(m * 1 == m);
    } else {
        let h = two_to((d - 1) as nat);
        lemma_two_to_pos((d - 1) as nat);
        lemma_low_bit_odd_multiple(m, d);
        assert(k == (2 * m) * h) by (nonlinear_arith)
            requires
                k == m * two_to(d),
                two_to(d) == 2 * h,
        ;
        if p >= k {
            let m2 = 2 * m + 1;
            assert(k + h == m2 * h) by (nonlinear_arith)
                requires
                    k == (2 * m) * h,
                    m2 == 2 * m + 1,
            ;
            assert(m2 % 2 == 1);
            assert(next_point(k, p) == m2 * h);
            lemma_walk_reaches(m2, (d - 1) as nat, p);
        } else {
            let m2 = (2 * m - 1) as nat;
            assert(k - h == m2 * h) by (nonlinear_arith)
                requires
                    k == (2 * m) * h,
                    m2 == 2 * m - 1,
                    m >= 1,
            ;
            assert(m2 % 2 == 1);
            assert(next_point(k, p) == m2 * h);
            lemma_walk_reaches(m2, (d - 1) as nat, p);
        }
    }
}

/// In a dispatch tree over `2^(d+1)` actions, every pointer `p` in range,
/// entering at the root point `2^d`, reaches after `d` bisections an odd
/// search point `q` whose two lines test for `q` and `q - 1`: the one that
/// holds `p`.
pub proof fn lemma_dispatch_reaches(d: nat, p: int)
    requires
        0 <= p < two_to(d + 1),
    ensures
        walk(two_to(d), p, d) % 2 == 1,
        walk(two_to(d), p, d) == p || walk(two_to(d), p, d) == p + 1,
        walk(two_to(d), p, d) < two_to(d + 1),
{
    assert(two_to(d + 1) == 2 * two_to(d));
    assert(1 * two_to(d) == two_to(d));
    lemma_walk_reaches(1, d, p);
}

} // verus!
