//! The block context: every emitted block with its dense id, its script name
//! and its text, looked up by label; and the flush into scripts, with the
//! `exec` dispatcher over block ids.
use vstd::prelude::*;
use crate::command::{func_cmd, lemma_func_cmd_one_line, lemma_hex_one_line, lemma_one_line_concat, one_line};
use crate::mas::strings_view;
use crate::dispatch::{gen_bin_search, is_pow2, scripts_view, tree_scripts, Script};
use crate::names::{FUNC_EXEC, MAIN, NONEXISTENCE, PREFIX, PROGRAM_COUNTER};
use crate::text::{hex, lemma_hex_injective, push_hex};

verus! {

/// Label of the `m`-th anonymous block.
pub open spec fn anon_label(m: nat) -> Seq<char> {
    "_anonymous_"@ + hex(m)
}

/// Labels of this shape start like the labels of anonymous blocks.
pub open spec fn is_reserved(label: Seq<char>) -> bool {
    "_anonymous_"@.is_prefix_of(label)
}

/// Script name of `label` under mangling suffix `uuid`.
pub open spec fn mangled(uuid: u64, label: Seq<char>) -> Seq<char> {
    PREFIX@ + "_"@ + label + "_mangled_"@ + hex(uuid as nat)
}

/// An emitted block.
pub struct Block {
    id: u64,
    label: String,
    fn_name: String,
    content: String,
}

pub struct BlockView {
    pub id: nat,
    pub label: Seq<char>,
    pub fn_name: Seq<char>,
    pub content: Seq<char>,
}

impl View for Block {
    type V = BlockView;

    closed spec fn view(&self) -> BlockView {
        BlockView {
            id: self.id as nat,
            label: self.label@,
            fn_name: self.fn_name@,
            content: self.content@,
        }
    }
}

impl Block {
    pub fn id(&self) -> (r: u64)
        ensures
            r as nat == self@.id,
    {
        self.id
    }

    /// Appends `s` to the block's text.
    pub fn push_str(&mut self, s: &str)
        ensures
            final(self)@ == (BlockView { content: old(self)@.content + s@, ..old(self)@ }),
    {
        self.content.append(s);
    }

    pub fn fn_name(&self) -> (r: &str)
        ensures
            r@ == self@.fn_name,
    {
        self.fn_name.as_str()
    }

    pub fn label(&self) -> (r: &str)
        ensures
            r@ == self@.label,
    {
        self.label.as_str()
    }

    pub fn content(&self) -> (r: &str)
        ensures
            r@ == self@.content,
    {
        self.content.as_str()
    }
}

/// The block table: blocks in order of creation, so that block `i` has id
/// `i + 1`.
pub struct Context {
    mangle_uuid: u64,
    anonymous_pool: u64,
    blocks: Vec<Block>,
}

pub struct ContextView {
    pub uuid: u64,
    /// Number of anonymous blocks made so far.
    pub anon: nat,
    pub blocks: Seq<BlockView>,
}

pub open spec fn blocks_view(v: Seq<Block>) -> Seq<BlockView> {
    v.map_values(|b: Block| b@)
}

impl ContextView {
    /// Ids are dense from 1, labels unique, script names single lines, and
    /// no more anonymous blocks counted than blocks made.
    pub open spec fn wf(self) -> bool {
        &&& forall|i: int| 0 <= i < self.blocks.len() ==> (#[trigger] self.blocks[i]).id == i + 1
        &&& forall|i: int, j: int|
            0 <= i < j < self.blocks.len() ==> (#[trigger] self.blocks[i]).label
                != (#[trigger] self.blocks[j]).label
        &&& forall|i: int| 0 <= i < self.blocks.len() ==> one_line(#[trigger] self.blocks[i].fn_name)
        &&& self.anon <= self.blocks.len()
        &&& self.blocks.len() <= u64::MAX
    }

    pub open spec fn has_label(self, key: Seq<char>) -> bool {
        exists|i: int| 0 <= i < self.blocks.len() && #[trigger] self.blocks[i].label == key
    }

    /// Position of the block labelled `key`.
    pub open spec fn index_of(self, key: Seq<char>) -> int {
        choose|i: int| 0 <= i < self.blocks.len() && #[trigger] self.blocks[i].label == key
    }

    /// The block labelled `key`.
    pub open spec fn block(self, key: Seq<char>) -> BlockView {
        self.blocks[self.index_of(key)]
    }

    /// The table with a new empty block at the end.
    pub open spec fn add(self, label: Seq<char>, fn_name: Seq<char>) -> ContextView {
        ContextView {
            blocks: self.blocks.push(
                BlockView { id: self.blocks.len() + 1, label, fn_name, content: Seq::empty() },
            ),
            ..self
        }
    }

    /// The table with a new anonymous block at the end.
    pub open spec fn add_anon(self) -> ContextView {
        ContextView {
            anon: self.anon + 1,
            ..self.add(anon_label(self.anon), mangled(self.uuid, anon_label(self.anon)))
        }
    }

    /// The table with `t` appended to the text of the block labelled `key`.
    pub open spec fn append(self, key: Seq<char>, t: Seq<char>) -> ContextView {
        let i = self.index_of(key);
        ContextView {
            blocks: self.blocks.update(
                i,
                BlockView { content: self.blocks[i].content + t, ..self.blocks[i] },
            ),
            ..self
        }
    }
}

/// The smallest power of two that is at least `n`, searched upwards from `p`.
pub open spec fn pow2_from(p: nat, n: nat) -> nat
    decreases if p < n {
        n - p
    } else {
        0
    },
{
    if p == 0 || p >= n {
        p
    } else {
        pow2_from(2 * p, n)
    }
}

/// The smallest power of two that is at least `n`.
pub open spec fn next_pow2(n: nat) -> nat {
    pow2_from(1, n)
}

/// What the `exec` dispatcher runs for id `i`: the block with that id, or
/// `nonexistence` where no block has it.
pub open spec fn exec_action(c: ContextView, i: nat) -> Seq<char> {
    if 1 <= i <= c.blocks.len() {
        func_cmd(c.blocks[i - 1].fn_name)
    } else {
        func_cmd(NONEXISTENCE@)
    }
}

/// The scripts of a flushed table: the `exec` tree over `next_pow2(K + 1)`
/// ids for `K` blocks, then every block under its script name.
pub open spec fn flushed(c: ContextView) -> Seq<(Seq<char>, Seq<char>)> {
    tree_scripts(
        FUNC_EXEC@,
        PROGRAM_COUNTER@,
        Seq::new(next_pow2(c.blocks.len() + 1), |i: int| exec_action(c, i as nat)),
    ) + Seq::new(c.blocks.len(), |i: int| (c.blocks[i].fn_name, c.blocks[i].content))
}

/// Relies on rand::random: some 64-bit value drawn from the thread's
/// generator; nothing is known of which.
#[verifier::external_body]
pub(crate) fn random_u64() -> u64 {
    rand::random::<u64>()
}

proof fn lemma_pow2_from(p: nat, n: nat)
    requires
        is_pow2(p),
    ensures
        is_pow2(pow2_from(p, n)),
        pow2_from(p, n) >= n,
        pow2_from(p, n) >= p,
    decreases if p < n {
        n - p
    } else {
        0
    },
{
    if p < n {
        assert(is_pow2(2 * p)) by {
            assert((2 * p) / 2 == p);
        }
        lemma_pow2_from(2 * p, n);
    }
}

proof fn lemma_mangled_one_line(uuid: u64, label: Seq<char>)
    requires
        one_line(label),
    ensures
        one_line(mangled(uuid, label)),
{
    reveal_strlit("MCVM_Memory");
    reveal_strlit("_");
    reveal_strlit("_mangled_");
    lemma_hex_one_line(uuid as nat);
    lemma_one_line_concat(PREFIX@, "_"@);
    lemma_one_line_concat(PREFIX@ + "_"@, label);
    lemma_one_line_concat(PREFIX@ + "_"@ + label, "_mangled_"@);
    lemma_one_line_concat(PREFIX@ + "_"@ + label + "_mangled_"@, hex(uuid as nat));
}

pub proof fn lemma_anon_label(m: nat)
    ensures
        one_line(anon_label(m)),
        is_reserved(anon_label(m)),
{
    reveal_strlit("_anonymous_");
    lemma_hex_one_line(m);
    lemma_one_line_concat("_anonymous_"@, hex(m));
    assert(anon_label(m).subrange(0, 11) =~= "_anonymous_"@);
}

pub proof fn lemma_anon_label_injective(a: nat, b: nat)
    requires
        anon_label(a) == anon_label(b),
    ensures
        a == b,
{
    reveal_strlit("_anonymous_");
    assert(anon_label(a).subrange(11, anon_label(a).len() as int) =~= hex(a));
    assert(anon_label(b).subrange(11, anon_label(b).len() as int) =~= hex(b));
    lemma_hex_injective(a, b);
}


/// Adding a block keeps every label of the table.
pub proof fn lemma_add_anon_keeps(c: ContextView, key: Seq<char>)
    requires
        c.has_label(key),
    ensures
        c.add_anon().has_label(key),
        c.add_anon().has_label(anon_label(c.anon)),
{
    let i = choose|i: int| 0 <= i < c.blocks.len() && #[trigger] c.blocks[i].label == key;
    assert(c.add_anon().blocks[i] == c.blocks[i]);
    assert(c.add_anon().blocks[c.blocks.len() as int].label == anon_label(c.anon));
}

/// Appending text changes no label, no length and no count of the table.
pub proof fn lemma_append_shape(c: ContextView, k: Seq<char>, t: Seq<char>)
    requires
        c.has_label(k),
    ensures
        c.append(k, t).blocks.len() == c.blocks.len(),
        c.append(k, t).anon == c.anon,
        forall|j: int|
            0 <= j < c.blocks.len() ==> (#[trigger] c.append(k, t).blocks[j]).label == c.blocks[j].label,
        forall|key: Seq<char>| c.has_label(key) ==> c.append(k, t).has_label(key),
{
    let d = c.append(k, t);
    assert forall|key: Seq<char>| c.has_label(key) implies d.has_label(key) by {
        let i = choose|i: int| 0 <= i < c.blocks.len() && #[trigger] c.blocks[i].label == key;
        assert(d.blocks[i].label == key);
    }
}

/// Appending text keeps every label of the table, and its well-formedness.
pub proof fn lemma_append_keeps(c: ContextView, k: Seq<char>, t: Seq<char>, key: Seq<char>)
    requires
        c.wf(),
        c.has_label(k),
        c.has_label(key),
    ensures
        c.append(k, t).has_label(key),
        c.append(k, t).wf(),
{
    let d = c.append(k, t);
    let j = c.index_of(k);
    let i = choose|i: int| 0 <= i < c.blocks.len() && #[trigger] c.blocks[i].label == key;
    assert(d.blocks[i].label == key);
    assert forall|a: int, b: int|
        0 <= a < b < d.blocks.len() implies (#[trigger] d.blocks[a]).label
        != (#[trigger] d.blocks[b]).label by {
        assert(c.blocks[a].label != c.blocks[b].label);
    }
    assert forall|a: int| 0 <= a < d.blocks.len() implies (#[trigger] d.blocks[a]).id == a + 1 by {
        assert(c.blocks[a].id == d.blocks[a].id);
    }
    assert forall|a: int| 0 <= a < d.blocks.len() implies one_line(#[trigger] d.blocks[a].fn_name) by {
        assert(c.blocks[a].fn_name == d.blocks[a].fn_name);
    }
}

impl View for Context {
    type V = ContextView;

    closed spec fn view(&self) -> ContextView {
        ContextView {
            uuid: self.mangle_uuid,
            anon: self.anonymous_pool as nat,
            blocks: blocks_view(self.blocks@),
        }
    }
}

impl Context {
    /// An empty table whose mangling suffix is drawn at random.
    pub fn new() -> (r: Self)
        ensures
            r@.wf(),
            r@.anon == 0,
            r@.blocks.len() == 0,
    {
        Self::with_uuid(random_u64())
    }

    /// An empty table with mangling suffix `uuid`.
    pub fn with_uuid(uuid: u64) -> (r: Self)
        ensures
            r@ == (ContextView { uuid, anon: 0, blocks: Seq::empty() }),
            r@.wf(),
    {
        let r = Context { mangle_uuid: uuid, anonymous_pool: 0, blocks: Vec::new() };
        assert(r@.blocks =~= Seq::<BlockView>::empty());
        r
    }

    pub fn block_count(&self) -> (r: usize)
        ensures
            r == self@.blocks.len(),
    {
        self.blocks.len()
    }

    pub fn blocks(&self) -> (r: &Vec<Block>)
        ensures
            blocks_view(r@) == self@.blocks,
    {
        &self.blocks
    }

    fn gen_block(&self, label: String, fn_name: String) -> (b: Block)
        requires
            self.blocks@.len() < u64::MAX,
        ensures
            b@ == (BlockView {
                id: self.blocks@.len() + 1,
                label: label@,
                fn_name: fn_name@,
                content: Seq::empty(),
            }),
    {
        let new_id = self.blocks.len() as u64 + 1;
        Block { id: new_id, label, fn_name, content: String::new() }
    }

    fn mangle(&self, label: &str) -> (r: String)
        ensures
            r@ == mangled(self@.uuid, label@),
    {
        let mut s = String::from_str(PREFIX);
        s.append("_");
        s.append(label);
        s.append("_mangled_");
        push_hex(&mut s, self.mangle_uuid);
        assert(s@ =~= mangled(self@.uuid, label@));
        s
    }

    fn add_block(&mut self, b: Block)
        requires
            old(self)@.wf(),
            old(self)@.blocks.len() < u64::MAX,
            b@.id == old(self)@.blocks.len() + 1,
            b@.content == Seq::<char>::empty(),
            !old(self)@.has_label(b@.label),
            one_line(b@.fn_name),
        ensures
            final(self)@ == old(self)@.add(b@.label, b@.fn_name),
            final(self)@.wf(),
    {
        let ghost bv = b@;
        self.blocks.push(b);
        assert(blocks_view(self.blocks@) =~= blocks_view(old(self).blocks@).push(bv));
        assert(self@ =~= old(self)@.add(bv.label, bv.fn_name));
        proof {
            let c = self@;
            let o = old(self)@;
            assert forall|i: int, j: int|
                0 <= i < j < c.blocks.len() implies (#[trigger] c.blocks[i]).label
                != (#[trigger] c.blocks[j]).label by {
                if j == o.blocks.len() {
                    assert(o.blocks[i] == c.blocks[i]);
                }
            }
        }
    }

    /// Adds an empty block for label `key`: the next id, and `key` itself or
    /// its mangled form as script name.
    pub fn insert_label(&mut self, key: &str, mangle: bool) -> (id: u64)
        requires
            old(self)@.wf(),
            old(self)@.blocks.len() < u64::MAX,
            !old(self)@.has_label(key@),
            one_line(key@),
        ensures
            final(self)@ == old(self)@.add(
                key@,
                if mangle {
                    mangled(old(self)@.uuid, key@)
                } else {
                    key@
                },
            ),
            final(self)@.wf(),
            id == old(self)@.blocks.len() + 1,
    {
        let fn_name = if mangle {
            self.mangle(key)
        } else {
            String::from_str(key)
        };
        proof {
            lemma_mangled_one_line(self@.uuid, key@);
        }
        let b = self.gen_block(String::from_str(key), fn_name);
        let id = b.id;
        self.add_block(b);
        id
    }

    /// Adds an empty block for the entry label `key` (`main` or `__main__`),
    /// under the script name `main`.
    pub fn insert_entry(&mut self, key: &str) -> (id: u64)
        requires
            old(self)@.wf(),
            old(self)@.blocks.len() < u64::MAX,
            !old(self)@.has_label(key@),
        ensures
            final(self)@ == old(self)@.add(key@, MAIN@),
            final(self)@.wf(),
            id == old(self)@.blocks.len() + 1,
    {
        proof {
            reveal_strlit("main");
        }
        let b = self.gen_block(String::from_str(key), String::from_str(MAIN));
        let id = b.id;
        self.add_block(b);
        id
    }

    /// Position of the block labelled `key`, if any.
    pub fn find_label(&self, key: &str) -> (r: Option<usize>)
        requires
            self@.wf(),
        ensures
            r is None <==> !self@.has_label(key@),
            r is Some ==> r->0 == self@.index_of(key@),
    {
        let ghost c = self@;
        let mut i: usize = 0;
        while i < self.blocks.len()
            invariant
                c == self@,
                c.wf(),
                i <= self.blocks@.len(),
                c.blocks == blocks_view(self.blocks@),
                forall|j: int| 0 <= j < i ==> (#[trigger] c.blocks[j]).label != key@,
            decreases self.blocks@.len() - i,
        {
            if self.blocks[i].label == String::from_str(key) {
                proof {
                    assert(c.blocks[i as int] == self.blocks@[i as int]@);
                    assert(c.blocks[i as int].label == key@);
                    assert(c.has_label(key@));
                    let k = c.index_of(key@);
                    assert(c.blocks[k].label == key@);
                    if k < i {
                        assert(c.blocks[k].label != c.blocks[i as int].label);
                    } else if k > i {
                        assert(c.blocks[i as int].label != c.blocks[k].label);
                    }
                }
                return Some(i);
            }
            assert(c.blocks[i as int] == self.blocks@[i as int]@);
            i = i + 1;
        }
        proof {
            if c.has_label(key@) {
                let k = choose|k: int| 0 <= k < c.blocks.len() && #[trigger] c.blocks[k].label == key@;
                assert(c.blocks[k].label != key@);
            }
        }
        None
    }

    /// The block labelled `key`.
    pub fn get_label(&self, key: &str) -> (r: &Block)
        requires
            self@.wf(),
            self@.has_label(key@),
        ensures
            r@ == self@.block(key@),
    {
        let i = self.find_label(key).unwrap();
        &self.blocks[i]
    }

    /// Appends `s` to the text of the block labelled `key`.
    pub fn push_str(&mut self, key: &str, s: &str)
        requires
            old(self)@.wf(),
            old(self)@.has_label(key@),
        ensures
            final(self)@ == old(self)@.append(key@, s@),
            final(self)@.wf(),
    {
        let i = self.find_label(key).unwrap();
        self.blocks[i].push_str(s);
        assert(self@.blocks =~= old(self)@.append(key@, s@).blocks);
        assert(self@ =~= old(self)@.append(key@, s@));
        assert forall|a: int, b: int|
            0 <= a < b < self@.blocks.len() implies (#[trigger] self@.blocks[a]).label
            != (#[trigger] self@.blocks[b]).label by {
            assert(old(self)@.blocks[a].label != old(self)@.blocks[b].label);
        }
    }

    /// Adds an empty anonymous block, labelled `_anonymous_<n>` with `n` the
    /// number of anonymous blocks so far in hexadecimal, under a mangled
    /// script name. Returns its label, which no block may have yet.
    pub fn new_anonymous_label(&mut self) -> (label: String)
        requires
            old(self)@.wf(),
            old(self)@.blocks.len() < u64::MAX,
            !old(self)@.has_label(anon_label(old(self)@.anon)),
        ensures
            label@ == anon_label(old(self)@.anon),
            final(self)@ == old(self)@.add_anon(),
            final(self)@.wf(),
    {
        let id = self.anonymous_pool;
        let mut label = String::from_str("_anonymous_");
        push_hex(&mut label, id);
        let fn_name = self.mangle(label.as_str());
        proof {
            lemma_anon_label(id as nat);
            lemma_mangled_one_line(self@.uuid, label@);
        }
        let b = self.gen_block(label.clone(), fn_name);
        self.add_block_anon(b);
        label
    }

    fn add_block_anon(&mut self, b: Block)
        requires
            old(self)@.wf(),
            old(self)@.blocks.len() < u64::MAX,
            b@.id == old(self)@.blocks.len() + 1,
            b@.content == Seq::<char>::empty(),
            b@.label == anon_label(old(self)@.anon),
            b@.fn_name == mangled(old(self)@.uuid, b@.label),
            !old(self)@.has_label(b@.label),
            one_line(b@.fn_name),
        ensures
            final(self)@ == old(self)@.add_anon(),
            final(self)@.wf(),
    {
        let ghost bv = b@;
        let ghost o = old(self)@;
        self.blocks.push(b);
        self.anonymous_pool = self.anonymous_pool + 1;
        assert(blocks_view(self.blocks@) =~= blocks_view(old(self).blocks@).push(bv));
        assert(self@ =~= o.add_anon());
        proof {
            let c = self@;
            assert forall|i: int, j: int|
                0 <= i < j < c.blocks.len() implies (#[trigger] c.blocks[i]).label
                != (#[trigger] c.blocks[j]).label by {
                if j == o.blocks.len() {
                    assert(o.blocks[i] == c.blocks[i]);
                }
            }
        }
    }

    /// Flushes the table: the `exec` dispatcher over block ids, then every
    /// block under its script name.
    pub fn generate(&self) -> (r: Vec<Script>)
        requires
            self@.wf(),
            2 * (self@.blocks.len() + 1) <= usize::MAX,
        ensures
            scripts_view(r@) == flushed(self@),
    {
        let ghost c = self@;
        let k = self.blocks.len();
        let mut size: usize = 1;
        proof {
            reveal_strlit("nonexistence");
            lemma_pow2_from(1, (k + 1) as nat);
            lemma_func_cmd_one_line(NONEXISTENCE@);
        }
        while size < k + 1
            invariant
                pow2_from(size as nat, (k + 1) as nat) == next_pow2((k + 1) as nat),
                1 <= size <= usize::MAX,
                2 * (k + 1) <= usize::MAX,
            decreases usize::MAX - size,
        {
            size = size * 2;
        }
        let ghost want = Seq::new(next_pow2((k + 1) as nat), |i: int| exec_action(c, i as nat));
        let mut actions: Vec<String> = Vec::new();
        let mut i: usize = 0;
        while i < size
            invariant
                c == self@,
                c.wf(),
                k == c.blocks.len(),
                c.blocks == blocks_view(self.blocks@),
                size == next_pow2((k + 1) as nat),
                want == Seq::new(next_pow2((k + 1) as nat), |i: int| exec_action(c, i as nat)),
                one_line(func_cmd(NONEXISTENCE@)),
                i <= size,
                strings_view(actions@) =~= want.take(i as int),
                forall|j: int| 0 <= j < i ==> one_line(#[trigger] actions@[j]@),
            decreases size - i,
        {
            let mut a = String::from_str("function ");
            if 1 <= i && i <= k {
                a.append(self.blocks[i - 1].fn_name.as_str());
                proof {
                    assert(c.blocks[i - 1] == self.blocks@[i - 1]@);
                    lemma_func_cmd_one_line(c.blocks[i - 1].fn_name);
                }
            } else {
                a.append(NONEXISTENCE);
            }
            let ghost before = actions@;
            actions.push(a);
            assert(strings_view(actions@) =~= strings_view(before).push(a@));
            i = i + 1;
        }
        assert(want.take(size as int) =~= want);
        let mut out = gen_bin_search(FUNC_EXEC, PROGRAM_COUNTER, &actions).unwrap();
        let ghost tree = scripts_view(out@);
        let mut j: usize = 0;
        while j < k
            invariant
                c == self@,
                k == c.blocks.len(),
                c.blocks == blocks_view(self.blocks@),
                j <= k,
                scripts_view(out@) =~= tree + Seq::new(j as nat, |i: int| (c.blocks[i].fn_name, c.blocks[i].content)),
            decreases k - j,
        {
            let b = &self.blocks[j];
            let s = Script { name: b.fn_name.clone(), content: b.content.clone() };
            let ghost before = out@;
            out.push(s);
            assert(c.blocks[j as int] == self.blocks@[j as int]@);
            assert(scripts_view(out@) =~= scripts_view(before).push(s@));
            j = j + 1;
        }
        proof {
            lemma_pow2_from(1, (k + 1) as nat);
        }
        out
    }
}

} // verus!
