//! The partial hexary Patricia trie.
//!
//! A trie may replace any subtree by an opaque stub that carries only the
//! subtree's digest; the root digest is unchanged by such replacement. Keys
//! are nibble sequences; values are digests, with the all-zero digest
//! standing for "absent". A branch node never stores a value: a key that
//! ends on a branch resolves to the zero digest.
//!
//! Every executable node owns its subtrees; its mathematical model is the
//! ghost tree [`NodeView`], and every contract speaks of that model.

use vstd::prelude::*;

use crate::hash::{h256_bytes, data_hash, push_h256_bytes, push_u64_le, spec_data_hash, u64_le_bytes, H256};
use crate::nibbles::NibbleBuf;

verus! {

/// The mathematical model of one trie node.
pub enum NodeView {
    /// An unmaterialized subtree, known only by its digest.
    Stub(H256),
    /// A key suffix and the digest of the value stored under it.
    Leaf { nibbles: Seq<u8>, value_hash: H256 },
    /// A shared prefix leading to exactly one child subtree.
    Extension { nibbles: Seq<u8>, child: Box<NodeView> },
    /// Hexary fan-out; stores no value of its own.
    Branch { children: Seq<Option<NodeView>> },
}

/// One node of a partial trie, owning its subtrees.
#[derive(Debug)]
pub enum SubTree {
    /// An unmaterialized subtree, known only by its digest.
    Stub(H256),
    /// A key suffix and the digest of the value stored under it.
    Leaf { nibbles: NibbleBuf, value_hash: H256 },
    /// A shared prefix leading to exactly one child subtree.
    Extension { nibbles: NibbleBuf, child: Box<SubTree> },
    /// Hexary fan-out; stores no value of its own.
    Branch { children: Vec<Option<SubTree>> },
}

/// A trie whose root may be absent (the empty trie).
#[derive(Debug)]
pub struct PartialTrie {
    pub root: Option<SubTree>,
}

/// The model of a subtree.
pub open spec fn subtree_view(t: SubTree) -> NodeView
    decreases t,
{
    match t {
        SubTree::Stub(h) => NodeView::Stub(h),
        SubTree::Leaf { nibbles, value_hash } => NodeView::Leaf {
            nibbles: nibbles@,
            value_hash: value_hash,
        },
        SubTree::Extension { nibbles, child } => NodeView::Extension {
            nibbles: nibbles@,
            child: Box::new(subtree_view(*child)),
        },
        SubTree::Branch { children } => NodeView::Branch { children: children_views(children@) },
    }
}

impl View for SubTree {
    type V = NodeView;

    open spec fn view(&self) -> NodeView {
        subtree_view(*self)
    }
}

/// The models of a row of optional children.
pub open spec fn children_views(cs: Seq<Option<SubTree>>) -> Seq<Option<NodeView>>
    decreases cs,
{
    if cs.len() == 0 {
        Seq::empty()
    } else {
        children_views(cs.subrange(0, cs.len() - 1)).push(opt_view(cs[cs.len() - 1]))
    }
}

/// The model of an optional child.
pub open spec fn opt_view(c: Option<SubTree>) -> Option<NodeView>
    decreases c,
{
    match c {
        Option::None => None,
        Option::Some(t) => Some(subtree_view(t)),
    }
}

pub proof fn lemma_children_views_len(cs: Seq<Option<SubTree>>)
    ensures
        children_views(cs).len() == cs.len(),
        forall|i: int| 0 <= i < cs.len() ==> children_views(cs)[i] == opt_view(cs[i]),
    decreases cs.len(),
{
    if cs.len() > 0 {
        lemma_children_views_len(cs.subrange(0, cs.len() - 1));
        assert forall|i: int| 0 <= i < cs.len() implies children_views(cs)[i] == opt_view(
            cs[i],
        ) by {
            if i < cs.len() - 1 {
                assert(cs.subrange(0, cs.len() - 1)[i] == cs[i]);
            }
        }
    }
}

impl View for PartialTrie {
    type V = Option<NodeView>;

    open spec fn view(&self) -> Option<NodeView> {
        opt_view(self.root)
    }
}

/// Tag bytes that keep the three node encodings disjoint.
pub open spec fn leaf_tag() -> u8 {
    0
}

pub open spec fn extension_tag() -> u8 {
    1
}

pub open spec fn branch_tag() -> u8 {
    2
}

/// Canonical encoding of a nibble sequence: its length, then one byte per nibble.
pub open spec fn nibbles_enc(ns: Seq<u8>) -> Seq<u8> {
    u64_le_bytes(ns.len() as u64) + ns
}

/// Canonical encoding of a leaf node.
pub open spec fn leaf_enc(ns: Seq<u8>, value_hash: H256) -> Seq<u8> {
    seq![leaf_tag()] + nibbles_enc(ns) + h256_bytes(value_hash)
}

/// Canonical encoding of an extension node, given its child's digest.
pub open spec fn extension_enc(ns: Seq<u8>, child: H256) -> Seq<u8> {
    seq![extension_tag()] + nibbles_enc(ns) + h256_bytes(child)
}

/// The concatenated bytes of a sequence of digests.
pub open spec fn digests_bytes(ds: Seq<H256>) -> Seq<u8>
    decreases ds.len(),
{
    if ds.len() == 0 {
        Seq::empty()
    } else {
        digests_bytes(ds.drop_last()) + h256_bytes(ds.last())
    }
}

/// Canonical encoding of a branch node, given its sixteen child digests
/// (the zero digest standing for an absent child).
pub open spec fn branch_enc(ds: Seq<H256>) -> Seq<u8> {
    seq![branch_tag()] + digests_bytes(ds)
}

pub open spec fn spec_leaf_hash(ns: Seq<u8>, value_hash: H256) -> H256 {
    spec_data_hash(leaf_enc(ns, value_hash))
}

pub open spec fn spec_extension_hash(ns: Seq<u8>, child: H256) -> H256 {
    spec_data_hash(extension_enc(ns, child))
}

pub open spec fn spec_branch_hash(ds: Seq<H256>) -> H256 {
    spec_data_hash(branch_enc(ds))
}

/// The digest of a node. A stub reports the digest it recorded; every other
/// node hashes a canonical encoding that consumes only the digests of its
/// children, so replacing a child by its stub never changes the digest.
pub open spec fn node_digest(t: NodeView) -> H256
    decreases t,
{
    match t {
        NodeView::Stub(h) => h,
        NodeView::Leaf { nibbles, value_hash } => spec_leaf_hash(nibbles, value_hash),
        NodeView::Extension { nibbles, child } => spec_extension_hash(
            nibbles,
            node_digest(*child),
        ),
        NodeView::Branch { children } => spec_branch_hash(children_digests(children)),
    }
}

/// The digests of a row of optional children, the zero digest for `None`.
pub open spec fn children_digests(cs: Seq<Option<NodeView>>) -> Seq<H256>
    decreases cs,
{
    if cs.len() == 0 {
        Seq::empty()
    } else {
        children_digests(cs.subrange(0, cs.len() - 1)).push(opt_digest(cs[cs.len() - 1]))
    }
}

/// The digest of an optional child: zero when absent.
pub open spec fn opt_digest(c: Option<NodeView>) -> H256
    decreases c,
{
    match c {
        Option::None => H256::spec_zero(),
        Option::Some(t) => node_digest(t),
    }
}

/// The root digest of a partial trie: zero for the empty trie.
pub open spec fn trie_digest(t: Option<NodeView>) -> H256 {
    opt_digest(t)
}

pub proof fn lemma_children_digests_len(cs: Seq<Option<NodeView>>)
    ensures
        children_digests(cs).len() == cs.len(),
        forall|i: int| 0 <= i < cs.len() ==> children_digests(cs)[i] == opt_digest(cs[i]),
    decreases cs.len(),
{
    if cs.len() > 0 {
        lemma_children_digests_len(cs.subrange(0, cs.len() - 1));
        assert forall|i: int| 0 <= i < cs.len() implies children_digests(cs)[i] == opt_digest(
            cs[i],
        ) by {
            if i < cs.len() - 1 {
                assert(cs.subrange(0, cs.len() - 1)[i] == cs[i]);
            }
        }
    }
}

/// Two rows whose members have equal digests hash to the same branch digest.
pub proof fn lemma_children_digests_pointwise(a: Seq<Option<NodeView>>, b: Seq<Option<NodeView>>)
    requires
        a.len() == b.len(),
        forall|i: int| 0 <= i < a.len() ==> opt_digest(a[i]) == opt_digest(b[i]),
    ensures
        children_digests(a) == children_digests(b),
{
    lemma_children_digests_len(a);
    lemma_children_digests_len(b);
    assert(children_digests(a) =~= children_digests(b));
}

fn leaf_hash(ns: &NibbleBuf, value_hash: &H256) -> (r: H256)
    ensures
        r == spec_leaf_hash(ns@, *value_hash),
{
    let mut data: Vec<u8> = Vec::new();
    data.push(0u8);
    push_u64_le(&mut data, ns.len() as u64);
    let mut i: usize = 0;
    let n = ns.len();
    while i < n
        invariant
            i <= n == ns@.len(),
            data@ == seq![leaf_tag()] + u64_le_bytes(ns@.len() as u64) + ns@.subrange(0, i as int),
        decreases n - i,
    {
        data.push(ns.get(i));
        proof {
            assert(data@ =~= seq![leaf_tag()] + u64_le_bytes(ns@.len() as u64) + ns@.subrange(
                0,
                i + 1,
            ));
        }
        i += 1;
    }
    push_h256_bytes(&mut data, value_hash);
    proof {
        assert(ns@.subrange(0, ns@.len() as int) =~= ns@);
        assert(data@ =~= leaf_enc(ns@, *value_hash));
    }
    data_hash(&data)
}

fn extension_hash(ns: &NibbleBuf, child: &H256) -> (r: H256)
    ensures
        r == spec_extension_hash(ns@, *child),
{
    let mut data: Vec<u8> = Vec::new();
    data.push(1u8);
    push_u64_le(&mut data, ns.len() as u64);
    let mut i: usize = 0;
    let n = ns.len();
    while i < n
        invariant
            i <= n == ns@.len(),
            data@ == seq![extension_tag()] + u64_le_bytes(ns@.len() as u64) + ns@.subrange(
                0,
                i as int,
            ),
        decreases n - i,
    {
        data.push(ns.get(i));
        proof {
            assert(data@ =~= seq![extension_tag()] + u64_le_bytes(ns@.len() as u64) + ns@.subrange(
                0,
                i + 1,
            ));
        }
        i += 1;
    }
    push_h256_bytes(&mut data, child);
    proof {
        assert(ns@.subrange(0, ns@.len() as int) =~= ns@);
        assert(data@ =~= extension_enc(ns@, *child));
    }
    data_hash(&data)
}

fn branch_hash(ds: &Vec<H256>) -> (r: H256)
    ensures
        r == spec_branch_hash(ds@),
{
    let mut data: Vec<u8> = Vec::new();
    data.push(2u8);
    let mut i: usize = 0;
    let n = ds.len();
    while i < n
        invariant
            i <= n == ds@.len(),
            data@ == seq![branch_tag()] + digests_bytes(ds@.subrange(0, i as int)),
        decreases n - i,
    {
        push_h256_bytes(&mut data, &ds[i]);
        proof {
            let pre = ds@.subrange(0, i as int);
            let cur = ds@.subrange(0, i + 1);
            assert(cur.drop_last() =~= pre);
            assert(cur.last() == ds@[i as int]);
            assert(data@ =~= seq![branch_tag()] + digests_bytes(cur));
        }
        i += 1;
    }
    proof {
        assert(ds@.subrange(0, ds@.len() as int) =~= ds@);
    }
    data_hash(&data)
}

impl SubTree {
    /// The digest of this subtree.
    pub fn to_digest(&self) -> (r: H256)
        ensures
            r == node_digest(self@),
        decreases *self,
    {
        match self {
            SubTree::Stub(h) => *h,
            SubTree::Leaf { nibbles, value_hash } => leaf_hash(nibbles, value_hash),
            SubTree::Extension { nibbles, child } => {
                let ch = child.to_digest();
                extension_hash(nibbles, &ch)
            },
            SubTree::Branch { children } => {
                let mut ds: Vec<H256> = Vec::new();
                let mut i: usize = 0;
                let n = children.len();
                while i < n
                    invariant
                        i <= n == children@.len(),
                        ds@ == children_digests(children_views(children@.subrange(0, i as int))),
                        *self is Branch,
                        children@ == self->Branch_children@,
                    decreases n - i,
                {
                    let co = &children[i];
                    let d = match co {
                        Option::None => {
                            proof {
                                assert(children@[i as int] is None);
                            }
                            H256::zero()
                        },
                        Option::Some(c) => {
                            proof {
                                let t = *self;
                                let cls = t->Branch_children;
                                assert(decreases_to!(t => t->Branch_children));
                                assert(decreases_to!(cls => cls@));
                                assert(decreases_to!(cls@ => cls@[i as int]));
                                let cop = cls@[i as int];
                                assert(decreases_to!(cop => cop->Some_0));
                                assert(cop->Some_0 == *c);
                            }
                            c.to_digest()
                        },
                    };
                    proof {
                        assert(d == opt_digest(opt_view(children@[i as int])));
                    }
                    ds.push(d);
                    proof {
                        let pre = children@.subrange(0, i as int);
                        let cur = children@.subrange(0, i + 1);
                        assert(cur.subrange(0, cur.len() - 1) =~= pre);
                        assert(cur[cur.len() - 1] == children@[i as int]);
                        let pv = children_views(pre);
                        let cv = children_views(cur);
                        assert(cv.subrange(0, cv.len() - 1) =~= pv) by {
                            lemma_children_views_len(pre);
                            lemma_children_views_len(cur);
                            assert forall|j: int| 0 <= j < pv.len() implies cv[j] == pv[j] by {
                                assert(cur[j] == pre[j]);
                            }
                        }
                        assert(ds@ =~= children_digests(cv));
                    }
                    i += 1;
                }
                proof {
                    assert(children@.subrange(0, children@.len() as int) =~= children@);
                }
                branch_hash(&ds)
            },
        }
    }
}

impl Clone for SubTree {
    fn clone(&self) -> (r: Self)
        ensures
            r@ == self@,
    {
        self.deep_clone()
    }
}

impl SubTree {
    /// A copy with the same model.
    pub fn deep_clone(&self) -> (r: SubTree)
        ensures
            r@ == self@,
        decreases *self,
    {
        match self {
            SubTree::Stub(h) => SubTree::Stub(*h),
            SubTree::Leaf { nibbles, value_hash } => SubTree::Leaf {
                nibbles: nibbles.clone(),
                value_hash: *value_hash,
            },
            SubTree::Extension { nibbles, child } => SubTree::Extension {
                nibbles: nibbles.clone(),
                child: Box::new(child.deep_clone()),
            },
            SubTree::Branch { children } => {
                let mut cs: Vec<Option<SubTree>> = Vec::new();
                let mut i: usize = 0;
                let n = children.len();
                while i < n
                    invariant
                        i <= n == children@.len(),
                        cs@.len() == i,
                        children_views(cs@) == children_views(children@.subrange(0, i as int)),
                        *self is Branch,
                        children@ == self->Branch_children@,
                    decreases n - i,
                {
                    let co = &children[i];
                    let c = match co {
                        Option::None => {
                            proof {
                                assert(children@[i as int] is None);
                            }
                            None
                        },
                        Option::Some(c) => {
                            proof {
                                let t = *self;
                                let cls = t->Branch_children;
                                assert(decreases_to!(t => t->Branch_children));
                                assert(decreases_to!(cls => cls@));
                                assert(decreases_to!(cls@ => cls@[i as int]));
                                let cop = cls@[i as int];
                                assert(decreases_to!(cop => cop->Some_0));
                                assert(cop->Some_0 == *c);
                            }
                            Some(c.deep_clone())
                        },
                    };
                    proof {
                        assert(opt_view(c) == opt_view(children@[i as int]));
                    }
                    let ghost old_cs = cs@;
                    cs.push(c);
                    proof {
                        let pre = children@.subrange(0, i as int);
                        let cur = children@.subrange(0, i + 1);
                        assert(children_views(cs@) =~= children_views(cur)) by {
                            lemma_children_views_len(cs@);
                            lemma_children_views_len(cur);
                            lemma_children_views_len(pre);
                            lemma_children_views_len(old_cs);
                            assert forall|j: int|
                                0 <= j < cs@.len() implies children_views(cs@)[j]
                                == children_views(cur)[j] by {
                                if j < i as int {
                                    assert(cs@[j] == old_cs[j]);
                                    assert(cur[j] == pre[j]);
                                    assert(children_views(old_cs)[j] == children_views(pre)[j]);
                                } else {
                                    assert(cs@[j] == c);
                                    assert(cur[j] == children@[i as int]);
                                }
                            }
                        }
                    }
                    i += 1;
                }
                proof {
                    assert(children@.subrange(0, children@.len() as int) =~= children@);
                }
                SubTree::Branch { children: cs }
            },
        }
    }
}

/// What a trie answers for one key.
pub enum LookupResult {
    /// The digest stored under the key; the zero digest where the key is absent.
    Found(H256),
    /// The walk reached an unmaterialized stub with this digest.
    Missing(H256),
    /// The key ran out at a branch, or a branch row was malformed.
    BadKey,
}

/// Errors of the trie operations.
#[derive(Clone, Copy, PartialEq, Eq, Structural, Debug)]
pub enum TrieError {
    /// The walk needs a subtree that is only present as a stub with this digest.
    MissingTrieNode(H256),
    /// The key ran out at a branch, or a branch row was malformed.
    InvalidKey,
    /// The operation needs a root but the trie is empty.
    EmptyRoot,
    /// A recorded diff path no longer exists in the trie it is applied to.
    InvalidDiffPath,
}

/// The answer for `key`, read from position `pos` on, walking `t`.
pub open spec fn spec_lookup(t: NodeView, key: Seq<u8>, pos: int) -> LookupResult
    decreases t,
{
    match t {
        NodeView::Stub(h) => LookupResult::Missing(h),
        NodeView::Leaf { nibbles, value_hash } => {
            if key.subrange(pos, key.len() as int) == nibbles {
                LookupResult::Found(value_hash)
            } else {
                LookupResult::Found(H256::spec_zero())
            }
        },
        NodeView::Extension { nibbles, child } => {
            if pos + nibbles.len() <= key.len() && key.subrange(pos, pos + nibbles.len())
                == nibbles {
                spec_lookup(*child, key, pos + nibbles.len())
            } else {
                LookupResult::Found(H256::spec_zero())
            }
        },
        NodeView::Branch { children } => {
            if pos < 0 || pos >= key.len() || key[pos] as int >= children.len() {
                LookupResult::BadKey
            } else {
                match children[key[pos] as int] {
                    Option::None => LookupResult::Found(H256::spec_zero()),
                    Option::Some(c) => spec_lookup(c, key, pos + 1),
                }
            }
        },
    }
}

impl SubTree {
    /// Read `key` from position `pos` on. `Ok` carries the value digest
    /// (zero where the key is absent); the walk fails on a stub, and on a
    /// key that runs out at a branch.
    pub fn value_hash(&self, key: &NibbleBuf, pos: usize) -> (r: Result<H256, TrieError>)
        requires
            pos <= key@.len(),
        ensures
            match spec_lookup(self@, key@, pos as int) {
                LookupResult::Found(v) => r == Ok::<H256, TrieError>(v),
                LookupResult::Missing(h) => r == Err::<H256, TrieError>(
                    TrieError::MissingTrieNode(h),
                ),
                LookupResult::BadKey => r == Err::<H256, TrieError>(TrieError::InvalidKey),
            },
        decreases *self,
    {
        match self {
            SubTree::Stub(h) => Err(TrieError::MissingTrieNode(*h)),
            SubTree::Leaf { nibbles, value_hash } => {
                if key.len() - pos == nibbles.len() && key.starts_with_at(nibbles, pos) {
                    proof {
                        assert(key@.subrange(pos as int, key@.len() as int) == nibbles@);
                    }
                    Ok(*value_hash)
                } else {
                    proof {
                        assert(key@.subrange(pos as int, key@.len() as int) != nibbles@) by {
                            if key@.len() - pos == nibbles@.len() {
                                assert(key@.subrange(pos as int, key@.len() as int) == key@
                                    .subrange(pos as int, pos + nibbles@.len()));
                            }
                        }
                    }
                    Ok(H256::zero())
                }
            },
            SubTree::Extension { nibbles, child } => {
                if key.starts_with_at(nibbles, pos) {
                    let klen = key.len();
                    proof {
                        assert(pos + nibbles@.len() <= klen);
                    }
                    child.value_hash(key, pos + nibbles.len())
                } else {
                    Ok(H256::zero())
                }
            },
            SubTree::Branch { children } => {
                proof {
                    lemma_children_views_len(children@);
                }
                if pos >= key.len() {
                    return Err(TrieError::InvalidKey);
                }
                let idx = key.get(pos) as usize;
                if idx >= children.len() {
                    return Err(TrieError::InvalidKey);
                }
                let co = &children[idx];
                match co {
                    Option::None => {
                        proof {
                            assert(children@[idx as int] is None);
                        }
                        Ok(H256::zero())
                    },
                    Option::Some(c) => {
                        proof {
                            let t = *self;
                            let cls = t->Branch_children;
                            assert(decreases_to!(t => t->Branch_children));
                            assert(decreases_to!(cls => cls@));
                            assert(decreases_to!(cls@ => cls@[idx as int]));
                            let cop = cls@[idx as int];
                            assert(decreases_to!(cop => cop->Some_0));
                            assert(cop->Some_0 == *c);
                        }
                        c.value_hash(key, pos + 1)
                    },
                }
            },
        }
    }
}

impl PartialTrie {
    /// Read one key. `Ok` carries the value digest, zero where the key is
    /// absent; reading through an unmaterialized subtree fails with
    /// `MissingTrieNode`, and a key that runs out at a branch with
    /// `InvalidKey`. The empty trie holds nothing.
    pub fn read_key(&self, key: &NibbleBuf) -> (r: Result<H256, TrieError>)
        ensures
            match self@ {
                Option::None => r == Ok::<H256, TrieError>(H256::spec_zero()),
                Option::Some(t) => match spec_lookup(t, key@, 0) {
                    LookupResult::Found(v) => r == Ok::<H256, TrieError>(v),
                    LookupResult::Missing(h) => r == Err::<H256, TrieError>(
                        TrieError::MissingTrieNode(h),
                    ),
                    LookupResult::BadKey => r == Err::<H256, TrieError>(TrieError::InvalidKey),
                },
            },
    {
        match &self.root {
            Option::None => Ok(H256::zero()),
            Option::Some(t) => t.value_hash(key, 0),
        }
    }
}

/// Pruning `t` along `key`: every node whose starting depth is within the
/// kept prefix stays materialized; the first child past it collapses into a
/// stub carrying its digest. A key that leaves the materialized path (an
/// extension mismatch, an absent branch child, any leaf) leaves the trie
/// unchanged; a walk into a stub or a key that runs out at a branch fails.
pub open spec fn spec_prune_key(t: NodeView, key: Seq<u8>, pos: int, kept: int) -> Result<
    NodeView,
    TrieError,
>
    decreases t,
{
    match t {
        NodeView::Stub(h) => Err(TrieError::MissingTrieNode(h)),
        NodeView::Leaf { .. } => Ok(t),
        NodeView::Extension { nibbles, child } => {
            if pos + nibbles.len() <= key.len() && key.subrange(pos, pos + nibbles.len())
                == nibbles {
                if pos + nibbles.len() > kept {
                    Ok(
                        NodeView::Extension {
                            nibbles,
                            child: Box::new(NodeView::Stub(node_digest(*child))),
                        },
                    )
                } else {
                    match spec_prune_key(*child, key, pos + nibbles.len(), kept) {
                        Ok(c2) => Ok(NodeView::Extension { nibbles, child: Box::new(c2) }),
                        Err(e) => Err(e),
                    }
                }
            } else {
                Ok(t)
            }
        },
        NodeView::Branch { children } => {
            if pos < 0 || pos >= key.len() || key[pos] as int >= children.len() {
                Err(TrieError::InvalidKey)
            } else {
                let idx = key[pos] as int;
                match children[idx] {
                    Option::None => Ok(t),
                    Option::Some(c) => {
                        if pos + 1 > kept {
                            Ok(
                                NodeView::Branch {
                                    children: children.update(
                                        idx,
                                        Some(NodeView::Stub(node_digest(c))),
                                    ),
                                },
                            )
                        } else {
                            match spec_prune_key(c, key, pos + 1, kept) {
                                Ok(c2) => Ok(
                                    NodeView::Branch { children: children.update(idx, Some(c2)) },
                                ),
                                Err(e) => Err(e),
                            }
                        }
                    },
                }
            }
        },
    }
}

/// Replacing one branch child by a node with the same digest keeps the
/// branch digest.
pub proof fn lemma_branch_update_digest(children: Seq<Option<NodeView>>, idx: int, c2: NodeView)
    requires
        0 <= idx < children.len(),
        children[idx] is Some,
        node_digest(c2) == node_digest(children[idx]->Some_0),
    ensures
        node_digest(NodeView::Branch { children: children.update(idx, Some(c2)) }) == node_digest(
            NodeView::Branch { children },
        ),
{
    lemma_children_digests_pointwise(children.update(idx, Some(c2)), children);
}

/// Pruning along a key never changes the digest.
pub proof fn lemma_prune_key_digest(t: NodeView, key: Seq<u8>, pos: int, kept: int)
    requires
        spec_prune_key(t, key, pos, kept) is Ok,
    ensures
        node_digest(spec_prune_key(t, key, pos, kept)->Ok_0) == node_digest(t),
    decreases t,
{
    let pr = spec_prune_key(t, key, pos, kept);
    match t {
        NodeView::Stub(_) => {},
        NodeView::Leaf { .. } => {},
        NodeView::Extension { nibbles, child } => {
            if pos + nibbles.len() <= key.len() && key.subrange(pos, pos + nibbles.len())
                == nibbles {
                if pos + nibbles.len() > kept {
                    let stubbed = NodeView::Extension {
                        nibbles,
                        child: Box::new(NodeView::Stub(node_digest(*child))),
                    };
                    assert(pr == Ok::<NodeView, TrieError>(stubbed));
                    assert(node_digest(stubbed) == node_digest(t)) by {
                        reveal_with_fuel(node_digest, 3);
                    }
                } else {
                    lemma_prune_key_digest(*child, key, pos + nibbles.len(), kept);
                }
            } else {
                assert(pr == Ok::<NodeView, TrieError>(t));
            }
        },
        NodeView::Branch { children } => {
            let idx = key[pos] as int;
            match children[idx] {
                Option::None => {},
                Option::Some(c) => {
                    if pos + 1 > kept {
                        lemma_branch_update_digest(children, idx, NodeView::Stub(node_digest(c)));
                        assert(node_digest(NodeView::Stub(node_digest(c))) == node_digest(c));
                    } else {
                        lemma_prune_key_digest(c, key, pos + 1, kept);
                        let c2 = spec_prune_key(c, key, pos + 1, kept)->Ok_0;
                        lemma_branch_update_digest(children, idx, c2);
                    }
                },
            }
        },
    }
}

/// A copy of a row of children with the entry at `idx` replaced.
fn children_with(children: &Vec<Option<SubTree>>, idx: usize, replacement: Option<SubTree>) -> (r:
    Vec<Option<SubTree>>)
    requires
        idx < children@.len(),
    ensures
        children_views(r@) == children_views(children@).update(idx as int, opt_view(replacement)),
{
    let ghost repl_view = opt_view(replacement);
    let mut repl = Some(replacement);
    let mut cs: Vec<Option<SubTree>> = Vec::new();
    let mut i: usize = 0;
    let n = children.len();
    while i < n
        invariant
            i <= n == children@.len(),
            idx < n,
            cs@.len() == i,
            i <= idx ==> repl == Some(replacement) && opt_view(replacement) == repl_view,
            forall|j: int|
                0 <= j < i ==> opt_view(cs@[j]) == (if j == idx {
                    repl_view
                } else {
                    opt_view(children@[j])
                }),
        decreases n - i,
    {
        let c: Option<SubTree> = if i == idx {
            repl.take().unwrap()
        } else {
            let co = &children[i];
            match co {
                Option::None => {
                    proof {
                        assert(children@[i as int] is None);
                    }
                    None
                },
                Option::Some(c) => Some(c.deep_clone()),
            }
        };
        proof {
            if i == idx {
                assert(opt_view(c) == repl_view);
            } else {
                assert(opt_view(c) == opt_view(children@[i as int]));
            }
        }
        cs.push(c);
        i += 1;
    }
    proof {
        lemma_children_views_len(cs@);
        lemma_children_views_len(children@);
        assert(children_views(cs@) =~= children_views(children@).update(idx as int, repl_view));
    }
    cs
}

impl SubTree {
    #[verifier::rlimit(100)]
    fn prune_key_sub(&self, key: &NibbleBuf, pos: usize, kept: usize) -> (r: Result<
        SubTree,
        TrieError,
    >)
        requires
            pos <= key@.len(),
        ensures
            match spec_prune_key(self@, key@, pos as int, kept as int) {
                Ok(v) => r is Ok && r->Ok_0@ == v,
                Err(e) => r == Err::<SubTree, TrieError>(e),
            },
        decreases *self,
    {
        proof {
            reveal_with_fuel(subtree_view, 3);
            reveal_with_fuel(spec_prune_key, 2);
            reveal_with_fuel(node_digest, 3);
        }
        match self {
            SubTree::Stub(h) => Err(TrieError::MissingTrieNode(*h)),
            SubTree::Leaf { .. } => Ok(self.deep_clone()),
            SubTree::Extension { nibbles, child } => {
                if key.starts_with_at(nibbles, pos) {
                    let klen = key.len();
                    proof {
                        assert(pos + nibbles@.len() <= klen);
                    }
                    let child_pos = pos + nibbles.len();
                    if child_pos > kept {
                        let d = child.to_digest();
                        Ok(
                            SubTree::Extension {
                                nibbles: nibbles.clone(),
                                child: Box::new(SubTree::Stub(d)),
                            },
                        )
                    } else {
                        match child.prune_key_sub(key, child_pos, kept) {
                            Ok(c2) => Ok(
                                SubTree::Extension {
                                    nibbles: nibbles.clone(),
                                    child: Box::new(c2),
                                },
                            ),
                            Err(e) => Err(e),
                        }
                    }
                } else {
                    Ok(self.deep_clone())
                }
            },
            SubTree::Branch { children } => {
                proof {
                    lemma_children_views_len(children@);
                }
                if pos >= key.len() {
                    return Err(TrieError::InvalidKey);
                }
                let idx = key.get(pos) as usize;
                if idx >= children.len() {
                    return Err(TrieError::InvalidKey);
                }
                let co = &children[idx];
                match co {
                    Option::None => {
                        proof {
                            assert(children@[idx as int] is None);
                        }
                        Ok(self.deep_clone())
                    },
                    Option::Some(c) => {
                        proof {
                            let t = *self;
                            let cls = t->Branch_children;
                            assert(decreases_to!(t => t->Branch_children));
                            assert(decreases_to!(cls => cls@));
                            assert(decreases_to!(cls@ => cls@[idx as int]));
                            let cop = cls@[idx as int];
                            assert(decreases_to!(cop => cop->Some_0));
                            assert(cop->Some_0 == *c);
                        }
                        if pos + 1 > kept {
                            let d = c.to_digest();
                            let cs = children_with(children, idx, Some(SubTree::Stub(d)));
                            Ok(SubTree::Branch { children: cs })
                        } else {
                            match c.prune_key_sub(key, pos + 1, kept) {
                                Ok(c2) => {
                                    let cs = children_with(children, idx, Some(c2));
                                    Ok(SubTree::Branch { children: cs })
                                },
                                Err(e) => Err(e),
                            }
                        }
                    },
                }
            },
        }
    }
}

/// Prune a trie along `key`, keeping the first `kept_prefix_len` nibbles of
/// the walk materialized and collapsing what lies beneath into a stub. The
/// digest is preserved. With `kept_prefix_len == 0` the whole trie collapses
/// into a root stub. Fails on an empty trie, on a walk into a stub, and on a
/// key that runs out at a branch.
pub fn prune_key(trie: &PartialTrie, key: &NibbleBuf, kept_prefix_len: usize) -> (r: Result<
    PartialTrie,
    TrieError,
>)
    ensures
        trie@ is None ==> r == Err::<PartialTrie, TrieError>(TrieError::EmptyRoot),
        trie@ is Some && kept_prefix_len == 0 ==> r is Ok && r->Ok_0@ == Some(
            NodeView::Stub(trie_digest(trie@)),
        ),
        trie@ is Some && kept_prefix_len > 0 ==> match spec_prune_key(
            trie@->Some_0,
            key@,
            0,
            kept_prefix_len as int,
        ) {
            Ok(v) => r is Ok && r->Ok_0@ == Some(v),
            Err(e) => r == Err::<PartialTrie, TrieError>(e),
        },
        r is Ok ==> trie_digest(r->Ok_0@) == trie_digest(trie@),
{
    let root = match &trie.root {
        Option::None => {
            return Err(TrieError::EmptyRoot);
        },
        Option::Some(root) => root,
    };
    if kept_prefix_len == 0 {
        let d = root.to_digest();
        return Ok(PartialTrie::from_root_hash(d));
    }
    match root.prune_key_sub(key, 0, kept_prefix_len) {
        Ok(t2) => {
            proof {
                lemma_prune_key_digest(root@, key@, 0, kept_prefix_len as int);
            }
            Ok(PartialTrie::from_subtree(t2))
        },
        Err(e) => Err(e),
    }
}

/// The models of a row of keys.
pub open spec fn keys_views(ks: Seq<NibbleBuf>) -> Seq<Seq<u8>> {
    ks.map_values(|k: NibbleBuf| k@)
}

/// The keys that continue into branch child `idx` at depth `pos`.
pub open spec fn branch_keys(ks: Seq<Seq<u8>>, pos: int, idx: u8) -> Seq<Seq<u8>>
    decreases ks.len(),
{
    if ks.len() == 0 {
        Seq::empty()
    } else {
        let rest = branch_keys(ks.subrange(0, ks.len() - 1), pos, idx);
        let k = ks[ks.len() - 1];
        if pos < k.len() && k[pos] == idx {
            rest.push(k)
        } else {
            rest
        }
    }
}

/// The keys that run through an extension segment `seg` at depth `pos`.
pub open spec fn ext_keys(ks: Seq<Seq<u8>>, pos: int, seg: Seq<u8>) -> Seq<Seq<u8>>
    decreases ks.len(),
{
    if ks.len() == 0 {
        Seq::empty()
    } else {
        let rest = ext_keys(ks.subrange(0, ks.len() - 1), pos, seg);
        let k = ks[ks.len() - 1];
        if pos + seg.len() <= k.len() && k.subrange(pos, pos + seg.len()) == seg {
            rest.push(k)
        } else {
            rest
        }
    }
}

/// Pruning away everything that no used key reaches: a node that no key
/// passes through collapses into its stub; nodes on a used key's path stay.
pub open spec fn spec_prune_unused(t: NodeView, ks: Seq<Seq<u8>>, pos: int) -> NodeView
    decreases t,
{
    if ks.len() == 0 {
        NodeView::Stub(node_digest(t))
    } else {
        match t {
            NodeView::Stub(h) => NodeView::Stub(h),
            NodeView::Leaf { .. } => t,
            NodeView::Extension { nibbles, child } => NodeView::Extension {
                nibbles,
                child: Box::new(
                    spec_prune_unused(*child, ext_keys(ks, pos, nibbles), pos + nibbles.len()),
                ),
            },
            NodeView::Branch { children } => NodeView::Branch {
                children: prune_unused_children(children, ks, pos),
            },
        }
    }
}

/// The children of a branch after pruning, each against its own key subset.
pub open spec fn prune_unused_children(
    cs: Seq<Option<NodeView>>,
    ks: Seq<Seq<u8>>,
    pos: int,
) -> Seq<Option<NodeView>>
    decreases cs,
{
    if cs.len() == 0 {
        Seq::empty()
    } else {
        let i = cs.len() - 1;
        prune_unused_children(cs.subrange(0, i), ks, pos).push(
            match cs[i] {
                Option::None => None,
                Option::Some(c) => Some(
                    spec_prune_unused(c, branch_keys(ks, pos, i as u8), pos + 1),
                ),
            },
        )
    }
}

pub proof fn lemma_prune_unused_children_len(
    cs: Seq<Option<NodeView>>,
    ks: Seq<Seq<u8>>,
    pos: int,
)
    ensures
        prune_unused_children(cs, ks, pos).len() == cs.len(),
        forall|i: int|
            0 <= i < cs.len() ==> prune_unused_children(cs, ks, pos)[i] == (match cs[i] {
                Option::None => None,
                Option::Some(c) => Some(spec_prune_unused(c, branch_keys(ks, pos, i as u8), pos + 1)),
            }),
    decreases cs.len(),
{
    if cs.len() > 0 {
        lemma_prune_unused_children_len(cs.subrange(0, cs.len() - 1), ks, pos);
        assert forall|i: int| 0 <= i < cs.len() implies prune_unused_children(cs, ks, pos)[i] == (
        match cs[i] {
            Option::None => None,
            Option::Some(c) => Some(spec_prune_unused(c, branch_keys(ks, pos, i as u8), pos + 1)),
        }) by {
            if i < cs.len() - 1 {
                assert(cs.subrange(0, cs.len() - 1)[i] == cs[i]);
            }
        }
    }
}

/// Pruning unused keys never changes the digest.
pub proof fn lemma_prune_unused_digest(t: NodeView, ks: Seq<Seq<u8>>, pos: int)
    ensures
        node_digest(spec_prune_unused(t, ks, pos)) == node_digest(t),
    decreases t,
{
    if ks.len() == 0 {
    } else {
        match t {
            NodeView::Stub(_) => {},
            NodeView::Leaf { .. } => {},
            NodeView::Extension { nibbles, child } => {
                lemma_prune_unused_digest(*child, ext_keys(ks, pos, nibbles), pos + nibbles.len());
            },
            NodeView::Branch { children } => {
                let cs2 = prune_unused_children(children, ks, pos);
                lemma_prune_unused_children_len(children, ks, pos);
                assert forall|i: int| 0 <= i < children.len() implies opt_digest(cs2[i])
                    == opt_digest(children[i]) by {
                    match children[i] {
                        Option::None => {},
                        Option::Some(c) => {
                            assert(decreases_to!(children => children[i]));
                            lemma_prune_unused_digest(c, branch_keys(ks, pos, i as u8), pos + 1);
                        },
                    }
                }
                lemma_children_digests_pointwise(cs2, children);
            },
        }
    }
}

/// The keys of `ks`, cloned, that continue into branch child `idx` at depth `pos`.
fn filter_branch_keys(ks: &Vec<NibbleBuf>, pos: usize, idx: u8) -> (r: Vec<NibbleBuf>)
    ensures
        keys_views(r@) == branch_keys(keys_views(ks@), pos as int, idx),
        forall|j: int| 0 <= j < r@.len() ==> r@[j]@.len() > pos,
{
    let mut out: Vec<NibbleBuf> = Vec::new();
    let mut i: usize = 0;
    let n = ks.len();
    while i < n
        invariant
            i <= n == ks@.len(),
            keys_views(out@) == branch_keys(keys_views(ks@.subrange(0, i as int)), pos as int, idx),
            forall|j: int| 0 <= j < out@.len() ==> out@[j]@.len() > pos,
        decreases n - i,
    {
        let k = &ks[i];
        let ghost old_out = out@;
        if pos < k.len() && k.get(pos) == idx {
            out.push(k.clone());
        }
        proof {
            let pre = keys_views(ks@.subrange(0, i as int));
            let cur = keys_views(ks@.subrange(0, i + 1));
            assert(cur.subrange(0, cur.len() - 1) =~= pre);
            assert(cur[cur.len() - 1] == ks@[i as int]@);
            assert(keys_views(out@) =~= branch_keys(cur, pos as int, idx));
        }
        i += 1;
    }
    proof {
        assert(ks@.subrange(0, ks@.len() as int) =~= ks@);
    }
    out
}

/// The keys of `ks`, cloned, that run through extension segment `seg` at depth `pos`.
fn filter_ext_keys(ks: &Vec<NibbleBuf>, pos: usize, seg: &NibbleBuf) -> (r: Vec<NibbleBuf>)
    ensures
        keys_views(r@) == ext_keys(keys_views(ks@), pos as int, seg@),
        forall|j: int| 0 <= j < r@.len() ==> r@[j]@.len() >= pos + seg@.len(),
{
    let mut out: Vec<NibbleBuf> = Vec::new();
    let mut i: usize = 0;
    let n = ks.len();
    while i < n
        invariant
            i <= n == ks@.len(),
            keys_views(out@) == ext_keys(keys_views(ks@.subrange(0, i as int)), pos as int, seg@),
            forall|j: int| 0 <= j < out@.len() ==> out@[j]@.len() >= pos + seg@.len(),
        decreases n - i,
    {
        let k = &ks[i];
        let ghost old_out = out@;
        if pos <= k.len() && k.starts_with_at(seg, pos) {
            out.push(k.clone());
        }
        proof {
            let pre = keys_views(ks@.subrange(0, i as int));
            let cur = keys_views(ks@.subrange(0, i + 1));
            assert(cur.subrange(0, cur.len() - 1) =~= pre);
            assert(cur[cur.len() - 1] == ks@[i as int]@);
            if !(pos <= k@.len()) {
                assert(!(pos + seg@.len() <= k@.len()));
            }
            assert(keys_views(out@) =~= ext_keys(cur, pos as int, seg@));
        }
        i += 1;
    }
    proof {
        assert(ks@.subrange(0, ks@.len() as int) =~= ks@);
    }
    out
}

impl SubTree {
    fn prune_unused_sub(&self, ks: &Vec<NibbleBuf>, pos: usize) -> (r: SubTree)
        ensures
            r@ == spec_prune_unused(self@, keys_views(ks@), pos as int),
        decreases *self,
    {
        proof {
            reveal_with_fuel(subtree_view, 3);
            reveal_with_fuel(spec_prune_unused, 2);
        }
        if ks.len() == 0 {
            let d = self.to_digest();
            return SubTree::Stub(d);
        }
        match self {
            SubTree::Stub(h) => SubTree::Stub(*h),
            SubTree::Leaf { .. } => self.deep_clone(),
            SubTree::Extension { nibbles, child } => {
                let filtered = filter_ext_keys(ks, pos, nibbles);
                if filtered.len() == 0 {
                    let d = child.to_digest();
                    proof {
                        assert(keys_views(filtered@) =~= Seq::<Seq<u8>>::empty());
                    }
                    SubTree::Extension {
                        nibbles: nibbles.clone(),
                        child: Box::new(SubTree::Stub(d)),
                    }
                } else {
                    let witness = filtered[0].len();
                    proof {
                        assert(filtered@[0]@.len() >= pos + nibbles@.len());
                        assert(pos + nibbles@.len() <= witness);
                    }
                    let c2 = child.prune_unused_sub(&filtered, pos + nibbles.len());
                    SubTree::Extension { nibbles: nibbles.clone(), child: Box::new(c2) }
                }
            },
            SubTree::Branch { children } => {
                proof {
                    lemma_children_views_len(children@);
                    lemma_prune_unused_children_len(
                        children_views(children@),
                        keys_views(ks@),
                        pos as int,
                    );
                }
                let mut cs: Vec<Option<SubTree>> = Vec::new();
                let mut i: usize = 0;
                let n = children.len();
                while i < n
                    invariant
                        i <= n == children@.len(),
                        cs@.len() == i,
                        ks@.len() > 0,
                        forall|j: int|
                            0 <= j < i ==> opt_view(cs@[j]) == prune_unused_children(
                                children_views(children@),
                                keys_views(ks@),
                                pos as int,
                            )[j],
                        *self is Branch,
                        children@ == self->Branch_children@,
                    decreases n - i,
                {
                    proof {
                        lemma_children_views_len(children@);
                        lemma_prune_unused_children_len(
                            children_views(children@),
                            keys_views(ks@),
                            pos as int,
                        );
                    }
                    let co = &children[i];
                    let c: Option<SubTree> = match co {
                        Option::None => {
                            proof {
                                assert(children@[i as int] is None);
                            }
                            None
                        },
                        Option::Some(c) => {
                            proof {
                                let t = *self;
                                let cls = t->Branch_children;
                                assert(decreases_to!(t => t->Branch_children));
                                assert(decreases_to!(cls => cls@));
                                assert(decreases_to!(cls@ => cls@[i as int]));
                                let cop = cls@[i as int];
                                assert(decreases_to!(cop => cop->Some_0));
                                assert(cop->Some_0 == *c);
                            }
                            let filtered = filter_branch_keys(ks, pos, i as u8);
                            if filtered.len() == 0 {
                                let d = c.to_digest();
                                proof {
                                    assert(keys_views(filtered@) =~= Seq::<Seq<u8>>::empty());
                                }
                                Some(SubTree::Stub(d))
                            } else {
                                let witness = filtered[0].len();
                                proof {
                                    assert(filtered@[0]@.len() > pos);
                                    assert(pos + 1 <= witness);
                                }
                                Some(c.prune_unused_sub(&filtered, pos + 1))
                            }
                        },
                    };
                    proof {
                        assert(opt_view(c) == prune_unused_children(
                            children_views(children@),
                            keys_views(ks@),
                            pos as int,
                        )[i as int]);
                    }
                    cs.push(c);
                    i += 1;
                }
                proof {
                    lemma_children_views_len(cs@);
                    lemma_children_views_len(children@);
                    lemma_prune_unused_children_len(
                        children_views(children@),
                        keys_views(ks@),
                        pos as int,
                    );
                    assert(children_views(cs@) =~= prune_unused_children(
                        children_views(children@),
                        keys_views(ks@),
                        pos as int,
                    ));
                }
                SubTree::Branch { children: cs }
            },
        }
    }
}

/// Prune every subtree that no key of `used_keys` reaches down to its stub.
/// The digest is preserved. With no used keys the whole trie collapses into
/// a single root stub.
pub fn prune_unused_keys(trie: &PartialTrie, used_keys: &Vec<NibbleBuf>) -> (r: PartialTrie)
    ensures
        trie@ is None ==> r@ is None,
        trie@ is Some ==> r@ == Some(
            spec_prune_unused(trie@->Some_0, keys_views(used_keys@), 0),
        ),
        trie_digest(r@) == trie_digest(trie@),
        trie@ is Some && used_keys@.len() == 0 ==> r@ == Some(
            NodeView::Stub(trie_digest(trie@)),
        ),
{
    match &trie.root {
        Option::None => PartialTrie { root: None },
        Option::Some(root) => {
            let t2 = root.prune_unused_sub(used_keys, 0);
            proof {
                lemma_prune_unused_digest(root@, keys_views(used_keys@), 0);
            }
            PartialTrie::from_subtree(t2)
        },
    }
}

/// Prune every subtree off one used key's path down to its stub.
pub fn prune_unused_key(trie: &PartialTrie, used_key: &NibbleBuf) -> (r: PartialTrie)
    ensures
        trie@ is None ==> r@ is None,
        trie@ is Some ==> r@ == Some(
            spec_prune_unused(trie@->Some_0, keys_views(seq![*used_key]), 0),
        ),
        trie_digest(r@) == trie_digest(trie@),
{
    let mut keys: Vec<NibbleBuf> = Vec::new();
    keys.push(used_key.clone());
    proof {
        assert(keys_views(keys@) =~= keys_views(seq![*used_key]));
    }
    prune_unused_keys(trie, &keys)
}

impl PartialTrie {
    /// The empty trie.
    pub fn new() -> (r: PartialTrie)
        ensures
            r@ is None,
    {
        PartialTrie { root: None }
    }

    /// A trie consisting of a single stub with the given root digest.
    pub fn from_root_hash(h: H256) -> (r: PartialTrie)
        ensures
            r@ == Some(NodeView::Stub(h)),
            trie_digest(r@) == h,
    {
        PartialTrie { root: Some(SubTree::Stub(h)) }
    }

    /// A trie with the given root subtree.
    pub fn from_subtree(t: SubTree) -> (r: PartialTrie)
        ensures
            r@ == Some(t@),
    {
        PartialTrie { root: Some(t) }
    }

    /// A copy with the same model.
    pub fn duplicate(&self) -> (r: PartialTrie)
        ensures
            r@ == self@,
    {
        match &self.root {
            Option::None => PartialTrie { root: None },
            Option::Some(t) => PartialTrie { root: Some(t.deep_clone()) },
        }
    }

    /// The root digest; zero for the empty trie.
    pub fn root_hash(&self) -> (r: H256)
        ensures
            r == trie_digest(self@),
    {
        match &self.root {
            Option::None => H256::zero(),
            Option::Some(t) => t.to_digest(),
        }
    }
}

} // verus!
