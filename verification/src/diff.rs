//! Diffs between two versions of a partial trie.
//!
//! A diff maps fully-qualified paths (nibbles from the root) to replacement
//! subtrees; `None` removes a branch child. Diffing two tries records, for
//! every region where they disagree, the new version's subtree; applying a
//! diff to the old version rebuilds a trie with the new version's digest.

use vstd::prelude::*;

use crate::hash::H256;
use crate::nibbles::NibbleBuf;
use crate::trie::{
    children_digests, children_views, lemma_children_digests_len, lemma_children_digests_pointwise,
    lemma_children_views_len, node_digest, opt_digest, opt_view, subtree_view, NodeView,
    PartialTrie, SubTree, TrieError,
};

verus! {

/// The model of a diff: replacement (or removal, `None`) per path.
pub type DiffMap = Map<Seq<u8>, Option<NodeView>>;

/// The recorded differences between optional subtrees `a` and `b` at `path`.
pub open spec fn diff_child(a: Option<NodeView>, b: Option<NodeView>, path: Seq<u8>) -> DiffMap
    decreases a,
{
    match (a, b) {
        (Option::None, Option::None) => Map::empty(),
        (Option::Some(x), Option::Some(y)) => diff_node(x, y, path),
        _ => Map::empty().insert(path, b),
    }
}

/// The recorded differences between nodes `x` and `y` at `path`: nothing
/// where the digests agree; recursion through equal-shaped branches and
/// extensions; otherwise the whole replacement `y` at `path`.
pub open spec fn diff_node(x: NodeView, y: NodeView, path: Seq<u8>) -> DiffMap
    decreases x,
{
    if node_digest(x) == node_digest(y) {
        Map::empty()
    } else {
        match (x, y) {
            (NodeView::Branch { children: ca }, NodeView::Branch { children: cb }) => {
                if ca.len() == cb.len() {
                    diff_children(ca, cb, path)
                } else {
                    Map::empty().insert(path, Some(y))
                }
            },
            (
                NodeView::Extension { nibbles: na, child: xc },
                NodeView::Extension { nibbles: nb, child: yc },
            ) => {
                if na == nb && na.len() > 0 {
                    diff_node(*xc, *yc, path + na)
                } else {
                    Map::empty().insert(path, Some(y))
                }
            },
            _ => Map::empty().insert(path, Some(y)),
        }
    }
}

/// The united differences of two equal-length child rows.
pub open spec fn diff_children(
    ca: Seq<Option<NodeView>>,
    cb: Seq<Option<NodeView>>,
    path: Seq<u8>,
) -> DiffMap
    decreases ca,
{
    if ca.len() == 0 {
        Map::empty()
    } else {
        let i = ca.len() - 1;
        diff_children(ca.subrange(0, i), cb.subrange(0, i), path).union_prefer_right(
            diff_child(ca[i], cb[i], path.push((i % 16) as u8)),
        )
    }
}

/// Does the diff hold any path strictly below `path`?
pub open spec fn has_key_below(d: DiffMap, path: Seq<u8>) -> bool {
    exists|k: Seq<u8>| d.contains_key(k) && path.is_prefix_of(k) && k.len() > path.len()
}

/// Well-formed model: every branch row has exactly sixteen children and
/// every extension segment is nonempty.
pub open spec fn view_wf(t: NodeView) -> bool
    decreases t,
{
    match t {
        NodeView::Stub(_) => true,
        NodeView::Leaf { .. } => true,
        NodeView::Extension { nibbles, child } => nibbles.len() > 0 && view_wf(*child),
        NodeView::Branch { children } => children.len() == 16 && children_wf(children),
    }
}

pub open spec fn children_wf(cs: Seq<Option<NodeView>>) -> bool
    decreases cs,
{
    if cs.len() == 0 {
        true
    } else {
        children_wf(cs.subrange(0, cs.len() - 1)) && opt_wf(cs[cs.len() - 1])
    }
}

pub open spec fn opt_wf(c: Option<NodeView>) -> bool
    decreases c,
{
    match c {
        Option::None => true,
        Option::Some(t) => view_wf(t),
    }
}

pub proof fn lemma_children_wf_index(cs: Seq<Option<NodeView>>)
    requires
        children_wf(cs),
    ensures
        forall|i: int| 0 <= i < cs.len() ==> opt_wf(#[trigger] cs[i]),
        forall|j: int| 0 <= j <= cs.len() ==> children_wf(#[trigger] cs.subrange(0, j)),
    decreases cs.len(),
{
    if cs.len() > 0 {
        lemma_children_wf_index(cs.subrange(0, cs.len() - 1));
        assert forall|i: int| 0 <= i < cs.len() implies opt_wf(#[trigger] cs[i]) by {
            if i < cs.len() - 1 {
                assert(cs.subrange(0, cs.len() - 1)[i] == cs[i]);
            }
        }
        assert forall|j: int| 0 <= j <= cs.len() implies children_wf(
            #[trigger] cs.subrange(0, j),
        ) by {
            if j < cs.len() {
                assert(cs.subrange(0, cs.len() - 1).subrange(0, j) =~= cs.subrange(0, j));
            } else {
                assert(cs.subrange(0, j) =~= cs);
            }
        }
    }
}

/// Applying a diff to an optional subtree at `path`: a recorded path
/// replaces the subtree outright; entries strictly below descend into the
/// materialized structure and fail where the structure ends before them.
pub open spec fn apply_child(c: Option<NodeView>, d: DiffMap, path: Seq<u8>) -> Result<
    Option<NodeView>,
    TrieError,
>
    decreases c,
{
    if d.contains_key(path) {
        Ok(d[path])
    } else if !has_key_below(d, path) {
        Ok(c)
    } else {
        match c {
            Option::None => Err(TrieError::InvalidDiffPath),
            Option::Some(x) => match apply_node(x, d, path) {
                Ok(y) => Ok(Some(y)),
                Err(e) => Err(e),
            },
        }
    }
}

/// Applying the entries strictly below `path` inside node `x`.
pub open spec fn apply_node(x: NodeView, d: DiffMap, path: Seq<u8>) -> Result<NodeView, TrieError>
    decreases x,
{
    match x {
        NodeView::Branch { children } => {
            if exists|k: Seq<u8>|
                d.contains_key(k) && path.is_prefix_of(k) && k.len() > path.len() && k[path.len() as int] as int
                    >= children.len() {
                Err(TrieError::InvalidDiffPath)
            } else {
                match apply_children(children, d, path) {
                    Ok(cs2) => Ok(NodeView::Branch { children: cs2 }),
                    Err(e) => Err(e),
                }
            }
        },
        NodeView::Extension { nibbles, child } => {
            let p2 = path + nibbles;
            if exists|k: Seq<u8>|
                d.contains_key(k) && path.is_prefix_of(k) && k.len() > path.len() && !p2.is_prefix_of(
                    k,
                ) {
                Err(TrieError::InvalidDiffPath)
            } else if d.contains_key(p2) {
                match d[p2] {
                    Option::Some(c2) => Ok(NodeView::Extension { nibbles, child: Box::new(c2) }),
                    Option::None => Err(TrieError::InvalidDiffPath),
                }
            } else {
                match apply_node(*child, d, p2) {
                    Ok(c2) => Ok(NodeView::Extension { nibbles, child: Box::new(c2) }),
                    Err(e) => Err(e),
                }
            }
        },
        _ => Err(TrieError::InvalidDiffPath),
    }
}

/// Applying a diff to each child of a row.
pub open spec fn apply_children(cs: Seq<Option<NodeView>>, d: DiffMap, path: Seq<u8>) -> Result<
    Seq<Option<NodeView>>,
    TrieError,
>
    decreases cs,
{
    if cs.len() == 0 {
        Ok(Seq::empty())
    } else {
        let i = cs.len() - 1;
        match apply_children(cs.subrange(0, i), d, path) {
            Err(e) => Err(e),
            Ok(rest) => match apply_child(cs[i], d, path.push((i % 16) as u8)) {
                Err(e) => Err(e),
                Ok(last) => Ok(rest.push(last)),
            },
        }
    }
}

/// Every recorded path of a diff extends the path it was recorded under.
pub proof fn lemma_diff_child_domain(a: Option<NodeView>, b: Option<NodeView>, path: Seq<u8>)
    ensures
        forall|k: Seq<u8>| #[trigger] diff_child(a, b, path).contains_key(k) ==> path.is_prefix_of(k),
    decreases a,
{
    match (a, b) {
        (Option::None, Option::None) => {},
        (Option::Some(x), Option::Some(y)) => {
            lemma_diff_node_domain(x, y, path);
            assert forall|k: Seq<u8>| #[trigger] diff_child(a, b, path).contains_key(
                k,
            ) implies path.is_prefix_of(k) by {
                assert(diff_node(x, y, path).contains_key(k));
            }
        },
        _ => {
            assert(path.is_prefix_of(path));
        },
    }
}

pub proof fn lemma_diff_node_domain(x: NodeView, y: NodeView, path: Seq<u8>)
    ensures
        forall|k: Seq<u8>| #[trigger] diff_node(x, y, path).contains_key(k) ==> path.is_prefix_of(k),
    decreases x,
{
    if node_digest(x) == node_digest(y) {
    } else {
        match (x, y) {
            (NodeView::Branch { children: ca }, NodeView::Branch { children: cb }) => {
                if ca.len() == cb.len() {
                    lemma_diff_children_domain(ca, cb, path);
                    assert forall|k: Seq<u8>| #[trigger] diff_node(x, y, path).contains_key(
                        k,
                    ) implies path.is_prefix_of(k) by {
                        assert(diff_children(ca, cb, path).contains_key(k));
                    }
                } else {
                    assert(path.is_prefix_of(path));
                }
            },
            (
                NodeView::Extension { nibbles: na, child: xc },
                NodeView::Extension { nibbles: nb, child: yc },
            ) => {
                if na == nb && na.len() > 0 {
                    lemma_diff_node_domain(*xc, *yc, path + na);
                    assert forall|k: Seq<u8>| #[trigger] diff_node(x, y, path).contains_key(
                        k,
                    ) implies path.is_prefix_of(k) by {
                        assert(diff_node(*xc, *yc, path + na).contains_key(k));
                        assert((path + na).is_prefix_of(k));
                        assert(k.subrange(0, path.len() as int) =~= path);
                    }
                } else {
                    assert(path.is_prefix_of(path));
                }
            },
            _ => {
                assert(path.is_prefix_of(path));
            },
        }
    }
}

pub proof fn lemma_diff_children_domain(
    ca: Seq<Option<NodeView>>,
    cb: Seq<Option<NodeView>>,
    path: Seq<u8>,
)
    ensures
        forall|k: Seq<u8>|
            #[trigger] diff_children(ca, cb, path).contains_key(k) ==> path.is_prefix_of(k) && k.len()
                > path.len() && (0 <= k[path.len() as int] < ca.len()),
    decreases ca,
{
    if ca.len() > 0 {
        let i = ca.len() - 1;
        lemma_diff_children_domain(ca.subrange(0, i), cb.subrange(0, i), path);
        lemma_diff_child_domain(ca[i], cb[i], path.push((i % 16) as u8));
        assert forall|k: Seq<u8>| #[trigger] diff_children(ca, cb, path).contains_key(
            k,
        ) implies path.is_prefix_of(k) && k.len() > path.len() && (0 <= k[path.len() as int]
            < ca.len()) by {
            let pi = path.push((i % 16) as u8);
            if diff_child(ca[i], cb[i], pi).contains_key(k) {
                assert(pi.is_prefix_of(k));
                assert(k[path.len() as int] == k.subrange(0, pi.len() as int)[path.len() as int]);
                assert(k.subrange(0, pi.len() as int) == pi);
                assert(k[path.len() as int] == pi[path.len() as int]);
                assert(k.subrange(0, path.len() as int) =~= path);
            } else {
                assert(diff_children(ca.subrange(0, i), cb.subrange(0, i), path).contains_key(k));
                assert(ca.subrange(0, i).len() <= ca.len());
            }
        }
    }
}

/// An empty diff means the digests already agree.
pub proof fn lemma_diff_child_empty(a: Option<NodeView>, b: Option<NodeView>, path: Seq<u8>)
    requires
        diff_child(a, b, path) =~= Map::<Seq<u8>, Option<NodeView>>::empty(),
    ensures
        opt_digest(a) == opt_digest(b),
    decreases a,
{
    match (a, b) {
        (Option::None, Option::None) => {},
        (Option::Some(x), Option::Some(y)) => {
            lemma_diff_node_empty(x, y, path);
        },
        _ => {
            assert(diff_child(a, b, path).contains_key(path));
        },
    }
}

pub proof fn lemma_diff_node_empty(x: NodeView, y: NodeView, path: Seq<u8>)
    requires
        diff_node(x, y, path) =~= Map::<Seq<u8>, Option<NodeView>>::empty(),
    ensures
        node_digest(x) == node_digest(y),
    decreases x,
{
    if node_digest(x) == node_digest(y) {
    } else {
        match (x, y) {
            (NodeView::Branch { children: ca }, NodeView::Branch { children: cb }) => {
                if ca.len() == cb.len() {
                    lemma_diff_children_empty(ca, cb, path);
                    lemma_children_digests_pointwise(ca, cb);
                } else {
                    assert(diff_node(x, y, path).contains_key(path));
                }
            },
            (
                NodeView::Extension { nibbles: na, child: xc },
                NodeView::Extension { nibbles: nb, child: yc },
            ) => {
                if na == nb && na.len() > 0 {
                    lemma_diff_node_empty(*xc, *yc, path + na);
                } else {
                    assert(diff_node(x, y, path).contains_key(path));
                }
            },
            _ => {
                assert(diff_node(x, y, path).contains_key(path));
            },
        }
    }
}

pub proof fn lemma_diff_children_empty(
    ca: Seq<Option<NodeView>>,
    cb: Seq<Option<NodeView>>,
    path: Seq<u8>,
)
    requires
        ca.len() == cb.len(),
        diff_children(ca, cb, path) =~= Map::<Seq<u8>, Option<NodeView>>::empty(),
    ensures
        forall|i: int| 0 <= i < ca.len() ==> opt_digest(ca[i]) == opt_digest(cb[i]),
    decreases ca,
{
    if ca.len() > 0 {
        let i = ca.len() - 1;
        assert(diff_children(ca.subrange(0, i), cb.subrange(0, i), path) =~= Map::<
            Seq<u8>,
            Option<NodeView>,
        >::empty()) by {
            assert forall|k: Seq<u8>|
                !(#[trigger] diff_children(ca.subrange(0, i), cb.subrange(0, i), path).contains_key(k)) by {
                if diff_children(ca.subrange(0, i), cb.subrange(0, i), path).contains_key(k) {
                    assert(diff_children(ca, cb, path).contains_key(k));
                }
            }
        }
        lemma_diff_children_empty(ca.subrange(0, i), cb.subrange(0, i), path);
        assert(diff_child(ca[i], cb[i], path.push((i % 16) as u8)) =~= Map::<
            Seq<u8>,
            Option<NodeView>,
        >::empty()) by {
            assert forall|k: Seq<u8>|
                !(#[trigger] diff_child(ca[i], cb[i], path.push((i % 16) as u8)).contains_key(k)) by {
                if diff_child(ca[i], cb[i], path.push((i % 16) as u8)).contains_key(k) {
                    assert(diff_children(ca, cb, path).contains_key(k));
                }
            }
        }
        lemma_diff_child_empty(ca[i], cb[i], path.push((i % 16) as u8));
        assert forall|j: int| 0 <= j < ca.len() implies opt_digest(ca[j]) == opt_digest(
            cb[j],
        ) by {
            if j < i {
                assert(ca.subrange(0, i)[j] == ca[j]);
                assert(cb.subrange(0, i)[j] == cb[j]);
            }
        }
    }
}

/// Two diffs agreeing on every path extending `path` apply identically.
pub open spec fn agree_below(d1: DiffMap, d2: DiffMap, path: Seq<u8>) -> bool {
    forall|k: Seq<u8>|
        path.is_prefix_of(k) ==> (d1.contains_key(k) == d2.contains_key(k) && (d1.contains_key(k)
            ==> d1[k] == d2[k]))
}

pub proof fn lemma_apply_child_agree(
    c: Option<NodeView>,
    d1: DiffMap,
    d2: DiffMap,
    path: Seq<u8>,
)
    requires
        agree_below(d1, d2, path),
    ensures
        apply_child(c, d1, path) == apply_child(c, d2, path),
    decreases c,
{
    assert(path.is_prefix_of(path));
    assert(has_key_below(d1, path) == has_key_below(d2, path)) by {
        if has_key_below(d1, path) {
            let k = choose|k: Seq<u8>|
                d1.contains_key(k) && path.is_prefix_of(k) && k.len() > path.len();
            assert(d2.contains_key(k));
        }
        if has_key_below(d2, path) {
            let k = choose|k: Seq<u8>|
                d2.contains_key(k) && path.is_prefix_of(k) && k.len() > path.len();
            assert(d1.contains_key(k));
        }
    }
    if !d1.contains_key(path) && has_key_below(d1, path) {
        match c {
            Option::None => {},
            Option::Some(x) => {
                lemma_apply_node_agree(x, d1, d2, path);
            },
        }
    }
}

pub proof fn lemma_apply_node_agree(x: NodeView, d1: DiffMap, d2: DiffMap, path: Seq<u8>)
    requires
        agree_below(d1, d2, path),
    ensures
        apply_node(x, d1, path) == apply_node(x, d2, path),
    decreases x,
{
    match x {
        NodeView::Branch { children } => {
            assert((exists|k: Seq<u8>|
                d1.contains_key(k) && path.is_prefix_of(k) && k.len() > path.len() && k[path.len() as int] as int
                    >= children.len()) == (exists|k: Seq<u8>|
                d2.contains_key(k) && path.is_prefix_of(k) && k.len() > path.len() && k[path.len() as int] as int
                    >= children.len())) by {
                if exists|k: Seq<u8>|
                    d1.contains_key(k) && path.is_prefix_of(k) && k.len() > path.len() && k[path.len() as int] as int
                        >= children.len() {
                    let k = choose|k: Seq<u8>|
                        d1.contains_key(k) && path.is_prefix_of(k) && k.len() > path.len()
                            && k[path.len() as int] as int >= children.len();
                    assert(d2.contains_key(k));
                }
                if exists|k: Seq<u8>|
                    d2.contains_key(k) && path.is_prefix_of(k) && k.len() > path.len() && k[path.len() as int] as int
                        >= children.len() {
                    let k = choose|k: Seq<u8>|
                        d2.contains_key(k) && path.is_prefix_of(k) && k.len() > path.len()
                            && k[path.len() as int] as int >= children.len();
                    assert(d1.contains_key(k));
                }
            }
            lemma_apply_children_agree(children, d1, d2, path);
        },
        NodeView::Extension { nibbles, child } => {
            let p2 = path + nibbles;
            assert((exists|k: Seq<u8>|
                d1.contains_key(k) && path.is_prefix_of(k) && k.len() > path.len()
                    && !p2.is_prefix_of(k)) == (exists|k: Seq<u8>|
                d2.contains_key(k) && path.is_prefix_of(k) && k.len() > path.len()
                    && !p2.is_prefix_of(k))) by {
                if exists|k: Seq<u8>|
                    d1.contains_key(k) && path.is_prefix_of(k) && k.len() > path.len()
                        && !p2.is_prefix_of(k) {
                    let k = choose|k: Seq<u8>|
                        d1.contains_key(k) && path.is_prefix_of(k) && k.len() > path.len()
                            && !p2.is_prefix_of(k);
                    assert(d2.contains_key(k));
                }
                if exists|k: Seq<u8>|
                    d2.contains_key(k) && path.is_prefix_of(k) && k.len() > path.len()
                        && !p2.is_prefix_of(k) {
                    let k = choose|k: Seq<u8>|
                        d2.contains_key(k) && path.is_prefix_of(k) && k.len() > path.len()
                            && !p2.is_prefix_of(k);
                    assert(d1.contains_key(k));
                }
            }
            assert(path.is_prefix_of(p2)) by {
                assert(p2.subrange(0, path.len() as int) =~= path);
            }
            assert(agree_below(d1, d2, p2)) by {
                assert forall|k: Seq<u8>| p2.is_prefix_of(k) implies path.is_prefix_of(k) by {
                    assert(k.subrange(0, p2.len() as int) =~= p2);
                    assert(k.subrange(0, path.len() as int) =~= path);
                }
            }
            if !d1.contains_key(p2) {
                lemma_apply_node_agree(*child, d1, d2, p2);
            }
        },
        _ => {},
    }
}

pub proof fn lemma_apply_children_agree(
    cs: Seq<Option<NodeView>>,
    d1: DiffMap,
    d2: DiffMap,
    path: Seq<u8>,
)
    requires
        agree_below(d1, d2, path),
    ensures
        apply_children(cs, d1, path) == apply_children(cs, d2, path),
    decreases cs,
{
    if cs.len() > 0 {
        let i = cs.len() - 1;
        lemma_apply_children_agree(cs.subrange(0, i), d1, d2, path);
        let pi = path.push((i % 16) as u8);
        assert(agree_below(d1, d2, pi)) by {
            assert forall|k: Seq<u8>| pi.is_prefix_of(k) implies path.is_prefix_of(k) by {
                assert(k.subrange(0, pi.len() as int) =~= pi);
                assert(k.subrange(0, path.len() as int) =~= path);
            }
        }
        lemma_apply_child_agree(cs[i], d1, d2, pi);
    }
}

/// Like [`lemma_apply_children_agree`], but needing agreement only below
/// each child's own path.
pub proof fn lemma_apply_children_agree_upto(
    cs: Seq<Option<NodeView>>,
    d1: DiffMap,
    d2: DiffMap,
    path: Seq<u8>,
)
    requires
        forall|j: int| 0 <= j < cs.len() ==> agree_below(d1, d2, #[trigger] path.push((j % 16) as u8)),
    ensures
        apply_children(cs, d1, path) == apply_children(cs, d2, path),
    decreases cs,
{
    if cs.len() > 0 {
        let i = cs.len() - 1;
        lemma_apply_children_agree_upto(cs.subrange(0, i), d1, d2, path);
        lemma_apply_child_agree(cs[i], d1, d2, path.push((i % 16) as u8));
    }
}

/// Applying the diff of two equal-length child rows rebuilds, child by
/// child, a row whose digests are the new row's.
pub proof fn lemma_roundtrip_children(
    ca: Seq<Option<NodeView>>,
    cb: Seq<Option<NodeView>>,
    path: Seq<u8>,
)
    requires
        ca.len() == cb.len(),
        ca.len() <= 16,
        children_wf(ca),
    ensures
        ({
            let d = diff_children(ca, cb, path);
            let r = apply_children(ca, d, path);
            &&& r is Ok
            &&& r->Ok_0.len() == ca.len()
            &&& forall|i: int|
                0 <= i < ca.len() ==> opt_digest(r->Ok_0[i]) == opt_digest(cb[i])
        }),
    decreases ca,
{
    let d = diff_children(ca, cb, path);
    if ca.len() > 0 {
        let i = ca.len() - 1;
        let pre_a = ca.subrange(0, i);
        let pre_b = cb.subrange(0, i);
        let d_pre = diff_children(pre_a, pre_b, path);
        let pi = path.push((i % 16) as u8);
        let d_i = diff_child(ca[i], cb[i], pi);
        lemma_children_wf_index(ca);
        lemma_roundtrip_children(pre_a, pre_b, path);
        lemma_diff_children_domain(pre_a, pre_b, path);
        lemma_diff_child_domain(ca[i], cb[i], pi);
        // the prefix children see only the prefix entries
        assert forall|j: int| 0 <= j < pre_a.len() implies agree_below(
            d,
            d_pre,
            #[trigger] path.push((j % 16) as u8),
        ) by {
            let pj = path.push((j % 16) as u8);
            assert forall|k: Seq<u8>|
                pj.is_prefix_of(k) implies (d.contains_key(k) == d_pre.contains_key(k) && (
            d.contains_key(k) ==> d[k] == d_pre[k])) by {
                if d_i.contains_key(k) {
                    assert(pi.is_prefix_of(k));
                    if pj.is_prefix_of(k) {
                        assert(k[path.len() as int] == k.subrange(0, pi.len() as int)[path.len() as int]);
                        assert(k.subrange(0, pi.len() as int) == pi);
                        assert(k[path.len() as int] == pi[path.len() as int]);
                        assert(k[path.len() as int] == k.subrange(0, pj.len() as int)[path.len() as int]);
                        assert(k.subrange(0, pj.len() as int) == pj);
                        assert(k[path.len() as int] == pj[path.len() as int]);
                        assert(pi[path.len() as int] == (i % 16) as u8);
                        assert(pj[path.len() as int] == (j % 16) as u8);
                        assert(i % 16 == i && j % 16 == j);
                        assert(false);
                    }
                }
            }
        }
        lemma_apply_children_agree_upto(pre_a, d, d_pre, path);
        // the last child sees only its own entries
        assert(agree_below(d, d_i, pi)) by {
            assert forall|k: Seq<u8>|
                pi.is_prefix_of(k) implies (d.contains_key(k) == d_i.contains_key(k) && (
            d.contains_key(k) ==> d[k] == d_i[k])) by {
                if pi.is_prefix_of(k) {
                    if d_pre.contains_key(k) {
                        assert(0 <= k[path.len() as int] < pre_a.len());
                        assert(k[path.len() as int] == k.subrange(0, pi.len() as int)[path.len() as int]);
                        assert(k.subrange(0, pi.len() as int) == pi);
                        assert(k[path.len() as int] == pi[path.len() as int]);
                        assert(pi[path.len() as int] == (i % 16) as u8);
                        assert(i % 16 == i);
                        assert(false);
                    }
                }
            }
        }
        lemma_apply_child_agree(ca[i], d, d_i, pi);
        lemma_roundtrip_child(ca[i], cb[i], pi);
        let rest = apply_children(pre_a, d, path)->Ok_0;
        let last = apply_child(ca[i], d, pi)->Ok_0;
        assert forall|j: int| 0 <= j < ca.len() implies opt_digest(
            apply_children(ca, d, path)->Ok_0[j],
        ) == opt_digest(cb[j]) by {
            if j < i {
                assert(apply_children(ca, d, path)->Ok_0[j] == rest[j]);
                assert(pre_b[j] == cb[j]);
            } else {
                assert(apply_children(ca, d, path)->Ok_0[j] == last);
            }
        }
    }
}

/// Entries recorded under `path` that are not `path` itself lie strictly
/// below it, so a diff without either is empty.
pub proof fn lemma_diff_node_no_keys_empty(x: NodeView, y: NodeView, path: Seq<u8>)
    requires
        !diff_node(x, y, path).contains_key(path),
        !has_key_below(diff_node(x, y, path), path),
    ensures
        node_digest(x) == node_digest(y),
{
    let d = diff_node(x, y, path);
    lemma_diff_node_domain(x, y, path);
    assert(d =~= Map::<Seq<u8>, Option<NodeView>>::empty()) by {
        assert forall|k: Seq<u8>| !(#[trigger] d.contains_key(k)) by {
            if d.contains_key(k) {
                assert(path.is_prefix_of(k));
                if k.len() > path.len() {
                    assert(has_key_below(d, path));
                } else {
                    assert(k =~= path);
                }
            }
        }
    }
    lemma_diff_node_empty(x, y, path);
}

/// Applying a node's own recorded differences rebuilds the new node's digest.
#[verifier::rlimit(100)]
pub proof fn lemma_roundtrip_node(x: NodeView, y: NodeView, path: Seq<u8>)
    requires
        view_wf(x),
    ensures
        ({
            let d = diff_node(x, y, path);
            &&& (d.contains_key(path) ==> d[path] == Some(y))
            &&& ((!d.contains_key(path) && has_key_below(d, path)) ==> {
                let r = apply_node(x, d, path);
                r is Ok && node_digest(r->Ok_0) == node_digest(y)
            })
        }),
    decreases x,
{
    let d = diff_node(x, y, path);
    if node_digest(x) == node_digest(y) {
    } else {
        match (x, y) {
            (NodeView::Branch { children: ca }, NodeView::Branch { children: cb }) => {
                if ca.len() == cb.len() {
                    lemma_diff_children_domain(ca, cb, path);
                    assert(!d.contains_key(path)) by {
                        if d.contains_key(path) {
                            assert(diff_children(ca, cb, path).contains_key(path));
                        }
                    }
                    if has_key_below(d, path) {
                        assert(!(exists|k: Seq<u8>|
                            d.contains_key(k) && path.is_prefix_of(k) && k.len() > path.len()
                                && k[path.len() as int] as int >= ca.len())) by {
                            if exists|k: Seq<u8>|
                                d.contains_key(k) && path.is_prefix_of(k) && k.len() > path.len()
                                    && k[path.len() as int] as int >= ca.len() {
                                let k = choose|k: Seq<u8>|
                                    d.contains_key(k) && path.is_prefix_of(k) && k.len()
                                        > path.len() && k[path.len() as int] as int >= ca.len();
                                assert(diff_children(ca, cb, path).contains_key(k));
                            }
                        }
                        lemma_roundtrip_children(ca, cb, path);
                        let cs2 = apply_children(ca, d, path)->Ok_0;
                        lemma_children_digests_pointwise(cs2, cb);
                    }
                } else {
                    assert(d.contains_key(path));
                }
            },
            (
                NodeView::Extension { nibbles: na, child: xc },
                NodeView::Extension { nibbles: nb, child: yc },
            ) => {
                if na == nb && na.len() > 0 {
                    let p2 = path + na;
                    lemma_diff_node_domain(*xc, *yc, p2);
                    assert(!d.contains_key(path)) by {
                        if d.contains_key(path) {
                            assert(diff_node(*xc, *yc, p2).contains_key(path));
                            assert(p2.is_prefix_of(path));
                        }
                    }
                    if has_key_below(d, path) {
                        lemma_roundtrip_node(*xc, *yc, p2);
                        assert(!(exists|k: Seq<u8>|
                            d.contains_key(k) && path.is_prefix_of(k) && k.len() > path.len()
                                && !p2.is_prefix_of(k)));
                        if d.contains_key(p2) {
                            assert(d[p2] == Some(*yc));
                        } else {
                            assert(has_key_below(d, p2)) by {
                                let k = choose|k: Seq<u8>|
                                    d.contains_key(k) && path.is_prefix_of(k) && k.len()
                                        > path.len();
                                assert(p2.is_prefix_of(k));
                                assert(k.len() > p2.len()) by {
                                    if k.len() == p2.len() {
                                        assert(k =~= p2);
                                    }
                                }
                            }
                        }
                    }
                } else {
                    assert(d.contains_key(path));
                }
            },
            _ => {
                assert(d.contains_key(path));
            },
        }
    }
}

/// Applying to a trie the diff against a newer trie yields the newer trie's
/// digest: the round trip that block validation relies on.
pub proof fn lemma_roundtrip_child(a: Option<NodeView>, b: Option<NodeView>, path: Seq<u8>)
    requires
        opt_wf(a),
    ensures
        apply_child(a, diff_child(a, b, path), path) is Ok,
        opt_digest(apply_child(a, diff_child(a, b, path), path)->Ok_0) == opt_digest(b),
    decreases a,
{
    let d = diff_child(a, b, path);
    match (a, b) {
        (Option::None, Option::None) => {
            assert(!has_key_below(d, path));
        },
        (Option::Some(x), Option::Some(y)) => {
            lemma_roundtrip_node(x, y, path);
            if d.contains_key(path) {
            } else if !has_key_below(d, path) {
                lemma_diff_node_no_keys_empty(x, y, path);
            }
        },
        _ => {
            assert(d.contains_key(path));
            assert(d[path] == b);
        },
    }
}

/// A diff as carried between nodes: replacement entries in recording order;
/// for a path recorded more than once the last entry counts.
#[derive(Debug)]
pub struct PartialTrieDiff {
    entries: Vec<(NibbleBuf, Option<SubTree>)>,
}

/// The map a list of entries stands for: later entries override earlier ones.
pub open spec fn entries_map(es: Seq<(NibbleBuf, Option<SubTree>)>) -> DiffMap
    decreases es.len(),
{
    if es.len() == 0 {
        Map::empty()
    } else {
        let i = es.len() - 1;
        entries_map(es.subrange(0, i)).insert(es[i].0@, opt_view(es[i].1))
    }
}

impl View for PartialTrieDiff {
    type V = DiffMap;

    closed spec fn view(&self) -> DiffMap {
        entries_map(self.entries@)
    }
}

/// A key is in the map exactly when some entry carries it.
pub proof fn lemma_entries_map_domain(es: Seq<(NibbleBuf, Option<SubTree>)>)
    ensures
        forall|k: Seq<u8>|
            #[trigger] entries_map(es).contains_key(k) <==> exists|j: int|
                0 <= j < es.len() && #[trigger] es[j].0@ == k,
    decreases es.len(),
{
    if es.len() > 0 {
        let i = es.len() - 1;
        lemma_entries_map_domain(es.subrange(0, i));
        assert forall|k: Seq<u8>| #[trigger] entries_map(es).contains_key(k) implies exists|j: int|
            0 <= j < es.len() && #[trigger] es[j].0@ == k by {
            if k == es[i].0@ {
            } else {
                assert(entries_map(es.subrange(0, i)).contains_key(k));
                let j = choose|j: int| 0 <= j < i && #[trigger] es.subrange(0, i)[j].0@ == k;
                assert(es[j].0@ == k);
            }
        }
        assert forall|k: Seq<u8>| (exists|j: int| 0 <= j < es.len() && #[trigger] es[j].0@ == k)
            implies #[trigger] entries_map(es).contains_key(k) by {
            let j = choose|j: int| 0 <= j < es.len() && #[trigger] es[j].0@ == k;
            if j < i {
                assert(es.subrange(0, i)[j].0@ == k);
                assert(entries_map(es.subrange(0, i)).contains_key(k));
            }
        }
    }
}

/// The value under a key is the value of its last entry.
pub proof fn lemma_entries_map_lookup(es: Seq<(NibbleBuf, Option<SubTree>)>, j: int)
    requires
        0 <= j < es.len(),
        forall|l: int| j < l < es.len() ==> es[l].0@ != es[j].0@,
    ensures
        entries_map(es).contains_key(es[j].0@),
        entries_map(es)[es[j].0@] == opt_view(es[j].1),
    decreases es.len(),
{
    let i = es.len() - 1;
    if j == i {
    } else {
        assert forall|l: int| j < l < i implies es.subrange(0, i)[l].0@ != es.subrange(
            0,
            i,
        )[j].0@ by {
            assert(es.subrange(0, i)[l].0@ == es[l].0@);
        }
        lemma_entries_map_lookup(es.subrange(0, i), j);
        assert(es.subrange(0, i)[j] == es[j]);
        assert(es[i].0@ != es[j].0@);
    }
}

/// Are two nibble buffers the same key?
fn nb_eq(a: &NibbleBuf, b: &NibbleBuf) -> (r: bool)
    ensures
        r == (a@ == b@),
{
    if a.len() != b.len() {
        return false;
    }
    let r = a.starts_with_at(b, 0);
    proof {
        assert(a@.subrange(0, b@.len() as int) =~= a@);
    }
    r
}

/// A copy of an optional subtree with the same model.
fn opt_clone(c: &Option<SubTree>) -> (r: Option<SubTree>)
    ensures
        opt_view(r) == opt_view(*c),
{
    match c {
        Option::None => None,
        Option::Some(t) => Some(t.deep_clone()),
    }
}

/// The value recorded for `path`, if any: the last matching entry.
fn lookup_entry(es: &Vec<(NibbleBuf, Option<SubTree>)>, path: &NibbleBuf) -> (r: Option<
    Option<SubTree>,
>)
    ensures
        match r {
            Option::None => !entries_map(es@).contains_key(path@),
            Option::Some(v) => entries_map(es@).contains_key(path@) && opt_view(v) == entries_map(
                es@,
            )[path@],
        },
{
    let mut i: usize = es.len();
    while i > 0
        invariant
            i <= es@.len(),
            forall|l: int| i <= l < es@.len() ==> es@[l].0@ != path@,
        decreases i,
    {
        i = i - 1;
        if nb_eq(&es[i].0, path) {
            let v = opt_clone(&es[i].1);
            proof {
                lemma_entries_map_lookup(es@, i as int);
            }
            return Some(v);
        }
    }
    proof {
        lemma_entries_map_domain(es@);
        if entries_map(es@).contains_key(path@) {
            let j = choose|j: int| 0 <= j < es@.len() && #[trigger] es@[j].0@ == path@;
        }
    }
    None
}

/// Does any recorded path lie strictly below `path`?
fn has_below(es: &Vec<(NibbleBuf, Option<SubTree>)>, path: &NibbleBuf) -> (r: bool)
    ensures
        r == has_key_below(entries_map(es@), path@),
{
    proof {
        lemma_entries_map_domain(es@);
    }
    let mut i: usize = 0;
    let n = es.len();
    while i < n
        invariant
            i <= n == es@.len(),
            forall|l: int|
                0 <= l < i ==> !(path@.is_prefix_of(#[trigger] es@[l].0@) && es@[l].0@.len()
                    > path@.len()),
        decreases n - i,
    {
        let k = &es[i].0;
        if k.len() > path.len() && k.starts_with_at(path, 0) {
            proof {
                lemma_entries_map_domain(es@);
                assert(entries_map(es@).contains_key(es@[i as int].0@));
                assert(path@.is_prefix_of(es@[i as int].0@));
            }
            return true;
        }
        proof {
            if path@.is_prefix_of(es@[i as int].0@) && es@[i as int].0@.len() > path@.len() {
                assert(es@[i as int].0@.subrange(0, path@.len() as int) == path@);
            }
        }
        i += 1;
    }
    proof {
        if has_key_below(entries_map(es@), path@) {
            let k = choose|k: Seq<u8>|
                entries_map(es@).contains_key(k) && path@.is_prefix_of(k) && k.len()
                    > path@.len();
            let j = choose|j: int| 0 <= j < es@.len() && #[trigger] es@[j].0@ == k;
        }
    }
    false
}

/// Does any recorded path below `path` diverge into a branch index at or
/// past `limit`?
fn has_diverging_index(
    es: &Vec<(NibbleBuf, Option<SubTree>)>,
    path: &NibbleBuf,
    limit: usize,
) -> (r: bool)
    ensures
        r == (exists|k: Seq<u8>|
            entries_map(es@).contains_key(k) && path@.is_prefix_of(k) && k.len() > path@.len()
                && k[path@.len() as int] as int >= limit),
{
    proof {
        lemma_entries_map_domain(es@);
    }
    let mut i: usize = 0;
    let n = es.len();
    while i < n
        invariant
            i <= n == es@.len(),
            forall|l: int|
                0 <= l < i ==> !(path@.is_prefix_of(#[trigger] es@[l].0@) && es@[l].0@.len()
                    > path@.len() && es@[l].0@[path@.len() as int] as int >= limit),
        decreases n - i,
    {
        let k = &es[i].0;
        if k.len() > path.len() && k.starts_with_at(path, 0) && k.get(path.len()) as usize
            >= limit {
            proof {
                lemma_entries_map_domain(es@);
                assert(entries_map(es@).contains_key(es@[i as int].0@));
                assert(path@.is_prefix_of(es@[i as int].0@));
            }
            return true;
        }
        i += 1;
    }
    proof {
        if exists|k: Seq<u8>|
            entries_map(es@).contains_key(k) && path@.is_prefix_of(k) && k.len() > path@.len()
                && k[path@.len() as int] as int >= limit {
            let k = choose|k: Seq<u8>|
                entries_map(es@).contains_key(k) && path@.is_prefix_of(k) && k.len()
                    > path@.len() && k[path@.len() as int] as int >= limit;
            let j = choose|j: int| 0 <= j < es@.len() && #[trigger] es@[j].0@ == k;
        }
    }
    false
}

/// Does any recorded path below `path` leave the extension segment, that is
/// extend `path` but not `p2`?
fn has_diverging_path(
    es: &Vec<(NibbleBuf, Option<SubTree>)>,
    path: &NibbleBuf,
    p2: &NibbleBuf,
) -> (r: bool)
    ensures
        r == (exists|k: Seq<u8>|
            entries_map(es@).contains_key(k) && path@.is_prefix_of(k) && k.len() > path@.len()
                && !p2@.is_prefix_of(k)),
{
    proof {
        lemma_entries_map_domain(es@);
    }
    let mut i: usize = 0;
    let n = es.len();
    while i < n
        invariant
            i <= n == es@.len(),
            forall|l: int|
                0 <= l < i ==> !(path@.is_prefix_of(#[trigger] es@[l].0@) && es@[l].0@.len()
                    > path@.len() && !p2@.is_prefix_of(es@[l].0@)),
        decreases n - i,
    {
        let k = &es[i].0;
        if k.len() > path.len() && k.starts_with_at(path, 0) && !(k.len() >= p2.len()
            && k.starts_with_at(p2, 0)) {
            proof {
                lemma_entries_map_domain(es@);
                assert(entries_map(es@).contains_key(es@[i as int].0@));
                assert(!p2@.is_prefix_of(es@[i as int].0@));
            }
            return true;
        }
        proof {
            let kk = es@[i as int].0@;
            if path@.is_prefix_of(kk) && kk.len() > path@.len() && !p2@.is_prefix_of(kk) {
                assert(kk.subrange(0, path@.len() as int) == path@);
                assert(kk.len() >= p2@.len() && kk.subrange(0, p2@.len() as int) == p2@);
                assert(p2@.is_prefix_of(kk));
            }
        }
        i += 1;
    }
    proof {
        if exists|k: Seq<u8>|
            entries_map(es@).contains_key(k) && path@.is_prefix_of(k) && k.len() > path@.len()
                && !p2@.is_prefix_of(k) {
            let k = choose|k: Seq<u8>|
                entries_map(es@).contains_key(k) && path@.is_prefix_of(k) && k.len()
                    > path@.len() && !p2@.is_prefix_of(k);
            let j = choose|j: int| 0 <= j < es@.len() && #[trigger] es@[j].0@ == k;
        }
    }
    false
}

/// Apply the entries at or below `path` to an optional subtree.
fn apply_child_exec(
    c: &Option<SubTree>,
    es: &Vec<(NibbleBuf, Option<SubTree>)>,
    path: &NibbleBuf,
) -> (r: Result<Option<SubTree>, TrieError>)
    ensures
        match apply_child(opt_view(*c), entries_map(es@), path@) {
            Ok(v) => r is Ok && opt_view(r->Ok_0) == v,
            Err(e) => r == Err::<Option<SubTree>, TrieError>(e),
        },
    decreases *c,
{
    if let Some(v) = lookup_entry(es, path) {
        return Ok(v);
    }
    if !has_below(es, path) {
        return Ok(opt_clone(c));
    }
    match c {
        Option::None => Err(TrieError::InvalidDiffPath),
        Option::Some(x) => {
            proof {
                assert(decreases_to!(*c => c->Some_0));
                assert(c->Some_0 == *x);
            }
            match apply_node_exec(x, es, path) {
                Ok(y) => Ok(Some(y)),
                Err(e) => Err(e),
            }
        },
    }
}

/// Apply the entries strictly below `path` inside a materialized node.
fn apply_node_exec(x: &SubTree, es: &Vec<(NibbleBuf, Option<SubTree>)>, path: &NibbleBuf) -> (r:
    Result<SubTree, TrieError>)
    ensures
        match apply_node(x@, entries_map(es@), path@) {
            Ok(y) => r is Ok && r->Ok_0@ == y,
            Err(e) => r == Err::<SubTree, TrieError>(e),
        },
    decreases *x,
{
    proof {
        reveal_with_fuel(subtree_view, 3);
    }
    match x {
        SubTree::Branch { children } => {
            proof {
                lemma_children_views_len(children@);
            }
            if has_diverging_index(es, path, children.len()) {
                return Err(TrieError::InvalidDiffPath);
            }
            let ghost d = entries_map(es@);
            let ghost spec_cs = children_views(children@);
            let mut cs2: Vec<Option<SubTree>> = Vec::new();
            let mut i: usize = 0;
            let n = children.len();
            while i < n
                invariant
                    i <= n == children@.len(),
                    n == spec_cs.len(),
                    d == entries_map(es@),
                    spec_cs == children_views(children@),
                    !(exists|k: Seq<u8>|
                        d.contains_key(k) && path@.is_prefix_of(k) && k.len() > path@.len()
                            && k[path@.len() as int] as int >= spec_cs.len()),
                    apply_children(spec_cs.subrange(0, i as int), d, path@) is Ok,
                    apply_children(spec_cs.subrange(0, i as int), d, path@)->Ok_0
                        == children_views(cs2@),
                    cs2@.len() == i,
                    *x is Branch,
                    children@ == x->Branch_children@,
                decreases n - i,
            {
                proof {
                    lemma_children_views_len(children@);
                }
                let mut pi = path.clone();
                pi = pi.push((i % 16) as u8);
                let co = &children[i];
                proof {
                    let t = *x;
                    let cls = t->Branch_children;
                    assert(decreases_to!(t => t->Branch_children));
                    assert(decreases_to!(cls => cls@));
                    assert(decreases_to!(cls@ => cls@[i as int]));
                }
                let c2 = match apply_child_exec(co, es, &pi) {
                    Ok(v) => v,
                    Err(e) => {
                        proof {
                            let cur = spec_cs.subrange(0, i + 1);
                            assert(cur.subrange(0, cur.len() - 1) =~= spec_cs.subrange(
                                0,
                                i as int,
                            ));
                            assert(cur[cur.len() - 1] == spec_cs[i as int]);
                            assert(spec_cs[i as int] == opt_view(children@[i as int]));
                            assert(apply_children(cur.subrange(0, cur.len() - 1), d, path@)
                                is Ok);
                            assert(apply_child(cur[cur.len() - 1], d, path@.push(
                                ((cur.len() - 1) % 16) as u8,
                            )) == Err::<Option<NodeView>, TrieError>(e));
                            assert(apply_children(cur, d, path@) == Err::<
                                Seq<Option<NodeView>>,
                                TrieError,
                            >(e));
                            lemma_apply_children_prefix_err(spec_cs, d, path@, i + 1);
                        }
                        return Err(e);
                    },
                };
                let ghost old_cs2 = cs2@;
                cs2.push(c2);
                proof {
                    let cur = spec_cs.subrange(0, i + 1);
                    assert(cur.subrange(0, cur.len() - 1) =~= spec_cs.subrange(0, i as int));
                    assert(cur[cur.len() - 1] == spec_cs[i as int]);
                    assert(spec_cs[i as int] == opt_view(children@[i as int]));
                    lemma_children_views_len(cs2@);
                    lemma_children_views_len(old_cs2);
                    assert(children_views(cs2@) =~= apply_children(cur, d, path@)->Ok_0) by {
                        assert(children_views(cs2@).len() == i + 1);
                        assert forall|j: int|
                            0 <= j < i + 1 implies children_views(cs2@)[j] == apply_children(
                            cur,
                            d,
                            path@,
                        )->Ok_0[j] by {
                            if j < i as int {
                                assert(cs2@[j] == old_cs2[j]);
                            }
                        }
                    }
                }
                i += 1;
            }
            proof {
                assert(spec_cs.subrange(0, n as int) =~= spec_cs);
            }
            Ok(SubTree::Branch { children: cs2 })
        },
        SubTree::Extension { nibbles, child } => {
            let mut p2 = path.clone();
            p2 = p2.extend(nibbles);
            if has_diverging_path(es, path, &p2) {
                return Err(TrieError::InvalidDiffPath);
            }
            if let Some(v) = lookup_entry(es, &p2) {
                match v {
                    Option::Some(c2) => {
                        return Ok(
                            SubTree::Extension { nibbles: nibbles.clone(), child: Box::new(c2) },
                        );
                    },
                    Option::None => {
                        return Err(TrieError::InvalidDiffPath);
                    },
                }
            }
            match apply_node_exec(child, es, &p2) {
                Ok(c2) => Ok(SubTree::Extension { nibbles: nibbles.clone(), child: Box::new(c2) }),
                Err(e) => Err(e),
            }
        },
        _ => Err(TrieError::InvalidDiffPath),
    }
}

/// A failed child fails the whole row.
proof fn lemma_apply_children_prefix_err(cs: Seq<Option<NodeView>>, d: DiffMap, path: Seq<u8>, i: int)
    requires
        0 < i <= cs.len(),
        apply_children(cs.subrange(0, i), d, path) is Err,
    ensures
        apply_children(cs, d, path) is Err,
        apply_children(cs, d, path) == apply_children(cs.subrange(0, i), d, path),
    decreases cs.len(),
{
    if i == cs.len() {
        assert(cs.subrange(0, i) =~= cs);
    } else {
        let l = cs.len() - 1;
        assert(cs.subrange(0, l).subrange(0, i) =~= cs.subrange(0, i));
        lemma_apply_children_prefix_err(cs.subrange(0, l), d, path, i);
    }
}

impl PartialTrieDiff {
    /// The empty diff.
    pub fn new() -> (r: PartialTrieDiff)
        ensures
            r@ == Map::<Seq<u8>, Option<NodeView>>::empty(),
    {
        PartialTrieDiff { entries: Vec::new() }
    }

    /// Does the diff record nothing?
    pub fn is_empty(&self) -> (r: bool)
        ensures
            r == (self@ == Map::<Seq<u8>, Option<NodeView>>::empty()),
    {
        let r = self.entries.len() == 0;
        proof {
            lemma_entries_map_domain(self.entries@);
            if r {
                assert(self@ =~= Map::<Seq<u8>, Option<NodeView>>::empty());
            } else {
                assert(self@.contains_key(self.entries@[0].0@));
            }
        }
        r
    }

    /// A copy with the same model.
    pub fn duplicate(&self) -> (r: PartialTrieDiff)
        ensures
            r@ == self@,
    {
        PartialTrieDiff { entries: clone_entries(&self.entries) }
    }
}

/// A copy of an entry list whose map is unchanged.
fn clone_entries(es: &Vec<(NibbleBuf, Option<SubTree>)>) -> (r: Vec<(NibbleBuf, Option<SubTree>)>)
    ensures
        entries_map(r@) == entries_map(es@),
        r@.len() == es@.len(),
        forall|j: int|
            0 <= j < es@.len() ==> #[trigger] r@[j].0@ == es@[j].0@ && opt_view(r@[j].1)
                == opt_view(es@[j].1),
{
    let mut out: Vec<(NibbleBuf, Option<SubTree>)> = Vec::new();
    let mut i: usize = 0;
    let n = es.len();
    while i < n
        invariant
            i <= n == es@.len(),
            out@.len() == i,
            entries_map(out@) == entries_map(es@.subrange(0, i as int)),
            forall|j: int|
                0 <= j < i ==> #[trigger] out@[j].0@ == es@[j].0@ && opt_view(out@[j].1)
                    == opt_view(es@[j].1),
        decreases n - i,
    {
        let k = es[i].0.clone();
        let v = opt_clone(&es[i].1);
        let ghost old_out = out@;
        out.push((k, v));
        proof {
            let pre = es@.subrange(0, i as int);
            let cur = es@.subrange(0, i + 1);
            assert(cur.subrange(0, cur.len() - 1) =~= pre);
            assert(cur[cur.len() - 1] == es@[i as int]);
            assert(out@.subrange(0, out@.len() - 1) =~= old_out);
            assert(entries_map(out@) =~= entries_map(cur));
        }
        i += 1;
    }
    proof {
        assert(es@.subrange(0, es@.len() as int) =~= es@);
    }
    out
}

/// Record, below `path`, how to turn optional subtree `a` into `b`.
fn diff_child_exec(
    a: &Option<SubTree>,
    b: &Option<SubTree>,
    path: &NibbleBuf,
    out: &mut Vec<(NibbleBuf, Option<SubTree>)>,
)
    ensures
        entries_map(final(out)@) == entries_map(old(out)@).union_prefer_right(
            diff_child(opt_view(*a), opt_view(*b), path@),
        ),
    decreases *a,
{
    match (a, b) {
        (Option::None, Option::None) => {
            proof {
                assert(entries_map(out@) =~= entries_map(out@).union_prefer_right(
                    diff_child(opt_view(*a), opt_view(*b), path@),
                ));
            }
        },
        (Option::Some(x), Option::Some(y)) => {
            proof {
                assert(decreases_to!(*a => a->Some_0));
                assert(a->Some_0 == *x);
            }
            diff_node_exec(x, y, path, out);
        },
        _ => {
            let ghost old_out = out@;
            out.push((path.clone(), opt_clone(b)));
            proof {
                assert(out@.subrange(0, out@.len() - 1) =~= old_out);
                assert(entries_map(out@) =~= entries_map(old_out).union_prefer_right(
                    diff_child(opt_view(*a), opt_view(*b), path@),
                ));
            }
        },
    }
}

/// Record, below `path`, how to turn node `x` into `y`.
fn diff_node_exec(
    x: &SubTree,
    y: &SubTree,
    path: &NibbleBuf,
    out: &mut Vec<(NibbleBuf, Option<SubTree>)>,
)
    ensures
        entries_map(final(out)@) == entries_map(old(out)@).union_prefer_right(
            diff_node(x@, y@, path@),
        ),
    decreases *x,
{
    let dx = x.to_digest();
    let dy = y.to_digest();
    if dx == dy {
        proof {
            assert(entries_map(out@) =~= entries_map(out@).union_prefer_right(
                diff_node(x@, y@, path@),
            ));
        }
        return ;
    }
    let replace: bool = match (x, y) {
        (SubTree::Branch { children: ca }, SubTree::Branch { children: cb }) => {
            if ca.len() == cb.len() {
                proof {
                    lemma_children_views_len(ca@);
                    lemma_children_views_len(cb@);
                }
                let ghost spec_a = children_views(ca@);
                let ghost spec_b = children_views(cb@);
                let ghost base = entries_map(out@);
                let mut i: usize = 0;
                let n = ca.len();
                while i < n
                    invariant
                        i <= n == ca@.len() == cb@.len(),
                        n == spec_a.len() == spec_b.len(),
                        spec_a == children_views(ca@),
                        spec_b == children_views(cb@),
                        base == entries_map(old(out)@),
                        entries_map(out@) == base.union_prefer_right(
                            diff_children(
                                spec_a.subrange(0, i as int),
                                spec_b.subrange(0, i as int),
                                path@,
                            ),
                        ),
                        *x is Branch,
                        ca@ == x->Branch_children@,
                    decreases n - i,
                {
                    proof {
                        lemma_children_views_len(ca@);
                        lemma_children_views_len(cb@);
                    }
                    let mut pi = path.clone();
                    pi = pi.push((i % 16) as u8);
                    proof {
                        let t = *x;
                        let cls = t->Branch_children;
                        assert(decreases_to!(t => t->Branch_children));
                        assert(decreases_to!(cls => cls@));
                        assert(decreases_to!(cls@ => cls@[i as int]));
                    }
                    let ghost before = entries_map(out@);
                    diff_child_exec(&ca[i], &cb[i], &pi, out);
                    proof {
                        let pre_a = spec_a.subrange(0, i as int);
                        let pre_b = spec_b.subrange(0, i as int);
                        let cur_a = spec_a.subrange(0, i + 1);
                        let cur_b = spec_b.subrange(0, i + 1);
                        assert(cur_a.subrange(0, cur_a.len() - 1) =~= pre_a);
                        assert(cur_b.subrange(0, cur_b.len() - 1) =~= pre_b);
                        assert(cur_a[cur_a.len() - 1] == opt_view(ca@[i as int]));
                        assert(cur_b[cur_b.len() - 1] == opt_view(cb@[i as int]));
                        assert(entries_map(out@) =~= base.union_prefer_right(
                            diff_children(cur_a, cur_b, path@),
                        ));
                    }
                    i += 1;
                }
                proof {
                    assert(spec_a.subrange(0, n as int) =~= spec_a);
                    assert(spec_b.subrange(0, n as int) =~= spec_b);
                }
                false
            } else {
                proof {
                    lemma_children_views_len(ca@);
                    lemma_children_views_len(cb@);
                }
                true
            }
        },
        (
            SubTree::Extension { nibbles: na, child: xc },
            SubTree::Extension { nibbles: nb, child: yc },
        ) => {
            if nb_eq(na, nb) && na.len() > 0 {
                let mut p2 = path.clone();
                p2 = p2.extend(na);
                diff_node_exec(xc, yc, &p2, out);
                false
            } else {
                true
            }
        },
        _ => true,
    };
    if replace {
        let ghost old_out = out@;
        out.push((path.clone(), Some(y.deep_clone())));
        proof {
            assert(out@.subrange(0, out@.len() - 1) =~= old_out);
            assert(entries_map(out@) =~= entries_map(old_out).union_prefer_right(
                diff_node(x@, y@, path@),
            ));
        }
    }
}

/// The diff that turns `base` into `new`: path-keyed replacements, recorded
/// where the two tries disagree.
pub fn diff(base: &PartialTrie, new: &PartialTrie) -> (r: PartialTrieDiff)
    ensures
        r@ == diff_child(base@, new@, Seq::<u8>::empty()),
{
    let mut out: Vec<(NibbleBuf, Option<SubTree>)> = Vec::new();
    let empty_path = NibbleBuf::empty();
    diff_child_exec(&base.root, &new.root, &empty_path, &mut out);
    proof {
        assert(entries_map(out@) =~= diff_child(base@, new@, Seq::<u8>::empty()));
    }
    PartialTrieDiff { entries: out }
}

/// Apply a diff: recorded paths replace the subtrees they name. Fails where
/// a recorded path no longer exists in `base`.
pub fn apply_diff(base: &PartialTrie, d: &PartialTrieDiff) -> (r: Result<PartialTrie, TrieError>)
    ensures
        match apply_child(base@, d@, Seq::<u8>::empty()) {
            Ok(v) => r is Ok && r->Ok_0@ == v,
            Err(e) => r == Err::<PartialTrie, TrieError>(e),
        },
{
    let empty_path = NibbleBuf::empty();
    match apply_child_exec(&base.root, &d.entries, &empty_path) {
        Ok(root) => Ok(PartialTrie { root }),
        Err(e) => Err(e),
    }
}

/// Merge two diffs over the same base: the union of their paths, the left
/// diff winning on a shared path. The caller owes that replacements recorded
/// on a shared path carry the same digest.
pub fn merge_diff(lhs: &PartialTrieDiff, rhs: &PartialTrieDiff) -> (r: PartialTrieDiff)
    requires
        maps_compatible(lhs@, rhs@),
    ensures
        r@ == rhs@.union_prefer_right(lhs@),
{
    let mut out = clone_entries(&rhs.entries);
    let more = clone_entries(&lhs.entries);
    let ghost rhs_entries = out@;
    let ghost lhs_entries = more@;
    let mut i: usize = 0;
    let n = more.len();
    proof {
        assert(entries_map(lhs_entries.subrange(0, 0)) =~= Map::<Seq<u8>, Option<NodeView>>::empty());
        assert(entries_map(out@) =~= entries_map(rhs_entries).union_prefer_right(
            entries_map(lhs_entries.subrange(0, 0)),
        ));
    }
    while i < n
        invariant
            i <= n == lhs_entries.len(),
            more@ == lhs_entries,
            entries_map(out@) == entries_map(rhs_entries).union_prefer_right(
                entries_map(lhs_entries.subrange(0, i as int)),
            ),
        decreases n - i,
    {
        let k = more[i].0.clone();
        let v = opt_clone(&more[i].1);
        let ghost old_out = out@;
        out.push((k, v));
        proof {
            let pre = lhs_entries.subrange(0, i as int);
            let cur = lhs_entries.subrange(0, i + 1);
            assert(cur.subrange(0, cur.len() - 1) =~= pre);
            assert(cur[cur.len() - 1] == lhs_entries[i as int]);
            assert(out@.subrange(0, out@.len() - 1) =~= old_out);
            assert(entries_map(out@) =~= entries_map(rhs_entries).union_prefer_right(
                entries_map(cur),
            ));
        }
        i += 1;
    }
    proof {
        assert(lhs_entries.subrange(0, n as int) =~= lhs_entries);
    }
    PartialTrieDiff { entries: out }
}

/// On path-disjoint diffs the merge is the same from either side.
pub proof fn lemma_merge_diff_commutative(a: DiffMap, b: DiffMap)
    requires
        forall|k: Seq<u8>| !(a.contains_key(k) && b.contains_key(k)),
    ensures
        b.union_prefer_right(a) == a.union_prefer_right(b),
{
    assert(b.union_prefer_right(a) =~= a.union_prefer_right(b));
}

/// Do two diffs agree, digest for digest, on every path they share?
pub open spec fn maps_compatible(a: DiffMap, b: DiffMap) -> bool {
    forall|k: Seq<u8>|
        a.contains_key(k) && b.contains_key(k) ==> opt_digest(#[trigger] a[k]) == opt_digest(b[k])
}

/// Every key in the map has a last entry carrying it, whose value the map
/// holds.
proof fn lemma_entries_map_last_match(es: Seq<(NibbleBuf, Option<SubTree>)>, k: Seq<u8>)
    requires
        entries_map(es).contains_key(k),
    ensures
        exists|j: int|
            0 <= j < es.len() && (#[trigger] es[j]).0@ == k && (forall|l: int|
                j < l < es.len() ==> (#[trigger] es[l]).0@ != k) && entries_map(es)[k] == opt_view(
                es[j].1,
            ),
    decreases es.len(),
{
    let i = es.len() - 1;
    if es[i].0@ == k {
        assert(0 <= i < es.len() && (#[trigger] es[i]).0@ == k && (forall|l: int|
            i < l < es.len() ==> (#[trigger] es[l]).0@ != k) && entries_map(es)[k] == opt_view(
            es[i].1,
        ));
    } else {
        assert(entries_map(es.subrange(0, i)).contains_key(k));
        lemma_entries_map_last_match(es.subrange(0, i), k);
        let j = choose|j: int|
            0 <= j < i && (#[trigger] es.subrange(0, i)[j]).0@ == k && (forall|l: int|
                j < l < i ==> (#[trigger] es.subrange(0, i)[l]).0@ != k) && entries_map(
                es.subrange(0, i),
            )[k] == opt_view(es.subrange(0, i)[j].1);
        assert(es.subrange(0, i)[j] == es[j]);
        assert forall|l: int| j < l < es.len() implies (#[trigger] es[l]).0@ != k by {
            if l < i {
                assert(es.subrange(0, i)[l] == es[l]);
            }
        }
        assert(0 <= j < es.len() && (#[trigger] es[j]).0@ == k && (forall|l: int|
            j < l < es.len() ==> (#[trigger] es[l]).0@ != k) && entries_map(es)[k] == opt_view(
            es[j].1,
        ));
    }
}

/// The digest of an optional subtree: zero when absent.
fn opt_to_digest(c: &Option<SubTree>) -> (r: H256)
    ensures
        r == opt_digest(opt_view(*c)),
{
    match c {
        Option::None => H256::zero(),
        Option::Some(t) => t.to_digest(),
    }
}

/// Do two diffs agree, digest for digest, on every path they share? Exactly
/// the condition under which they can be merged.
pub fn diffs_compatible(lhs: &PartialTrieDiff, rhs: &PartialTrieDiff) -> (r: bool)
    ensures
        r == maps_compatible(lhs@, rhs@),
{
    let les = &lhs.entries;
    let n = les.len();
    let mut j: usize = 0;
    while j < n
        invariant
            j <= n == les@.len(),
            les@ == lhs.entries@,
            forall|j2: int|
                0 <= j2 < j && (forall|l: int|
                    j2 < l < les@.len() ==> (#[trigger] les@[l]).0@ != les@[j2].0@) ==> {
                    ||| !entries_map(rhs.entries@).contains_key((#[trigger] les@[j2]).0@)
                    ||| opt_digest(opt_view(les@[j2].1)) == opt_digest(
                        entries_map(rhs.entries@)[les@[j2].0@],
                    )
                },
        decreases n - j,
    {
        // only an entry that is the last for its path carries the map's value
        let mut is_last = true;
        let mut l: usize = j + 1;
        while l < n
            invariant
                j < l <= n == les@.len(),
                les@ == lhs.entries@,
                is_last == (forall|l2: int|
                    j < l2 < l ==> (#[trigger] les@[l2]).0@ != les@[j as int].0@),
            decreases n - l,
        {
            if nb_eq(&les[l].0, &les[j].0) {
                is_last = false;
            }
            l += 1;
        }
        if is_last {
            if let Some(rv) = lookup_entry(&rhs.entries, &les[j].0) {
                let dl = opt_to_digest(&les[j].1);
                let dr = opt_to_digest(&rv);
                if !(dl == dr) {
                    proof {
                        let jj = j as int;
                        lemma_entries_map_lookup(les@, jj);
                        let k = les@[jj].0@;
                        assert(lhs@.contains_key(k) && rhs@.contains_key(k) && opt_digest(
                            lhs@[k],
                        ) != opt_digest(rhs@[k]));
                    }
                    return false;
                }
            }
        }
        proof {
            let jj = j as int;
            if forall|l2: int| jj < l2 < les@.len() ==> (#[trigger] les@[l2]).0@ != les@[jj].0@ {
                lemma_entries_map_lookup(les@, jj);
            }
        }
        j += 1;
    }
    proof {
        assert forall|k: Seq<u8>|
            lhs@.contains_key(k) && rhs@.contains_key(k) implies opt_digest(#[trigger] lhs@[k])
            == opt_digest(rhs@[k]) by {
            lemma_entries_map_last_match(les@, k);
            let j2 = choose|j2: int|
                0 <= j2 < les@.len() && (#[trigger] les@[j2]).0@ == k && (forall|l: int|
                    j2 < l < les@.len() ==> (#[trigger] les@[l]).0@ != k) && entries_map(les@)[k]
                    == opt_view(les@[j2].1);
        }
    }
    true
}

} // verus!
