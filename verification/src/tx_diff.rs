//! Transaction-level trie diffs: the main-trie diff plus one diff per
//! touched account, merged when a leader packs several executions into one
//! block. Two diffs from the same base merge only if their per-account
//! nonce and code-hash fields agree and overlapping trie paths carry the
//! same digest.

use vstd::prelude::*;

use crate::diff::{maps_compatible, merge_diff, DiffMap, PartialTrieDiff};
use crate::hash::H256;
use crate::trie::opt_digest;

verus! {

/// An account address: twenty bytes, as two words and a tail.
#[derive(Clone, Copy, PartialEq, Eq, Structural, Hash, Debug)]
pub struct Address {
    pub w0: u64,
    pub w1: u64,
    pub w2: u32,
}

/// The model of one account's diff.
pub struct AccDiffView {
    pub nonce: Option<u64>,
    pub code_hash: Option<H256>,
    pub state: DiffMap,
}

/// The changes one block makes to a single account: a new nonce, a new code
/// hash, and a diff of its storage trie, each only where it changed.
#[derive(Debug)]
pub struct AccountTrieDiff {
    pub nonce: Option<u64>,
    pub code_hash: Option<H256>,
    pub state_trie_diff: PartialTrieDiff,
}

impl View for AccountTrieDiff {
    type V = AccDiffView;

    open spec fn view(&self) -> AccDiffView {
        AccDiffView { nonce: self.nonce, code_hash: self.code_hash, state: self.state_trie_diff@ }
    }
}

impl AccountTrieDiff {
    /// Does this diff change nothing?
    pub fn is_empty(&self) -> (r: bool)
        ensures
            r == (self@.nonce is None && self@.code_hash is None && self@.state == Map::<
                Seq<u8>,
                Option<crate::trie::NodeView>,
            >::empty()),
    {
        self.nonce.is_none() && self.code_hash.is_none() && self.state_trie_diff.is_empty()
    }

    /// A copy with the same model.
    pub fn duplicate(&self) -> (r: AccountTrieDiff)
        ensures
            r@ == self@,
    {
        AccountTrieDiff {
            nonce: self.nonce,
            code_hash: self.code_hash,
            state_trie_diff: self.state_trie_diff.duplicate(),
        }
    }
}

/// Can two account diffs for the same account be merged?
pub open spec fn acc_compatible(a: AccDiffView, b: AccDiffView) -> bool {
    &&& a.nonce == b.nonce
    &&& a.code_hash == b.code_hash
    &&& maps_compatible(a.state, b.state)
}

/// The merge of two compatible account diffs: shared fields, united paths,
/// the left side winning on a shared path.
pub open spec fn merged_acc(a: AccDiffView, b: AccDiffView) -> AccDiffView {
    AccDiffView {
        nonce: a.nonce,
        code_hash: a.code_hash,
        state: b.state.union_prefer_right(a.state),
    }
}

/// Merge two diffs of the same account. The fields must agree; overlapping
/// storage paths must carry the same digest.
pub fn merge_acc_trie_diff(lhs: &AccountTrieDiff, rhs: &AccountTrieDiff) -> (r: AccountTrieDiff)
    requires
        acc_compatible(lhs@, rhs@),
    ensures
        r@ == merged_acc(lhs@, rhs@),
{
    let state_trie_diff = merge_diff(&lhs.state_trie_diff, &rhs.state_trie_diff);
    AccountTrieDiff { nonce: lhs.nonce, code_hash: lhs.code_hash, state_trie_diff }
}

/// The model of a transaction-level diff.
pub struct TxDiffView {
    pub main: DiffMap,
    pub accounts: Map<Address, AccDiffView>,
}

/// The state changes of a whole block: a diff of the main trie and a diff
/// per touched account.
#[derive(Debug)]
pub struct TxTrieDiff {
    main_trie_diff: PartialTrieDiff,
    acc_trie_diffs: Vec<(Address, AccountTrieDiff)>,
}

/// The account map a list of per-account entries stands for.
pub open spec fn acc_entries_map(es: Seq<(Address, AccountTrieDiff)>) -> Map<Address, AccDiffView>
    decreases es.len(),
{
    if es.len() == 0 {
        Map::empty()
    } else {
        let i = es.len() - 1;
        acc_entries_map(es.subrange(0, i)).insert(es[i].0, es[i].1@)
    }
}

/// No address appears twice.
pub open spec fn unique_addrs(es: Seq<(Address, AccountTrieDiff)>) -> bool {
    forall|i: int, j: int| 0 <= i < j < es.len() ==> (#[trigger] es[i]).0 != (#[trigger] es[j]).0
}

proof fn lemma_acc_entries_map_domain(es: Seq<(Address, AccountTrieDiff)>)
    ensures
        forall|a: Address|
            #[trigger] acc_entries_map(es).contains_key(a) <==> exists|j: int|
                0 <= j < es.len() && (#[trigger] es[j]).0 == a,
    decreases es.len(),
{
    if es.len() > 0 {
        let i = es.len() - 1;
        lemma_acc_entries_map_domain(es.subrange(0, i));
        assert forall|a: Address| #[trigger] acc_entries_map(es).contains_key(a) implies exists|
            j: int,
        | 0 <= j < es.len() && (#[trigger] es[j]).0 == a by {
            if a == es[i].0 {
                assert(0 <= i < es.len() && (#[trigger] es[i]).0 == a);
            } else {
                assert(acc_entries_map(es.subrange(0, i)).contains_key(a));
                let j = choose|j: int| 0 <= j < i && (#[trigger] es.subrange(0, i)[j]).0 == a;
                assert(es.subrange(0, i)[j] == es[j]);
                assert(0 <= j < es.len() && (#[trigger] es[j]).0 == a);
            }
        }
        assert forall|a: Address| (exists|j: int| 0 <= j < es.len() && (#[trigger] es[j]).0 == a)
            implies #[trigger] acc_entries_map(es).contains_key(a) by {
            let j = choose|j: int| 0 <= j < es.len() && (#[trigger] es[j]).0 == a;
            if j < i {
                assert(0 <= j < i && (#[trigger] es.subrange(0, i)[j]).0 == a);
                assert(acc_entries_map(es.subrange(0, i)).contains_key(a));
            }
        }
    }
}

proof fn lemma_acc_entries_map_lookup(es: Seq<(Address, AccountTrieDiff)>, j: int)
    requires
        0 <= j < es.len(),
        forall|l: int| j < l < es.len() ==> (#[trigger] es[l]).0 != es[j].0,
    ensures
        acc_entries_map(es).contains_key(es[j].0),
        acc_entries_map(es)[es[j].0] == es[j].1@,
    decreases es.len(),
{
    let i = es.len() - 1;
    if j < i {
        assert forall|l: int| j < l < i implies (#[trigger] es.subrange(0, i)[l]).0 != es.subrange(
            0,
            i,
        )[j].0 by {
            assert(es.subrange(0, i)[l].0 == es[l].0);
        }
        lemma_acc_entries_map_lookup(es.subrange(0, i), j);
        assert(es.subrange(0, i)[j] == es[j]);
    }
}

impl View for TxTrieDiff {
    type V = TxDiffView;

    closed spec fn view(&self) -> TxDiffView {
        TxDiffView { main: self.main_trie_diff@, accounts: acc_entries_map(self.acc_trie_diffs@) }
    }
}

/// The merge of two account maps: united addresses, shared ones merged.
pub open spec fn merged_accounts(l: Map<Address, AccDiffView>, r: Map<Address, AccDiffView>) -> Map<
    Address,
    AccDiffView,
> {
    Map::new(
        |a: Address| l.contains_key(a) || r.contains_key(a),
        |a: Address|
            if l.contains_key(a) && r.contains_key(a) {
                merged_acc(l[a], r[a])
            } else if l.contains_key(a) {
                l[a]
            } else {
                r[a]
            },
    )
}

/// Can two transaction-level diffs be merged?
pub open spec fn tx_diff_compatible(a: TxDiffView, b: TxDiffView) -> bool {
    &&& maps_compatible(a.main, b.main)
    &&& forall|ad: Address|
        a.accounts.contains_key(ad) && b.accounts.contains_key(ad) ==> acc_compatible(
            #[trigger] a.accounts[ad],
            b.accounts[ad],
        )
}

impl TxTrieDiff {
    #[verifier::type_invariant]
    spec fn type_inv(self) -> bool {
        unique_addrs(self.acc_trie_diffs@)
    }

    /// A diff that changes nothing.
    pub fn new() -> (r: TxTrieDiff)
        ensures
            r@.main == Map::<Seq<u8>, Option<crate::trie::NodeView>>::empty(),
            r@.accounts == Map::<Address, AccDiffView>::empty(),
    {
        let r = TxTrieDiff { main_trie_diff: PartialTrieDiff::new(), acc_trie_diffs: Vec::new() };
        proof {
            assert(r@.accounts =~= Map::<Address, AccDiffView>::empty());
        }
        r
    }

    /// A diff with the given main-trie part and no account parts.
    pub fn from_main(main: PartialTrieDiff) -> (r: TxTrieDiff)
        ensures
            r@.main == main@,
            r@.accounts == Map::<Address, AccDiffView>::empty(),
    {
        let r = TxTrieDiff { main_trie_diff: main, acc_trie_diffs: Vec::new() };
        proof {
            assert(r@.accounts =~= Map::<Address, AccDiffView>::empty());
        }
        r
    }

    /// The main-trie part.
    pub fn main_diff(&self) -> (r: &PartialTrieDiff)
        ensures
            r@ == self@.main,
    {
        &self.main_trie_diff
    }

    /// The diff recorded for one account, if any.
    pub fn account_diff(&self, addr: Address) -> (r: Option<&AccountTrieDiff>)
        ensures
            match r {
                Option::None => !self@.accounts.contains_key(addr),
                Option::Some(d) => self@.accounts.contains_key(addr) && d@ == self@.accounts[addr],
            },
    {
        proof {
            use_type_invariant(self);
            lemma_acc_entries_map_domain(self.acc_trie_diffs@);
        }
        let es = &self.acc_trie_diffs;
        let mut i: usize = 0;
        let n = es.len();
        while i < n
            invariant
                i <= n == es@.len(),
                es@ == self.acc_trie_diffs@,
                unique_addrs(es@),
                forall|l: int| 0 <= l < i ==> (#[trigger] es@[l]).0 != addr,
            decreases n - i,
        {
            if es[i].0.w0 == addr.w0 && es[i].0.w1 == addr.w1 && es[i].0.w2 == addr.w2 {
                proof {
                    let ii = i as int;
                    assert(es@[ii].0 == addr);
                    assert forall|l: int| ii < l < es@.len() implies (#[trigger] es@[l]).0
                        != es@[ii].0 by {
                        assert((#[trigger] es@[ii]).0 != (#[trigger] es@[l]).0);
                    }
                    lemma_acc_entries_map_lookup(es@, ii);
                }
                return Some(&es[i].1);
            }
            i += 1;
        }
        proof {
            if acc_entries_map(es@).contains_key(addr) {
                let j = choose|j: int| 0 <= j < es@.len() && (#[trigger] es@[j].0) == addr;
            }
        }
        None
    }

    /// The diff with one more account recorded, which must be new.
    pub fn add_account(self, addr: Address, d: AccountTrieDiff) -> (r: TxTrieDiff)
        requires
            !self@.accounts.contains_key(addr),
        ensures
            r@.main == self@.main,
            r@.accounts == self@.accounts.insert(addr, d@),
    {
        proof {
            use_type_invariant(&self);
            lemma_acc_entries_map_domain(self.acc_trie_diffs@);
        }
        let TxTrieDiff { main_trie_diff, mut acc_trie_diffs } = self;
        proof {
            let es0 = acc_trie_diffs@;
            assert forall|l: int| 0 <= l < es0.len() implies (#[trigger] es0[l]).0 != addr by {
                assert(es0[l] == acc_trie_diffs@[l]);
                if acc_trie_diffs@[l].0 == addr {
                    assert(acc_entries_map(acc_trie_diffs@).contains_key(addr));
                }
            }
        }
        let ghost old_es = acc_trie_diffs@;
        acc_trie_diffs.push((addr, d));
        proof {
            assert(acc_trie_diffs@.subrange(0, acc_trie_diffs@.len() - 1) =~= old_es);
        }
        TxTrieDiff { main_trie_diff, acc_trie_diffs }
    }
}

/// Merge two transaction-level diffs over the same base: main-trie diffs
/// united with the left side winning, account diffs merged address by
/// address. The two must be compatible.
pub fn merge_tx_trie_diff(lhs: &TxTrieDiff, rhs: &TxTrieDiff) -> (r: TxTrieDiff)
    requires
        tx_diff_compatible(lhs@, rhs@),
    ensures
        r@.main == rhs@.main.union_prefer_right(lhs@.main),
        r@.accounts == merged_accounts(lhs@.accounts, rhs@.accounts),
{
    proof {
        use_type_invariant(lhs);
        use_type_invariant(rhs);
        lemma_acc_entries_map_domain(lhs.acc_trie_diffs@);
        lemma_acc_entries_map_domain(rhs.acc_trie_diffs@);
    }
    proof {
        assert(maps_compatible(lhs.main_trie_diff@, rhs.main_trie_diff@));
    }
    let main_trie_diff = merge_diff(&lhs.main_trie_diff, &rhs.main_trie_diff);
    let ghost lmap = acc_entries_map(lhs.acc_trie_diffs@);
    let ghost rmap = acc_entries_map(rhs.acc_trie_diffs@);
    let mut out: Vec<(Address, AccountTrieDiff)> = Vec::new();
    let les = &lhs.acc_trie_diffs;
    let mut i: usize = 0;
    let n = les.len();
    while i < n
        invariant
            i <= n == les@.len(),
            unique_addrs(les@),
            unique_addrs(rhs.acc_trie_diffs@),
            lmap == acc_entries_map(lhs.acc_trie_diffs@),
            rmap == acc_entries_map(rhs.acc_trie_diffs@),
            les@ == lhs.acc_trie_diffs@,
            tx_diff_compatible(lhs@, rhs@),
            lhs@.accounts == lmap,
            rhs@.accounts == rmap,
            out@.len() == i,
            forall|l: int| 0 <= l < i ==> (#[trigger] out@[l]).0 == les@[l].0,
            forall|l: int|
                0 <= l < i ==> (#[trigger] out@[l]).1@ == (if rmap.contains_key(les@[l].0) {
                    merged_acc(lmap[les@[l].0], rmap[les@[l].0])
                } else {
                    lmap[les@[l].0]
                }),
        decreases n - i,
    {
        proof {
            let ii = i as int;
            assert forall|l: int| ii < l < les@.len() implies (#[trigger] les@[l]).0 != les@[ii].0 by {}
            lemma_acc_entries_map_lookup(les@, i as int);
        }
        let addr = les[i].0;
        let merged: AccountTrieDiff = match rhs.account_diff(addr) {
            Option::Some(rd) => merge_acc_trie_diff(&les[i].1, rd),
            Option::None => les[i].1.duplicate(),
        };
        out.push((addr, merged));
        i += 1;
    }
    // append the accounts only the right side holds
    let res = &rhs.acc_trie_diffs;
    let m = res.len();
    let mut j: usize = 0;
    while j < m
        invariant
            j <= m == res@.len(),
            n == les@.len(),
            unique_addrs(les@),
            unique_addrs(res@),
            res@ == rhs.acc_trie_diffs@,
            les@ == lhs.acc_trie_diffs@,
            lmap == acc_entries_map(lhs.acc_trie_diffs@),
            rmap == acc_entries_map(rhs.acc_trie_diffs@),
            lhs@.accounts == lmap,
            rhs@.accounts == rmap,
            out@.len() >= n,
            forall|l: int| 0 <= l < n ==> (#[trigger] out@[l]).0 == les@[l].0,
            forall|l: int|
                0 <= l < n ==> (#[trigger] out@[l]).1@ == (if rmap.contains_key(les@[l].0) {
                    merged_acc(lmap[les@[l].0], rmap[les@[l].0])
                } else {
                    lmap[les@[l].0]
                }),
            forall|l: int|
                n <= l < out@.len() ==> !lmap.contains_key((#[trigger] out@[l]).0)
                    && rmap.contains_key(out@[l].0) && out@[l].1@ == rmap[out@[l].0],
            forall|l: int, l2: int|
                n <= l < l2 < out@.len() ==> (#[trigger] out@[l]).0 != (#[trigger] out@[l2]).0,
            forall|l: int|
                n <= l < out@.len() ==> exists|l2: int|
                    0 <= l2 < j && (#[trigger] out@[l]).0 == (#[trigger] res@[l2]).0,
            forall|a: Address|
                (rmap.contains_key(a) && !lmap.contains_key(a) && (exists|l: int|
                    0 <= l < j && (#[trigger] res@[l]).0 == a)) ==> exists|l: int|
                    n <= l < out@.len() && (#[trigger] out@[l]).0 == a,
        decreases m - j,
    {
        proof {
            let jj = j as int;
            assert forall|l: int| jj < l < res@.len() implies (#[trigger] res@[l]).0 != res@[jj].0 by {}
            lemma_acc_entries_map_lookup(res@, j as int);
        }
        let addr = res[j].0;
        let found = lhs.account_diff(addr);
        let ghost pre_out = out@;
        proof {
            if found is Some {
                assert(lmap.contains_key(addr));
            }
        }
        if found.is_none() {
            proof {
                let jj = j as int;
                assert forall|l: int| n <= l < out@.len() implies (#[trigger] out@[l]).0
                    != addr by {
                    let l2 = choose|l2: int|
                        0 <= l2 < jj && (#[trigger] out@[l]).0 == (#[trigger] res@[l2]).0;
                    assert((#[trigger] res@[l2]).0 != (#[trigger] res@[jj]).0);
                }
            }
            let ghost old_out2 = out@;
            out.push((addr, res[j].1.duplicate()));
            proof {
                let jj = j as int;
                assert forall|l: int| n <= l < out@.len() implies exists|l2: int|
                    0 <= l2 < jj + 1 && (#[trigger] out@[l]).0 == (#[trigger] res@[l2]).0 by {
                    if l < out@.len() - 1 {
                        assert(out@[l] == old_out2[l]);
                    } else {
                        assert(0 <= jj < jj + 1 && (#[trigger] out@[l]).0 == (
                        #[trigger] res@[jj]).0);
                    }
                }
            }
        }
        proof {
            let jj = j as int;
            assert forall|a: Address|
                (rmap.contains_key(a) && !lmap.contains_key(a) && (exists|l: int|
                    0 <= l < jj + 1 && (#[trigger] res@[l]).0 == a)) implies exists|l: int|
                    n <= l < out@.len() && (#[trigger] out@[l]).0 == a by {
                let l = choose|l: int| 0 <= l < jj + 1 && (#[trigger] res@[l]).0 == a;
                if l < jj {
                    assert(exists|l2: int| 0 <= l2 < jj && (#[trigger] res@[l2]).0 == a);
                    let w = choose|w: int|
                        n <= w < pre_out.len() && (#[trigger] pre_out[w]).0 == a;
                    assert(n <= w < out@.len() && (#[trigger] out@[w]).0 == a);
                } else {
                    assert(a == addr);
                    if found is Some {
                        assert(lmap.contains_key(a));
                    } else {
                        assert((#[trigger] out@[out@.len() - 1]).0 == a);
                    }
                }
            }
        }
        j += 1;
    }
    let r = TxTrieDiff { main_trie_diff, acc_trie_diffs: out };
    proof {
        lemma_acc_entries_map_domain(out@);
        lemma_acc_entries_map_domain(res@);
        assert forall|l: int, l2: int| 0 <= l < l2 < out@.len() implies (#[trigger] out@[l].0) != (
        #[trigger] out@[l2].0) by {
            if l2 < n as int {
            } else if l < n as int {
                assert(lmap.contains_key(out@[l].0)) by {
                    lemma_acc_entries_map_lookup(les@, l);
                }
            }
        }
        assert forall|l: int| 0 <= l < out@.len() implies (forall|l2: int|
            l < l2 < out@.len() ==> (#[trigger] out@[l2]).0 != (#[trigger] out@[l]).0) by {}
        assert(acc_entries_map(out@) =~= merged_accounts(lmap, rmap)) by {
            assert forall|a: Address| #[trigger] acc_entries_map(out@).contains_key(a)
                == merged_accounts(lmap, rmap).contains_key(a) by {
                if acc_entries_map(out@).contains_key(a) {
                    let l = choose|l: int| 0 <= l < out@.len() && (#[trigger] out@[l]).0 == a;
                    if l < n as int {
                        lemma_acc_entries_map_lookup(les@, l);
                    }
                }
                if merged_accounts(lmap, rmap).contains_key(a) {
                    if lmap.contains_key(a) {
                        let l = choose|l: int|
                            0 <= l < les@.len() && (#[trigger] les@[l]).0 == a;
                        assert(out@[l].0 == a);
                    } else {
                        let l = choose|l: int|
                            0 <= l < res@.len() && (#[trigger] res@[l]).0 == a;
                        assert(exists|l2: int|
                            n <= l2 < out@.len() && (#[trigger] out@[l2]).0 == a);
                    }
                }
            }
            assert forall|a: Address|
                acc_entries_map(out@).contains_key(a) && merged_accounts(lmap, rmap).contains_key(
                    a,
                ) implies #[trigger] acc_entries_map(out@)[a] == merged_accounts(lmap, rmap)[a] by {
                let l = choose|l: int| 0 <= l < out@.len() && (#[trigger] out@[l]).0 == a;
                assert forall|l2: int| l < l2 < out@.len() implies (#[trigger] out@[l2].0)
                    != a by {}
                lemma_acc_entries_map_lookup(out@, l);
                if l < n as int {
                    lemma_acc_entries_map_lookup(les@, l);
                }
            }
        }
    }
    r
}

fn nonce_eq(a: &Option<u64>, b: &Option<u64>) -> (r: bool)
    ensures
        r == (*a == *b),
{
    match (a, b) {
        (Option::None, Option::None) => true,
        (Option::Some(x), Option::Some(y)) => x == y,
        _ => false,
    }
}

fn code_hash_eq(a: &Option<H256>, b: &Option<H256>) -> (r: bool)
    ensures
        r == (*a == *b),
{
    match (a, b) {
        (Option::None, Option::None) => true,
        (Option::Some(x), Option::Some(y)) => x == y,
        _ => false,
    }
}

/// Can two account diffs be merged: fields equal and storage paths
/// digest-compatible?
pub fn acc_diffs_compatible(lhs: &AccountTrieDiff, rhs: &AccountTrieDiff) -> (r: bool)
    ensures
        r == acc_compatible(lhs@, rhs@),
{
    nonce_eq(&lhs.nonce, &rhs.nonce) && code_hash_eq(&lhs.code_hash, &rhs.code_hash)
        && crate::diff::diffs_compatible(&lhs.state_trie_diff, &rhs.state_trie_diff)
}

/// Can two transaction-level diffs be merged: main diffs digest-compatible
/// on shared paths, and every shared account's diffs compatible? Exactly
/// `merge_tx_trie_diff`'s precondition.
pub fn tx_diffs_compatible(lhs: &TxTrieDiff, rhs: &TxTrieDiff) -> (r: bool)
    ensures
        r == tx_diff_compatible(lhs@, rhs@),
{
    proof {
        use_type_invariant(lhs);
        lemma_acc_entries_map_domain(lhs.acc_trie_diffs@);
    }
    if !crate::diff::diffs_compatible(&lhs.main_trie_diff, &rhs.main_trie_diff) {
        return false;
    }
    let les = &lhs.acc_trie_diffs;
    let n = les.len();
    let mut j: usize = 0;
    while j < n
        invariant
            j <= n == les@.len(),
            les@ == lhs.acc_trie_diffs@,
            unique_addrs(les@),
            lhs@.accounts == acc_entries_map(les@),
            forall|j2: int|
                0 <= j2 < j ==> (!rhs@.accounts.contains_key((#[trigger] les@[j2]).0)
                    || acc_compatible(les@[j2].1@, rhs@.accounts[les@[j2].0])),
        decreases n - j,
    {
        proof {
            let jj = j as int;
            assert forall|l: int| jj < l < les@.len() implies (#[trigger] les@[l]).0 != les@[
                jj].0 by {
                assert((#[trigger] les@[jj]).0 != (#[trigger] les@[l]).0);
            }
            lemma_acc_entries_map_lookup(les@, jj);
        }
        let addr = les[j].0;
        if let Some(rd) = rhs.account_diff(addr) {
            if !acc_diffs_compatible(&les[j].1, rd) {
                return false;
            }
        }
        j += 1;
    }
    proof {
        assert forall|ad: Address|
            lhs@.accounts.contains_key(ad) && rhs@.accounts.contains_key(ad) implies acc_compatible(
            #[trigger] lhs@.accounts[ad],
            rhs@.accounts[ad],
        ) by {
            let j2 = choose|j2: int| 0 <= j2 < les@.len() && (#[trigger] les@[j2]).0 == ad;
            assert forall|l: int| j2 < l < les@.len() implies (#[trigger] les@[l]).0 != les@[
                j2].0 by {
                assert((#[trigger] les@[j2]).0 != (#[trigger] les@[l]).0);
            }
            lemma_acc_entries_map_lookup(les@, j2);
        }
    }
    true
}

/// Merging is the same from either side on path-disjoint diffs: when the
/// main-trie maps share no path, and every account the two diffs share
/// agrees on nonce and code hash and shares no storage path (as two diffs
/// over one base do), both merge orders are permitted and produce the same
/// main map and the same account map.
pub proof fn lemma_merge_tx_diff_commutative(l: TxDiffView, r: TxDiffView)
    requires
        forall|k: Seq<u8>| !(l.main.contains_key(k) && r.main.contains_key(k)),
        forall|a: Address|
            l.accounts.contains_key(a) && r.accounts.contains_key(a) ==> {
                &&& (#[trigger] l.accounts[a]).nonce == r.accounts[a].nonce
                &&& l.accounts[a].code_hash == r.accounts[a].code_hash
                &&& forall|k: Seq<u8>|
                    !(#[trigger] l.accounts[a].state.contains_key(k)
                        && r.accounts[a].state.contains_key(k))
            },
    ensures
        tx_diff_compatible(l, r),
        tx_diff_compatible(r, l),
        r.main.union_prefer_right(l.main) == l.main.union_prefer_right(r.main),
        merged_accounts(l.accounts, r.accounts) == merged_accounts(r.accounts, l.accounts),
{
    crate::diff::lemma_merge_diff_commutative(l.main, r.main);
    let lr = merged_accounts(l.accounts, r.accounts);
    let rl = merged_accounts(r.accounts, l.accounts);
    assert(lr =~= rl) by {
        assert forall|a: Address|
            lr.contains_key(a) && rl.contains_key(a) implies #[trigger] lr[a] == #[trigger] rl[a] by {
            if l.accounts.contains_key(a) && r.accounts.contains_key(a) {
                crate::diff::lemma_merge_diff_commutative(
                    l.accounts[a].state,
                    r.accounts[a].state,
                );
            }
        }
    }
}

} // verus!
