//! Proof-of-work consensus: difficulty retargeting and nonce validity.
//!
//! Difficulty follows the previous block's difficulty adjusted by how fast
//! that block was found. A nonce is valid when the block digest, read as a
//! 256-bit number, is at most the ceiling set by the difficulty; that is,
//! digest times difficulty stays below two to the 256th.

use vstd::prelude::*;

use crate::hash::{data_hash, h256_bytes, push_h256_bytes, push_u64_le, spec_data_hash, u64_le_bytes, H256};

verus! {

/// Proof-of-work parameters, fixed at process start and passed by handle.
pub struct PoWConfig {
    pub init_diff: u64,
}

impl PoWConfig {
    pub fn new(init_diff: u64) -> (r: PoWConfig)
        ensures
            r.init_diff == init_diff,
    {
        PoWConfig { init_diff }
    }
}

/// The model of a block header.
pub struct HeaderView {
    pub height: u64,
    pub prev_blk_hash: H256,
    pub time_stamp: i64,
    pub tx_list: Seq<H256>,
    pub state_root: H256,
}

/// A block header: height, parent digest, timestamp in seconds, the digests
/// of the block's transactions in order, and the post-state root.
#[derive(Debug)]
pub struct BlockHeader {
    pub height: u64,
    pub prev_blk_hash: H256,
    pub time_stamp: i64,
    pub tx_list: Vec<H256>,
    pub state_root: H256,
}

impl View for BlockHeader {
    type V = HeaderView;

    open spec fn view(&self) -> HeaderView {
        HeaderView {
            height: self.height,
            prev_blk_hash: self.prev_blk_hash,
            time_stamp: self.time_stamp,
            tx_list: self.tx_list@,
            state_root: self.state_root,
        }
    }
}

/// The concatenated bytes of a list of digests.
pub open spec fn hashes_bytes(hs: Seq<H256>) -> Seq<u8>
    decreases hs.len(),
{
    if hs.len() == 0 {
        Seq::empty()
    } else {
        hashes_bytes(hs.drop_last()) + h256_bytes(hs.last())
    }
}

/// Canonical encoding of a header.
pub open spec fn header_enc(h: HeaderView) -> Seq<u8> {
    u64_le_bytes(h.height) + h256_bytes(h.prev_blk_hash) + u64_le_bytes(h.time_stamp as u64)
        + u64_le_bytes(h.tx_list.len() as u64) + hashes_bytes(h.tx_list) + h256_bytes(h.state_root)
}

/// The digest of a header.
pub open spec fn header_digest(h: HeaderView) -> H256 {
    spec_data_hash(header_enc(h))
}

impl BlockHeader {
    /// The digest of this header.
    pub fn to_digest(&self) -> (r: H256)
        ensures
            r == header_digest(self@),
    {
        let mut data: Vec<u8> = Vec::new();
        push_u64_le(&mut data, self.height);
        push_h256_bytes(&mut data, &self.prev_blk_hash);
        push_u64_le(&mut data, self.time_stamp as u64);
        push_u64_le(&mut data, self.tx_list.len() as u64);
        let ghost prefix = data@;
        let mut i: usize = 0;
        let n = self.tx_list.len();
        while i < n
            invariant
                i <= n == self.tx_list@.len(),
                data@ == prefix + hashes_bytes(self.tx_list@.subrange(0, i as int)),
            decreases n - i,
        {
            push_h256_bytes(&mut data, &self.tx_list[i]);
            proof {
                let pre = self.tx_list@.subrange(0, i as int);
                let cur = self.tx_list@.subrange(0, i + 1);
                assert(cur.drop_last() =~= pre);
                assert(cur.last() == self.tx_list@[i as int]);
                assert(data@ =~= prefix + hashes_bytes(cur));
            }
            i += 1;
        }
        push_h256_bytes(&mut data, &self.state_root);
        proof {
            assert(self.tx_list@.subrange(0, self.tx_list@.len() as int) =~= self.tx_list@);
            assert(data@ =~= header_enc(self@));
        }
        data_hash(&data)
    }

    /// A copy with the same model.
    pub fn duplicate(&self) -> (r: BlockHeader)
        ensures
            r@ == self@,
    {
        let mut tx_list: Vec<H256> = Vec::new();
        let mut i: usize = 0;
        let n = self.tx_list.len();
        while i < n
            invariant
                i <= n == self.tx_list@.len(),
                tx_list@ == self.tx_list@.subrange(0, i as int),
            decreases n - i,
        {
            tx_list.push(self.tx_list[i]);
            proof {
                assert(tx_list@ =~= self.tx_list@.subrange(0, i + 1));
            }
            i += 1;
        }
        proof {
            assert(self.tx_list@.subrange(0, n as int) =~= self.tx_list@);
        }
        BlockHeader {
            height: self.height,
            prev_blk_hash: self.prev_blk_hash,
            time_stamp: self.time_stamp,
            tx_list,
            state_root: self.state_root,
        }
    }
}

/// The model of a proof-of-work block.
pub struct BlockView {
    pub header: HeaderView,
    pub diff: u64,
    pub nonce: u64,
}

/// A proof-of-work block: a header plus the consensus tail.
#[derive(Debug)]
pub struct Block {
    pub header: BlockHeader,
    pub diff: u64,
    pub nonce: u64,
}

impl View for Block {
    type V = BlockView;

    open spec fn view(&self) -> BlockView {
        BlockView { header: self.header@, diff: self.diff, nonce: self.nonce }
    }
}

/// Canonical encoding of a block: its header's digest and the tail.
pub open spec fn block_enc(b: BlockView) -> Seq<u8> {
    h256_bytes(header_digest(b.header)) + u64_le_bytes(b.diff) + u64_le_bytes(b.nonce)
}

/// The digest of a block; the tail is included.
pub open spec fn block_digest(b: BlockView) -> H256 {
    spec_data_hash(block_enc(b))
}

impl Block {
    /// The digest of this block.
    pub fn to_digest(&self) -> (r: H256)
        ensures
            r == block_digest(self@),
    {
        let hd = self.header.to_digest();
        let mut data: Vec<u8> = Vec::new();
        push_h256_bytes(&mut data, &hd);
        push_u64_le(&mut data, self.diff);
        push_u64_le(&mut data, self.nonce);
        proof {
            assert(data@ =~= block_enc(self@));
        }
        data_hash(&data)
    }

    /// A copy with the same model.
    pub fn duplicate(&self) -> (r: Block)
        ensures
            r@ == self@,
    {
        Block { header: self.header.duplicate(), diff: self.diff, nonce: self.nonce }
    }
}

/// The first block of the chain: empty, at height zero, with the configured
/// initial difficulty.
pub fn genesis_block(cfg: &PoWConfig) -> (r: Block)
    ensures
        r@.header.height == 0,
        r@.header.prev_blk_hash == H256::spec_zero(),
        r@.header.time_stamp == 1596240000i64,
        r@.header.tx_list == Seq::<H256>::empty(),
        r@.header.state_root == H256::spec_zero(),
        r@.diff == cfg.init_diff,
        r@.nonce == 0,
{
    let r = Block {
        header: BlockHeader {
            height: 0,
            prev_blk_hash: H256::zero(),
            time_stamp: 1596240000,
            tx_list: Vec::new(),
            state_root: H256::zero(),
        },
        diff: cfg.init_diff,
        nonce: 0,
    };
    proof {
        assert(r@.header.tx_list =~= Seq::<H256>::empty());
    }
    r
}

/// Signed division truncating toward zero, as the machine divides.
pub open spec fn trunc_div(a: int, b: int) -> int {
    if a >= 0 {
        a / b
    } else {
        -((-a) / b)
    }
}

/// Bounds that keep the difficulty arithmetic inside 64-bit signed range.
pub open spec fn diff_in_range(d: u64) -> bool {
    1 <= d <= 0x4000_0000_0000_0000u64
}

pub open spec fn ts_in_range(ts: i64) -> bool {
    -0x2000_0000_0000_0000 < ts < 0x2000_0000_0000_0000
}

/// The difficulty of a block mined at `ts` on top of a block with
/// difficulty `prev_diff` mined at `prev_ts`: the previous difficulty,
/// adjusted by a 1/2048 step scaled by how many 10-second spans the gap
/// holds, the adjustment floored at minus 99 steps.
pub open spec fn spec_compute_diff(ts: i64, prev_diff: u64, prev_ts: i64) -> int {
    let delta = prev_diff as int / 2048;
    let span = ts - prev_ts;
    let coeff0 = 1 - trunc_div(span, 10);
    let coeff = if coeff0 < -99 {
        -99int
    } else {
        coeff0
    };
    prev_diff + delta * coeff
}

/// The adjusted difficulty stays within one 2048th above the previous one
/// and 99 such steps below it; it never leaves `[1, 2^62 + 2^51]`.
pub proof fn lemma_compute_diff_range(ts: i64, prev_diff: u64, prev_ts: i64)
    requires
        diff_in_range(prev_diff),
        prev_ts <= ts,
    ensures
        1 <= spec_compute_diff(ts, prev_diff, prev_ts) <= 0x4000_0000_0000_0000u64 as int
            + 0x8_0000_0000_0000,
{
    let delta = prev_diff as int / 2048;
    let span = ts as int - prev_ts;
    let coeff0 = 1 - trunc_div(span, 10);
    let coeff = if coeff0 < -99 {
        -99int
    } else {
        coeff0
    };
    assert(0 <= delta <= prev_diff as int / 2048);
    assert(delta <= 0x8_0000_0000_0000) by {
        assert(prev_diff as int / 2048 <= 0x4000_0000_0000_0000int / 2048);
    }
    assert(-99 <= coeff <= 1);
    assert(delta * coeff <= delta * 1 && delta * coeff >= delta * -99) by (nonlinear_arith)
        requires
            -99 <= coeff <= 1,
            delta >= 0,
    ;
    assert(prev_diff as int + delta * -99 >= 1) by {
        assert(delta * -99 == -(99 * delta)) by (nonlinear_arith);
        assert(99 * delta <= prev_diff as int - 1) by (nonlinear_arith)
            requires
                delta == prev_diff as int / 2048,
                1 <= prev_diff as int,
        ;
    }
}

/// Compute the difficulty for a block mined at `ts` on top of `prev_blk`.
pub fn compute_diff(ts: i64, prev_blk: &Block) -> (r: u64)
    requires
        diff_in_range(prev_blk@.diff),
        ts_in_range(ts),
        ts_in_range(prev_blk@.header.time_stamp),
        prev_blk@.header.time_stamp <= ts,
    ensures
        r == spec_compute_diff(ts, prev_blk@.diff, prev_blk@.header.time_stamp),
        1 <= r,
{
    proof {
        lemma_compute_diff_range(ts, prev_blk.diff, prev_blk.header.time_stamp);
    }
    let prev_diff = prev_blk.diff as i64;
    let delta = prev_diff / 2048;
    let span = ts - prev_blk.header.time_stamp;
    let coeff0 = 1 - span / 10;
    let coeff = if coeff0 < -99 {
        -99
    } else {
        coeff0
    };
    proof {
        assert(delta * coeff <= delta && delta * coeff >= -99 * delta) by (nonlinear_arith)
            requires
                -99 <= coeff <= 1,
                delta >= 0,
        ;
        assert(-99 * delta >= -(prev_diff as int)) by (nonlinear_arith)
            requires
                0 <= delta,
                delta == prev_diff as int / 2048,
                prev_diff >= 1,
        ;
    }
    (prev_diff + delta * coeff) as u64
}

/// Two to the 256th.
pub open spec fn pow2_256() -> int {
    0x1_0000_0000_0000_0000_0000_0000_0000_0000_0000_0000_0000_0000_0000_0000_0000_0000int
}

/// A nonce is valid when the block digest, as a number, times the
/// difficulty stays below two to the 256th; equivalently, the digest is at
/// most the maximum 256-bit value divided by the difficulty.
pub open spec fn spec_nonce_ok(b: BlockView) -> bool {
    block_digest(b).as_nat() * b.diff < pow2_256()
}

proof fn lemma_mul_le(a: int, b: int, m: int, n: int)
    by (nonlinear_arith)
    requires
        0 <= a <= m,
        0 <= b <= n,
    ensures
        a * b <= m * n,
{
}

/// Does the block's digest meet the difficulty threshold?
pub fn nonce_is_valid(blk: &Block) -> (r: bool)
    requires
        blk@.diff >= 1,
    ensures
        r == spec_nonce_ok(blk@),
{
    let h = blk.to_digest();
    let d = blk.diff as u128;
    let two64: u128 = 0x1_0000_0000_0000_0000;
    proof {
        lemma_mul_le(h.w0 as int, d as int, 0xffff_ffff_ffff_ffffu64 as int, 0xffff_ffff_ffff_ffffu64 as int);
        lemma_mul_le(h.w1 as int, d as int, 0xffff_ffff_ffff_ffffu64 as int, 0xffff_ffff_ffff_ffffu64 as int);
        lemma_mul_le(h.w2 as int, d as int, 0xffff_ffff_ffff_ffffu64 as int, 0xffff_ffff_ffff_ffffu64 as int);
        lemma_mul_le(h.w3 as int, d as int, 0xffff_ffff_ffff_ffffu64 as int, 0xffff_ffff_ffff_ffffu64 as int);
    }
    let p0 = (h.w0 as u128) * d;
    let c0 = p0 / two64;
    let p1 = (h.w1 as u128) * d + c0;
    let c1 = p1 / two64;
    let p2 = (h.w2 as u128) * d + c1;
    let c2 = p2 / two64;
    let p3 = (h.w3 as u128) * d + c2;
    let r = p3 / two64 == 0;
    proof {
        let hn = h.as_nat() as int;
        let dd = d as int;
        let t = two64 as int;
        let r0 = p0 as int % t;
        let r1 = p1 as int % t;
        let r2 = p2 as int % t;
        assert(hn * dd == h.w0 as int * dd + t * (h.w1 as int * dd) + t * t * (h.w2 as int * dd)
            + t * t * t * (h.w3 as int * dd)) by (nonlinear_arith)
            requires
                hn == h.w0 as int + t * h.w1 as int + t * t * h.w2 as int + t * t * t * (
                h.w3 as int),
                t == two64 as int,
        ;
        assert(p0 as int == c0 as int * t + r0);
        assert(p1 as int == c1 as int * t + r1);
        assert(p2 as int == c2 as int * t + r2);
        assert(hn * dd == r0 + t * r1 + t * t * r2 + t * t * t * (p3 as int)) by (nonlinear_arith)
            requires
                hn * dd == p0 as int + t * (h.w1 as int * dd) + t * t * (h.w2 as int * dd) + t * t
                    * t * (h.w3 as int * dd),
                p0 as int == c0 as int * t + r0,
                p1 as int == h.w1 as int * dd + c0 as int,
                p1 as int == c1 as int * t + r1,
                p2 as int == h.w2 as int * dd + c1 as int,
                p2 as int == c2 as int * t + r2,
                p3 as int == h.w3 as int * dd + c2 as int,
        ;
        assert(0 <= r0 < t && 0 <= r1 < t && 0 <= r2 < t);
        if p3 < two64 {
            assert(hn * dd < t * t * t * t) by (nonlinear_arith)
                requires
                    hn * dd == r0 + t * r1 + t * t * r2 + t * t * t * (p3 as int),
                    0 <= r0 < t,
                    0 <= r1 < t,
                    0 <= r2 < t,
                    (p3 as int) < t,
                    t == 0x1_0000_0000_0000_0000,
            ;
        } else {
            assert(hn * dd >= t * t * t * t) by (nonlinear_arith)
                requires
                    hn * dd == r0 + t * r1 + t * t * r2 + t * t * t * (p3 as int),
                    0 <= r0,
                    0 <= r1,
                    0 <= r2,
                    (p3 as int) >= t,
                    t == 0x1_0000_0000_0000_0000,
            ;
        }
        assert(t * t * t * t == pow2_256());
        assert((p3 / two64 == 0) == (p3 < two64));
    }
    r
}

/// Errors of consensus verification.
#[derive(Clone, Copy, PartialEq, Eq, Structural, Debug)]
pub enum ConsensusError {
    /// The block's difficulty is not what retargeting demands.
    InvalidDifficulty,
    /// The block's digest misses the difficulty threshold.
    InvalidNonce,
}

/// Relies on `chrono::Utc::now().timestamp()`: the current time in whole
/// seconds. Chrono represents dates within about years -262144 to 262142,
/// so the value stays far inside the 61-bit range.
#[verifier::external_body]
fn now_timestamp() -> (r: i64)
    ensures
        ts_in_range(r),
{
    chrono::Utc::now().timestamp()
}

/// The first block a miner examines: the given header, the difficulty
/// retargeting gives for its timestamp, and a zero nonce.
pub open spec fn first_candidate(header: HeaderView, prev: BlockView) -> BlockView {
    BlockView {
        header,
        diff: spec_compute_diff(header.time_stamp, prev.diff, prev.header.time_stamp) as u64,
        nonce: 0,
    }
}

/// Mine a block: recompute the difficulty from the timestamp, then advance
/// the nonce (refreshing the timestamp and difficulty each try) until the
/// digest meets the threshold, or until `max_tries` candidates failed.
/// Success is owed at least when the very first candidate — examined before
/// any clock call — meets the threshold; later candidates depend on the
/// clock. A mined block verifies: its difficulty is the retargeted one for
/// its own timestamp, its digest meets the threshold, and its timestamp
/// stays in range and never regresses below the parent's.
pub fn create_new_block(header: BlockHeader, prev_blk: &Block, max_tries: u64) -> (r: Option<
    Block,
>)
    requires
        diff_in_range(prev_blk@.diff),
        ts_in_range(header@.time_stamp),
        ts_in_range(prev_blk@.header.time_stamp),
        prev_blk@.header.time_stamp <= header@.time_stamp,
    ensures
        r is Some ==> {
            let b = r->Some_0@;
            &&& b.diff == spec_compute_diff(
                b.header.time_stamp,
                prev_blk@.diff,
                prev_blk@.header.time_stamp,
            )
            &&& spec_nonce_ok(b)
            &&& ts_in_range(b.header.time_stamp)
            &&& prev_blk@.header.time_stamp <= b.header.time_stamp
            &&& b.header.height == header@.height
            &&& b.header.prev_blk_hash == header@.prev_blk_hash
            &&& b.header.tx_list == header@.tx_list
            &&& b.header.state_root == header@.state_root
        },
        spec_nonce_ok(first_candidate(header@, prev_blk@)) ==> r is Some,
{
    let diff = compute_diff(header.time_stamp, prev_blk);
    let ghost first = first_candidate(header@, prev_blk@);
    let mut blk = Block { header, diff, nonce: 0 };
    proof {
        lemma_compute_diff_range(
            blk.header.time_stamp,
            prev_blk.diff,
            prev_blk.header.time_stamp,
        );
        assert(blk@ == first);
    }
    // the first candidate is examined before any clock call; if its digest
    // already meets the threshold, mining succeeds outright
    if nonce_is_valid(&blk) {
        return Some(blk);
    }
    let mut tries: u64 = 0;
    loop
        invariant
            tries <= max_tries,
            diff_in_range(prev_blk@.diff),
            ts_in_range(prev_blk@.header.time_stamp),
            ts_in_range(blk@.header.time_stamp),
            prev_blk@.header.time_stamp <= blk@.header.time_stamp,
            !spec_nonce_ok(first),
            first == first_candidate(header@, prev_blk@),
            blk@.diff == spec_compute_diff(
                blk@.header.time_stamp,
                prev_blk@.diff,
                prev_blk@.header.time_stamp,
            ),
            blk@.diff >= 1,
            blk@.header.height == header@.height,
            blk@.header.prev_blk_hash == header@.prev_blk_hash,
            blk@.header.tx_list == header@.tx_list,
            blk@.header.state_root == header@.state_root,
        decreases max_tries - tries,
    {
        if tries == max_tries {
            return None;
        }
        tries = tries + 1;
        let now = now_timestamp();
        let ts = if now < prev_blk.header.time_stamp {
            prev_blk.header.time_stamp
        } else {
            now
        };
        blk.header.time_stamp = ts;
        blk.diff = compute_diff(ts, prev_blk);
        blk.nonce = if blk.nonce == 0xffff_ffff_ffff_ffffu64 {
            0
        } else {
            blk.nonce + 1
        };
        if nonce_is_valid(&blk) {
            return Some(blk);
        }
    }
}

/// Check a block's consensus fields against its parent: the difficulty must
/// be what retargeting gives for the block's own timestamp, and the digest
/// must meet that difficulty's threshold.
pub fn verify_consensus(blk: &Block, prev_blk: &Block) -> (r: Result<(), ConsensusError>)
    requires
        diff_in_range(prev_blk@.diff),
        ts_in_range(blk@.header.time_stamp),
        ts_in_range(prev_blk@.header.time_stamp),
        prev_blk@.header.time_stamp <= blk@.header.time_stamp,
    ensures
        r is Ok <==> blk@.diff == spec_compute_diff(
            blk@.header.time_stamp,
            prev_blk@.diff,
            prev_blk@.header.time_stamp,
        ) && spec_nonce_ok(blk@),
        r == Err::<(), ConsensusError>(ConsensusError::InvalidDifficulty) <==> blk@.diff
            != spec_compute_diff(
            blk@.header.time_stamp,
            prev_blk@.diff,
            prev_blk@.header.time_stamp,
        ),
        r == Err::<(), ConsensusError>(ConsensusError::InvalidNonce) <==> blk@.diff
            == spec_compute_diff(
            blk@.header.time_stamp,
            prev_blk@.diff,
            prev_blk@.header.time_stamp,
        ) && !spec_nonce_ok(blk@),
{
    let expected = compute_diff(blk.header.time_stamp, prev_blk);
    if blk.diff != expected {
        return Err(ConsensusError::InvalidDifficulty);
    }
    if !nonce_is_valid(blk) {
        return Err(ConsensusError::InvalidNonce);
    }
    Ok(())
}

} // verus!
