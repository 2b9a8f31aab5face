//! Mapping cache blocks to origin blocks by positional voting.
use vstd::prelude::*;

use crate::digest::{block_bytes, hash_block, sha1_of};
use crate::index::{lookup, Index};
use crate::layout::Layout;

verus! {

/// Whether the origin offset `o` lies at position `k` of its cache block.
pub open spec fn aligned(o: u64, k: nat, bs: nat, cbs: nat) -> bool {
    (o as nat / bs) % (cbs / bs) == k
}

/// Votes for origin cache block `c` among the hits of position `k`.
pub open spec fn votes_in(hits: Seq<u64>, k: nat, c: nat, bs: nat, cbs: nat) -> nat
    decreases hits.len(),
{
    if hits.len() == 0 {
        0
    } else {
        let o = hits.last();
        votes_in(hits.drop_last(), k, c, bs, cbs)
            + if aligned(o, k, bs, cbs) && o as nat / cbs == c { 1nat } else { 0nat }
    }
}

/// Hits of position `k` that lie at another position of their cache block.
pub open spec fn fakes_in(hits: Seq<u64>, k: nat, bs: nat, cbs: nat) -> nat
    decreases hits.len(),
{
    if hits.len() == 0 {
        0
    } else {
        fakes_in(hits.drop_last(), k, bs, cbs) + if aligned(hits.last(), k, bs, cbs) { 0nat } else { 1nat }
    }
}

/// Votes for origin cache block `c`, where `hits[k]` are the origin offsets
/// found for position `k` of the cache block.
pub open spec fn votes(hits: Seq<Seq<u64>>, c: nat, bs: nat, cbs: nat) -> nat
    decreases hits.len(),
{
    if hits.len() == 0 {
        0
    } else {
        votes(hits.drop_last(), c, bs, cbs) + votes_in(hits.last(), (hits.len() - 1) as nat, c, bs, cbs)
    }
}

/// Fake matches: hits not positionally consistent with a whole-block copy.
pub open spec fn fakes(hits: Seq<Seq<u64>>, bs: nat, cbs: nat) -> nat
    decreases hits.len(),
{
    if hits.len() == 0 {
        0
    } else {
        fakes(hits.drop_last(), bs, cbs) + fakes_in(hits.last(), (hits.len() - 1) as nat, bs, cbs)
    }
}

/// An origin cache block that received votes.
#[derive(Debug, Clone, Copy, PartialEq, Eq, Structural)]
pub struct Candidate {
    pub origin_cache_block: u64,
    pub votes: u128,
}

/// `a` is reported before `b`: more votes, or as many and a lower block.
pub open spec fn ranks_before(a: Candidate, b: Candidate) -> bool {
    a.votes > b.votes || (a.votes == b.votes && a.origin_cache_block < b.origin_cache_block)
}

/// What is reported for one cache block.
pub struct BlockReport {
    /// Best match first; the others are lower-confidence alternatives.
    pub candidates: Vec<Candidate>,
    pub fake_matches: u128,
}

/// Some candidate of `cands` is for block `c`.
pub open spec fn has_block(cands: Seq<Candidate>, c: u64) -> bool {
    exists|a: int| 0 <= a < cands.len() && cands[a].origin_cache_block == c
}

/// `cands` and `fake` report the hits `hits`: every block with votes once,
/// with its votes, best first, and the fake matches counted.
pub open spec fn reports(hits: Seq<Seq<u64>>, bs: nat, cbs: nat, cands: Seq<Candidate>, fake: u128) -> bool {
    &&& fake == fakes(hits, bs, cbs)
    &&& forall|i: int| 0 <= i < cands.len() ==>
        (#[trigger] cands[i]).votes == votes(hits, cands[i].origin_cache_block as nat, bs, cbs)
        && cands[i].votes > 0
    &&& forall|i: int, j: int| 0 <= i < j < cands.len() ==> ranks_before(#[trigger] cands[i], #[trigger] cands[j])
    &&& forall|c: u64| #[trigger] votes(hits, c as nat, bs, cbs) > 0 ==>
        has_block(cands, c)
}

/// The views of the hit lists.
pub open spec fn hits_view(hits: Seq<Vec<u64>>) -> Seq<Seq<u64>> {
    hits.map_values(|v: Vec<u64>| v@)
}

/// Votes over the first `k` positions and the first `j` hits of position `k`.
pub open spec fn prefix_votes(h: Seq<Seq<u64>>, k: int, j: int, c: nat, bs: nat, cbs: nat) -> nat {
    votes(h.subrange(0, k), c, bs, cbs) + votes_in(h[k].subrange(0, j), k as nat, c, bs, cbs)
}

pub open spec fn prefix_fakes(h: Seq<Seq<u64>>, k: int, j: int, bs: nat, cbs: nat) -> nat {
    fakes(h.subrange(0, k), bs, cbs) + fakes_in(h[k].subrange(0, j), k as nat, bs, cbs)
}

/// `tally` holds each block with votes in the counted prefix once, with its votes.
pub open spec fn tallied(tally: Seq<Candidate>, h: Seq<Seq<u64>>, k: int, j: int, bs: nat, cbs: nat) -> bool {
    &&& forall|a: int, b: int| 0 <= a < b < tally.len() ==>
        (#[trigger] tally[a]).origin_cache_block != (#[trigger] tally[b]).origin_cache_block
    &&& forall|a: int| 0 <= a < tally.len() ==>
        (#[trigger] tally[a]).votes == prefix_votes(h, k, j, tally[a].origin_cache_block as nat, bs, cbs)
        && tally[a].votes > 0
    &&& forall|c: u64| #[trigger] prefix_votes(h, k, j, c as nat, bs, cbs) > 0 ==>
        has_block(tally, c)
}

/// Counting the last hit of a position is counting up to the next position.
proof fn lemma_next_position(h: Seq<Seq<u64>>, k: int, bs: nat, cbs: nat)
    requires
        0 <= k < h.len(),
    ensures
        forall|c: nat| #![trigger prefix_votes(h, k + 1, 0, c, bs, cbs)]
            prefix_votes(h, k, h[k].len() as int, c, bs, cbs) == prefix_votes(h, k + 1, 0, c, bs, cbs),
        prefix_fakes(h, k, h[k].len() as int, bs, cbs) == prefix_fakes(h, k + 1, 0, bs, cbs),
{
    assert(h.subrange(0, k + 1).drop_last() =~= h.subrange(0, k));
    assert(h.subrange(0, k + 1).last() == h[k]);
    assert(h[k].subrange(0, h[k].len() as int) =~= h[k]);
    assert(h[k + 1].subrange(0, 0) =~= Seq::<u64>::empty());
}

/// Counting one more hit of position `k`.
proof fn lemma_next_hit(h: Seq<Seq<u64>>, k: int, j: int, bs: nat, cbs: nat)
    requires
        0 <= k < h.len(),
        0 <= j < h[k].len(),
    ensures
        forall|c: nat| #![trigger prefix_votes(h, k, j + 1, c, bs, cbs)]
            prefix_votes(h, k, j + 1, c, bs, cbs) == prefix_votes(h, k, j, c, bs, cbs)
                + if aligned(h[k][j], k as nat, bs, cbs) && h[k][j] as nat / cbs == c { 1nat } else { 0nat },
        prefix_fakes(h, k, j + 1, bs, cbs) == prefix_fakes(h, k, j, bs, cbs)
            + if aligned(h[k][j], k as nat, bs, cbs) { 0nat } else { 1nat },
{
    assert(h[k].subrange(0, j + 1).drop_last() =~= h[k].subrange(0, j));
    assert(h[k].subrange(0, j + 1).last() == h[k][j]);
}

/// Inserting `tally[i]` at its rank keeps `out` ranked, counted by `v`, and
/// holding the blocks of `tally[..=i]`.
proof fn lemma_insert_ranked(
    tally: Seq<Candidate>,
    v: spec_fn(u64) -> nat,
    i: int,
    old_out: Seq<Candidate>,
    p: int,
    n: Seq<Candidate>,
)
    requires
        0 <= i < tally.len(),
        0 <= p <= old_out.len(),
        n == old_out.insert(p, tally[i]),
        tally[i].votes == v(tally[i].origin_cache_block) && tally[i].votes > 0,
        forall|a: int, b: int| 0 <= a < b < tally.len() ==>
            (#[trigger] tally[a]).origin_cache_block != (#[trigger] tally[b]).origin_cache_block,
        forall|a: int, b: int| 0 <= a < b < old_out.len() ==> ranks_before(#[trigger] old_out[a], #[trigger] old_out[b]),
        forall|a: int| 0 <= a < old_out.len() ==>
            (#[trigger] old_out[a]).votes == v(old_out[a].origin_cache_block) && old_out[a].votes > 0,
        forall|a: int, t: int| 0 <= a < old_out.len() && i <= t < tally.len() ==>
            (#[trigger] old_out[a]).origin_cache_block != (#[trigger] tally[t]).origin_cache_block,
        forall|t: int| #![trigger tally[t]] 0 <= t < i ==>
            has_block(old_out, tally[t].origin_cache_block),
        forall|q: int| 0 <= q < p ==> ranks_before(#[trigger] old_out[q], tally[i]),
        p < old_out.len() ==> !ranks_before(old_out[p], tally[i]),
    ensures
        forall|a: int, b: int| 0 <= a < b < n.len() ==> ranks_before(#[trigger] n[a], #[trigger] n[b]),
        forall|a: int| 0 <= a < n.len() ==> (#[trigger] n[a]).votes == v(n[a].origin_cache_block) && n[a].votes > 0,
        forall|a: int, t: int| 0 <= a < n.len() && i + 1 <= t < tally.len() ==>
            (#[trigger] n[a]).origin_cache_block != (#[trigger] tally[t]).origin_cache_block,
        forall|t: int| #![trigger tally[t]] 0 <= t < i + 1 ==>
            has_block(n, tally[t].origin_cache_block),
{
    let x = tally[i];
    if p < old_out.len() {
        assert(old_out[p].origin_cache_block != tally[i].origin_cache_block);
    }
    assert forall|a: int, b: int| 0 <= a < b < n.len() implies ranks_before(#[trigger] n[a], #[trigger] n[b]) by {
        if b < p {
            assert(ranks_before(old_out[a], old_out[b]));
        } else if b == p {
            assert(ranks_before(old_out[a], x));
        } else if a < p {
            assert(ranks_before(old_out[a], old_out[b - 1]));
        } else if a == p {
            if b - 1 > p {
                assert(ranks_before(old_out[p], old_out[b - 1]));
            }
        } else {
            assert(ranks_before(old_out[a - 1], old_out[b - 1]));
        }
    }
    assert forall|a: int| 0 <= a < n.len() implies (#[trigger] n[a]).votes == v(n[a].origin_cache_block) && n[a].votes > 0 by {
        if a < p {
            assert(n[a] == old_out[a]);
        } else if a > p {
            assert(n[a] == old_out[a - 1]);
        }
    }
    assert forall|a: int, t: int| 0 <= a < n.len() && i + 1 <= t < tally.len() implies
        (#[trigger] n[a]).origin_cache_block != (#[trigger] tally[t]).origin_cache_block by {
        if a < p {
            assert(n[a] == old_out[a]);
            assert(old_out[a].origin_cache_block != tally[t].origin_cache_block);
        } else if a > p {
            assert(n[a] == old_out[a - 1]);
            assert(old_out[a - 1].origin_cache_block != tally[t].origin_cache_block);
        }
    }
    assert forall|t: int| #![trigger tally[t]] 0 <= t < i + 1 implies
        has_block(n, tally[t].origin_cache_block) by {
        if t < i {
            let a = choose|a: int| 0 <= a < old_out.len() && (#[trigger] old_out[a]).origin_cache_block == tally[t].origin_cache_block;
            if a < p {
                assert(n[a] == old_out[a]);
            } else {
                assert(n[a + 1] == old_out[a]);
            }
        } else {
            assert(n[p].origin_cache_block == tally[t].origin_cache_block);
        }
    }
}

/// Every block of `tally` is the block of some candidate of `out`.
pub open spec fn covers(out: Seq<Candidate>, tally: Seq<Candidate>) -> bool {
    forall|t: int| 0 <= t < tally.len() ==> has_block(out, #[trigger] tally[t].origin_cache_block)
}

/// The candidates of `tally`, which are for distinct blocks and counted by
/// `v`, best first.
fn rank(tally: &Vec<Candidate>, Ghost(v): Ghost<spec_fn(u64) -> nat>) -> (r: Vec<Candidate>)
    requires
        forall|a: int, b: int| 0 <= a < b < tally@.len() ==>
            (#[trigger] tally@[a]).origin_cache_block != (#[trigger] tally@[b]).origin_cache_block,
        forall|a: int| 0 <= a < tally@.len() ==>
            (#[trigger] tally@[a]).votes == v(tally@[a].origin_cache_block) && tally@[a].votes > 0,
    ensures
        forall|a: int, b: int| 0 <= a < b < r@.len() ==> ranks_before(#[trigger] r@[a], #[trigger] r@[b]),
        forall|a: int| 0 <= a < r@.len() ==> (#[trigger] r@[a]).votes == v(r@[a].origin_cache_block) && r@[a].votes > 0,
        covers(r@, tally@),
{
    let mut out: Vec<Candidate> = Vec::new();
    let mut i: usize = 0;
    while i < tally.len()
        invariant
            i <= tally@.len(),
            forall|a: int, b: int| 0 <= a < b < tally@.len() ==>
                (#[trigger] tally@[a]).origin_cache_block != (#[trigger] tally@[b]).origin_cache_block,
            forall|a: int| 0 <= a < tally@.len() ==>
                (#[trigger] tally@[a]).votes == v(tally@[a].origin_cache_block) && tally@[a].votes > 0,
            forall|a: int, b: int| 0 <= a < b < out@.len() ==> ranks_before(#[trigger] out@[a], #[trigger] out@[b]),
            forall|a: int| 0 <= a < out@.len() ==> (#[trigger] out@[a]).votes == v(out@[a].origin_cache_block) && out@[a].votes > 0,
            forall|a: int, t: int| 0 <= a < out@.len() && i <= t < tally@.len() ==>
                (#[trigger] out@[a]).origin_cache_block != (#[trigger] tally@[t]).origin_cache_block,
            forall|t: int| #![trigger tally@[t]] 0 <= t < i ==>
                has_block(out@, tally@[t].origin_cache_block),
        decreases tally@.len() - i,
    {
        let x = tally[i];
        let mut p: usize = 0;
        while p < out.len() && ranks_before_exec(&out[p], &x)
            invariant
                p <= out@.len(),
                forall|q: int| 0 <= q < p ==> ranks_before(#[trigger] out@[q], x),
            decreases out@.len() - p,
        {
            p = p + 1;
        }
        let ghost old_out = out@;
        out.insert(p, x);
        proof { lemma_insert_ranked(tally@, v, i as int, old_out, p as int, out@); }
        i = i + 1;
    }
    assert forall|t: int| #![trigger tally@[t]] 0 <= t < tally@.len() implies
        has_block(out@, tally@[t].origin_cache_block) by {
        assert(i == tally@.len());
        assert(0 <= t < i);
        let a = choose|a: int| 0 <= a < out@.len() && (#[trigger] out@[a]).origin_cache_block == tally@[t].origin_cache_block;
        assert(0 <= a < out@.len());
    }
    assert(covers(out@, tally@));
    out
}

fn ranks_before_exec(a: &Candidate, b: &Candidate) -> (r: bool)
    ensures
        r == ranks_before(*a, *b),
{
    a.votes > b.votes || (a.votes == b.votes && a.origin_cache_block < b.origin_cache_block)
}

/// Counts the votes and fake matches of one cache block from the origin
/// offsets `hits[k]` found for each of its positions `k`, and ranks the
/// voted blocks, best first.
pub fn tally_votes(hits: &Vec<Vec<u64>>, block_size: u64, cache_block_size: u64) -> (r: BlockReport)
    requires
        block_size > 0,
        cache_block_size >= block_size,
    ensures
        reports(hits_view(hits@), block_size as nat, cache_block_size as nat, r.candidates@, r.fake_matches),
{
    let ghost h = hits_view(hits@);
    let ghost bs = block_size as nat;
    let ghost cbs = cache_block_size as nat;
    let per = cache_block_size / block_size;
    let mut tally: Vec<Candidate> = Vec::new();
    let mut fake: u128 = 0;
    let mut k: usize = 0;
    proof {
        assert(h.subrange(0, 0).len() == 0);
        assert(per > 0) by (nonlinear_arith)
            requires per == cache_block_size / block_size, cache_block_size >= block_size, block_size > 0;
    }
    while k < hits.len()
        invariant
            block_size > 0,
            cache_block_size >= block_size,
            per == cache_block_size / block_size,
            per > 0,
            h == hits_view(hits@),
            h.len() == hits@.len(),
            bs == block_size,
            cbs == cache_block_size,
            k <= hits@.len(),
            tallied(tally@, h, k as int, 0, bs, cbs),
            fake == prefix_fakes(h, k as int, 0, bs, cbs),
            fake <= k * 0x1_0000_0000_0000_0000,
            forall|a: int| 0 <= a < tally@.len() ==> (#[trigger] tally@[a]).votes <= k * 0x1_0000_0000_0000_0000,
        decreases hits@.len() - k,
    {
        let row = &hits[k];
        assert(h[k as int] == row@);
        let mut j: usize = 0;
        while j < row.len()
            invariant
                block_size > 0,
                cache_block_size >= block_size,
                per == cache_block_size / block_size,
                per > 0,
                h == hits_view(hits@),
                h.len() == hits@.len(),
                h[k as int] == row@,
                bs == block_size,
                cbs == cache_block_size,
                k < hits@.len(),
                j <= row@.len(),
                tallied(tally@, h, k as int, j as int, bs, cbs),
                fake == prefix_fakes(h, k as int, j as int, bs, cbs),
                fake <= k * 0x1_0000_0000_0000_0000 + j,
                forall|a: int| 0 <= a < tally@.len() ==>
                    (#[trigger] tally@[a]).votes <= k * 0x1_0000_0000_0000_0000 + j,
            decreases row@.len() - j,
        {
            let o = row[j];
            proof { lemma_next_hit(h, k as int, j as int, bs, cbs); }
            let block = o / cache_block_size;
            if (o / block_size) % per != k as u64 {
                fake = fake + 1;
                proof {
                    assert forall|c: u64| #[trigger] prefix_votes(h, k as int, j + 1, c as nat, bs, cbs) > 0 implies
                        has_block(tally@, c) by {
                        assert(prefix_votes(h, k as int, j as int, c as nat, bs, cbs) > 0);
                    }
                }
            } else {
                let mut t: usize = 0;
                while t < tally.len() && tally[t].origin_cache_block != block
                    invariant
                        t <= tally@.len(),
                        forall|a: int| 0 <= a < t ==> (#[trigger] tally@[a]).origin_cache_block != block,
                    decreases tally@.len() - t,
                {
                    t = t + 1;
                }
                let ghost old_tally = tally@;
                if t < tally.len() {
                    let v = tally[t].votes + 1;
                    tally.set(t, Candidate { origin_cache_block: block, votes: v });
                    proof {
                        assert forall|c: u64| #[trigger] prefix_votes(h, k as int, j + 1, c as nat, bs, cbs) > 0 implies
                            has_block(tally@, c) by {
                            if c != block {
                                assert(prefix_votes(h, k as int, j as int, c as nat, bs, cbs) > 0);
                                let a = choose|a: int| 0 <= a < old_tally.len() && (#[trigger] old_tally[a]).origin_cache_block == c;
                                assert(tally@[a].origin_cache_block == c);
                            } else {
                                assert(tally@[t as int].origin_cache_block == c);
                            }
                        }
                        assert forall|a: int| 0 <= a < tally@.len() implies
                            (#[trigger] tally@[a]).votes == prefix_votes(h, k as int, j + 1, tally@[a].origin_cache_block as nat, bs, cbs)
                            && tally@[a].votes > 0 by {
                            assert(old_tally[a].votes == prefix_votes(h, k as int, j as int, old_tally[a].origin_cache_block as nat, bs, cbs));
                        }
                    }
                } else {
                    tally.push(Candidate { origin_cache_block: block, votes: 1 });
                    proof {
                        assert forall|c: u64| #[trigger] prefix_votes(h, k as int, j + 1, c as nat, bs, cbs) > 0 implies
                            has_block(tally@, c) by {
                            if c != block {
                                assert(prefix_votes(h, k as int, j as int, c as nat, bs, cbs) > 0);
                                let a = choose|a: int| 0 <= a < old_tally.len() && (#[trigger] old_tally[a]).origin_cache_block == c;
                                assert(tally@[a].origin_cache_block == c);
                            } else {
                                assert(tally@[old_tally.len() as int].origin_cache_block == c);
                            }
                        }
                        assert forall|a: int| 0 <= a < tally@.len() implies
                            (#[trigger] tally@[a]).votes == prefix_votes(h, k as int, j + 1, tally@[a].origin_cache_block as nat, bs, cbs)
                            && tally@[a].votes > 0 by {
                            if a < old_tally.len() {
                                assert(old_tally[a].votes == prefix_votes(h, k as int, j as int, old_tally[a].origin_cache_block as nat, bs, cbs));
                            } else {
                                assert(prefix_votes(h, k as int, j as int, block as nat, bs, cbs) == 0) by {
                                    if prefix_votes(h, k as int, j as int, block as nat, bs, cbs) > 0 {
                                        let b = choose|b: int| 0 <= b < old_tally.len() && (#[trigger] old_tally[b]).origin_cache_block == block;
                                    }
                                }
                            }
                        }
                    }
                }
            }
            j = j + 1;
        }
        proof {
            lemma_next_position(h, k as int, bs, cbs);
            assert forall|c: u64| #[trigger] prefix_votes(h, k + 1, 0, c as nat, bs, cbs) > 0 implies
                has_block(tally@, c) by {
                assert(prefix_votes(h, k as int, j as int, c as nat, bs, cbs) > 0);
            }
        }
        k = k + 1;
    }
    let ghost v = |b: u64| votes(h, b as nat, bs, cbs);
    proof {
        assert(h.subrange(0, k as int) =~= h);
        assert forall|a: int| 0 <= a < tally@.len() implies
            (#[trigger] tally@[a]).votes == v(tally@[a].origin_cache_block) && tally@[a].votes > 0 by {
            assert(prefix_votes(h, k as int, 0, tally@[a].origin_cache_block as nat, bs, cbs)
                == votes(h, tally@[a].origin_cache_block as nat, bs, cbs));
        }
    }
    let candidates = rank(&tally, Ghost(v));
    proof {
        assert(h.subrange(0, k as int) =~= h);
        let out = candidates@;
        assert forall|c: u64| #[trigger] votes(h, c as nat, bs, cbs) > 0 implies
            has_block(out, c) by {
            assert(prefix_votes(h, k as int, 0, c as nat, bs, cbs) > 0);
            let t = choose|t: int| 0 <= t < tally@.len() && (#[trigger] tally@[t]).origin_cache_block == c;
            assert(tally@[t].origin_cache_block == c);
        }
        assert(fake == fakes(h, bs, cbs));
    }
    BlockReport { candidates, fake_matches: fake }
}

/// The hits of each position `k` of cache block `c`: the origin offsets that
/// the index holds for the digest of its `k`-th filesystem block.
pub open spec fn cache_hits(l: Layout, file: Seq<u8>, cache: Seq<u8>, c: nat, bs: nat, cbs: nat) -> Seq<Seq<u64>> {
    Seq::new(cbs / bs, |k: int| lookup(l, file, sha1_of(block_bytes(cache, c * cbs + k * bs, bs as int))))
}

/// Maps cache block `cache_block` of `cache`: digests each of its filesystem
/// blocks, looks each digest up, and ranks the origin cache blocks by votes.
pub fn map_cache_block(index: &Index, cache: &[u8], cache_block: usize, cache_block_size: usize) -> (r: BlockReport)
    requires
        index.wf(),
        index.block_size() > 0,
        cache_block_size > 0,
        (cache_block + 1) * cache_block_size <= cache@.len(),
    ensures
        reports(
            cache_hits(index.layout(), index.file(), cache@, cache_block as nat, index.block_size() as nat, cache_block_size as nat),
            index.block_size() as nat,
            cache_block_size as nat,
            r.candidates@,
            r.fake_matches,
        ),
{
    let ghost h = cache_hits(index.layout(), index.file(), cache@, cache_block as nat, index.block_size() as nat, cache_block_size as nat);
    let bs = index.get_block_size();
    let cbs = cache_block_size as u64;
    let per = cbs / bs;
    if per == 0 {
        assert(h.len() == 0);
        return BlockReport { candidates: Vec::new(), fake_matches: 0 };
    }
    assert(per * bs <= cbs && bs <= cbs) by (nonlinear_arith)
        requires per == cbs / bs, bs > 0, per > 0;
    assert(cache_block * cache_block_size + cache_block_size == (cache_block + 1) * cache_block_size) by (nonlinear_arith);
    let fs = bs as usize;
    let len = cache.len();
    let base = cache_block * cache_block_size;
    let count = per as usize;
    let mut hits: Vec<Vec<u64>> = Vec::new();
    let mut k: usize = 0;
    while k < count
        invariant
            index.wf(),
            fs as nat == index.block_size(),
            fs > 0,
            cbs as nat == cache_block_size,
            count as nat == cbs as nat / fs as nat,
            count * fs <= cbs,
            base == cache_block * cache_block_size,
            len == cache@.len(),
            base + cache_block_size <= len,
            h == cache_hits(index.layout(), index.file(), cache@, cache_block as nat, fs as nat, cache_block_size as nat),
            h.len() == count,
            k <= count,
            hits_view(hits@) =~= h.subrange(0, k as int),
        decreases count - k,
    {
        assert(k * fs + fs <= count * fs) by (nonlinear_arith)
            requires k < count;
        let offset = base + k * fs;
        let digest = hash_block(cache, offset, fs);
        assert(digest@.len() == 20);
        let found = index.get(&digest);
        assert(found@ == h[k as int]);
        let ghost before = hits@;
        hits.push(found);
        assert(hits_view(hits@) =~= hits_view(before).push(found@));
        assert(h.subrange(0, k + 1) =~= h.subrange(0, k as int).push(h[k as int]));
        k = k + 1;
    }
    assert(h.subrange(0, k as int) =~= h);
    tally_votes(&hits, bs, cbs)
}

/// Maps every whole cache block of `cache`, in order.
pub fn find(index: &Index, cache: &[u8], cache_block_size: usize) -> (r: Vec<BlockReport>)
    requires
        index.wf(),
        index.block_size() > 0,
        cache_block_size > 0,
    ensures
        r@.len() == cache@.len() / cache_block_size as nat,
        forall|c: int| 0 <= c < r@.len() ==> reports(
            cache_hits(index.layout(), index.file(), cache@, c as nat, index.block_size() as nat, cache_block_size as nat),
            index.block_size() as nat,
            cache_block_size as nat,
            (#[trigger] r@[c]).candidates@,
            r@[c].fake_matches,
        ),
{
    let total = cache.len() / cache_block_size;
    let mut r: Vec<BlockReport> = Vec::new();
    let mut c: usize = 0;
    while c < total
        invariant
            index.wf(),
            index.block_size() > 0,
            cache_block_size > 0,
            total == cache@.len() / cache_block_size as nat,
            c <= total,
            r@.len() == c,
            forall|b: int| 0 <= b < r@.len() ==> reports(
                cache_hits(index.layout(), index.file(), cache@, b as nat, index.block_size() as nat, cache_block_size as nat),
                index.block_size() as nat,
                cache_block_size as nat,
                (#[trigger] r@[b]).candidates@,
                r@[b].fake_matches,
            ),
        decreases total - c,
    {
        assert((c + 1) * cache_block_size <= cache@.len()) by (nonlinear_arith)
            requires c < total, total == cache@.len() / cache_block_size as nat, cache_block_size > 0;
        let report = map_cache_block(index, cache, c, cache_block_size);
        r.push(report);
        c = c + 1;
    }
    r
}

} // verus!
