//! Queries: choosing the clusters to probe and scanning their blocks for
//! the nearest references.
use vstd::prelude::*;
use crate::error::AppError;
use super::{BLOCK_SIZE, CLUSTERS, DIMS, IndexModel, LocalReferenceIndex, PROBES_FAST, PROBES_FULL, TOP_K};

verus! {

/// Key of a probe slot that no cluster has filled: the bit pattern of
/// single-precision positive infinity.
pub const UNFILLED_KEY: u32 = 0x7f80_0000;

/// Label of a fraudulent reference.
pub const FRAUD_LABEL: u8 = 1;

/// Largest magnitude of a quantized coordinate.
pub const QUANT_LIMIT: i16 = 10000;

// ---------------------------------------------------------------------------
// Probe selection
// ---------------------------------------------------------------------------
//
// A probe key is the bit pattern of a single-precision distance. Keys are
// compared as the values they encode, with IEEE rules: a NaN is neither
// below, above nor equal to anything, and both zeros are equal.

/// The key encodes a NaN: exponent all ones and a non-zero fraction.
pub open spec fn key_is_nan(k: u32) -> bool {
    k % 0x8000_0000 > 0x7f80_0000
}

/// Position of a non-NaN key in the order of the values: the magnitude,
/// negated when the sign bit is set.
pub open spec fn key_rank(k: u32) -> int {
    if k >= 0x8000_0000 {
        -((k - 0x8000_0000) as int)
    } else {
        k as int
    }
}

/// `a < b` on the encoded values.
pub open spec fn key_lt(a: u32, b: u32) -> bool {
    !key_is_nan(a) && !key_is_nan(b) && key_rank(a) < key_rank(b)
}

/// `a >= b` on the encoded values.
pub open spec fn key_ge(a: u32, b: u32) -> bool {
    !key_is_nan(a) && !key_is_nan(b) && key_rank(a) >= key_rank(b)
}

fn key_rank_of(k: u32) -> (r: i64)
    ensures
        r == key_rank(k),
{
    if k >= 0x8000_0000 {
        -((k - 0x8000_0000) as i64)
    } else {
        k as i64
    }
}

/// `a < b` on the encoded values.
pub fn key_less(a: u32, b: u32) -> (r: bool)
    ensures
        r == key_lt(a, b),
{
    a % 0x8000_0000 <= 0x7f80_0000 && b % 0x8000_0000 <= 0x7f80_0000 && key_rank_of(a)
        < key_rank_of(b)
}

/// `a >= b` on the encoded values.
pub fn key_at_least(a: u32, b: u32) -> (r: bool)
    ensures
        r == key_ge(a, b),
{
    a % 0x8000_0000 <= 0x7f80_0000 && b % 0x8000_0000 <= 0x7f80_0000 && key_rank_of(a)
        >= key_rank_of(b)
}

/// Length of the prefix of `list` whose keys are below `key`: where a key
/// is inserted into a list that this prefix partitions.
pub open spec fn first_not_below(list: Seq<(u32, usize)>, key: u32) -> nat
    decreases list.len(),
{
    if list.len() == 0 {
        0
    } else if key_lt(list[0].0, key) {
        1 + first_not_below(list.drop_first(), key)
    } else {
        0
    }
}

/// The probe list after cluster `cluster`, at distance key `key`, has been
/// offered: unless the key is at least the last one, it is inserted after
/// the keys below it and the last entry falls off. A NaN key is never at
/// least the last one, and no key is below it, so it goes first.
pub open spec fn probe_offer(list: Seq<(u32, usize)>, key: u32, cluster: usize) -> Seq<
    (u32, usize),
> {
    if key_ge(key, list.last().0) {
        list
    } else {
        list.insert(first_not_below(list, key) as int, (key, cluster)).drop_last()
    }
}

/// The `count` probe slots after clusters `0..upto` have been offered in order.
pub open spec fn probe_list(keys: Seq<u32>, count: nat, upto: nat) -> Seq<(u32, usize)>
    decreases upto,
{
    if upto == 0 {
        Seq::new(count, |i: int| (UNFILLED_KEY, 0usize))
    } else {
        probe_offer(probe_list(keys, count, (upto - 1) as nat), keys[upto - 1], (upto - 1) as usize)
    }
}

/// The clusters probed for distance keys `keys` with `count` probes.
pub open spec fn probes_for(keys: Seq<u32>, count: nat) -> Seq<usize> {
    probe_list(keys, count, keys.len()).map_values(|p: (u32, usize)| p.1)
}

proof fn lemma_first_not_below(list: Seq<(u32, usize)>, key: u32, p: int)
    requires
        0 <= p <= list.len(),
        forall|j: int| 0 <= j < p ==> key_lt(list[j].0, key),
        p == list.len() || !key_lt(list[p].0, key),
    ensures
        first_not_below(list, key) == p,
    decreases list.len(),
{
    if list.len() > 0 && p > 0 {
        assert forall|j: int| 0 <= j < p - 1 implies key_lt(list.drop_first()[j].0, key) by {
            assert(list.drop_first()[j] == list[j + 1]);
        }
        if p < list.len() {
            assert(list.drop_first()[p - 1] == list[p]);
        }
        lemma_first_not_below(list.drop_first(), key, p - 1);
    }
}

/// Chooses the `count` clusters whose distance keys are smallest, as the
/// probe list of `probe_list` describes. The insertion point is found by
/// scanning for the first entry not below the key; where the entries below
/// the key form a prefix of the list, as they do when no key is a NaN or
/// every key is, that is the partition point.
pub fn top_centroid_probes(keys: &[u32], count: usize) -> (probes: Vec<usize>)
    requires
        count >= 1,
    ensures
        probes@ == probes_for(keys@, count as nat),
{
    let mut best_keys: Vec<u32> = Vec::new();
    let mut best_ids: Vec<usize> = Vec::new();
    let mut i: usize = 0;
    while i < count
        invariant
            i <= count,
            best_keys@ == Seq::new(i as nat, |t: int| UNFILLED_KEY),
            best_ids@ == Seq::new(i as nat, |t: int| 0usize),
        decreases count - i,
    {
        best_keys.push(UNFILLED_KEY);
        best_ids.push(0);
        i = i + 1;
        assert(best_keys@ =~= Seq::new(i as nat, |t: int| UNFILLED_KEY));
        assert(best_ids@ =~= Seq::new(i as nat, |t: int| 0usize));
    }
    let mut cluster: usize = 0;
    while cluster < keys.len()
        invariant
            count >= 1,
            cluster <= keys@.len(),
            best_keys@.len() == count,
            best_ids@.len() == count,
            forall|t: int|
                0 <= t < count ==> #[trigger] probe_list(keys@, count as nat, cluster as nat)[t]
                    == (best_keys@[t], best_ids@[t]),
            probe_list(keys@, count as nat, cluster as nat).len() == count,
        decreases keys@.len() - cluster,
    {
        let key = keys[cluster];
        let ghost old_list = probe_list(keys@, count as nat, cluster as nat);
        proof {
            assert(probe_list(keys@, count as nat, (cluster + 1) as nat) == probe_offer(
                old_list,
                key,
                cluster,
            ));
            assert(old_list.last() == old_list[count - 1]);
        }
        if !key_at_least(key, best_keys[count - 1]) {
            let mut pos: usize = 0;
            while pos < count && key_less(best_keys[pos], key)
                invariant
                    pos <= count,
                    best_keys@.len() == count,
                    forall|j: int| 0 <= j < pos ==> key_lt(best_keys@[j], key),
                decreases count - pos,
            {
                pos = pos + 1;
            }
            proof {
                assert forall|j: int| 0 <= j < pos implies key_lt(old_list[j].0, key) by {
                    assert(old_list[j] == (best_keys@[j], best_ids@[j]));
                }
                if pos < count {
                    assert(old_list[pos as int] == (best_keys@[pos as int], best_ids@[pos as int]));
                }
                lemma_first_not_below(old_list, key, pos as int);
            }
            let ghost before_keys = best_keys@;
            let ghost before_ids = best_ids@;
            let mut j: usize = count - 1;
            while j > pos
                invariant
                    pos <= j < count,
                    best_keys@.len() == count,
                    best_ids@.len() == count,
                    forall|t: int|
                        0 <= t < count ==> #[trigger] best_keys@[t] == if t > j {
                            before_keys[t - 1]
                        } else {
                            before_keys[t]
                        },
                    forall|t: int|
                        0 <= t < count ==> #[trigger] best_ids@[t] == if t > j {
                            before_ids[t - 1]
                        } else {
                            before_ids[t]
                        },
                decreases j,
            {
                let k = best_keys[j - 1];
                let d = best_ids[j - 1];
                best_keys.set(j, k);
                best_ids.set(j, d);
                j = j - 1;
            }
            best_keys.set(pos, key);
            best_ids.set(pos, cluster);
            proof {
                let new_list = old_list.insert(pos as int, (key, cluster)).drop_last();
                assert forall|t: int| 0 <= t < count implies #[trigger] new_list[t] == (
                best_keys@[t], best_ids@[t]) by {
                    if t > pos {
                        assert(old_list[t - 1] == (before_keys[t - 1], before_ids[t - 1]));
                    } else if t < pos {
                        assert(old_list[t] == (before_keys[t], before_ids[t]));
                    }
                }
            }
        } else {
            proof {
                assert(old_list[count - 1] == (best_keys@[count - 1], best_ids@[count - 1]));
            }
        }
        cluster = cluster + 1;
    }
    proof {
        let list = probe_list(keys@, count as nat, keys@.len());
        assert(list.map_values(|p: (u32, usize)| p.1) =~= best_ids@);
    }
    best_ids
}

// ---------------------------------------------------------------------------
// Block scan
// ---------------------------------------------------------------------------

/// The squared difference, in dimension `d`, between the query and the
/// vector in slot `slot` of block `block`.
pub open spec fn term(m: IndexModel, q: Seq<i16>, block: int, slot: int, d: int) -> int {
    let delta = q[d] - m.blocks[block * 112 + d * 8 + slot];
    delta * delta
}

/// The distance between the query and the vector in slot `slot` of block
/// `block`. It sums, in this order, the squared differences of dimensions
/// 0, 2, 7 and 12, then 4 to 7, then 8 to 13: dimensions 7 and 12 count
/// twice and dimensions 1 and 3 not at all.
pub open spec fn scan_distance(m: IndexModel, q: Seq<i16>, block: int, slot: int) -> int {
    term(m, q, block, slot, 0) + term(m, q, block, slot, 2) + term(m, q, block, slot, 7) + term(
        m,
        q,
        block,
        slot,
        12,
    ) + term(m, q, block, slot, 4) + term(m, q, block, slot, 5) + term(m, q, block, slot, 6)
        + term(m, q, block, slot, 7) + term(m, q, block, slot, 8) + term(m, q, block, slot, 9)
        + term(m, q, block, slot, 10) + term(m, q, block, slot, 11) + term(m, q, block, slot, 12)
        + term(m, q, block, slot, 13)
}

/// The candidate in slot `slot` of block `block`: its distance and label.
pub open spec fn candidate(m: IndexModel, q: Seq<i16>, block: int, slot: int) -> (int, u8) {
    (scan_distance(m, q, block, slot), m.labels[block * 8 + slot])
}

/// The candidates of cluster `c`, block by block and slot by slot.
pub open spec fn cluster_candidates(m: IndexModel, q: Seq<i16>, c: int) -> Seq<(int, u8)> {
    let start = m.offsets[c] as int;
    let end = m.offsets[c + 1] as int;
    if end <= start {
        Seq::empty()
    } else {
        Seq::new((8 * (end - start)) as nat, |k: int| candidate(m, q, start + k / 8, k % 8))
    }
}

/// The candidates of the probed clusters, in probe order.
pub open spec fn probe_candidates(m: IndexModel, q: Seq<i16>, probes: Seq<usize>) -> Seq<
    (int, u8),
>
    decreases probes.len(),
{
    if probes.len() == 0 {
        Seq::empty()
    } else {
        probe_candidates(m, q, probes.drop_last()) + cluster_candidates(
            m,
            q,
            probes.last() as int,
        )
    }
}

/// The neighbour list before any candidate: `TOP_K` empty entries.
pub open spec fn empty_neighbours() -> Seq<(int, u8)> {
    Seq::new(TOP_K as nat, |i: int| (i64::MAX as int, 0u8))
}

/// Where a candidate at distance `d` settles: it moves up past every entry,
/// from position `p` down, that is farther than `d`.
pub open spec fn settle(list: Seq<(int, u8)>, d: int, p: int) -> int
    decreases p,
{
    if p > 0 && d < list[p - 1].0 {
        settle(list, d, p - 1)
    } else {
        p
    }
}

/// The neighbour list after `cand` has been offered: a candidate closer than
/// the last entry settles in and the last entry falls off.
pub open spec fn neighbour_offer(list: Seq<(int, u8)>, cand: (int, u8)) -> Seq<(int, u8)> {
    if cand.0 >= list[TOP_K - 1].0 {
        list
    } else {
        let p = settle(list, cand.0, TOP_K - 1);
        list.take(p) + seq![cand] + list.subrange(p, TOP_K - 1)
    }
}

/// The neighbour list after the candidates `cands` have been offered in order.
pub open spec fn neighbours(init: Seq<(int, u8)>, cands: Seq<(int, u8)>) -> Seq<(int, u8)>
    decreases cands.len(),
{
    if cands.len() == 0 {
        init
    } else {
        neighbour_offer(neighbours(init, cands.drop_last()), cands.last())
    }
}

/// Number of fraudulent entries of a neighbour list.
pub open spec fn fraud_count(list: Seq<(int, u8)>) -> nat
    decreases list.len(),
{
    if list.len() == 0 {
        0
    } else {
        fraud_count(list.drop_last()) + if list.last().1 == FRAUD_LABEL {
            1nat
        } else {
            0nat
        }
    }
}

/// Fraudulent neighbours found by scanning the clusters `probes`.
pub open spec fn scan_result(m: IndexModel, q: Seq<i16>, probes: Seq<usize>) -> nat {
    fraud_count(neighbours(empty_neighbours(), probe_candidates(m, q, probes)))
}

/// Fraudulent neighbours of the query: the clusters of the fast probe list
/// are scanned first; when that count is 2 or 3, the full probe list is
/// scanned instead.
pub open spec fn fraud_count_spec(m: IndexModel, q: Seq<i16>, keys: Seq<u32>) -> nat {
    let fast = scan_result(m, q, probes_for(keys, PROBES_FAST as nat));
    if fast != 2 && fast != 3 {
        fast
    } else {
        scan_result(m, q, probes_for(keys, PROBES_FULL as nat))
    }
}

/// Every coordinate of the query is a quantized value.
pub open spec fn quantized(q: Seq<i16>) -> bool {
    forall|d: int| 0 <= d < q.len() ==> -QUANT_LIMIT <= #[trigger] q[d] <= QUANT_LIMIT
}

/// Offering the candidates `a` and then `b` is offering `a + b`.
pub proof fn lemma_neighbours_concat(init: Seq<(int, u8)>, a: Seq<(int, u8)>, b: Seq<(int, u8)>)
    ensures
        neighbours(init, a + b) == neighbours(neighbours(init, a), b),
    decreases b.len(),
{
    if b.len() == 0 {
        assert(a + b =~= a);
    } else {
        assert((a + b).drop_last() =~= a + b.drop_last());
        assert((a + b).last() == b.last());
        lemma_neighbours_concat(init, a, b.drop_last());
    }
}

proof fn lemma_neighbours_step(init: Seq<(int, u8)>, s: Seq<(int, u8)>, k: int)
    requires
        0 <= k < s.len(),
    ensures
        neighbours(init, s.take(k + 1)) == neighbour_offer(neighbours(init, s.take(k)), s[k]),
{
    assert(s.take(k + 1).drop_last() =~= s.take(k));
    assert(s.take(k + 1).last() == s[k]);
}

proof fn lemma_term_bounds(q: i16, b: i16)
    requires
        -10000 <= q <= 10000,
    ensures
        0 <= (q - b) * (q - b) <= 42768 * 42768,
{
    let delta: int = q - b;
    assert(-42768 <= delta <= 42768);
    assert(0 <= delta * delta <= 42768 * 42768) by (nonlinear_arith)
        requires
            -42768 <= delta <= 42768,
    ;
}


// ---------------------------------------------------------------------------
// Laws of the selections
// ---------------------------------------------------------------------------

/// The probe list `list`, after clusters `0..upto` of `keys` were offered, is
/// sorted by key; its entries with a key below `UNFILLED_KEY` are distinct
/// offered clusters at their own keys, the others are unfilled; and every
/// offered cluster whose key is below the last entry's key is in the list.
pub open spec fn probe_list_ok(keys: Seq<u32>, upto: nat, list: Seq<(u32, usize)>) -> bool {
    &&& forall|i: int, j: int|
        0 <= i < j < list.len() ==> key_rank(list[i].0) <= key_rank(list[j].0)
    &&& forall|i: int|
        0 <= i < list.len() ==> !key_is_nan(#[trigger] list[i].0) && key_rank(list[i].0)
            <= key_rank(UNFILLED_KEY)
    &&& forall|i: int|
        0 <= i < list.len() && key_rank(#[trigger] list[i].0) < key_rank(UNFILLED_KEY)
            ==> list[i].1 < upto && keys[list[i].1 as int] == list[i].0
    &&& forall|i: int|
        0 <= i < list.len() && key_rank(#[trigger] list[i].0) == key_rank(UNFILLED_KEY)
            ==> list[i] == (UNFILLED_KEY, 0usize)
    &&& forall|i: int, j: int|
        0 <= i < j < list.len() && key_rank(list[i].0) < key_rank(UNFILLED_KEY) && key_rank(
            list[j].0,
        ) < key_rank(UNFILLED_KEY) ==> list[i].1 != list[j].1
    &&& forall|c: int|
        0 <= c < upto && key_rank(#[trigger] keys[c]) < key_rank(list.last().0) ==> exists|i: int|
            0 <= i < list.len() && list[i] == (keys[c], c as usize)
}

proof fn lemma_first_not_below_props(list: Seq<(u32, usize)>, key: u32)
    ensures
        first_not_below(list, key) <= list.len(),
        forall|j: int| 0 <= j < first_not_below(list, key) ==> key_lt(list[j].0, key),
        first_not_below(list, key) < list.len() ==> !key_lt(
            list[first_not_below(list, key) as int].0,
            key,
        ),
    decreases list.len(),
{
    if list.len() > 0 && key_lt(list[0].0, key) {
        let rest = list.drop_first();
        lemma_first_not_below_props(rest, key);
        assert forall|j: int| 0 <= j < first_not_below(list, key) implies key_lt(
            list[j].0,
            key,
        ) by {
            if j > 0 {
                assert(list[j] == rest[j - 1]);
            }
        }
        if first_not_below(list, key) < list.len() {
            assert(list[first_not_below(list, key) as int] == rest[first_not_below(
                rest,
                key,
            ) as int]);
        }
    }
}

proof fn lemma_probe_offer_ok(keys: Seq<u32>, u: nat, list: Seq<(u32, usize)>)
    requires
        list.len() >= 1,
        u < keys.len(),
        keys.len() <= usize::MAX,
        !key_is_nan(keys[u as int]),
        probe_list_ok(keys, u, list),
    ensures
        probe_offer(list, keys[u as int], u as usize).len() == list.len(),
        probe_list_ok(keys, u + 1, probe_offer(list, keys[u as int], u as usize)),
{
    let key = keys[u as int];
    let new = probe_offer(list, key, u as usize);
    let count = list.len();
    let last = list[count - 1];
    assert(list.last() == last);
    let inf = key_rank(UNFILLED_KEY);
    if key_rank(key) < key_rank(last.0) {
        let p = first_not_below(list, key) as int;
        lemma_first_not_below_props(list, key);
        assert(p < count);
        assert(new.len() == count);
        assert forall|t: int| 0 <= t < count implies #[trigger] new[t] == if t < p {
            list[t]
        } else if t == p {
            (key, u as usize)
        } else {
            list[t - 1]
        } by {}
        assert(new.last() == new[count - 1]);
        assert(key_rank(new.last().0) <= key_rank(last.0));
        assert forall|i: int, j: int| 0 <= i < j < new.len() implies key_rank(new[i].0)
            <= key_rank(new[j].0) by {
            if j < p {
            } else if j == p {
                if i < p {
                    assert(key_lt(list[i].0, key));
                }
            } else if i < p {
                assert(key_rank(list[i].0) <= key_rank(list[j - 1].0));
            } else if i == p {
                assert(!key_lt(list[p].0, key));
                assert(key_rank(list[p].0) <= key_rank(list[j - 1].0));
            } else {
                assert(key_rank(list[i - 1].0) <= key_rank(list[j - 1].0));
            }
        }
        assert forall|i: int|
            0 <= i < new.len() && key_rank(#[trigger] new[i].0) < inf implies new[i].1 < u + 1
            && keys[new[i].1 as int] == new[i].0 by {
            if i < p {
                assert(new[i] == list[i]);
            } else if i > p {
                assert(new[i] == list[i - 1]);
            }
        }
        assert forall|i: int, j: int|
            0 <= i < j < new.len() && key_rank(new[i].0) < inf && key_rank(new[j].0) < inf
                implies new[i].1 != new[j].1 by {
            let li = if i < p {
                i
            } else {
                i - 1
            };
            let lj = if j < p {
                j
            } else {
                j - 1
            };
            if i != p && j != p {
                assert(new[i] == list[li]);
                assert(new[j] == list[lj]);
                assert(li < lj);
            } else if i == p {
                assert(new[j] == list[lj]);
                assert(list[lj].1 < u);
            } else {
                assert(new[i] == list[li]);
                assert(list[li].1 < u);
            }
        }
        assert forall|c: int|
            0 <= c < u + 1 && key_rank(#[trigger] keys[c]) < key_rank(new.last().0) implies exists|
            i: int,
        | 0 <= i < new.len() && new[i] == (keys[c], c as usize) by {
            if c == u {
                assert(new[p] == (keys[c], c as usize));
            } else {
                let i = choose|i: int| 0 <= i < list.len() && list[i] == (keys[c], c as usize);
                if i < p {
                    assert(new[i] == list[i]);
                } else {
                    assert(i < count - 1);
                    assert(new[i + 1] == list[i]);
                }
            }
        }
        assert forall|i: int| 0 <= i < new.len() implies !key_is_nan(#[trigger] new[i].0)
            && key_rank(new[i].0) <= inf by {
            if i < p {
                assert(new[i] == list[i]);
            } else if i > p {
                assert(new[i] == list[i - 1]);
            }
        }
        assert forall|i: int|
            0 <= i < new.len() && key_rank(#[trigger] new[i].0) == inf implies new[i] == (
            UNFILLED_KEY, 0usize) by {
            if i < p {
                assert(new[i] == list[i]);
            } else if i > p {
                assert(new[i] == list[i - 1]);
            }
        }
    } else {
        assert(key_ge(key, last.0));
        assert(new == list);
        assert forall|c: int|
            0 <= c < u + 1 && key_rank(#[trigger] keys[c]) < key_rank(new.last().0) implies exists|
            i: int,
        | 0 <= i < new.len() && new[i] == (keys[c], c as usize) by {
            assert(c != u);
        }
    }
}

/// Probe selection keeps the clusters of smallest distance: when no key is
/// a NaN, the probe list is sorted, holds distinct clusters at their own
/// keys (or unfilled slots), and no cluster left out is nearer than the last
/// probe.
pub proof fn lemma_probes_nearest(keys: Seq<u32>, count: nat, upto: nat)
    requires
        count >= 1,
        upto <= keys.len(),
        keys.len() <= usize::MAX,
        forall|c: int| 0 <= c < keys.len() ==> !key_is_nan(#[trigger] keys[c]),
    ensures
        probe_list(keys, count, upto).len() == count,
        probe_list_ok(keys, upto, probe_list(keys, count, upto)),
    decreases upto,
{
    if upto == 0 {
        let list = probe_list(keys, count, 0);
        assert(list.len() == count);
    } else {
        let u = (upto - 1) as nat;
        lemma_probes_nearest(keys, count, u);
        lemma_probe_offer_ok(keys, u, probe_list(keys, count, u));
    }
}

/// Every probe is an offered cluster or, for an unfilled slot, cluster 0,
/// whatever the keys.
proof fn lemma_probe_ids(keys: Seq<u32>, count: nat, upto: nat)
    requires
        count >= 1,
        upto <= keys.len(),
        keys.len() <= usize::MAX,
    ensures
        probe_list(keys, count, upto).len() == count,
        forall|i: int|
            0 <= i < count ==> #[trigger] probe_list(keys, count, upto)[i].1 < upto || probe_list(
                keys,
                count,
                upto,
            )[i].1 == 0,
    decreases upto,
{
    if upto > 0 {
        let u = (upto - 1) as nat;
        lemma_probe_ids(keys, count, u);
        let list = probe_list(keys, count, u);
        let key = keys[u as int];
        let new = probe_list(keys, count, upto);
        assert(list.last() == list[count - 1]);
        if !key_ge(key, list.last().0) {
            let p = first_not_below(list, key) as int;
            lemma_first_not_below_props(list, key);
            assert forall|i: int| 0 <= i < count implies #[trigger] new[i].1 < upto || new[i].1
                == 0 by {
                if i < p {
                    assert(new[i] == list[i]);
                } else if i > p {
                    assert(new[i] == list[i - 1]);
                }
            }
        }
    }
}

/// The neighbour list `list`, after the candidates `cands` were offered to
/// an empty list, is sorted by distance; each entry is empty or one of the
/// candidates; and every candidate closer than the last entry is in it.
pub open spec fn neighbours_ok(cands: Seq<(int, u8)>, list: Seq<(int, u8)>) -> bool {
    &&& list.len() == TOP_K
    &&& forall|i: int, j: int| 0 <= i < j < list.len() ==> list[i].0 <= list[j].0
    &&& forall|i: int| 0 <= i < list.len() ==> #[trigger] list[i].0 <= i64::MAX
    &&& forall|i: int|
        0 <= i < list.len() ==> #[trigger] list[i] == (i64::MAX as int, 0u8) || cands.contains(
            list[i],
        )
    &&& forall|k: int|
        0 <= k < cands.len() && #[trigger] cands[k].0 < list[TOP_K - 1].0 ==> list.contains(
            cands[k],
        )
}

proof fn lemma_settle_props(list: Seq<(int, u8)>, d: int, p: int)
    requires
        0 <= p < list.len(),
    ensures
        0 <= settle(list, d, p) <= p,
        forall|j: int| settle(list, d, p) <= j < p ==> d < #[trigger] list[j].0,
        settle(list, d, p) > 0 ==> list[settle(list, d, p) - 1].0 <= d,
    decreases p,
{
    if p > 0 && d < list[p - 1].0 {
        lemma_settle_props(list, d, p - 1);
    }
}

/// The scan keeps the nearest candidates: the neighbour list is sorted, made
/// of candidates (or empty entries), and no candidate closer than its last
/// entry is missing from it.
pub proof fn lemma_neighbours_nearest(cands: Seq<(int, u8)>)
    ensures
        neighbours_ok(cands, neighbours(empty_neighbours(), cands)),
    decreases cands.len(),
{
    if cands.len() == 0 {
        let list = empty_neighbours();
        assert(list.len() == TOP_K);
    } else {
        let prev = cands.drop_last();
        lemma_neighbours_nearest(prev);
        let list = neighbours(empty_neighbours(), prev);
        let cand = cands.last();
        let new = neighbours(empty_neighbours(), cands);
        assert(new == neighbour_offer(list, cand));
        assert forall|k: int| 0 <= k < prev.len() implies #[trigger] cands[k] == prev[k] by {}
        assert(cands.contains(cand)) by {
            assert(cands[cands.len() - 1] == cand);
        }
        assert forall|x: (int, u8)| prev.contains(x) implies cands.contains(x) by {
            let k = choose|k: int| 0 <= k < prev.len() && prev[k] == x;
            assert(cands[k] == x);
        }
        if cand.0 < list[TOP_K - 1].0 {
            let p = settle(list, cand.0, TOP_K - 1);
            lemma_settle_props(list, cand.0, TOP_K - 1);
            assert forall|t: int| 0 <= t < TOP_K implies #[trigger] new[t] == if t < p {
                list[t]
            } else if t == p {
                cand
            } else {
                list[t - 1]
            } by {}
            assert(new[TOP_K - 1].0 <= list[TOP_K - 1].0);
            assert forall|k: int|
                0 <= k < cands.len() && #[trigger] cands[k].0 < new[TOP_K - 1].0 implies new.contains(
                cands[k]) by {
                if k == cands.len() - 1 {
                    assert(new[p] == cands[k]);
                } else {
                    assert(prev[k] == cands[k]);
                    let i = choose|i: int| 0 <= i < list.len() && list[i] == prev[k];
                    if i < p {
                        assert(new[i] == list[i]);
                    } else {
                        assert(i < TOP_K - 1);
                        assert(new[i + 1] == list[i]);
                    }
                }
            }
            assert forall|i: int| 0 <= i < new.len() implies #[trigger] new[i] == (
            i64::MAX as int, 0u8) || cands.contains(new[i]) by {
                if i < p {
                    assert(new[i] == list[i]);
                } else if i > p {
                    assert(new[i] == list[i - 1]);
                }
            }
        } else {
            assert forall|k: int|
                0 <= k < cands.len() && #[trigger] cands[k].0 < new[TOP_K - 1].0 implies new.contains(
                cands[k]) by {
                assert(k != cands.len() - 1);
                assert(prev[k] == cands[k]);
            }
            assert forall|i: int| 0 <= i < new.len() implies #[trigger] new[i] == (
            i64::MAX as int, 0u8) || cands.contains(new[i]) by {}
        }
    }
}

/// A neighbour list holds no more fraudulent entries than entries.
pub proof fn lemma_fraud_count_at_most_len(list: Seq<(int, u8)>)
    ensures
        fraud_count(list) <= list.len(),
    decreases list.len(),
{
    if list.len() > 0 {
        lemma_fraud_count_at_most_len(list.drop_last());
    }
}

/// A query reports at most `TOP_K` fraudulent neighbours.
pub proof fn lemma_fraud_count_bounded(m: IndexModel, q: Seq<i16>, keys: Seq<u32>)
    ensures
        fraud_count_spec(m, q, keys) <= TOP_K,
{
    let fast = probe_candidates(m, q, probes_for(keys, PROBES_FAST as nat));
    let full = probe_candidates(m, q, probes_for(keys, PROBES_FULL as nat));
    lemma_neighbours_nearest(fast);
    lemma_neighbours_nearest(full);
    lemma_fraud_count_at_most_len(neighbours(empty_neighbours(), fast));
    lemma_fraud_count_at_most_len(neighbours(empty_neighbours(), full));
}

proof fn lemma_probes_in_range(keys: Seq<u32>, count: nat)
    requires
        count >= 1,
        1 <= keys.len() <= usize::MAX,
    ensures
        forall|i: int|
            0 <= i < probes_for(keys, count).len() ==> #[trigger] probes_for(keys, count)[i]
                < keys.len(),
        probes_for(keys, count).len() == count,
{
    lemma_probe_ids(keys, count, keys.len());
    let list = probe_list(keys, count, keys.len());
    assert forall|i: int| 0 <= i < probes_for(keys, count).len() implies #[trigger] probes_for(
        keys,
        count,
    )[i] < keys.len() by {
        assert(probes_for(keys, count)[i] == list[i].1);
    }
}

impl LocalReferenceIndex {
    /// The squared difference of dimension `d` for slot `slot` of block
    /// `block`.
    fn slot_term(&self, query: &[i16; 14], block: usize, slot: usize, d: usize) -> (t: i64)
        requires
            self@.blocks.len() == 112 * self@.total_blocks(),
            block < self@.total_blocks(),
            slot < 8,
            d < 14,
            quantized(query@),
        ensures
            t == term(self@, query@, block as int, slot as int, d as int),
            0 <= t <= 42768 * 42768,
    {
        proof {
            lemma_term_bounds(query@[d as int], self.blocks@[block * 112 + d * 8 + slot]);
        }
        let len = self.blocks.len();
        assert(block * 112 + d * 8 + slot < len);
        let delta: i32 = query[d] as i32 - self.blocks[block * 112 + d * 8 + slot] as i32;
        (delta * delta) as i64
    }

    /// Offers the eight slots of block `block` to the neighbour list.
    fn scan_block(
        &self,
        query: &[i16; 14],
        block: usize,
        best_dists: &mut Vec<i64>,
        best_labels: &mut Vec<u8>,
        Ghost(base): Ghost<Seq<(int, u8)>>,
        Ghost(cands): Ghost<Seq<(int, u8)>>,
        Ghost(at): Ghost<int>,
    )
        requires
            self@.shape_ok(),
            block < self@.total_blocks(),
            quantized(query@),
            old(best_dists)@.len() == TOP_K,
            old(best_labels)@.len() == TOP_K,
            0 <= at,
            at + 8 <= cands.len(),
            forall|s: int|
                0 <= s < 8 ==> #[trigger] cands[at + s] == candidate(
                    self@,
                    query@,
                    block as int,
                    s,
                ),
            forall|t: int|
                0 <= t < TOP_K ==> #[trigger] neighbours(base, cands.take(at))[t] == (
                old(best_dists)@[t] as int,
                old(best_labels)@[t],
            ),
            neighbours(base, cands.take(at)).len() == TOP_K,
        ensures
            final(best_dists)@.len() == TOP_K,
            final(best_labels)@.len() == TOP_K,
            forall|t: int|
                0 <= t < TOP_K ==> #[trigger] neighbours(base, cands.take(at + 8))[t] == (
                final(best_dists)@[t] as int,
                final(best_labels)@[t],
            ),
            neighbours(base, cands.take(at + 8)).len() == TOP_K,
    {
        let mut slot: usize = 0;
        while slot < BLOCK_SIZE
            invariant
                self@.shape_ok(),
                block < self@.total_blocks(),
                quantized(query@),
                slot <= 8,
                0 <= at,
                at + 8 <= cands.len(),
                forall|s: int|
                    0 <= s < 8 ==> #[trigger] cands[at + s] == candidate(
                        self@,
                        query@,
                        block as int,
                        s,
                    ),
                best_dists@.len() == TOP_K,
                best_labels@.len() == TOP_K,
                forall|t: int|
                    0 <= t < TOP_K ==> #[trigger] neighbours(base, cands.take(at + slot))[t] == (
                    best_dists@[t] as int,
                    best_labels@[t],
                ),
                neighbours(base, cands.take(at + slot)).len() == TOP_K,
            decreases BLOCK_SIZE - slot,
        {
            let ghost list = neighbours(base, cands.take(at + slot));
            let ghost cand = candidate(self@, query@, block as int, slot as int);
            proof {
                lemma_neighbours_step(base, cands, at + slot);
                assert(cands[at + slot] == cand);
                assert(list[TOP_K - 1] == (best_dists@[4] as int, best_labels@[4]));
            }
            let t0 = self.slot_term(query, block, slot, 0);
            let t2 = self.slot_term(query, block, slot, 2);
            let t7 = self.slot_term(query, block, slot, 7);
            let t12 = self.slot_term(query, block, slot, 12);
            let t4 = self.slot_term(query, block, slot, 4);
            let t5 = self.slot_term(query, block, slot, 5);
            let t6 = self.slot_term(query, block, slot, 6);
            let t8 = self.slot_term(query, block, slot, 8);
            let t9 = self.slot_term(query, block, slot, 9);
            let t10 = self.slot_term(query, block, slot, 10);
            let t11 = self.slot_term(query, block, slot, 11);
            let t13 = self.slot_term(query, block, slot, 13);
            let mut dist: i64 = t0 + t2 + t7 + t12;
            let skip_a = dist >= best_dists[TOP_K - 1];
            let mut skip = skip_a;
            if !skip {
                dist = dist + t4 + t5 + t6 + t7;
                skip = dist >= best_dists[TOP_K - 1];
            }
            if !skip {
                dist = dist + t8 + t9 + t10 + t11 + t12 + t13;
                skip = dist >= best_dists[TOP_K - 1];
            }
            let ghost full = t0 + t2 + t7 + t12 + t4 + t5 + t6 + t7 + t8 + t9 + t10 + t11 + t12
                + t13;
            assert(full == cand.0);
            assert(skip == (full >= best_dists@[4]));
            if !skip {
                assert(dist == full);
                let labels_len = self.labels.len();
                assert(block * 8 + slot < labels_len);
                let label = self.labels[block * BLOCK_SIZE + slot];
                let mut pos: usize = TOP_K - 1;
                let ghost before_d = best_dists@;
                let ghost before_l = best_labels@;
                while pos > 0 && dist < best_dists[pos - 1]
                    invariant
                        0 <= pos < TOP_K,
                        best_dists@.len() == TOP_K,
                        best_labels@.len() == TOP_K,
                        settle(list, dist as int, pos as int) == settle(
                            list,
                            dist as int,
                            TOP_K - 1,
                        ),
                        forall|t: int|
                            0 <= t < TOP_K ==> #[trigger] list[t] == (
                            before_d[t] as int,
                            before_l[t],
                        ),
                        forall|t: int|
                            0 <= t < TOP_K ==> #[trigger] best_dists@[t] == if t > pos {
                                before_d[t - 1]
                            } else {
                                before_d[t]
                            },
                        forall|t: int|
                            0 <= t < TOP_K ==> #[trigger] best_labels@[t] == if t > pos {
                                before_l[t - 1]
                            } else {
                                before_l[t]
                            },
                    decreases pos,
                {
                    assert(list[pos - 1] == (before_d[pos - 1] as int, before_l[pos - 1]));
                    let d = best_dists[pos - 1];
                    let l = best_labels[pos - 1];
                    best_dists.set(pos, d);
                    best_labels.set(pos, l);
                    pos = pos - 1;
                }
                proof {
                    if pos > 0 {
                        assert(list[pos - 1] == (before_d[pos - 1] as int, before_l[pos - 1]));
                    }
                    assert(settle(list, dist as int, pos as int) == pos);
                }
                best_dists.set(pos, dist);
                best_labels.set(pos, label);
                proof {
                    let p = pos as int;
                    let new_list = list.take(p) + seq![cand] + list.subrange(p, TOP_K - 1);
                    assert(cand == (dist as int, label));
                    assert forall|t: int| 0 <= t < TOP_K implies #[trigger] new_list[t] == (
                    best_dists@[t] as int, best_labels@[t]) by {
                        if t > p {
                            assert(new_list[t] == list[t - 1]);
                        } else if t < p {
                            assert(new_list[t] == list[t]);
                        }
                    }
                }
            }
            slot = slot + 1;
        }
    }

    /// Offers every slot of every block of cluster `cluster` to the neighbour
    /// list.
    fn scan_cluster(
        &self,
        query: &[i16; 14],
        cluster: usize,
        best_dists: &mut Vec<i64>,
        best_labels: &mut Vec<u8>,
        Ghost(init): Ghost<Seq<(int, u8)>>,
    )
        requires
            self@.shape_ok(),
            quantized(query@),
            cluster < self@.clusters,
            self@.cluster_in_range(cluster as int),
            old(best_dists)@.len() == TOP_K,
            old(best_labels)@.len() == TOP_K,
            init.len() == TOP_K,
            forall|t: int|
                0 <= t < TOP_K ==> #[trigger] init[t] == (
                old(best_dists)@[t] as int,
                old(best_labels)@[t],
            ),
        ensures
            final(best_dists)@.len() == TOP_K,
            final(best_labels)@.len() == TOP_K,
            forall|t: int|
                0 <= t < TOP_K ==> #[trigger] neighbours(
                    init,
                    cluster_candidates(self@, query@, cluster as int),
                )[t] == (final(best_dists)@[t] as int, final(best_labels)@[t]),
            neighbours(init, cluster_candidates(self@, query@, cluster as int)).len() == TOP_K,
    {
        let ghost cc = cluster_candidates(self@, query@, cluster as int);
        assert(cc.take(0) =~= Seq::<(int, u8)>::empty());
        let start = self.offsets[cluster] as usize;
        let end = self.offsets[cluster + 1] as usize;
        let mut block = start;
        while block < end
            invariant
                self@.shape_ok(),
                quantized(query@),
                cluster < self@.clusters,
                self@.cluster_in_range(cluster as int),
                start == self@.offsets[cluster as int],
                end == self@.offsets[cluster + 1],
                start <= block,
                block <= end || block == start,
                cc == cluster_candidates(self@, query@, cluster as int),
                best_dists@.len() == TOP_K,
                best_labels@.len() == TOP_K,
                forall|t: int|
                    0 <= t < TOP_K ==> #[trigger] neighbours(init, cc.take(8 * (block - start)))[t]
                        == (best_dists@[t] as int, best_labels@[t]),
                neighbours(init, cc.take(8 * (block - start))).len() == TOP_K,
            decreases end - block,
        {
            proof {
                assert(end <= self@.total_blocks());
                assert forall|s: int| 0 <= s < 8 implies #[trigger] cc[8 * (block - start) + s]
                    == candidate(self@, query@, block as int, s) by {
                    let k = 8 * (block - start) + s;
                    assert(k / 8 == block - start);
                    assert(k % 8 == s);
                }
            }
            self.scan_block(
                query,
                block,
                best_dists,
                best_labels,
                Ghost(init),
                Ghost(cc),
                Ghost(8 * (block - start)),
            );
            block = block + 1;
        }
        proof {
            if start < end {
                assert(cc.take(8 * (end - start)) =~= cc);
            } else {
                assert(cc.take(0) =~= cc);
            }
        }
    }

    /// Fraudulent neighbours among the five nearest references of the probed
    /// clusters.
    fn scan_probes(&self, query: &[i16; 14], probes: &Vec<usize>) -> (count: usize)
        requires
            self@.shape_ok(),
            quantized(query@),
            self@.probes_in_range(probes@),
        ensures
            count == scan_result(self@, query@, probes@),
    {
        let mut best_dists: Vec<i64> = Vec::new();
        let mut best_labels: Vec<u8> = Vec::new();
        let mut k: usize = 0;
        while k < TOP_K
            invariant
                k <= TOP_K,
                best_dists@ == Seq::new(k as nat, |t: int| i64::MAX),
                best_labels@ == Seq::new(k as nat, |t: int| 0u8),
            decreases TOP_K - k,
        {
            best_dists.push(i64::MAX);
            best_labels.push(0);
            k = k + 1;
            assert(best_dists@ =~= Seq::new(k as nat, |t: int| i64::MAX));
            assert(best_labels@ =~= Seq::new(k as nat, |t: int| 0u8));
        }
        assert(probe_candidates(self@, query@, probes@.take(0)) =~= Seq::<(int, u8)>::empty());
        let mut i: usize = 0;
        while i < probes.len()
            invariant
                self@.shape_ok(),
                quantized(query@),
                self@.probes_in_range(probes@),
                i <= probes@.len(),
                best_dists@.len() == TOP_K,
                best_labels@.len() == TOP_K,
                forall|t: int|
                    0 <= t < TOP_K ==> #[trigger] neighbours(
                        empty_neighbours(),
                        probe_candidates(self@, query@, probes@.take(i as int)),
                    )[t] == (best_dists@[t] as int, best_labels@[t]),
                neighbours(
                    empty_neighbours(),
                    probe_candidates(self@, query@, probes@.take(i as int)),
                ).len() == TOP_K,
            decreases probes@.len() - i,
        {
            let cluster = probes[i];
            assert(cluster < self@.clusters && self@.cluster_in_range(cluster as int));
            let ghost done = probe_candidates(self@, query@, probes@.take(i as int));
            let ghost cc = cluster_candidates(self@, query@, cluster as int);
            let ghost init = neighbours(empty_neighbours(), done);
            proof {
                assert(probes@.take(i + 1).drop_last() =~= probes@.take(i as int));
                assert(probe_candidates(self@, query@, probes@.take(i + 1)) == done + cc);
                lemma_neighbours_concat(empty_neighbours(), done, cc);
            }
            self.scan_cluster(query, cluster, &mut best_dists, &mut best_labels, Ghost(init));
            i = i + 1;
        }
        assert(probes@.take(probes@.len() as int) =~= probes@);
        let ghost list = neighbours(empty_neighbours(), probe_candidates(self@, query@, probes@));
        let mut count: usize = 0;
        let mut t: usize = 0;
        while t < TOP_K
            invariant
                t <= TOP_K,
                best_labels@.len() == TOP_K,
                list.len() == TOP_K,
                forall|j: int| 0 <= j < TOP_K ==> #[trigger] list[j].1 == best_labels@[j],
                count == fraud_count(list.take(t as int)),
                count <= t,
            decreases TOP_K - t,
        {
            assert(list.take(t + 1).drop_last() =~= list.take(t as int));
            if best_labels[t] == FRAUD_LABEL {
                count = count + 1;
            }
            t = t + 1;
        }
        assert(list.take(TOP_K as int) =~= list);
        count
    }
}


/// The clusters that a query scans may all be scanned: those of the fast
/// probe list, and those of the full list when the fast count is 2 or 3.
pub open spec fn scans_in_range(m: IndexModel, q: Seq<i16>, keys: Seq<u32>) -> bool {
    let fast = probes_for(keys, PROBES_FAST as nat);
    let count = scan_result(m, q, fast);
    &&& m.probes_in_range(fast)
    &&& (count == 2 || count == 3) ==> m.probes_in_range(probes_for(keys, PROBES_FULL as nat))
}

impl LocalReferenceIndex {
    /// Number of fraudulent references among the five nearest to the
    /// quantized query `query`. `centroid_keys[c]` ranks cluster `c` by the
    /// distance from the query to its centroid.
    pub fn fraud_count_for(&self, query: &[i16; 14], centroid_keys: &[u32]) -> (r: Result<
        usize,
        AppError,
    >)
        requires
            self@.shape_ok(),
            quantized(query@),
            centroid_keys@.len() == self@.clusters,
            scans_in_range(self@, query@, centroid_keys@),
        ensures
            match r {
                Ok(count) => count == fraud_count_spec(self@, query@, centroid_keys@),
                Err(_) => false,
            },
    {
        let fast_probes = top_centroid_probes(centroid_keys, PROBES_FAST);
        let fast_count = self.scan_probes(query, &fast_probes);
        if fast_count != 2 && fast_count != 3 {
            return Ok(fast_count);
        }
        let full_probes = top_centroid_probes(centroid_keys, PROBES_FULL);
        Ok(self.scan_probes(query, &full_probes))
    }

    /// `fraud_count_for` where every cluster it would scan may be scanned,
    /// and none where it may not.
    pub fn fraud_count_checked(&self, query: &[i16; 14], centroid_keys: &[u32]) -> (r: Option<
        usize,
    >)
        requires
            self@.shape_ok(),
            quantized(query@),
            centroid_keys@.len() == self@.clusters,
        ensures
            match r {
                Some(count) => scans_in_range(self@, query@, centroid_keys@) && count
                    == fraud_count_spec(self@, query@, centroid_keys@),
                None => !scans_in_range(self@, query@, centroid_keys@),
            },
    {
        let fast_probes = top_centroid_probes(centroid_keys, PROBES_FAST);
        if !self.probes_in_range(&fast_probes) {
            return None;
        }
        let fast_count = self.scan_probes(query, &fast_probes);
        if fast_count != 2 && fast_count != 3 {
            return Some(fast_count);
        }
        let full_probes = top_centroid_probes(centroid_keys, PROBES_FULL);
        if !self.probes_in_range(&full_probes) {
            return None;
        }
        Some(self.scan_probes(query, &full_probes))
    }
}

/// Scanning a queryable index stays in range whatever the keys.
pub proof fn lemma_queryable_scans_in_range(m: IndexModel, q: Seq<i16>, keys: Seq<u32>)
    requires
        m.queryable(),
        keys.len() == m.clusters,
    ensures
        scans_in_range(m, q, keys),
{
    lemma_probes_in_range(keys, PROBES_FAST as nat);
    lemma_probes_in_range(keys, PROBES_FULL as nat);
    assert forall|i: int| 0 <= i < probes_for(keys, PROBES_FAST as nat).len() implies #[trigger] probes_for(keys, PROBES_FAST as nat)[i] < m.clusters && m.cluster_in_range(probes_for(keys, PROBES_FAST as nat)[i] as int) by {}
    assert forall|i: int| 0 <= i < probes_for(keys, PROBES_FULL as nat).len() implies #[trigger] probes_for(keys, PROBES_FULL as nat)[i] < m.clusters && m.cluster_in_range(probes_for(keys, PROBES_FULL as nat)[i] as int) by {}
}


// ---------------------------------------------------------------------------
// Laws of a query, stated over the stored data
// ---------------------------------------------------------------------------

/// Squared difference, in dimension `d`, between the query and the vector
/// stored in slot `slot` of block `block`, read straight from the blocks.
pub open spec fn stored_sq(m: IndexModel, q: Seq<i16>, block: int, slot: int, d: int) -> int {
    (q[d] as int - m.blocks[112 * block + 8 * d + slot] as int) * (q[d] as int - m.blocks[112
        * block + 8 * d + slot] as int)
}

/// The scan distance of a slot weighs the squared difference of each
/// dimension of its stored vector: dimensions 1 and 3 by 0, dimensions 7 and
/// 12 by 2, every other dimension of the fourteen by 1.
pub proof fn lemma_scan_distance_weights(m: IndexModel, q: Seq<i16>, block: int, slot: int)
    ensures
        scan_distance(m, q, block, slot) == stored_sq(m, q, block, slot, 0) + 0 * stored_sq(
            m,
            q,
            block,
            slot,
            1,
        ) + stored_sq(m, q, block, slot, 2) + 0 * stored_sq(m, q, block, slot, 3) + stored_sq(
            m,
            q,
            block,
            slot,
            4,
        ) + stored_sq(m, q, block, slot, 5) + stored_sq(m, q, block, slot, 6) + 2 * stored_sq(
            m,
            q,
            block,
            slot,
            7,
        ) + stored_sq(m, q, block, slot, 8) + stored_sq(m, q, block, slot, 9) + stored_sq(
            m,
            q,
            block,
            slot,
            10,
        ) + stored_sq(m, q, block, slot, 11) + 2 * stored_sq(m, q, block, slot, 12) + stored_sq(
            m,
            q,
            block,
            slot,
            13,
        ),
        candidate(m, q, block, slot).0 == scan_distance(m, q, block, slot),
        candidate(m, q, block, slot).1 == m.labels[8 * block + slot],
{
}

proof fn lemma_square_facts(x: int)
    ensures
        x * x >= 0,
        x * x == 0 <==> x == 0,
{
    assert(x * x >= 0) by (nonlinear_arith);
    if x != 0 {
        assert(x * x > 0) by (nonlinear_arith)
            requires
                x != 0,
        ;
    }
}

/// A slot is at distance zero from the query exactly when its stored vector
/// agrees with the query in every dimension but 1 and 3; otherwise its
/// distance is positive.
pub proof fn lemma_scan_distance_zero(m: IndexModel, q: Seq<i16>, block: int, slot: int)
    ensures
        scan_distance(m, q, block, slot) >= 0,
        scan_distance(m, q, block, slot) == 0 <==> (forall|d: int|
            0 <= d < 14 && d != 1 && d != 3 ==> q[d] == #[trigger] m.blocks[112 * block + 8 * d
                + slot]),
{
    lemma_scan_distance_weights(m, q, block, slot);
    let v = |d: int| m.blocks[112 * block + 8 * d + slot];
    assert forall|d: int| 0 <= d < 14 implies stored_sq(m, q, block, slot, d) >= 0 && (
    stored_sq(m, q, block, slot, d) == 0 <==> q[d] == m.blocks[112 * block + 8 * d + slot]) by {
        lemma_square_facts(q[d] as int - m.blocks[112 * block + 8 * d + slot] as int);
    }
    assert(stored_sq(m, q, block, slot, 0) >= 0);
    assert(stored_sq(m, q, block, slot, 2) >= 0);
    assert(stored_sq(m, q, block, slot, 4) >= 0);
    assert(stored_sq(m, q, block, slot, 5) >= 0);
    assert(stored_sq(m, q, block, slot, 6) >= 0);
    assert(stored_sq(m, q, block, slot, 7) >= 0);
    assert(stored_sq(m, q, block, slot, 8) >= 0);
    assert(stored_sq(m, q, block, slot, 9) >= 0);
    assert(stored_sq(m, q, block, slot, 10) >= 0);
    assert(stored_sq(m, q, block, slot, 11) >= 0);
    assert(stored_sq(m, q, block, slot, 12) >= 0);
    assert(stored_sq(m, q, block, slot, 13) >= 0);
}

/// Whether a neighbour entry is fraudulent: label 1.
pub open spec fn is_fraud_entry(e: (int, u8)) -> int {
    if e.1 == 1u8 {
        1
    } else {
        0
    }
}

/// A scan reports how many of all five entries of its neighbour list carry
/// label 1, the list starting from five empty entries.
pub proof fn lemma_scan_counts_all_five(m: IndexModel, q: Seq<i16>, probes: Seq<usize>)
    ensures
        ({
            let l = neighbours(
                Seq::new(5, |i: int| (i64::MAX as int, 0u8)),
                probe_candidates(m, q, probes),
            );
            &&& l.len() == 5
            &&& scan_result(m, q, probes) == is_fraud_entry(l[0]) + is_fraud_entry(l[1])
                + is_fraud_entry(l[2]) + is_fraud_entry(l[3]) + is_fraud_entry(l[4])
        }),
{
    let cands = probe_candidates(m, q, probes);
    lemma_neighbours_nearest(cands);
    assert(empty_neighbours() =~= Seq::new(5, |i: int| (i64::MAX as int, 0u8)));
    let l = neighbours(empty_neighbours(), cands);
    let l4 = l.drop_last();
    let l3 = l4.drop_last();
    let l2 = l3.drop_last();
    let l1 = l2.drop_last();
    let l0 = l1.drop_last();
    assert(l.last() == l[4]);
    assert(l4.last() == l[3]);
    assert(l3.last() == l[2]);
    assert(l2.last() == l[1]);
    assert(l1.last() == l[0]);
    assert(fraud_count(l0) == 0);
    assert(fraud_count(l1) == fraud_count(l0) + is_fraud_entry(l[0]));
    assert(fraud_count(l2) == fraud_count(l1) + is_fraud_entry(l[1]));
    assert(fraud_count(l3) == fraud_count(l2) + is_fraud_entry(l[2]));
    assert(fraud_count(l4) == fraud_count(l3) + is_fraud_entry(l[3]));
    assert(fraud_count(l) == fraud_count(l4) + is_fraud_entry(l[4]));
}

/// A query first scans the clusters of the eight nearest centroids; a count
/// other than 2 or 3 there is the answer. A count of 2 or 3 is undecided, and
/// the answer is then the count over the clusters of the 24 nearest
/// centroids.
pub proof fn lemma_query_passes(m: IndexModel, q: Seq<i16>, keys: Seq<u32>)
    requires
        1 <= keys.len() <= usize::MAX,
    ensures
        probes_for(keys, 8).len() == 8,
        probes_for(keys, 24).len() == 24,
        ({
            let fast = scan_result(m, q, probes_for(keys, 8));
            &&& fast != 2 && fast != 3 ==> fraud_count_spec(m, q, keys) == fast
            &&& fast == 2 || fast == 3 ==> fraud_count_spec(m, q, keys) == scan_result(
                m,
                q,
                probes_for(keys, 24),
            )
            &&& fast == 2 ==> scans_in_range(m, q, keys) ==> m.probes_in_range(
                probes_for(keys, 24),
            )
            &&& fast == 3 ==> scans_in_range(m, q, keys) ==> m.probes_in_range(
                probes_for(keys, 24),
            )
            &&& scans_in_range(m, q, keys) ==> m.probes_in_range(probes_for(keys, 8))
        }),
{
    lemma_probes_in_range(keys, 8);
    lemma_probes_in_range(keys, 24);
}

} // verus!
