//! A histogram of reservation status-pair transitions across a frame
//! stream: for each player's consecutive pair of observed reservation
//! states, how often that transition occurred.

use vstd::prelude::*;

use crate::assoc::{assoc_find, assoc_get, assoc_set, find_idx_u64, lemma_assoc_find,
    lemma_assoc_find_at, lemma_assoc_find_none, set_u64};
use crate::events::{AttributeData, FrameDelta, UpdatedAttributeData};

verus! {

/// One observed transition: the previously recorded pair (`None` on a
/// player's first observation) and the newly reported pair.
pub type Transition = (Option<(bool, bool)>, (bool, bool));

/// The largest histogram count a caller may pass in; room for another
/// billion observations remains below the counter's capacity.
pub const MAX_COUNT: i64 = 0x4000_0000_0000_0000;

fn transition_eq(a: &Transition, b: &Transition) -> (r: bool)
    ensures
        r == (*a == *b),
{
    let pair_eq = a.1.0 == b.1.0 && a.1.1 == b.1.1;
    let prev_eq = match (&a.0, &b.0) {
        (None, None) => true,
        (Some(x), Some(y)) => x.0 == y.0 && x.1 == y.1,
        _ => false,
    };
    pair_eq && prev_eq
}

/// Index of the first histogram entry for transition `k`.
fn find_transition(v: &Vec<(Transition, i64)>, k: &Transition) -> (r: Option<usize>)
    ensures
        match r {
            Some(i) => assoc_find(v@, *k) == Some(i as int),
            None => assoc_find(v@, *k) == None::<int>,
        },
{
    let mut i: usize = 0;
    while i < v.len()
        invariant
            i <= v@.len(),
            forall|j: int| 0 <= j < i ==> (#[trigger] v@[j]).0 != *k,
        decreases v@.len() - i,
    {
        if transition_eq(&v[i].0, k) {
            proof {
                lemma_assoc_find_at(v@, *k, i as int);
            }
            return Some(i);
        }
        i += 1;
    }
    proof {
        lemma_assoc_find_none(v@, *k);
    }
    None
}

/// One more observation of transition `k`.
pub open spec fn bump(counts: Seq<(Transition, i64)>, k: Transition) -> Seq<(Transition, i64)> {
    match assoc_find(counts, k) {
        Some(i) => counts.update(i, (k, (counts[i].1 + 1) as i64)),
        None => counts.push((k, 1i64)),
    }
}

fn bump_count(results: &mut Vec<(Transition, i64)>, k: Transition, Ghost(b): Ghost<int>)
    requires
        1 <= b < i64::MAX,
        forall|j: int|
            0 <= j < old(results)@.len() ==> 0 <= (#[trigger] old(results)@[j]).1 <= b,
    ensures
        final(results)@ == bump(old(results)@, k),
        forall|j: int|
            0 <= j < final(results)@.len() ==> 0 <= (#[trigger] final(results)@[j]).1 <= b + 1,
{
    let ghost r0 = results@;
    match find_transition(results, &k) {
        Some(i) => {
            proof {
                lemma_assoc_find(r0, k);
            }
            let v = results[i].1;
            let _ = results.remove(i);
            results.insert(i, (k, v + 1));
            proof {
                assert(results@ =~= r0.update(i as int, (k, (v + 1) as i64)));
            }
        },
        None => {
            results.push((k, 1));
        },
    }
}

/// The histogram and last-observed-pair map after one attribute update.
pub open spec fn res_step(
    seen: Seq<(u64, (bool, bool))>,
    counts: Seq<(Transition, i64)>,
    ua: UpdatedAttributeData,
    res_obj: i32,
) -> (Seq<(u64, (bool, bool))>, Seq<(Transition, i64)>) {
    if ua.object_id == res_obj {
        match ua.attribute {
            AttributeData::Reservation { player, flag1, flag2 } => {
                let pair = (flag1, flag2);
                let counts1 = if assoc_get(seen, player) is None {
                    bump(counts, (None::<(bool, bool)>, pair))
                } else {
                    counts
                };
                let prev = match assoc_get(seen, player) {
                    Some(p) => p,
                    None => pair,
                };
                let counts2 = if prev != pair {
                    bump(counts1, (Some(prev), pair))
                } else {
                    counts1
                };
                (assoc_set(seen, player, pair), counts2)
            },
            _ => (seen, counts),
        }
    } else {
        (seen, counts)
    }
}

/// The state after a sequence of attribute updates, starting from an
/// existing histogram.
pub open spec fn res_fold(
    upds: Seq<UpdatedAttributeData>,
    res_obj: i32,
    counts0: Seq<(Transition, i64)>,
) -> (Seq<(u64, (bool, bool))>, Seq<(Transition, i64)>)
    decreases upds.len(),
{
    if upds.len() == 0 {
        (Seq::empty(), counts0)
    } else {
        let prev = res_fold(upds.drop_last(), res_obj, counts0);
        res_step(prev.0, prev.1, upds.last(), res_obj)
    }
}

/// The attribute updates of the first `n` frames, in stream order.
pub open spec fn res_upds(frames: Seq<FrameDelta>, n: int) -> Seq<UpdatedAttributeData>
    decreases n,
{
    if n <= 0 {
        Seq::empty()
    } else {
        res_upds(frames, n - 1) + frames[n - 1].updated_actors@
    }
}

pub proof fn lemma_res_upds_mono(frames: Seq<FrameDelta>, m1: int, m2: int)
    requires
        0 <= m1 <= m2,
    ensures
        res_upds(frames, m1).len() <= res_upds(frames, m2).len(),
    decreases m2,
{
    if m2 > 0 && m1 < m2 {
        lemma_res_upds_mono(frames, m1, m2 - 1);
    }
}

/// Accumulates into `results` every reservation status-pair transition the
/// stream reports, keyed by the previously recorded pair (none on first
/// observation) and the new pair.
#[verifier::loop_isolation(false)]
pub fn reservation_transitions(
    frames: &Vec<FrameDelta>,
    reservations: i32,
    results: &mut Vec<(Transition, i64)>,
)
    requires
        forall|j: int| 0 <= j < old(results)@.len() ==> 0 <= (#[trigger] old(results)@[j]).1
            <= MAX_COUNT,
        res_upds(frames@, frames@.len() as int).len() <= 1_000_000_000,
    ensures
        final(results)@ == res_fold(
            res_upds(frames@, frames@.len() as int),
            reservations,
            old(results)@,
        ).1,
{
    let ghost counts0 = results@;
    let mut seen: Vec<(u64, (bool, bool))> = Vec::new();
    let mut i: usize = 0;
    while i < frames.len()
        invariant
            i <= frames@.len(),
            seen@ == res_fold(res_upds(frames@, i as int), reservations, counts0).0,
            results@ == res_fold(res_upds(frames@, i as int), reservations, counts0).1,
            forall|j: int|
                0 <= j < results@.len() ==> 0 <= (#[trigger] results@[j]).1 <= MAX_COUNT + 2
                    * res_upds(frames@, i as int).len(),
            res_upds(frames@, i as int).len() <= 1_000_000_000,
        decreases frames@.len() - i,
    {
        let ghost pre = res_upds(frames@, i as int);
        let ghost fups = frames@[i as int].updated_actors@;
        let mut k: usize = 0;
        proof {
            assert(pre + fups.take(0) =~= pre);
            lemma_res_upds_mono(frames@, i + 1, frames@.len() as int);
        }
        while k < frames[i].updated_actors.len()
            invariant
                k <= fups.len(),
                seen@ == res_fold(pre + fups.take(k as int), reservations, counts0).0,
                results@ == res_fold(pre + fups.take(k as int), reservations, counts0).1,
                forall|j: int|
                    0 <= j < results@.len() ==> 0 <= (#[trigger] results@[j]).1 <= MAX_COUNT + 2
                        * (pre + fups.take(k as int)).len(),
                (pre + fups.take(k as int)).len() <= res_upds(frames@, i + 1).len(),
                res_upds(frames@, i + 1).len() <= 1_000_000_000,
            decreases fups.len() - k,
        {
            let ua = frames[i].updated_actors[k];
            let ghost processed = pre + fups.take(k as int);
            proof {
                assert(pre + fups.take(k + 1) =~= processed.push(ua));
                assert(processed.push(ua).drop_last() =~= processed);
            }
            let ghost seen0 = seen@;
            let ghost results0 = results@;
            if ua.object_id == reservations {
                match ua.attribute {
                    AttributeData::Reservation { player, flag1, flag2 } => {
                        let pair = (flag1, flag2);
                        let prev_idx = find_idx_u64(&seen, player);
                        if prev_idx.is_none() {
                            bump_count(
                                results,
                                (None, pair),
                                Ghost(MAX_COUNT + 2 * processed.len()),
                            );
                        }
                        let prev = match prev_idx {
                            Some(ix) => {
                                proof {
                                    lemma_assoc_find(seen0, player);
                                }
                                seen[ix].1
                            },
                            None => pair,
                        };
                        if prev.0 != pair.0 || prev.1 != pair.1 {
                            bump_count(
                                results,
                                (Some(prev), pair),
                                Ghost(MAX_COUNT + 2 * processed.len() + 1),
                            );
                        }
                        set_u64(&mut seen, player, pair);
                    },
                    _ => {},
                }
            }
            proof {
                assert(seen@ == res_step(seen0, results0, ua, reservations).0);
                assert(results@ == res_step(seen0, results0, ua, reservations).1);
            }
            k += 1;
        }
        proof {
            assert(pre + fups.take(fups.len() as int) =~= res_upds(frames@, i + 1));
        }
        i += 1;
    }
    proof {
        assert(res_upds(frames@, frames@.len() as int) == res_upds(
            frames@,
            frames@.len() as int,
        ));
    }
}

} // verus!
