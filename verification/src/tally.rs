//! The flat per-player camera tally: one pass over each player's camera
//! lifetimes accumulating camera-on time, total sampled time and debounced
//! toggle counts, without consulting the match-phase timeline.

use vstd::prelude::*;

use crate::assoc::{assoc_find, assoc_get, bucket_of, find_idx_u64, lemma_assoc_find,
    lemma_assoc_find_at, unique_keys};
use crate::ballcam::{below_cutoff, lemma_owned_len, lemma_owned_mono, owned_events};
use crate::disconnect::{disconnects_spec, get_disconnect_players};
use crate::events::{AttributeData, ChangeEvent, Event, MAX_TICKS};
use crate::lifetimes::{lemma_total_events_mono, total_events, Lifetime, LifetimeList};
use crate::players::{lemma_player_indices, player_indices, player_id_buckets};
use crate::schema::Schema;

verus! {

/// The running state of one player's tally.
pub struct CamTally {
    pub last_time: Option<i64>,
    pub last_state: Option<bool>,
    pub max_time: Option<i64>,
    pub total: int,
    pub ballcam: int,
    pub swaps: int,
}

/// Before any event: no sample yet, camera assumed off.
pub open spec fn tally_init() -> CamTally {
    CamTally {
        last_time: None,
        last_state: Some(false),
        max_time: None,
        total: 0,
        ballcam: 0,
        swaps: 0,
    }
}

/// One event of one camera lifetime.  Events at or past the cutoff are
/// skipped.  A camera-mode update samples the gap since the last sample; a
/// deletion closes the sampling run and resets the camera to off.
pub open spec fn tally_step(
    st: CamTally,
    ev: Event,
    index: int,
    ballcam_id: i32,
    cutoff: Option<i64>,
    debounce: int,
) -> CamTally {
    if !below_cutoff(ev.time, cutoff) {
        st
    } else {
        let lt = if st.last_time is None {
            Some(ev.time)
        } else {
            st.last_time
        };
        let mx = match st.max_time {
            None => Some(ev.time),
            Some(m) => Some(
                if ev.time > m {
                    ev.time
                } else {
                    m
                },
            ),
        };
        let st1 = CamTally { last_time: lt, max_time: mx, ..st };
        match ev.event {
            ChangeEvent::U(ua) => if ua.object_id == ballcam_id {
                let delta = ev.time - lt->Some_0;
                let st2 = if st1.last_state is Some {
                    CamTally {
                        total: st1.total + delta,
                        ballcam: st1.ballcam + if st1.last_state == Some(true) {
                            delta as int
                        } else {
                            0
                        },
                        swaps: st1.swaps + if delta > debounce && ua.attribute
                            != AttributeData::Boolean(st1.last_state->Some_0) && index != 0 {
                            1int
                        } else {
                            0int
                        },
                        ..st1
                    }
                } else {
                    st1
                };
                CamTally {
                    last_time: Some(ev.time),
                    last_state: match ua.attribute {
                        AttributeData::Boolean(b) => Some(b),
                        _ => None,
                    },
                    ..st2
                }
            } else {
                st1
            },
            ChangeEvent::D(_) => {
                let delta = ev.time - lt->Some_0;
                let st2 = if st1.last_state is Some {
                    CamTally {
                        total: st1.total + delta,
                        ballcam: st1.ballcam + if st1.last_state == Some(true) {
                            delta as int
                        } else {
                            0
                        },
                        ..st1
                    }
                } else {
                    st1
                };
                CamTally { last_time: None, last_state: Some(false), ..st2 }
            },
            _ => st1,
        }
    }
}

/// The first `k` events of one lifetime, each stepped with its position.
pub open spec fn tally_events(
    evs: Seq<Event>,
    k: int,
    st: CamTally,
    ballcam_id: i32,
    cutoff: Option<i64>,
    debounce: int,
) -> CamTally
    decreases k,
{
    if k <= 0 {
        st
    } else {
        tally_step(
            tally_events(evs, k - 1, st, ballcam_id, cutoff, debounce),
            evs[k - 1],
            k - 1,
            ballcam_id,
            cutoff,
            debounce,
        )
    }
}

/// The first `n` lifetimes of one player's bucket.
pub open spec fn tally_bucket(
    list: Seq<Lifetime>,
    idxs: Seq<usize>,
    n: int,
    st: CamTally,
    ballcam_id: i32,
    cutoff: Option<i64>,
    debounce: int,
) -> CamTally
    decreases n,
{
    if n <= 0 {
        st
    } else {
        let evs = list[idxs[n - 1] as int].events@;
        tally_events(
            evs,
            evs.len() as int,
            tally_bucket(list, idxs, n - 1, st, ballcam_id, cutoff, debounce),
            ballcam_id,
            cutoff,
            debounce,
        )
    }
}

/// The closing step: the span from the last sample to the latest accounted
/// moment is added, then the totals are read off.
pub open spec fn tally_final(st: CamTally) -> (int, int, int) {
    if st.last_time is Some && st.last_state is Some && st.max_time is Some {
        let d = st.max_time->Some_0 - st.last_time->Some_0;
        (
            st.ballcam + if st.last_state == Some(true) {
                d as int
            } else {
                0
            },
            st.total + d,
            st.swaps,
        )
    } else {
        (st.ballcam, st.total, st.swaps)
    }
}

/// One player's flat tally: camera-on ticks, sampled ticks, toggle count.
pub open spec fn cam_tally_spec(
    ltl: LifetimeList,
    sch: Schema,
    p: u64,
    cutoff: Option<i64>,
    debounce: int,
) -> (int, int, int) {
    tally_final(
        tally_bucket(
            ltl.list@,
            player_indices(ltl, sch, p, ltl.list@.len() as int),
            player_indices(ltl, sch, p, ltl.list@.len() as int).len() as int,
            tally_init(),
            sch.ballcam_id,
            cutoff,
            debounce,
        ),
    )
}

/// The state is numerically bounded after `c` events with times within
/// `MAX_TICKS`.
pub open spec fn tally_bounded(st: CamTally, c: int) -> bool {
    &&& -0x2000_0000_0000_0000 * c <= st.total <= 0x2000_0000_0000_0000 * c
    &&& -0x2000_0000_0000_0000 * c <= st.ballcam <= 0x2000_0000_0000_0000 * c
    &&& 0 <= st.swaps <= c
    &&& match st.last_time {
        Some(t) => -MAX_TICKS <= t <= MAX_TICKS,
        None => true,
    }
    &&& match st.max_time {
        Some(t) => -MAX_TICKS <= t <= MAX_TICKS,
        None => true,
    }
}

pub proof fn lemma_tally_step_bounded(
    st: CamTally,
    ev: Event,
    index: int,
    ballcam_id: i32,
    cutoff: Option<i64>,
    debounce: int,
    c: int,
)
    requires
        tally_bounded(st, c),
        0 <= c,
        -MAX_TICKS <= ev.time <= MAX_TICKS,
    ensures
        tally_bounded(tally_step(st, ev, index, ballcam_id, cutoff, debounce), c + 1),
{
}

/// A bounded state's magnitudes stay far inside the accumulator type.
pub proof fn lemma_tally_small(st: CamTally, c: int)
    requires
        tally_bounded(st, c),
        0 <= c <= 1_000_000_000,
    ensures
        -0x1000_0000_0000_0000_0000_0000 <= st.total <= 0x1000_0000_0000_0000_0000_0000,
        -0x1000_0000_0000_0000_0000_0000 <= st.ballcam <= 0x1000_0000_0000_0000_0000_0000,
        0 <= st.swaps <= 1_000_000_000,
{
    assert(0x2000_0000_0000_0000 * c <= 0x2000_0000_0000_0000 * 1_000_000_000) by (nonlinear_arith)
        requires
            0 <= c <= 1_000_000_000,
    ;
}

/// Per-player camera tallies computed in one flat pass, without the match
/// phase timeline: camera-on ticks, sampled ticks and toggle count.
#[derive(Debug, Clone)]
pub struct BallcamResults {
    pub results: Vec<(u64, (i128, i128, i32))>,
}

impl BallcamResults {
    pub fn from(results: Vec<(u64, (i128, i128, i32))>) -> (r: Self)
        ensures
            r.results == results,
    {
        Self { results }
    }
}

/// Tallies every resolved player's camera usage in one flat pass over its
/// camera lifetimes, truncated at the player's disconnect cutoff.
#[verifier::loop_isolation(false)]
#[verifier::rlimit(100)]
pub fn ballcam_lifetimes(ltl: &LifetimeList, sch: &Schema, debounce: i64) -> (r: BallcamResults)
    requires
        ltl.wf(),
        ltl.times_bounded(MAX_TICKS),
        total_events(ltl.list@, ltl.list@.len() as int) <= 1_000_000_000,
    ensures
        unique_keys(r.results@),
        forall|p: u64|
            match #[trigger] assoc_get(r.results@, p) {
                Some(t) => player_indices(*ltl, *sch, p, ltl.list@.len() as int).len() > 0 && (
                t.0 as int,
                t.1 as int,
                t.2 as int,
                ) == cam_tally_spec(
                    *ltl,
                    *sch,
                    p,
                    assoc_get(disconnects_spec(*ltl, *sch), p),
                    debounce as int,
                ),
                None => player_indices(*ltl, *sch, p, ltl.list@.len() as int).len() == 0,
            },
{
    let ghost listv = ltl.list@;
    let ghost db = debounce as int;
    let players = player_id_buckets(ltl, sch);
    let disconnect_players = get_disconnect_players(ltl, sch);
    let mut results: Vec<(u64, (i128, i128, i32))> = Vec::new();
    let mut n: usize = 0;
    while n < players.len()
        invariant
            n <= players@.len(),
            results@.len() == n,
            forall|j: int| 0 <= j < n ==> (#[trigger] results@[j]).0 == players@[j].0,
            forall|j: int|
                0 <= j < n ==> ((#[trigger] results@[j]).1.0 as int, results@[j].1.1 as int,
                results@[j].1.2 as int) == cam_tally_spec(
                    *ltl,
                    *sch,
                    results@[j].0,
                    assoc_get(disconnects_spec(*ltl, *sch), results@[j].0),
                    db,
                ),
        decreases players@.len() - n,
    {
        let pid: u64 = players[n].0;
        let ghost bucketg = players@[n as int].1@;
        proof {
            assert(ltl.list.len() == listv.len());
            lemma_assoc_find_at(players@, pid, n as int);
            assert(bucket_of(players@, pid) == bucketg);
            assert(bucketg == player_indices(*ltl, *sch, pid, listv.len() as int));
            lemma_player_indices(*ltl, *sch, pid, listv.len() as int);
            lemma_owned_len(listv, bucketg, bucketg.len() as int);
            if bucketg.len() > 0 {
                lemma_total_events_mono(listv, bucketg[bucketg.len() - 1] + 1, listv.len() as int);
            }
            assert(owned_events(listv, bucketg, bucketg.len() as int).len() <= 1_000_000_000);
        }
        let cutoff: Option<i64> = match find_idx_u64(&disconnect_players, pid) {
            Some(i) => {
                proof {
                    lemma_assoc_find(disconnect_players@, pid);
                }
                Some(disconnect_players[i].1)
            },
            None => None,
        };
        assert(cutoff == assoc_get(disconnects_spec(*ltl, *sch), pid));

        let bucket = &players[n].1;
        let mut last_time: Option<i64> = None;
        let mut last_state: Option<bool> = Some(false);
        let mut max_time: Option<i64> = None;
        let mut total: i128 = 0;
        let mut ballcam: i128 = 0;
        let mut swaps: i32 = 0;
        let mut b: usize = 0;
        while b < bucket.len()
            invariant
                b <= bucketg.len(),
                bucket@ == bucketg,
                ({
                    let st = tally_bucket(
                        listv,
                        bucketg,
                        b as int,
                        tally_init(),
                        sch.ballcam_id,
                        cutoff,
                        db,
                    );
                    &&& last_time == st.last_time
                    &&& last_state == st.last_state
                    &&& max_time == st.max_time
                    &&& total as int == st.total
                    &&& ballcam as int == st.ballcam
                    &&& swaps as int == st.swaps
                }),
                tally_bounded(
                    tally_bucket(listv, bucketg, b as int, tally_init(), sch.ballcam_id, cutoff, db),
                    owned_events(listv, bucketg, b as int).len() as int,
                ),
            decreases bucketg.len() - b,
        {
            let li: usize = bucket[b];
            assert(bucketg[b as int] < listv.len());
            assert(listv[li as int].wf());
            let ghost evs = listv[li as int].events@;
            let ghost st_b = tally_bucket(
                listv,
                bucketg,
                b as int,
                tally_init(),
                sch.ballcam_id,
                cutoff,
                db,
            );
            proof {
                lemma_owned_mono(listv, bucketg, b + 1, bucketg.len() as int);
            }
            let mut p: usize = 0;
            while p < ltl.list[li].events.len()
                invariant
                    p <= evs.len(),
                    ({
                        let st = tally_events(evs, p as int, st_b, sch.ballcam_id, cutoff, db);
                        &&& last_time == st.last_time
                        &&& last_state == st.last_state
                        &&& max_time == st.max_time
                        &&& total as int == st.total
                        &&& ballcam as int == st.ballcam
                        &&& swaps as int == st.swaps
                    }),
                    tally_bounded(
                        tally_events(evs, p as int, st_b, sch.ballcam_id, cutoff, db),
                        owned_events(listv, bucketg, b as int).len() + p,
                    ),
                decreases evs.len() - p,
            {
                let ev = ltl.list[li].events[p];
                let ghost st_old = tally_events(evs, p as int, st_b, sch.ballcam_id, cutoff, db);
                let ghost c_old = owned_events(listv, bucketg, b as int).len() + p as int;
                proof {
                    assert(-MAX_TICKS <= ev.time <= MAX_TICKS) by {
                        assert(listv[li as int].events@[p as int] == ev);
                    }
                    lemma_tally_step_bounded(
                        st_old,
                        ev,
                        p as int,
                        sch.ballcam_id,
                        cutoff,
                        db,
                        c_old,
                    );
                    assert(c_old + 1 <= owned_events(listv, bucketg, b + 1).len()) by {
                        assert(owned_events(listv, bucketg, b + 1) =~= owned_events(
                            listv,
                            bucketg,
                            b as int,
                        ) + evs);
                    }
                    lemma_tally_small(st_old, c_old);
                    lemma_tally_small(
                        tally_step(st_old, ev, p as int, sch.ballcam_id, cutoff, db),
                        c_old + 1,
                    );
                }
                let below = match cutoff {
                    Some(c) => ev.time < c,
                    None => true,
                };
                if below {
                    if last_time.is_none() {
                        last_time = Some(ev.time);
                    }
                    max_time = Some(
                        match max_time {
                            Some(m) => if ev.time > m {
                                ev.time
                            } else {
                                m
                            },
                            None => ev.time,
                        },
                    );
                    let ltv: i64 = match last_time {
                        Some(t) => t,
                        None => 0,
                    };
                    match &ev.event {
                        ChangeEvent::U(ua) => {
                            if ua.object_id == sch.ballcam_id {
                                let delta: i128 = (ev.time as i128) - (ltv as i128);
                                match last_state {
                                    Some(prev) => {
                                        total = total + delta;
                                        if prev {
                                            ballcam = ballcam + delta;
                                        }
                                        let changed = match ua.attribute {
                                            AttributeData::Boolean(bv) => bv != prev,
                                            _ => true,
                                        };
                                        if delta > debounce as i128 && changed && p != 0 {
                                            swaps = swaps + 1;
                                        }
                                    },
                                    None => {},
                                }
                                last_time = Some(ev.time);
                                last_state = match ua.attribute {
                                    AttributeData::Boolean(bv) => Some(bv),
                                    _ => None,
                                };
                            }
                        },
                        ChangeEvent::D(_) => {
                            let delta: i128 = (ev.time as i128) - (ltv as i128);
                            match last_state {
                                Some(prev) => {
                                    total = total + delta;
                                    if prev {
                                        ballcam = ballcam + delta;
                                    }
                                },
                                None => {},
                            }
                            last_time = None;
                            last_state = Some(false);
                        },
                        _ => {},
                    }
                }
                proof {
                    assert(tally_events(evs, p + 1, st_b, sch.ballcam_id, cutoff, db) == tally_step(
                        st_old,
                        evs[p as int],
                        p as int,
                        sch.ballcam_id,
                        cutoff,
                        db,
                    ));
                    assert(evs[p as int] == ev);
                    lemma_tally_step_bounded(st_old, ev, p as int, sch.ballcam_id, cutoff, db, c_old);
                }
                p += 1;
            }
            proof {
                assert(tally_bucket(
                    listv,
                    bucketg,
                    b + 1,
                    tally_init(),
                    sch.ballcam_id,
                    cutoff,
                    db,
                ) == tally_events(evs, evs.len() as int, st_b, sch.ballcam_id, cutoff, db));
                assert(owned_events(listv, bucketg, b + 1).len() == owned_events(
                    listv,
                    bucketg,
                    b as int,
                ).len() + evs.len()) by {
                    assert(owned_events(listv, bucketg, b + 1) =~= owned_events(
                        listv,
                        bucketg,
                        b as int,
                    ) + evs);
                }
            }
            b += 1;
        }
        // close the sampling run at the latest accounted moment
        let ghost st_end = tally_bucket(
            listv,
            bucketg,
            bucketg.len() as int,
            tally_init(),
            sch.ballcam_id,
            cutoff,
            db,
        );
        proof {
            lemma_tally_small(st_end, owned_events(listv, bucketg, bucketg.len() as int).len() as int);
        }
        let entry: (i128, i128, i32) = match (last_time, last_state, max_time) {
            (Some(lt), Some(ls), Some(mx)) => {
                let d: i128 = (mx as i128) - (lt as i128);
                (
                    if ls {
                        ballcam + d
                    } else {
                        ballcam
                    },
                    total + d,
                    swaps,
                )
            },
            _ => (ballcam, total, swaps),
        };
        assert((entry.0 as int, entry.1 as int, entry.2 as int) == tally_final(st_end));
        let ghost results0 = results@;
        results.push((pid, entry));
        proof {
            assert(forall|j: int| 0 <= j < n ==> #[trigger] results@[j] == results0[j]);
            assert(results@[n as int] == (pid, entry));
        }
        n += 1;
    }
    proof {
        assert forall|p: u64|
            match #[trigger] assoc_get(results@, p) {
                Some(t) => player_indices(*ltl, *sch, p, ltl.list@.len() as int).len() > 0 && (
                t.0 as int,
                t.1 as int,
                t.2 as int,
                ) == cam_tally_spec(
                    *ltl,
                    *sch,
                    p,
                    assoc_get(disconnects_spec(*ltl, *sch), p),
                    db,
                ),
                None => player_indices(*ltl, *sch, p, ltl.list@.len() as int).len() == 0,
            } by {
            crate::assoc::lemma_assoc_find_keys_eq(results@, players@, p);
            crate::assoc::lemma_assoc_find(results@, p);
            crate::assoc::lemma_assoc_find(players@, p);
            match assoc_find(results@, p) {
                Some(j) => {
                    assert(players@[j].0 == p);
                    assert(bucket_of(players@, p) == players@[j].1@);
                    assert(players@[j].1@.len() > 0);
                },
                None => {
                    assert(bucket_of(players@, p) =~= Seq::<usize>::empty());
                },
            }
        }
        assert forall|j: int, j2: int|
            0 <= j < j2 < results@.len() implies (#[trigger] results@[j]).0 != (
        #[trigger] results@[j2]).0 by {
            assert(results@[j].0 == players@[j].0 && results@[j2].0 == players@[j2].0);
        }
    }
    BallcamResults::from(results)
}

} // verus!
