//! Mid-match disconnect detection: a player whose reservation-status pair
//! drops from an engaged state (at least one flag set) straight to the
//! both-false baseline is recorded with the time of that transition; camera
//! data past that time is discarded downstream.

use vstd::prelude::*;

use crate::assoc::{assoc_get, assoc_set, find_idx_u64, set_u64};
use crate::discovery::{discover_from, discover_singleton, is_target_lifetime, selected_events};
use crate::events::{AttributeData, ChangeEvent, Event};
use crate::lifetimes::LifetimeList;
use crate::schema::Schema;

verus! {

/// One scan step.  A reservation update records a disconnect when the player
/// is not yet recorded, the new pair is both-false, and the last observed
/// pair had a flag set; it always becomes the last observed pair.
pub open spec fn disc_step(
    seen: Seq<(u64, (bool, bool))>,
    out: Seq<(u64, i64)>,
    ev: Event,
    res_obj: i32,
) -> (Seq<(u64, (bool, bool))>, Seq<(u64, i64)>) {
    match ev.event {
        ChangeEvent::U(ua) => {
            if ua.object_id == res_obj {
                match ua.attribute {
                    AttributeData::Reservation { player, flag1, flag2 } => {
                        let genuine = assoc_get(out, player) is None && !flag1 && !flag2 && (
                        match assoc_get(seen, player) {
                            Some(prev) => prev.0 || prev.1,
                            None => false,
                        });
                        let out2 = if genuine {
                            out.push((player, ev.time))
                        } else {
                            out
                        };
                        (assoc_set(seen, player, (flag1, flag2)), out2)
                    },
                    _ => (seen, out),
                }
            } else {
                (seen, out)
            }
        },
        _ => (seen, out),
    }
}

/// The scan state after a sequence of raw events.
pub open spec fn disc_fold(evs: Seq<Event>, res_obj: i32) -> (Seq<(u64, (bool, bool))>, Seq<(
    u64,
    i64,
)>)
    decreases evs.len(),
{
    if evs.len() == 0 {
        (Seq::empty(), Seq::empty())
    } else {
        let prev = disc_fold(evs.drop_last(), res_obj);
        disc_step(prev.0, prev.1, evs.last(), res_obj)
    }
}

/// Whether an event is a reservation update reporting this player with this
/// status pair.
pub open spec fn is_reservation_update(
    ev: Event,
    res_obj: i32,
    player: u64,
    flag1: bool,
    flag2: bool,
) -> bool {
    match ev.event {
        ChangeEvent::U(ua) => ua.object_id == res_obj && ua.attribute
            == (AttributeData::Reservation { player, flag1, flag2 }),
        _ => false,
    }
}

/// One step of the drop law: a reservation update taking a player whose last
/// observed pair had a flag set straight to the both-false baseline records
/// a disconnect at that event's time, when none is recorded yet.
pub proof fn lemma_disc_step_records_drop(
    seen: Seq<(u64, (bool, bool))>,
    out: Seq<(u64, i64)>,
    ev: Event,
    res_obj: i32,
    player: u64,
)
    requires
        is_reservation_update(ev, res_obj, player, false, false),
        assoc_get(out, player) is None,
        match assoc_get(seen, player) {
            Some(pr) => pr.0 || pr.1,
            None => false,
        },
    ensures
        assoc_get(disc_step(seen, out, ev, res_obj).1, player) == Some(ev.time),
{
    crate::assoc::lemma_assoc_push(out, (player, ev.time), player);
}

/// One step of the no-double-count law: every scan step leaves an already
/// recorded player's disconnect time unchanged.
pub proof fn lemma_disc_step_stable(
    seen: Seq<(u64, (bool, bool))>,
    out: Seq<(u64, i64)>,
    ev: Event,
    res_obj: i32,
    player: u64,
)
    requires
        assoc_get(out, player) is Some,
    ensures
        assoc_get(disc_step(seen, out, ev, res_obj).1, player) == assoc_get(out, player),
{
    match ev.event {
        ChangeEvent::U(ua) => {
            if ua.object_id == res_obj {
                match ua.attribute {
                    AttributeData::Reservation { player: p2, flag1, flag2 } => {
                        let genuine = assoc_get(out, p2) is None && !flag1 && !flag2 && (
                        match assoc_get(seen, p2) {
                            Some(prev) => prev.0 || prev.1,
                            None => false,
                        });
                        if genuine {
                            crate::assoc::lemma_assoc_push(out, (p2, ev.time), player);
                        }
                    },
                    _ => {},
                }
            }
        },
        _ => {},
    }
}

/// A player's first observation only seeds the tracked pair; it records no
/// disconnect.
pub proof fn lemma_disc_step_first_observation(
    seen: Seq<(u64, (bool, bool))>,
    out: Seq<(u64, i64)>,
    ev: Event,
    res_obj: i32,
    player: u64,
    flag1: bool,
    flag2: bool,
)
    requires
        is_reservation_update(ev, res_obj, player, flag1, flag2),
        assoc_get(seen, player) is None,
    ensures
        assoc_get(disc_step(seen, out, ev, res_obj).1, player) == assoc_get(out, player),
        assoc_get(disc_step(seen, out, ev, res_obj).0, player) == Some((flag1, flag2)),
{
    crate::assoc::lemma_assoc_set_get(seen, player, (flag1, flag2), player);
}

/// Law: once the scan has recorded a player's disconnect, processing any
/// further events never changes the recorded time — a disconnect is not
/// double-counted.
pub proof fn lemma_disconnect_stable(evs: Seq<Event>, res_obj: i32, player: u64, k: int)
    requires
        0 <= k <= evs.len(),
        assoc_get(disc_fold(evs.take(k), res_obj).1, player) is Some,
    ensures
        assoc_get(disc_fold(evs, res_obj).1, player) == assoc_get(
            disc_fold(evs.take(k), res_obj).1,
            player,
        ),
    decreases evs.len() - k,
{
    if k < evs.len() {
        let st = disc_fold(evs.take(k), res_obj);
        assert(evs.take(k + 1).drop_last() =~= evs.take(k));
        assert(evs.take(k + 1).last() == evs[k]);
        lemma_disc_step_stable(st.0, st.1, evs[k], res_obj, player);
        lemma_disconnect_stable(evs, res_obj, player, k + 1);
    } else {
        assert(evs.take(k) =~= evs);
    }
}

/// Law: a reservation update dropping a player whose last observed pair had
/// a flag set straight to the both-false baseline, the player not yet
/// recorded, is recorded as a disconnect at the transition event's time —
/// and that first recording is what the whole scan reports.
pub proof fn lemma_disconnect_drop_recorded(evs: Seq<Event>, res_obj: i32, player: u64, k: int)
    requires
        0 <= k < evs.len(),
        is_reservation_update(evs[k], res_obj, player, false, false),
        assoc_get(disc_fold(evs.take(k), res_obj).1, player) is None,
        match assoc_get(disc_fold(evs.take(k), res_obj).0, player) {
            Some(pr) => pr.0 || pr.1,
            None => false,
        },
    ensures
        assoc_get(disc_fold(evs, res_obj).1, player) == Some(evs[k].time),
{
    let st = disc_fold(evs.take(k), res_obj);
    assert(evs.take(k + 1).drop_last() =~= evs.take(k));
    assert(evs.take(k + 1).last() == evs[k]);
    lemma_disc_step_records_drop(st.0, st.1, evs[k], res_obj, player);
    lemma_disconnect_stable(evs, res_obj, player, k + 1);
}

/// The disconnect cutoffs of a replay: the scan of the reservation actor's
/// lifetimes, in list-then-event order.
pub open spec fn disconnects_spec(ltl: LifetimeList, sch: Schema) -> Seq<(u64, i64)> {
    disc_fold(
        selected_events(
            ltl.list@,
            discover_from(ltl.list@, sch.reservations, 0),
            ltl.list@.len() as int,
        ),
        sch.reservations,
    ).1
}

/// Maps each player identity that genuinely disconnected to the time of the
/// transition.  Identities that never exhibit the drop are absent.
#[verifier::loop_isolation(false)]
pub fn get_disconnect_players(ltl: &LifetimeList, sch: &Schema) -> (r: Vec<(u64, i64)>)
    requires
        ltl.wf(),
    ensures
        r@ == disconnects_spec(*ltl, *sch),
{
    let target = discover_singleton(ltl, sch.reservations);
    let ghost targetg = target;
    let mut seen: Vec<(u64, (bool, bool))> = Vec::new();
    let mut ret: Vec<(u64, i64)> = Vec::new();
    let mut n: usize = 0;
    while n < ltl.list.len()
        invariant
            n <= ltl.list@.len(),
            seen@ == disc_fold(
                selected_events(ltl.list@, targetg, n as int),
                sch.reservations,
            ).0,
            ret@ == disc_fold(selected_events(ltl.list@, targetg, n as int), sch.reservations).1,
        decreases ltl.list@.len() - n,
    {
        assert(ltl.list@[n as int].wf());
        let ghost sel = selected_events(ltl.list@, targetg, n as int);
        let selected = match &ltl.list[n].events[0].event {
            ChangeEvent::N(na) => match target {
                Some(t) => na.object_id == t,
                None => false,
            },
            _ => false,
        };
        if selected {
            let mut p: usize = 0;
            let ghost evs = ltl.list@[n as int].events@;
            while p < ltl.list[n].events.len()
                invariant
                    p <= evs.len(),
                    seen@ == disc_fold(sel + evs.take(p as int), sch.reservations).0,
                    ret@ == disc_fold(sel + evs.take(p as int), sch.reservations).1,
                decreases evs.len() - p,
            {
                let ev = ltl.list[n].events[p];
                proof {
                    assert(sel + evs.take(p + 1) =~= (sel + evs.take(p as int)).push(ev));
                    assert((sel + evs.take(p as int)).push(ev).drop_last() =~= sel + evs.take(
                        p as int,
                    ));
                }
                let ghost seen0 = seen@;
                let ghost ret0 = ret@;
                match &ev.event {
                    ChangeEvent::U(ua) => {
                        if ua.object_id == sch.reservations {
                            match ua.attribute {
                                AttributeData::Reservation { player, flag1, flag2 } => {
                                    let absent = find_idx_u64(&ret, player).is_none();
                                    let was_engaged = match find_idx_u64(&seen, player) {
                                        Some(i) => {
                                            proof {
                                                crate::assoc::lemma_assoc_find(seen@, player);
                                            }
                                            let pr = seen[i].1;
                                            pr.0 || pr.1
                                        },
                                        None => false,
                                    };
                                    if absent && !flag1 && !flag2 && was_engaged {
                                        ret.push((player, ev.time));
                                    }
                                    set_u64(&mut seen, player, (flag1, flag2));
                                },
                                _ => {},
                            }
                        }
                    },
                    _ => {},
                }
                proof {
                    assert(seen@ == disc_step(seen0, ret0, ev, sch.reservations).0);
                    assert(ret@ == disc_step(seen0, ret0, ev, sch.reservations).1);
                }
                p += 1;
            }
            proof {
                assert(sel + evs.take(evs.len() as int) =~= selected_events(
                    ltl.list@,
                    targetg,
                    n + 1,
                ));
            }
        } else {
            proof {
                assert(selected_events(ltl.list@, targetg, n + 1) == sel);
            }
        }
        n += 1;
    }
    ret
}

} // verus!
