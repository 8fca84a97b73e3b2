//! The match-phase timeline: transitions between pre-round countdown, live
//! play and the post-goal freeze, read off the replicated state-name
//! attribute of the single game-event actor.

use vstd::prelude::*;

use crate::discovery::{discover_from, discover_singleton, is_target_lifetime,
    lemma_selected_sorted, selected_events, target_count};
use crate::events::{AttributeData, ChangeEvent, Event};
use crate::lifetimes::LifetimeList;
use crate::schema::Schema;

verus! {

/// A moment of the match: clock ticks and frame index.
#[derive(Debug, Clone, Copy, PartialEq, Eq, Structural)]
pub struct FrameInfo {
    pub time: i64,
    pub frame: usize,
}

impl FrameInfo {
    pub fn from(time: i64, frame: usize) -> (r: Self)
        ensures
            r == (FrameInfo { time, frame }),
    {
        Self { time, frame }
    }
}

/// One match phase.
#[derive(Debug, Clone, Copy, PartialEq, Eq, Structural)]
pub enum GameState {
    Goal,
    Active,
    Countdown,
}

/// One phase transition of the match.
#[derive(Debug, Clone, Copy, PartialEq, Eq, Structural)]
pub struct GameStateEvent {
    pub variant: GameState,
    pub info: FrameInfo,
}

impl GameStateEvent {
    pub fn from(time: i64, frame: usize, variant: GameState) -> (r: Self)
        ensures
            r == (GameStateEvent { variant, info: FrameInfo { time, frame } }),
    {
        Self { variant, info: FrameInfo::from(time, frame) }
    }
}

/// The phase a state-name id denotes, if it is one of the recognized names.
pub open spec fn phase_of(x: i32, sch: Schema) -> Option<GameState> {
    if sch.countdown_event == Some(x) {
        Some(GameState::Countdown)
    } else if sch.active_event == Some(x) {
        Some(GameState::Active)
    } else if sch.goal_event == Some(x) {
        Some(GameState::Goal)
    } else {
        None
    }
}

/// The phase events one raw event contributes: one transition when it is a
/// state-name update carrying a recognized phase id, none otherwise.
pub open spec fn phase_event_opt(ev: Event, sch: Schema) -> Seq<GameStateEvent> {
    match ev.event {
        ChangeEvent::U(ua) => if ua.object_id == sch.state_change_object {
            match ua.attribute {
                AttributeData::Int(x) => match phase_of(x, sch) {
                    Some(g) => seq![
                        GameStateEvent { variant: g, info: FrameInfo { time: ev.time, frame: ev.frame } },
                    ],
                    None => Seq::empty(),
                },
                _ => Seq::empty(),
            }
        } else {
            Seq::empty()
        },
        _ => Seq::empty(),
    }
}

/// The phase timeline extracted from a sequence of raw events, in order.
/// Unrecognized state ids are ignored; consecutive equal phases are kept.
pub open spec fn phase_events(evs: Seq<Event>, sch: Schema) -> Seq<GameStateEvent>
    decreases evs.len(),
{
    if evs.len() == 0 {
        Seq::empty()
    } else {
        phase_events(evs.drop_last(), sch) + phase_event_opt(evs.last(), sch)
    }
}

/// Each raw event contributes at most one phase event.
pub proof fn lemma_phase_events_len(evs: Seq<Event>, sch: Schema)
    ensures
        0 <= phase_events(evs, sch).len() <= evs.len(),
    decreases evs.len(),
{
    if evs.len() > 0 {
        lemma_phase_events_len(evs.drop_last(), sch);
    }
}

/// Phase events never decrease in frame.
pub open spec fn game_frame_sorted(s: Seq<GameStateEvent>) -> bool {
    forall|p: int, q: int|
        0 <= p <= q < s.len() ==> (#[trigger] s[p]).info.frame <= (#[trigger] s[q]).info.frame
}

/// Phase events extracted from a frame-sorted event sequence are in frame
/// order, all at frames of source events.
pub proof fn lemma_phase_events_sorted(evs: Seq<Event>, sch: Schema)
    requires
        forall|p: int, q: int|
            0 <= p <= q < evs.len() ==> (#[trigger] evs[p]).frame <= (#[trigger] evs[q]).frame,
    ensures
        game_frame_sorted(phase_events(evs, sch)),
        forall|k: int|
            0 <= k < phase_events(evs, sch).len() ==> evs.len() > 0 && (#[trigger] phase_events(
                evs,
                sch,
            )[k]).info.frame <= evs[evs.len() - 1].frame,
    decreases evs.len(),
{
    if evs.len() > 0 {
        let pre = evs.drop_last();
        assert(forall|p: int| 0 <= p < pre.len() ==> #[trigger] pre[p] == evs[p]);
        lemma_phase_events_sorted(pre, sch);
        let out = phase_events(evs, sch);
        let prev = phase_events(pre, sch);
        let opt = phase_event_opt(evs.last(), sch);
        assert(out == prev + opt);
        assert forall|p: int, q: int|
            0 <= p <= q < out.len() implies (#[trigger] out[p]).info.frame <= (
        #[trigger] out[q]).info.frame by {
            if q >= prev.len() {
                assert(out[q] == opt[q - prev.len()]);
                assert(out[q].info.frame == evs[evs.len() - 1].frame);
                if p < prev.len() {
                    assert(out[p] == prev[p]);
                } else {
                    assert(out[p] == opt[p - prev.len()]);
                }
            } else {
                assert(out[p] == prev[p] && out[q] == prev[q]);
            }
        }
        assert forall|k: int| 0 <= k < out.len() implies (#[trigger] out[k]).info.frame <= evs[evs.len()
            - 1].frame by {
            if k < prev.len() {
                assert(out[k] == prev[k]);
                assert(prev[k].info.frame <= pre[pre.len() - 1].frame);
            } else {
                assert(out[k] == opt[k - prev.len()]);
            }
        }
    }
}

/// The whole phase timeline of a replay.
pub open spec fn state_changes_spec(ltl: LifetimeList, sch: Schema) -> Seq<GameStateEvent> {
    phase_events(
        selected_events(
            ltl.list@,
            discover_from(ltl.list@, sch.state_change_object, 0),
            ltl.list@.len() as int,
        ),
        sch,
    )
}

/// Extracts the ordered match-phase timeline from the dynamically discovered
/// game-event actor's state-name updates.
#[verifier::loop_isolation(false)]
pub fn get_state_changes(ltl: &LifetimeList, sch: &Schema) -> (r: Vec<GameStateEvent>)
    requires
        ltl.wf(),
    ensures
        r@ == state_changes_spec(*ltl, *sch),
        forall|k: int|
            0 <= k < r@.len() ==> ltl.has_stamp(
                (#[trigger] r@[k]).info.frame,
                r@[k].info.time,
            ),
        // under the design's singleton assumption the timeline is in frame
        // order
        target_count(
            ltl.list@,
            discover_from(ltl.list@, sch.state_change_object, 0),
            ltl.list@.len() as int,
        ) <= 1 ==> game_frame_sorted(r@),
        // and its times order like its frames whenever the collection's do
        ltl.time_consistent() ==> (forall|p: int, q: int|
            0 <= p < r@.len() && 0 <= q < r@.len() && (#[trigger] r@[p]).info.frame <= (
            #[trigger] r@[q]).info.frame ==> r@[p].info.time <= r@[q].info.time),
{
    // Discover the object type of the actor whose updates carry the
    // replicated state name.
    let target = discover_singleton(ltl, sch.state_change_object);
    let ghost targetg = target;

    let mut r: Vec<GameStateEvent> = Vec::new();
    let mut n: usize = 0;
    while n < ltl.list.len()
        invariant
            n <= ltl.list@.len(),
            r@ == phase_events(selected_events(ltl.list@, targetg, n as int), *sch),
            forall|k: int|
                0 <= k < r@.len() ==> ltl.has_stamp(
                    (#[trigger] r@[k]).info.frame,
                    r@[k].info.time,
                ),
        decreases ltl.list@.len() - n,
    {
        assert(ltl.list@[n as int].wf());
        let ghost sel = selected_events(ltl.list@, targetg, n as int);
        let selected = match &ltl.list[n].events[0].event {
            ChangeEvent::N(na) => match target {
                Some(t) => na.object_id == t,
                None => false,
            },
            _ => false,
        };
        if selected {
            let mut p: usize = 0;
            let ghost evs = ltl.list@[n as int].events@;
            while p < ltl.list[n].events.len()
                invariant
                    p <= evs.len(),
                    r@ == phase_events(sel + evs.take(p as int), *sch),
                    forall|k: int|
                        0 <= k < r@.len() ==> ltl.has_stamp(
                            (#[trigger] r@[k]).info.frame,
                            r@[k].info.time,
                        ),
                decreases evs.len() - p,
            {
                let ev = ltl.list[n].events[p];
                proof {
                    assert(sel + evs.take(p + 1) =~= (sel + evs.take(p as int)).push(ev));
                    assert((sel + evs.take(p as int)).push(ev).drop_last() =~= sel + evs.take(
                        p as int,
                    ));
                }
                let ghost r_old = r@;
                match &ev.event {
                    ChangeEvent::U(ua) => {
                        if ua.object_id == sch.state_change_object {
                            match ua.attribute {
                                AttributeData::Int(x) => {
                                    let hit_countdown = match sch.countdown_event {
                                        Some(c) => c == x,
                                        None => false,
                                    };
                                    let hit_active = match sch.active_event {
                                        Some(c) => c == x,
                                        None => false,
                                    };
                                    let hit_goal = match sch.goal_event {
                                        Some(c) => c == x,
                                        None => false,
                                    };
                                    if hit_countdown {
                                        r.push(GameStateEvent::from(ev.time, ev.frame, GameState::Countdown));
                                    } else if hit_active {
                                        r.push(GameStateEvent::from(ev.time, ev.frame, GameState::Active));
                                    } else if hit_goal {
                                        r.push(GameStateEvent::from(ev.time, ev.frame, GameState::Goal));
                                    }
                                },
                                _ => {},
                            }
                        }
                    },
                    _ => {},
                }
                proof {
                    assert(r@ =~= r_old + phase_event_opt(ev, *sch));
                    if r@.len() > r_old.len() {
                        assert(ltl.has_stamp(ev.frame, ev.time)) by {
                            assert(ltl.list@[n as int].events@[p as int] == ev);
                        }
                    }
                }
                p += 1;
            }
            proof {
                assert(sel + evs.take(evs.len() as int) =~= selected_events(
                    ltl.list@,
                    targetg,
                    n + 1,
                ));
            }
        } else {
            proof {
                assert(selected_events(ltl.list@, targetg, n + 1) == sel);
            }
        }
        n += 1;
    }
    proof {
        let listv = ltl.list@;
        if target_count(listv, targetg, listv.len() as int) <= 1 {
            lemma_selected_sorted(listv, targetg, listv.len() as int);
            lemma_phase_events_sorted(
                selected_events(listv, targetg, listv.len() as int),
                *sch,
            );
        }
        if ltl.time_consistent() {
            assert forall|p: int, q: int|
                0 <= p < r@.len() && 0 <= q < r@.len() && (#[trigger] r@[p]).info.frame <= (
                #[trigger] r@[q]).info.frame implies r@[p].info.time <= r@[q].info.time by {
                let (si, sp) = choose|si: int, sp: int|
                    0 <= si < listv.len() && 0 <= sp < listv[si].events@.len() && (
                    #[trigger] listv[si].events@[sp]).frame == r@[p].info.frame
                        && listv[si].events@[sp].time == r@[p].info.time;
                let (ti, tp) = choose|ti: int, tp: int|
                    0 <= ti < listv.len() && 0 <= tp < listv[ti].events@.len() && (
                    #[trigger] listv[ti].events@[tp]).frame == r@[q].info.frame
                        && listv[ti].events@[tp].time == r@[q].info.time;
            }
        }
    }
    r
}

} // verus!
