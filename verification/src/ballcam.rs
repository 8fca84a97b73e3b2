//! Per-player camera timelines: the camera-mode toggles of all of a player's
//! camera lifetimes, truncated at the disconnect cutoff, wrapped in synthetic
//! start and terminal markers, and sorted by frame.

use vstd::prelude::*;

use crate::events::{AttributeData, ChangeEvent, Event};
use crate::lifetimes::{Lifetime, LifetimeList};
use crate::phases::FrameInfo;
use crate::schema::Schema;

verus! {

broadcast use
    vstd::multiset::group_multiset_axioms,
    vstd::seq_lib::group_to_multiset_ensures;

/// One camera timeline event.
#[derive(Debug, Clone, Copy, PartialEq, Eq, Structural)]
pub enum BallcamVariant {
    /// The implicit camera-off baseline before the first observed event.
    Start,
    /// A camera-mode toggle: `true` is the secondary (ball) camera.
    Update(bool),
    /// The terminal marker at the last accounted moment.
    Disconnect,
}

#[derive(Debug, Clone, Copy, PartialEq, Eq, Structural)]
pub struct BallcamEvent {
    pub info: FrameInfo,
    pub variant: BallcamVariant,
}

impl BallcamEvent {
    pub fn from(frame: usize, time: i64, variant: BallcamVariant) -> (r: Self)
        ensures
            r == (BallcamEvent { info: FrameInfo { time, frame }, variant }),
    {
        Self { info: FrameInfo::from(time, frame), variant }
    }
}

/// Whether a moment is strictly before the cutoff (or there is none).
pub open spec fn below_cutoff(t: i64, cutoff: Option<i64>) -> bool {
    match cutoff {
        Some(c) => t < c,
        None => true,
    }
}

/// The events of the player's owned lifetimes, in bucket-then-event order.
pub open spec fn owned_events(list: Seq<Lifetime>, idxs: Seq<usize>, n: int) -> Seq<Event>
    decreases n,
{
    if n <= 0 {
        Seq::empty()
    } else {
        owned_events(list, idxs, n - 1) + list[idxs[n - 1] as int].events@
    }
}

/// The timeline events one raw event contributes: a toggle update below the
/// cutoff, nothing otherwise.
pub open spec fn cam_update_opt(ev: Event, ballcam_id: i32, cutoff: Option<i64>) -> Seq<
    BallcamEvent,
> {
    if !below_cutoff(ev.time, cutoff) {
        Seq::empty()
    } else {
        match ev.event {
            ChangeEvent::U(ua) => if ua.object_id == ballcam_id {
                match ua.attribute {
                    AttributeData::Boolean(b) => seq![
                        BallcamEvent {
                            info: FrameInfo { time: ev.time, frame: ev.frame },
                            variant: BallcamVariant::Update(b),
                        },
                    ],
                    _ => Seq::empty(),
                }
            } else {
                Seq::empty()
            },
            _ => Seq::empty(),
        }
    }
}

/// All toggle updates contributed by a sequence of raw events.
pub open spec fn cam_updates(evs: Seq<Event>, ballcam_id: i32, cutoff: Option<i64>) -> Seq<
    BallcamEvent,
>
    decreases evs.len(),
{
    if evs.len() == 0 {
        Seq::empty()
    } else {
        cam_updates(evs.drop_last(), ballcam_id, cutoff) + cam_update_opt(
            evs.last(),
            ballcam_id,
            cutoff,
        )
    }
}

/// The maximum frame and maximum time over the events below the cutoff.
pub open spec fn max_stamp(evs: Seq<Event>, cutoff: Option<i64>) -> Option<(usize, i64)>
    decreases evs.len(),
{
    if evs.len() == 0 {
        None
    } else {
        let prev = max_stamp(evs.drop_last(), cutoff);
        let ev = evs.last();
        if below_cutoff(ev.time, cutoff) {
            match prev {
                None => Some((ev.frame, ev.time)),
                Some((f, t)) => Some(
                    (
                        if ev.frame > f {
                            ev.frame
                        } else {
                            f
                        },
                        if ev.time > t {
                            ev.time
                        } else {
                            t
                        },
                    ),
                ),
            }
        } else {
            prev
        }
    }
}

/// `max_stamp` returns componentwise maxima attained by qualifying events.
pub proof fn lemma_max_stamp(evs: Seq<Event>, cutoff: Option<i64>)
    ensures
        match max_stamp(evs, cutoff) {
            Some(m) => {
                &&& exists|i: int|
                    0 <= i < evs.len() && below_cutoff((#[trigger] evs[i]).time, cutoff)
                        && evs[i].frame == m.0
                &&& exists|j: int|
                    0 <= j < evs.len() && below_cutoff((#[trigger] evs[j]).time, cutoff)
                        && evs[j].time == m.1
                &&& forall|k: int|
                    0 <= k < evs.len() && below_cutoff((#[trigger] evs[k]).time, cutoff)
                        ==> evs[k].frame <= m.0 && evs[k].time <= m.1
            },
            None => forall|k: int|
                0 <= k < evs.len() ==> !below_cutoff((#[trigger] evs[k]).time, cutoff),
        },
    decreases evs.len(),
{
    if evs.len() > 0 {
        lemma_max_stamp(evs.drop_last(), cutoff);
        assert(forall|k: int|
            0 <= k < evs.len() - 1 ==> #[trigger] evs[k] == evs.drop_last()[k]);
        match max_stamp(evs, cutoff) {
            Some(m) => {
                if below_cutoff(evs.last().time, cutoff) {
                    match max_stamp(evs.drop_last(), cutoff) {
                        None => {
                            assert(evs[evs.len() - 1].frame == m.0);
                        },
                        Some(p) => {
                            if m.0 == evs.last().frame {
                                assert(evs[evs.len() - 1].frame == m.0);
                            } else {
                                let i = choose|i: int|
                                    0 <= i < evs.drop_last().len() && below_cutoff(
                                        (#[trigger] evs.drop_last()[i]).time,
                                        cutoff,
                                    ) && evs.drop_last()[i].frame == p.0;
                                assert(evs[i].frame == m.0);
                            }
                            if m.1 == evs.last().time {
                                assert(evs[evs.len() - 1].time == m.1);
                            } else {
                                let j = choose|j: int|
                                    0 <= j < evs.drop_last().len() && below_cutoff(
                                        (#[trigger] evs.drop_last()[j]).time,
                                        cutoff,
                                    ) && evs.drop_last()[j].time == p.1;
                                assert(evs[j].time == m.1);
                            }
                        },
                    }
                } else {
                    let p = max_stamp(evs.drop_last(), cutoff);
                    let i = choose|i: int|
                        0 <= i < evs.drop_last().len() && below_cutoff(
                            (#[trigger] evs.drop_last()[i]).time,
                            cutoff,
                        ) && evs.drop_last()[i].frame == m.0;
                    assert(evs[i].frame == m.0);
                    let j = choose|j: int|
                        0 <= j < evs.drop_last().len() && below_cutoff(
                            (#[trigger] evs.drop_last()[j]).time,
                            cutoff,
                        ) && evs.drop_last()[j].time == m.1;
                    assert(evs[j].time == m.1);
                }
            },
            None => {},
        }
    }
}

/// Frames never decrease along the sequence.
pub open spec fn frame_sorted(s: Seq<BallcamEvent>) -> bool {
    forall|p: int, q: int|
        0 <= p <= q < s.len() ==> (#[trigger] s[p]).info.frame <= (#[trigger] s[q]).info.frame
}

/// Any two elements have times ordered like their frames.
pub open spec fn pair_consistent(s: Seq<BallcamEvent>) -> bool {
    forall|p: int, q: int|
        0 <= p < s.len() && 0 <= q < s.len() && (#[trigger] s[p]).info.frame <= (
        #[trigger] s[q]).info.frame ==> s[p].info.time <= s[q].info.time
}

/// Stable insertion of `e` into a frame-sorted sequence: `e` goes after
/// every element whose frame does not exceed its own.
pub open spec fn insert_by_frame(s: Seq<BallcamEvent>, e: BallcamEvent) -> Seq<BallcamEvent>
    decreases s.len(),
{
    if s.len() == 0 {
        Seq::empty().push(e)
    } else if s.last().info.frame <= e.info.frame {
        s.push(e)
    } else {
        insert_by_frame(s.drop_last(), e).push(s.last())
    }
}

/// Stable insertion sort by frame.
pub open spec fn sort_by_frame(s: Seq<BallcamEvent>) -> Seq<BallcamEvent>
    decreases s.len(),
{
    if s.len() == 0 {
        Seq::empty()
    } else {
        insert_by_frame(sort_by_frame(s.drop_last()), s.last())
    }
}

pub proof fn lemma_insert_by_frame(s: Seq<BallcamEvent>, e: BallcamEvent)
    requires
        frame_sorted(s),
    ensures
        frame_sorted(insert_by_frame(s, e)),
        insert_by_frame(s, e).to_multiset() == s.to_multiset().insert(e),
        insert_by_frame(s, e).len() == s.len() + 1,
    decreases s.len(),
{
    let r = insert_by_frame(s, e);
    if s.len() == 0 {
        assert(r =~= Seq::empty().push(e));
    } else if s.last().info.frame <= e.info.frame {
        assert forall|p: int, q: int|
            0 <= p <= q < r.len() implies (#[trigger] r[p]).info.frame <= (
        #[trigger] r[q]).info.frame by {
            if q == r.len() - 1 && p < q {
                assert(r[p] == s[p]);
                assert(s[p].info.frame <= s[s.len() - 1].info.frame);
            }
        }
    } else {
        assert(frame_sorted(s.drop_last())) by {
            assert(forall|k: int|
                0 <= k < s.len() - 1 ==> #[trigger] s.drop_last()[k] == s[k]);
        }
        lemma_insert_by_frame(s.drop_last(), e);
        let inner = insert_by_frame(s.drop_last(), e);
        assert(r =~= inner.push(s.last()));
        // every element of `inner` is an old element or `e`, all with frames
        // at most the frame of `s.last()`
        assert forall|p: int, q: int|
            0 <= p <= q < r.len() implies (#[trigger] r[p]).info.frame <= (
        #[trigger] r[q]).info.frame by {
            if q == r.len() - 1 && p < q {
                assert(r[p] == inner[p]);
                assert(inner.to_multiset().count(inner[p]) > 0);
                assert(inner.contains(inner[p]));
                if inner[p] == e {
                } else {
                    assert(s.drop_last().to_multiset().count(inner[p]) > 0) by {
                        assert(inner.to_multiset() == s.drop_last().to_multiset().insert(e));
                    }
                    assert(s.drop_last().contains(inner[p]));
                    let w = choose|w: int|
                        0 <= w < s.drop_last().len() && s.drop_last()[w] == inner[p];
                    assert(s[w] == inner[p]);
                    assert(s[w].info.frame <= s[s.len() - 1].info.frame);
                }
            }
        }
        assert(s.drop_last().to_multiset().insert(e).insert(s.last()) =~= s.to_multiset().insert(
            e,
        )) by {
            assert(s.drop_last().push(s.last()) =~= s);
            assert(s.drop_last().push(s.last()).to_multiset() == s.drop_last().to_multiset().insert(
                s.last(),
            ));
        }
    }
}

pub proof fn lemma_sort_by_frame(s: Seq<BallcamEvent>)
    ensures
        frame_sorted(sort_by_frame(s)),
        sort_by_frame(s).to_multiset() == s.to_multiset(),
        sort_by_frame(s).len() == s.len(),
    decreases s.len(),
{
    if s.len() > 0 {
        lemma_sort_by_frame(s.drop_last());
        lemma_insert_by_frame(sort_by_frame(s.drop_last()), s.last());
        assert(s.drop_last().push(s.last()) =~= s);
        assert(s.drop_last().push(s.last()).to_multiset() == s.drop_last().to_multiset().insert(
            s.last(),
        ));
    }
}

/// Sorts a timeline by frame index, stably.
pub fn sort_events_by_frame(v: Vec<BallcamEvent>) -> (r: Vec<BallcamEvent>)
    ensures
        r@ == sort_by_frame(v@),
{
    let mut r: Vec<BallcamEvent> = Vec::new();
    let mut i: usize = 0;
    proof {
        assert(sort_by_frame(v@.take(0)) =~= Seq::<BallcamEvent>::empty());
    }
    while i < v.len()
        invariant
            i <= v@.len(),
            r@ == sort_by_frame(v@.take(i as int)),
        decreases v@.len() - i,
    {
        let e = v[i];
        let ghost r_old = r@;
        proof {
            lemma_sort_by_frame(v@.take(i as int));
        }
        let mut j: usize = r.len();
        while j > 0 && r[j - 1].info.frame > e.info.frame
            invariant
                j <= r@.len(),
                r@ == r_old,
                forall|p: int| j <= p < r@.len() ==> (#[trigger] r@[p]).info.frame > e.info.frame,
            decreases j,
        {
            j -= 1;
        }
        proof {
            assert(frame_sorted(r_old));
            assert forall|p: int| 0 <= p < j implies (#[trigger] r_old[p]).info.frame
                <= e.info.frame by {
                assert(r_old[p].info.frame <= r_old[j - 1].info.frame);
            }
            lemma_insert_at(r_old, e, j as int);
        }
        r.insert(j, e);
        proof {
            assert(r@ =~= r_old.insert(j as int, e));
            assert(v@.take(i + 1).drop_last() =~= v@.take(i as int));
            assert(v@.take(i + 1).last() == v@[i as int]);
            assert(r@ == sort_by_frame(v@.take(i + 1)));
        }
        i += 1;
    }
    proof {
        assert(v@.take(v@.len() as int) =~= v@);
    }
    r
}

/// Each raw event contributes at most one toggle update.
pub proof fn lemma_cam_updates_len(evs: Seq<Event>, ballcam_id: i32, cutoff: Option<i64>)
    ensures
        0 <= cam_updates(evs, ballcam_id, cutoff).len() <= evs.len(),
    decreases evs.len(),
{
    if evs.len() > 0 {
        lemma_cam_updates_len(evs.drop_last(), ballcam_id, cutoff);
    }
}

/// Owned events of an ascending index bucket are a subset of all events.
pub proof fn lemma_owned_len(list: Seq<Lifetime>, idxs: Seq<usize>, n: int)
    requires
        0 <= n <= idxs.len(),
        forall|k: int| 0 <= k < idxs.len() ==> (#[trigger] idxs[k]) < list.len(),
        forall|p: int, q: int| 0 <= p < q < idxs.len() ==> idxs[p] < idxs[q],
    ensures
        0 <= owned_events(list, idxs, n).len(),
        n > 0 ==> owned_events(list, idxs, n).len() <= crate::lifetimes::total_events(
            list,
            idxs[n - 1] + 1,
        ),
    decreases n,
{
    if n > 0 {
        lemma_owned_len(list, idxs, n - 1);
        if n > 1 {
            crate::lifetimes::lemma_total_events_mono(list, idxs[n - 2] + 1, idxs[n - 1] as int);
        } else {
            crate::lifetimes::lemma_total_events_mono(list, 0, idxs[n - 1] as int);
        }
    }
}

/// Owned events only accumulate as the bucket prefix grows.
pub proof fn lemma_owned_mono(list: Seq<Lifetime>, idxs: Seq<usize>, n1: int, n2: int)
    requires
        0 <= n1 <= n2,
    ensures
        owned_events(list, idxs, n1).len() <= owned_events(list, idxs, n2).len(),
    decreases n2,
{
    if n2 > 0 && n1 < n2 {
        lemma_owned_mono(list, idxs, n1, n2 - 1);
    }
}

/// Every owned event is a held event of the collection.
pub proof fn lemma_owned_has_stamp(ltl: LifetimeList, idxs: Seq<usize>, n: int)
    requires
        0 <= n <= idxs.len(),
        forall|k: int| 0 <= k < idxs.len() ==> (#[trigger] idxs[k]) < ltl.list@.len(),
    ensures
        forall|k: int|
            0 <= k < owned_events(ltl.list@, idxs, n).len() ==> ltl.has_stamp(
                (#[trigger] owned_events(ltl.list@, idxs, n)[k]).frame,
                owned_events(ltl.list@, idxs, n)[k].time,
            ),
    decreases n,
{
    if n > 0 {
        lemma_owned_has_stamp(ltl, idxs, n - 1);
        let prev = owned_events(ltl.list@, idxs, n - 1);
        let cur = owned_events(ltl.list@, idxs, n);
        let li = idxs[n - 1] as int;
        assert forall|k: int|
            0 <= k < cur.len() implies ltl.has_stamp(
            (#[trigger] cur[k]).frame,
            cur[k].time,
        ) by {
            if k < prev.len() {
                assert(cur[k] == prev[k]);
            } else {
                assert(cur[k] == ltl.list@[li].events@[k - prev.len()]);
            }
        }
    }
}

/// The synthetic start marker followed by the toggle updates of a raw event
/// sequence; empty when there are no events at all.
pub open spec fn start_plus_updates(evs: Seq<Event>, ballcam_id: i32, cutoff: Option<i64>) -> Seq<
    BallcamEvent,
> {
    if evs.len() == 0 {
        Seq::empty()
    } else {
        seq![
            BallcamEvent {
                info: FrameInfo { time: evs[0].time, frame: evs[0].frame },
                variant: BallcamVariant::Start,
            },
        ] + cam_updates(evs, ballcam_id, cutoff)
    }
}

/// The camera timeline of one player: the toggles of all owned lifetimes
/// below the cutoff, wrapped in a start marker at the first owned event and a
/// terminal marker at the latest accounted moment, sorted by frame.  There is
/// no timeline when the player has no owned events, or none before the
/// cutoff.
pub open spec fn ballcam_list_spec(
    list: Seq<Lifetime>,
    idxs: Seq<usize>,
    ballcam_id: i32,
    cutoff: Option<i64>,
) -> Option<Seq<BallcamEvent>> {
    let evs = owned_events(list, idxs, idxs.len() as int);
    if evs.len() == 0 {
        None
    } else {
        match max_stamp(evs, cutoff) {
            None => None,
            Some(m) => Some(
                sort_by_frame(
                    start_plus_updates(evs, ballcam_id, cutoff) + seq![
                        BallcamEvent {
                            info: FrameInfo { time: m.1, frame: m.0 },
                            variant: BallcamVariant::Disconnect,
                        },
                    ],
                ),
            ),
        }
    }
}

/// Builds the disconnect-truncated camera timeline of one player from the
/// camera lifetimes at `idx_list`.
#[verifier::loop_isolation(false)]
#[verifier::rlimit(100)]
pub fn get_ballcam_list(
    ltl: &LifetimeList,
    idx_list: &Vec<usize>,
    sch: &Schema,
    disconnect_time: Option<i64>,
) -> (r: Option<Vec<BallcamEvent>>)
    requires
        ltl.wf(),
        forall|k: int| 0 <= k < idx_list@.len() ==> (#[trigger] idx_list@[k]) < ltl.list@.len(),
    ensures
        match r {
            Some(v) => {
                &&& Some(v@) == ballcam_list_spec(
                    ltl.list@,
                    idx_list@,
                    sch.ballcam_id,
                    disconnect_time,
                )
                &&& 2 <= v@.len() <= 2 + owned_events(
                    ltl.list@,
                    idx_list@,
                    idx_list@.len() as int,
                ).len()
                &&& frame_sorted(v@)
                &&& forall|bound: i64|
                    ltl.times_bounded(bound) ==> (forall|k: int|
                        0 <= k < v@.len() ==> -bound <= (#[trigger] v@[k]).info.time <= bound)
                &&& ltl.time_consistent() ==> pair_consistent(v@) && (forall|k: int|
                    0 <= k < v@.len() ==> ltl.consistent_stamp(
                        (#[trigger] v@[k]).info.frame,
                        v@[k].info.time,
                    ))
            },
            None => ballcam_list_spec(ltl.list@, idx_list@, sch.ballcam_id, disconnect_time) is None,
        },
{
    let mut raw: Vec<BallcamEvent> = Vec::new();
    let mut max_time: Option<i64> = None;
    let mut max_frame: Option<usize> = None;
    let mut b: usize = 0;
    proof {
        assert(owned_events(ltl.list@, idx_list@, 0) =~= Seq::<Event>::empty());
    }
    while b < idx_list.len()
        invariant
            b <= idx_list@.len(),
            raw@ == start_plus_updates(
                owned_events(ltl.list@, idx_list@, b as int),
                sch.ballcam_id,
                disconnect_time,
            ),
            match max_stamp(owned_events(ltl.list@, idx_list@, b as int), disconnect_time) {
                Some(m) => max_frame == Some(m.0) && max_time == Some(m.1),
                None => max_frame is None && max_time is None,
            },
            forall|k: int|
                0 <= k < raw@.len() ==> ltl.has_stamp(
                    (#[trigger] raw@[k]).info.frame,
                    raw@[k].info.time,
                ),
        decreases idx_list@.len() - b,
    {
        let li: usize = idx_list[b];
        assert(ltl.list@[li as int].wf());
        let ghost owned0 = owned_events(ltl.list@, idx_list@, b as int);
        let ghost evs = ltl.list@[li as int].events@;
        let mut p: usize = 0;
        proof {
            assert(owned0 + evs.take(0) =~= owned0);
        }
        while p < ltl.list[li].events.len()
            invariant
                p <= evs.len(),
                raw@ == start_plus_updates(
                    owned0 + evs.take(p as int),
                    sch.ballcam_id,
                    disconnect_time,
                ),
                match max_stamp(owned0 + evs.take(p as int), disconnect_time) {
                    Some(m) => max_frame == Some(m.0) && max_time == Some(m.1),
                    None => max_frame is None && max_time is None,
                },
                forall|k: int|
                    0 <= k < raw@.len() ==> ltl.has_stamp(
                        (#[trigger] raw@[k]).info.frame,
                        raw@[k].info.time,
                    ),
            decreases evs.len() - p,
        {
            let ev = ltl.list[li].events[p];
            let ghost prefix = owned0 + evs.take(p as int);
            proof {
                assert(owned0 + evs.take(p + 1) =~= prefix.push(ev));
                assert(prefix.push(ev).drop_last() =~= prefix);
                assert(ltl.has_stamp(ev.frame, ev.time)) by {
                    assert(ltl.list@[li as int].events@[p as int] == ev);
                }
            }
            let ghost raw0 = raw@;
            if raw.len() == 0 {
                raw.push(BallcamEvent::from(ev.frame, ev.time, BallcamVariant::Start));
                proof {
                    assert(prefix.len() == 0);
                    assert(prefix.push(ev)[0] == ev);
                }
            }
            let below = match disconnect_time {
                Some(c) => ev.time < c,
                None => true,
            };
            if below {
                max_time = Some(
                    match max_time {
                        Some(t) => if ev.time > t {
                            ev.time
                        } else {
                            t
                        },
                        None => ev.time,
                    },
                );
                max_frame = Some(
                    match max_frame {
                        Some(f) => if ev.frame > f {
                            ev.frame
                        } else {
                            f
                        },
                        None => ev.frame,
                    },
                );
                match &ev.event {
                    ChangeEvent::U(ua) => {
                        if ua.object_id == sch.ballcam_id {
                            match ua.attribute {
                                AttributeData::Boolean(b_state) => {
                                    raw.push(
                                        BallcamEvent::from(
                                            ev.frame,
                                            ev.time,
                                            BallcamVariant::Update(b_state),
                                        ),
                                    );
                                },
                                _ => {},
                            }
                        }
                    },
                    _ => {},
                }
            }
            proof {
                if prefix.len() == 0 {
                    assert(cam_updates(prefix, sch.ballcam_id, disconnect_time) =~= Seq::<
                        BallcamEvent,
                    >::empty());
                    assert(raw@ =~= seq![
                        BallcamEvent {
                            info: FrameInfo { time: ev.time, frame: ev.frame },
                            variant: BallcamVariant::Start,
                        },
                    ] + cam_updates(prefix.push(ev), sch.ballcam_id, disconnect_time));
                } else {
                    assert(prefix.push(ev)[0] == prefix[0]);
                    assert(raw@ =~= seq![
                        BallcamEvent {
                            info: FrameInfo { time: prefix[0].time, frame: prefix[0].frame },
                            variant: BallcamVariant::Start,
                        },
                    ] + cam_updates(prefix.push(ev), sch.ballcam_id, disconnect_time));
                }
            }
            p += 1;
        }
        proof {
            assert(owned0 + evs.take(evs.len() as int) =~= owned_events(
                ltl.list@,
                idx_list@,
                b + 1,
            ));
        }
        b += 1;
    }
    let ghost owned = owned_events(ltl.list@, idx_list@, idx_list@.len() as int);
    if raw.len() == 0 {
        proof {
            assert(owned.len() == 0);
        }
        return None;
    }
    assert(owned.len() > 0);
    let mf = match max_frame {
        Some(f) => f,
        None => {
            return None;
        },
    };
    let mt = match max_time {
        Some(t) => t,
        None => {
            proof {
                assert(max_stamp(owned, disconnect_time) is None);
            }
            return None;
        },
    };
    let ghost m = max_stamp(owned, disconnect_time)->Some_0;
    assert(m.0 == mf && m.1 == mt);
    raw.push(BallcamEvent::from(mf, mt, BallcamVariant::Disconnect));
    let ghost rawg = raw@;
    let ghost disc = BallcamEvent {
        info: FrameInfo { time: mt, frame: mf },
        variant: BallcamVariant::Disconnect,
    };
    proof {
        assert(rawg =~= start_plus_updates(owned, sch.ballcam_id, disconnect_time) + seq![disc]);
        lemma_sort_by_frame(rawg);
    }
    let sorted = sort_events_by_frame(raw);
    proof {
        assert(Some(sorted@) == ballcam_list_spec(
            ltl.list@,
            idx_list@,
            sch.ballcam_id,
            disconnect_time,
        ));
        assert(sorted@.len() == rawg.len());
        assert(rawg.len() >= 2);
        lemma_cam_updates_len(owned, sch.ballcam_id, disconnect_time);
        assert(rawg.len() <= 2 + owned.len());
        lemma_max_stamp(owned, disconnect_time);
        lemma_owned_has_stamp(*ltl, idx_list@, idx_list@.len() as int);
        // the times of the timeline lie within any bound the held events obey
        assert forall|bound: i64| ltl.times_bounded(bound) implies (forall|k: int|
            0 <= k < sorted@.len() ==> -bound <= (#[trigger] sorted@[k]).info.time <= bound) by {
            let wj = choose|wj: int|
                0 <= wj < owned.len() && below_cutoff((#[trigger] owned[wj]).time, disconnect_time)
                    && owned[wj].time == mt;
            assert(ltl.has_stamp(owned[wj].frame, owned[wj].time));
            assert forall|k: int| 0 <= k < rawg.len() implies -bound <= (
            #[trigger] rawg[k]).info.time <= bound by {
                if k < rawg.len() - 1 {
                    let (si, sp) = choose|si: int, sp: int|
                        0 <= si < ltl.list@.len() && 0 <= sp < ltl.list@[si].events@.len() && (
                        #[trigger] ltl.list@[si].events@[sp]).frame == rawg[k].info.frame
                            && ltl.list@[si].events@[sp].time == rawg[k].info.time;
                } else {
                    let (si, sp) = choose|si: int, sp: int|
                        0 <= si < ltl.list@.len() && 0 <= sp < ltl.list@[si].events@.len() && (
                        #[trigger] ltl.list@[si].events@[sp]).frame == owned[wj].frame
                            && ltl.list@[si].events@[sp].time == owned[wj].time;
                }
            }
            assert forall|k: int| 0 <= k < sorted@.len() implies -bound <= (
            #[trigger] sorted@[k]).info.time <= bound by {
                assert(sorted@.to_multiset().count(sorted@[k]) > 0);
                assert(rawg.contains(sorted@[k]));
                let w = choose|w: int| 0 <= w < rawg.len() && rawg[w] == sorted@[k];
            }
        }
        if ltl.time_consistent() {
            // the terminal marker's stamp is consistent with every held event
            let wi = choose|wi: int|
                0 <= wi < owned.len() && below_cutoff(
                    (#[trigger] owned[wi]).time,
                    disconnect_time,
                ) && owned[wi].frame == mf;
            let wj = choose|wj: int|
                0 <= wj < owned.len() && below_cutoff(
                    (#[trigger] owned[wj]).time,
                    disconnect_time,
                ) && owned[wj].time == mt;
            ltl.lemma_has_stamp_consistent(owned[wi].frame, owned[wi].time);
            ltl.lemma_has_stamp_consistent(owned[wj].frame, owned[wj].time);
            assert(ltl.consistent_stamp(mf, mt)) by {
                assert forall|i: int, pp: int|
                    0 <= i < ltl.list@.len() && 0 <= pp < ltl.list@[i].events@.len() implies {
                    let e = #[trigger] ltl.list@[i].events@[pp];
                    &&& (e.frame <= mf ==> e.time <= mt)
                    &&& (mf <= e.frame ==> mt <= e.time)
                } by {
                    let e = ltl.list@[i].events@[pp];
                    if e.frame <= mf {
                        assert(e.time <= owned[wi].time);
                        assert(owned[wi].time <= mt);
                    }
                    if mf <= e.frame {
                        assert(owned[wj].frame <= mf);
                        assert(owned[wj].time <= e.time);
                    }
                }
            }
            // every raw element's stamp is consistent with every held event
            assert forall|k: int| 0 <= k < rawg.len() implies ltl.consistent_stamp(
                (#[trigger] rawg[k]).info.frame,
                rawg[k].info.time,
            ) by {
                if k < rawg.len() - 1 {
                    ltl.lemma_has_stamp_consistent(rawg[k].info.frame, rawg[k].info.time);
                }
            }
            // hence any two raw elements are mutually consistent
            assert(pair_consistent(rawg)) by {
                assert forall|pp: int, q: int|
                    0 <= pp < rawg.len() && 0 <= q < rawg.len() && (#[trigger] rawg[pp]).info.frame
                        <= (#[trigger] rawg[q]).info.frame implies rawg[pp].info.time
                    <= rawg[q].info.time by {
                    if pp < rawg.len() - 1 {
                        let (si, sp) = choose|si: int, sp: int|
                            0 <= si < ltl.list@.len() && 0 <= sp < ltl.list@[si].events@.len() && (
                            #[trigger] ltl.list@[si].events@[sp]).frame == rawg[pp].info.frame
                                && ltl.list@[si].events@[sp].time == rawg[pp].info.time;
                        assert(ltl.consistent_stamp(rawg[q].info.frame, rawg[q].info.time));
                    } else if q < rawg.len() - 1 {
                        let (si, sp) = choose|si: int, sp: int|
                            0 <= si < ltl.list@.len() && 0 <= sp < ltl.list@[si].events@.len() && (
                            #[trigger] ltl.list@[si].events@[sp]).frame == rawg[q].info.frame
                                && ltl.list@[si].events@[sp].time == rawg[q].info.time;
                        assert(ltl.consistent_stamp(rawg[pp].info.frame, rawg[pp].info.time));
                    }
                }
            }
            // both properties survive the sort, element by element
            assert forall|k: int| 0 <= k < sorted@.len() implies ltl.consistent_stamp(
                (#[trigger] sorted@[k]).info.frame,
                sorted@[k].info.time,
            ) by {
                assert(sorted@.to_multiset().count(sorted@[k]) > 0);
                assert(rawg.contains(sorted@[k]));
                let w = choose|w: int| 0 <= w < rawg.len() && rawg[w] == sorted@[k];
            }
            assert(pair_consistent(sorted@)) by {
                assert forall|pp: int, q: int|
                    0 <= pp < sorted@.len() && 0 <= q < sorted@.len() && (
                    #[trigger] sorted@[pp]).info.frame <= (#[trigger] sorted@[q]).info.frame implies
                    sorted@[pp].info.time <= sorted@[q].info.time by {
                    assert(sorted@.to_multiset().count(sorted@[pp]) > 0);
                    assert(sorted@.to_multiset().count(sorted@[q]) > 0);
                    assert(rawg.contains(sorted@[pp]));
                    assert(rawg.contains(sorted@[q]));
                    let w1 = choose|w1: int| 0 <= w1 < rawg.len() && rawg[w1] == sorted@[pp];
                    let w2 = choose|w2: int| 0 <= w2 < rawg.len() && rawg[w2] == sorted@[q];
                }
            }
        }
    }
    Some(sorted)
}

/// In a frame-sorted sequence, stable insertion lands at the partition
/// point.
pub proof fn lemma_insert_at(s: Seq<BallcamEvent>, e: BallcamEvent, j: int)
    requires
        frame_sorted(s),
        0 <= j <= s.len(),
        forall|p: int| 0 <= p < j ==> (#[trigger] s[p]).info.frame <= e.info.frame,
        forall|p: int| j <= p < s.len() ==> (#[trigger] s[p]).info.frame > e.info.frame,
    ensures
        insert_by_frame(s, e) == s.insert(j, e),
    decreases s.len(),
{
    if s.len() == 0 {
        assert(insert_by_frame(s, e) =~= s.insert(j, e));
    } else if s.last().info.frame <= e.info.frame {
        assert(j == s.len());
        assert(s.insert(j, e) =~= s.push(e));
    } else {
        assert(j < s.len());
        assert(frame_sorted(s.drop_last())) by {
            assert(forall|k: int|
                0 <= k < s.len() - 1 ==> #[trigger] s.drop_last()[k] == s[k]);
        }
        lemma_insert_at(s.drop_last(), e, j);
        assert(insert_by_frame(s, e) =~= s.drop_last().insert(j, e).push(s.last()));
        assert(s.drop_last().insert(j, e).push(s.last()) =~= s.insert(j, e));
    }
}

} // verus!
