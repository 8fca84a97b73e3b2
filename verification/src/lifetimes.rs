//! Actor lifetimes: the event history of one occupancy span of a transient
//! actor identifier, and the index that answers "which lifetime occupied
//! identifier X at frame F".

use vstd::prelude::*;
use vstd::multiset::Multiset;

use crate::assoc::{assoc_find, assoc_get, bucket_of, lemma_assoc_find, lemma_assoc_find_at,
    lemma_assoc_find_none, lemma_assoc_push, lemma_assoc_update_value, find_idx_i32, unique_keys};
use crate::events::{ChangeEvent, Event, FrameDelta, frame_event_seq, new_events, del_events,
    upd_events, stream_event_seq, times_monotone};

verus! {

broadcast use
    vstd::multiset::group_multiset_axioms,
    vstd::seq_lib::group_to_multiset_ensures,
    vstd::seq_lib::lemma_multiset_commutative;

/// The ordered event history of one actor-identifier occupancy span.
#[derive(Debug)]
pub struct Lifetime {
    pub events: Vec<Event>,
}

impl Lifetime {
    /// The identifier this lifetime occupied, read off its first event.
    pub open spec fn first_actor(self) -> i32 {
        self.events@[0].event.spec_actor_id()
    }

    /// The frame of the first event: the start of the occupancy span.
    pub open spec fn creation_frame(self) -> int {
        self.events@[0].frame as int
    }

    /// At least one event, frames non-decreasing, all events on one actor, a
    /// creation event only in first position, and a deletion event only in
    /// last position.  A lifetime opened by an update observed before any
    /// creation has no creation event; a force-closed lifetime has no
    /// deletion event.
    pub open spec fn wf(self) -> bool {
        &&& self.events@.len() > 0
        &&& forall|i: int, j: int|
            0 <= i <= j < self.events@.len() ==> (#[trigger] self.events@[i]).frame <= (
            #[trigger] self.events@[j]).frame
        &&& forall|i: int|
            0 <= i < self.events@.len() ==> (#[trigger] self.events@[i]).event.spec_actor_id()
                == self.first_actor()
        &&& forall|i: int|
            0 < i < self.events@.len() ==> !((#[trigger] self.events@[i]).event is N)
        &&& deletion_only_last(self.events@)
    }

    pub fn from(v: Vec<Event>) -> (r: Self)
        ensures
            r == (Lifetime { events: v }),
    {
        Self { events: v }
    }
}

/// The indices below `n` of the lifetimes whose first event is on actor `a`,
/// in ascending order.
pub open spec fn indices_for(list: Seq<Lifetime>, a: i32, n: int) -> Seq<usize>
    decreases n,
{
    if n <= 0 {
        Seq::empty()
    } else if list[n - 1].first_actor() == a {
        indices_for(list, a, n - 1).push((n - 1) as usize)
    } else {
        indices_for(list, a, n - 1)
    }
}

/// `indices_for` lists exactly the matching indices, in ascending order.
pub proof fn lemma_indices_for(list: Seq<Lifetime>, a: i32, n: int)
    requires
        0 <= n <= list.len(),
        list.len() <= usize::MAX,
    ensures
        forall|p: int|
            0 <= p < indices_for(list, a, n).len() ==> (#[trigger] indices_for(list, a, n)[p])
                < n && list[indices_for(list, a, n)[p] as int].first_actor() == a,
        forall|p: int, q: int|
            0 <= p < q < indices_for(list, a, n).len() ==> indices_for(list, a, n)[p] < indices_for(
                list,
                a,
                n,
            )[q],
        forall|j: int|
            0 <= j < n && (#[trigger] list[j]).first_actor() == a ==> indices_for(
                list,
                a,
                n,
            ).contains(j as usize),
    decreases n,
{
    if n > 0 {
        lemma_indices_for(list, a, n - 1);
        let prev = indices_for(list, a, n - 1);
        let cur = indices_for(list, a, n);
        if list[n - 1].first_actor() == a {
            assert(cur =~= prev.push((n - 1) as usize));
            assert(forall|p: int| 0 <= p < prev.len() ==> #[trigger] cur[p] == prev[p]);
            assert(cur[cur.len() - 1] == (n - 1) as usize);
            assert forall|p: int|
                0 <= p < cur.len() implies (#[trigger] cur[p]) < n && list[cur[p] as int].first_actor()
                == a by {
                if p < cur.len() - 1 {
                    assert(cur[p] == prev[p]);
                }
            }
            assert forall|p: int, q: int| 0 <= p < q < cur.len() implies cur[p] < cur[q] by {
                if q < cur.len() - 1 {
                    assert(cur[p] == prev[p] && cur[q] == prev[q]);
                } else {
                    assert(cur[p] == prev[p] && cur[q] == (n - 1) as usize);
                }
            }
            assert forall|j: int|
                0 <= j < n && (#[trigger] list[j]).first_actor() == a implies cur.contains(
                j as usize,
            ) by {
                if j < n - 1 {
                    let p = choose|p: int| 0 <= p < prev.len() && prev[p] == j as usize;
                    assert(cur[p] == j as usize);
                } else {
                    assert(cur[cur.len() - 1] == j as usize);
                }
            }
        } else {
            assert(cur =~= prev);
            assert forall|j: int|
                0 <= j < n && (#[trigger] list[j]).first_actor() == a implies cur.contains(
                j as usize,
            ) by {
                let p = choose|p: int| 0 <= p < prev.len() && prev[p] == j as usize;
                assert(cur[p] == j as usize);
            }
        }
    }
}

/// All reconstructed lifetimes of one frame stream, indexed by the actor
/// identifier each lifetime occupied.
#[derive(Debug)]
pub struct LifetimeList {
    pub list: Vec<Lifetime>,
    pub actor_map: Vec<(i32, Vec<usize>)>,
}

impl LifetimeList {
    /// The lifetime indices recorded for identifier `a`.
    pub open spec fn bucket(self, a: i32) -> Seq<usize> {
        bucket_of(self.actor_map@, a)
    }

    /// The index maps every identifier to exactly its lifetimes.
    pub open spec fn map_wf(self) -> bool {
        forall|a: i32| #[trigger] self.bucket(a) == indices_for(self.list@, a, self.list@.len() as int)
    }

    pub open spec fn lifetimes_wf(self) -> bool {
        forall|i: int| 0 <= i < self.list@.len() ==> (#[trigger] self.list@[i]).wf()
    }

    /// Lifetimes of one identifier appear in creation order.
    pub open spec fn emission_ordered(self) -> bool {
        forall|i: int, j: int|
            0 <= i <= j < self.list@.len() && (#[trigger] self.list@[i]).first_actor() == (
            #[trigger] self.list@[j]).first_actor() ==> self.list@[i].creation_frame()
                <= self.list@[j].creation_frame()
    }

    pub open spec fn wf(self) -> bool {
        self.lifetimes_wf() && self.map_wf() && self.emission_ordered()
    }

    /// Any two events anywhere in the collection have clock times ordered
    /// like their frames.
    pub open spec fn time_consistent(self) -> bool {
        forall|i: int, j: int, p: int, q: int|
            0 <= i < self.list@.len() && 0 <= j < self.list@.len() && 0 <= p
                < self.list@[i].events@.len() && 0 <= q < self.list@[j].events@.len() && (
            #[trigger] self.list@[i].events@[p]).frame <= (
            #[trigger] self.list@[j].events@[q]).frame ==> self.list@[i].events@[p].time
                <= self.list@[j].events@[q].time
    }

    /// Some held event carries exactly this frame and time stamp.
    pub open spec fn has_stamp(self, frame: usize, time: i64) -> bool {
        exists|i: int, p: int|
            0 <= i < self.list@.len() && 0 <= p < self.list@[i].events@.len() && (
            #[trigger] self.list@[i].events@[p]).frame == frame && self.list@[i].events@[p].time
                == time
    }

    /// Every held event's clock time lies within `[-bound, bound]`.
    pub open spec fn times_bounded(self, bound: i64) -> bool {
        forall|i: int, p: int|
            0 <= i < self.list@.len() && 0 <= p < self.list@[i].events@.len() ==> -bound <= (
            #[trigger] self.list@[i].events@[p]).time <= bound
    }

    /// The stamp `(frame, time)` orders consistently with every held event.
    pub open spec fn consistent_stamp(self, frame: usize, time: i64) -> bool {
        forall|i: int, p: int|
            0 <= i < self.list@.len() && 0 <= p < self.list@[i].events@.len() ==> {
                let e = #[trigger] self.list@[i].events@[p];
                &&& (e.frame <= frame ==> e.time <= time)
                &&& (frame <= e.frame ==> time <= e.time)
            }
    }

    /// A stamp taken from a held event is consistent with all held events.
    pub proof fn lemma_has_stamp_consistent(self, frame: usize, time: i64)
        requires
            self.time_consistent(),
            self.has_stamp(frame, time),
        ensures
            self.consistent_stamp(frame, time),
    {
        let (i0, p0) = choose|i0: int, p0: int|
            0 <= i0 < self.list@.len() && 0 <= p0 < self.list@[i0].events@.len() && (
            #[trigger] self.list@[i0].events@[p0]).frame == frame
                && self.list@[i0].events@[p0].time == time;
        assert forall|i: int, p: int|
            0 <= i < self.list@.len() && 0 <= p < self.list@[i].events@.len() implies {
            let e = #[trigger] self.list@[i].events@[p];
            &&& (e.frame <= frame ==> e.time <= time)
            &&& (frame <= e.frame ==> time <= e.time)
        } by {
            let e = self.list@[i].events@[p];
            let w = self.list@[i0].events@[p0];
            assert(w.frame == frame && w.time == time);
        }
    }

    /// Every held event carries a real frame index of `frames` and that
    /// frame's clock time.
    pub open spec fn events_in(self, frames: Seq<FrameDelta>) -> bool {
        forall|i: int, p: int|
            0 <= i < self.list@.len() && 0 <= p < self.list@[i].events@.len() ==> event_in_frames(
                #[trigger] self.list@[i].events@[p],
                frames,
            )
    }

    pub fn from(list: Vec<Lifetime>) -> (r: Self)
        requires
            forall|i: int| 0 <= i < list@.len() ==> (#[trigger] list@[i]).events@.len() > 0,
        ensures
            r.list == list,
            r.map_wf(),
    {
        let actor_map = bucket_index(&list);
        Self { actor_map, list }
    }

    /// The index of the lifetime `lookup_actor` returns, if any.
    pub open spec fn lookup_spec(self, actor_id: i32, frame: int) -> Option<int> {
        let b = indices_for(self.list@, actor_id, self.list@.len() as int);
        let c = count_le(self.list@, b, frame);
        if c > 0 {
            Some(b[c - 1] as int)
        } else {
            None
        }
    }

    /// The lifetime that occupied `actor_id` at `frame_id`: the one with the
    /// greatest creation frame not exceeding `frame_id`.  Fails when the
    /// identifier has no lifetime created at or before `frame_id`.
    pub fn lookup_actor(&self, actor_id: i32, frame_id: usize) -> (r: Result<&Lifetime, ()>)
        requires
            self.wf(),
        ensures
            ({
                let b = indices_for(self.list@, actor_id, self.list@.len() as int);
                let c = count_le(self.list@, b, frame_id as int);
                match r {
                    Ok(lt) => {
                        &&& c > 0
                        &&& self.lookup_spec(actor_id, frame_id as int) == Some(b[c - 1] as int)
                        &&& *lt == self.list@[b[c - 1] as int]
                        &&& lt.first_actor() == actor_id
                        &&& lt.creation_frame() <= frame_id
                        &&& forall|j: int|
                            0 <= j < self.list@.len() && (#[trigger] self.list@[j]).first_actor()
                                == actor_id && self.list@[j].creation_frame() <= frame_id
                                ==> self.list@[j].creation_frame() <= lt.creation_frame()
                    },
                    Err(_) => {
                        &&& c == 0
                        &&& self.lookup_spec(actor_id, frame_id as int) == None::<int>
                        &&& forall|j: int|
                            0 <= j < self.list@.len() && (#[trigger] self.list@[j]).first_actor()
                                == actor_id ==> self.list@[j].creation_frame() > frame_id
                    },
                }
            }),
    {
        let ghost listv = self.list@;
        let ghost bg = indices_for(listv, actor_id, listv.len() as int);
        proof {
            assert(self.list.len() == listv.len());
            lemma_indices_for(listv, actor_id, listv.len() as int);
        }
        let found = find_idx_i32(&self.actor_map, actor_id);
        let empty_bucket: Vec<usize> = Vec::new();
        let b: &Vec<usize> = match found {
            Some(e) => {
                proof {
                    crate::assoc::lemma_assoc_find(self.actor_map@, actor_id);
                }
                assert(self.bucket(actor_id) == bg);
                &self.actor_map[e].1
            },
            None => {
                assert(self.bucket(actor_id) == bg);
                assert(bg =~= empty_bucket@);
                &empty_bucket
            },
        };
        assert(b@ == bg);
        // Binary search for the partition point: the number of bucket entries
        // whose creation frame is at or before `frame_id`.
        let mut lo: usize = 0;
        let mut hi: usize = b.len();
        while lo < hi
            invariant
                self.wf(),
                b@ == bg,
                bg == indices_for(listv, actor_id, listv.len() as int),
                listv == self.list@,
                lo <= hi <= b@.len(),
                forall|p: int|
                    0 <= p < lo ==> self.list@[#[trigger] b@[p] as int].creation_frame()
                        <= frame_id,
                forall|p: int|
                    hi <= p < b@.len() ==> self.list@[#[trigger] b@[p] as int].creation_frame()
                        > frame_id,
                forall|p: int|
                    0 <= p < b@.len() ==> (#[trigger] b@[p]) < self.list@.len()
                        && self.list@[b@[p] as int].first_actor() == actor_id,
                forall|p: int, q: int| 0 <= p < q < b@.len() ==> b@[p] < b@[q],
            decreases hi - lo,
        {
            let mid = lo + (hi - lo) / 2;
            let li: usize = b[mid];
            assert(b@[mid as int] < self.list@.len());
            assert(self.list@[li as int].wf());
            if self.list[li].events[0].frame <= frame_id {
                assert forall|p: int|
                    0 <= p < mid + 1 implies self.list@[#[trigger] b@[p] as int].creation_frame()
                    <= frame_id by {
                    if p < mid {
                        assert(b@[p] < b@[mid as int]);
                    }
                }
                lo = mid + 1;
            } else {
                assert forall|p: int|
                    mid <= p < b@.len() implies self.list@[
                    #[trigger] b@[p] as int].creation_frame() > frame_id by {
                    if p > mid {
                        assert(b@[mid as int] < b@[p]);
                    }
                }
                hi = mid;
            }
        }
        proof {
            lemma_count_le_split(listv, bg, frame_id as int, lo as int);
        }
        if lo == 0 {
            assert forall|j: int|
                0 <= j < self.list@.len() && (#[trigger] self.list@[j]).first_actor() == actor_id
                implies self.list@[j].creation_frame() > frame_id by {
                assert(bg.contains(j as usize));
                let p = choose|p: int| 0 <= p < bg.len() && bg[p] == j as usize;
            }
            Err(())
        } else {
            let idx: usize = b[lo - 1];
            assert(b@[lo - 1] < self.list@.len());
            let lt = &self.list[idx];
            assert forall|j: int|
                0 <= j < self.list@.len() && (#[trigger] self.list@[j]).first_actor() == actor_id
                    && self.list@[j].creation_frame() <= frame_id implies self.list@[
            j].creation_frame() <= lt.creation_frame() by {
                assert(bg.contains(j as usize));
                let p = choose|p: int| 0 <= p < bg.len() && bg[p] == j as usize;
                if p >= lo {
                    assert(self.list@[bg[p] as int].creation_frame() > frame_id);
                } else if p < lo - 1 {
                    assert(bg[p] < bg[lo - 1]);
                }
            }
            Ok(lt)
        }
    }
}

/// How many entries of bucket `b` point at lifetimes created at or before
/// `frame`.
pub open spec fn count_le(list: Seq<Lifetime>, b: Seq<usize>, frame: int) -> int
    decreases b.len(),
{
    if b.len() == 0 {
        0
    } else {
        count_le(list, b.drop_last(), frame) + if list[b.last() as int].creation_frame() <= frame {
            1int
        } else {
            0int
        }
    }
}

/// In a bucket sorted by creation frame, `count_le` is the partition point.
pub proof fn lemma_count_le_split(list: Seq<Lifetime>, b: Seq<usize>, frame: int, c: int)
    requires
        0 <= c <= b.len(),
        forall|p: int|
            0 <= p < c ==> list[(#[trigger] b[p]) as int].creation_frame() <= frame,
        forall|p: int| c <= p < b.len() ==> list[(#[trigger] b[p]) as int].creation_frame() > frame,
    ensures
        count_le(list, b, frame) == c,
    decreases b.len(),
{
    if b.len() > 0 {
        assert(forall|p: int|
            0 <= p < b.drop_last().len() ==> #[trigger] b.drop_last()[p] == b[p]);
        if c == b.len() {
            lemma_count_le_split(list, b.drop_last(), frame, c - 1);
        } else {
            lemma_count_le_split(list, b.drop_last(), frame, c);
        }
    }
}

/// The number of events held by the first `n` lifetimes.
pub open spec fn total_events(list: Seq<Lifetime>, n: int) -> int
    decreases n,
{
    if n <= 0 {
        0
    } else {
        total_events(list, n - 1) + list[n - 1].events@.len()
    }
}

pub proof fn lemma_total_events_mono(list: Seq<Lifetime>, m1: int, m2: int)
    requires
        0 <= m1 <= m2,
    ensures
        0 <= total_events(list, m1) <= total_events(list, m2),
    decreases m2,
{
    if m2 > 0 {
        if m1 == m2 {
            lemma_total_events_mono(list, m1 - 1, m2 - 1);
        } else {
            lemma_total_events_mono(list, m1, m2 - 1);
        }
    }
}

/// `total_events` reads only the first `n` lifetimes.
pub proof fn lemma_total_events_prefix(list: Seq<Lifetime>, pre: Seq<Lifetime>, n: int)
    requires
        0 <= n <= pre.len() <= list.len(),
        forall|i: int| 0 <= i < pre.len() ==> #[trigger] pre[i] == list[i],
    ensures
        total_events(pre, n) == total_events(list, n),
    decreases n,
{
    if n > 0 {
        lemma_total_events_prefix(list, pre, n - 1);
    }
}

/// The event count of a lifetime collection is the size of its event
/// multiset.
pub proof fn lemma_total_events_is_ms_len(list: Seq<Lifetime>)
    ensures
        total_events(list, list.len() as int) == lifetimes_events_ms(list).len(),
    decreases list.len(),
{
    if list.len() > 0 {
        lemma_total_events_is_ms_len(list.drop_last());
        lemma_total_events_prefix(list, list.drop_last(), list.len() - 1);
        assert(list.last().events@.to_multiset().len() == list.last().events@.len());
    }
}

/// The multiset of all events held in a sequence of lifetimes.
pub open spec fn lifetimes_events_ms(s: Seq<Lifetime>) -> Multiset<Event>
    decreases s.len(),
{
    if s.len() == 0 {
        Multiset::empty()
    } else {
        lifetimes_events_ms(s.drop_last()).add(s.last().events@.to_multiset())
    }
}

pub proof fn lemma_lifetimes_ms_push(s: Seq<Lifetime>, lt: Lifetime)
    ensures
        lifetimes_events_ms(s.push(lt)) == lifetimes_events_ms(s).add(lt.events@.to_multiset()),
{
    assert(s.push(lt).drop_last() =~= s);
    assert(s.push(lt).last() == lt);
}

/// The multiset of all events held in the still-open occupancy entries.
pub open spec fn entries_events_ms(s: Seq<(i32, Vec<Event>)>) -> Multiset<Event>
    decreases s.len(),
{
    if s.len() == 0 {
        Multiset::empty()
    } else {
        entries_events_ms(s.drop_last()).add(s.last().1@.to_multiset())
    }
}

pub proof fn lemma_entries_ms_push(s: Seq<(i32, Vec<Event>)>, p: (i32, Vec<Event>))
    ensures
        entries_events_ms(s.push(p)) == entries_events_ms(s).add(p.1@.to_multiset()),
{
    assert(s.push(p).drop_last() =~= s);
    assert(s.push(p).last() == p);
}

pub proof fn lemma_entries_ms_remove(s: Seq<(i32, Vec<Event>)>, i: int)
    requires
        0 <= i < s.len(),
    ensures
        entries_events_ms(s) == entries_events_ms(s.remove(i)).add(s[i].1@.to_multiset()),
    decreases s.len(),
{
    if i == s.len() - 1 {
        assert(s.remove(i) =~= s.drop_last());
    } else {
        lemma_entries_ms_remove(s.drop_last(), i);
        assert(s.remove(i).drop_last() =~= s.drop_last().remove(i));
        assert(s.remove(i).last() == s.last());
        assert(s.drop_last()[i] == s[i]);
        assert(entries_events_ms(s) =~= entries_events_ms(s.remove(i)).add(
            s[i].1@.to_multiset(),
        ));
    }
}

pub proof fn lemma_singleton_ms<A>(x: A)
    ensures
        Seq::<A>::empty().push(x).to_multiset() =~= Multiset::<A>::empty().insert(x),
{
    vstd::seq_lib::to_multiset_build(Seq::<A>::empty(), x);
    assert(Seq::<A>::empty().to_multiset().len() == 0);
    vstd::multiset::lemma_multiset_empty_len(Seq::<A>::empty().to_multiset());
}

/// An event drawn from the stream: stamped with a real frame index and that
/// frame's clock time.
pub open spec fn event_in_frames(ev: Event, frames: Seq<FrameDelta>) -> bool {
    ev.frame < frames.len() && ev.time == frames[ev.frame as int].time
}

/// An event history on actor `a`: nonempty, all events on `a`, frame-sorted,
/// bounded by `bound`, and drawn from the stream.
pub open spec fn events_ok(evs: Seq<Event>, a: i32, frames: Seq<FrameDelta>, bound: int) -> bool {
    &&& evs.len() > 0
    &&& forall|p: int| 0 <= p < evs.len() ==> (#[trigger] evs[p]).event.spec_actor_id() == a
    &&& forall|p: int| 0 <= p < evs.len() ==> (#[trigger] evs[p]).frame <= bound
    &&& forall|p: int| 0 <= p < evs.len() ==> event_in_frames(#[trigger] evs[p], frames)
    &&& forall|p: int, q: int|
        0 <= p <= q < evs.len() ==> (#[trigger] evs[p]).frame <= (#[trigger] evs[q]).frame
    &&& forall|p: int| 0 < p < evs.len() ==> !((#[trigger] evs[p]).event is N)
}

/// No deletion event anywhere: the history of a still-open occupancy.
pub open spec fn no_deletions(evs: Seq<Event>) -> bool {
    forall|p: int| 0 <= p < evs.len() ==> !((#[trigger] evs[p]).event is D)
}

/// A deletion event occurs at most in final position.
pub open spec fn deletion_only_last(evs: Seq<Event>) -> bool {
    forall|p: int| 0 <= p < evs.len() - 1 ==> !((#[trigger] evs[p]).event is D)
}

/// Invariant of the still-open occupancy entries.
pub open spec fn open_inv(open: Seq<(i32, Vec<Event>)>, frames: Seq<FrameDelta>, bound: int) -> bool {
    &&& unique_keys(open)
    &&& forall|e: int|
        0 <= e < open.len() ==> events_ok((#[trigger] open[e]).1@, open[e].0, frames, bound)
    &&& forall|e: int| 0 <= e < open.len() ==> no_deletions((#[trigger] open[e]).1@)
}

/// Invariant of the already-emitted lifetimes.
pub open spec fn ret_inv(ret: Seq<Lifetime>, frames: Seq<FrameDelta>, bound: int) -> bool {
    &&& forall|i: int|
        0 <= i < ret.len() ==> events_ok(
            (#[trigger] ret[i]).events@,
            ret[i].first_actor(),
            frames,
            bound,
        )
    &&& forall|i: int| 0 <= i < ret.len() ==> deletion_only_last((#[trigger] ret[i]).events@)
    &&& forall|i: int, j: int|
        0 <= i <= j < ret.len() && (#[trigger] ret[i]).first_actor() == (
        #[trigger] ret[j]).first_actor() ==> ret[i].creation_frame() <= ret[j].creation_frame()
}

/// Every emitted lifetime of an identifier was created no later than the
/// identifier's still-open entry.
pub open spec fn cross_inv(ret: Seq<Lifetime>, open: Seq<(i32, Vec<Event>)>) -> bool {
    forall|i: int, e: int|
        0 <= i < ret.len() && 0 <= e < open.len() && (#[trigger] ret[i]).first_actor() == (
        #[trigger] open[e]).0 ==> ret[i].creation_frame() <= open[e].1@[0].frame
}

/// The whole state invariant of the reconstruction: well-formed open entries
/// and emitted lifetimes, emitted-before-open ordering per identifier, and
/// the partition property — together the emitted and open events are exactly
/// the processed prefix of the stream.
pub open spec fn rec_inv(
    ret: Seq<Lifetime>,
    open: Seq<(i32, Vec<Event>)>,
    frames: Seq<FrameDelta>,
    bound: int,
    processed: Seq<Event>,
) -> bool {
    &&& open_inv(open, frames, bound)
    &&& ret_inv(ret, frames, bound)
    &&& cross_inv(ret, open)
    &&& lifetimes_events_ms(ret).add(entries_events_ms(open)) == processed.to_multiset()
}

pub proof fn lemma_events_ok_mono(
    evs: Seq<Event>,
    a: i32,
    frames: Seq<FrameDelta>,
    b1: int,
    b2: int,
)
    requires
        events_ok(evs, a, frames, b1),
        b1 <= b2,
    ensures
        events_ok(evs, a, frames, b2),
{
}

/// Raising the frame bound preserves the state invariant.
pub proof fn lemma_rec_inv_mono(
    ret: Seq<Lifetime>,
    open: Seq<(i32, Vec<Event>)>,
    frames: Seq<FrameDelta>,
    b1: int,
    b2: int,
    processed: Seq<Event>,
)
    requires
        rec_inv(ret, open, frames, b1, processed),
        b1 <= b2,
    ensures
        rec_inv(ret, open, frames, b2, processed),
{
    assert forall|e: int| 0 <= e < open.len() implies events_ok(
        (#[trigger] open[e]).1@,
        open[e].0,
        frames,
        b2,
    ) by {
        lemma_events_ok_mono(open[e].1@, open[e].0, frames, b1, b2);
    }
    assert forall|i: int| 0 <= i < ret.len() implies events_ok(
        (#[trigger] ret[i]).events@,
        ret[i].first_actor(),
        frames,
        b2,
    ) by {
        lemma_events_ok_mono(ret[i].events@, ret[i].first_actor(), frames, b1, b2);
    }
}

/// Step: append `ev` to the open entry at `i` and move it to the back.
pub proof fn lemma_step_append(
    ret: Seq<Lifetime>,
    open: Seq<(i32, Vec<Event>)>,
    frames: Seq<FrameDelta>,
    bound: int,
    processed: Seq<Event>,
    i: int,
    ev: Event,
    newentry: (i32, Vec<Event>),
)
    requires
        rec_inv(ret, open, frames, bound, processed),
        0 <= i < open.len(),
        open[i].0 == ev.event.spec_actor_id(),
        ev.event is U,
        newentry.0 == open[i].0,
        newentry.1@ == open[i].1@.push(ev),
        ev.frame == bound,
        event_in_frames(ev, frames),
    ensures
        rec_inv(ret, open.remove(i).push(newentry), frames, bound, processed.push(ev)),
{
    let aid = ev.event.spec_actor_id();
    let open2 = open.remove(i).push(newentry);
    open.remove_ensures(i);
    lemma_entries_ms_remove(open, i);
    lemma_entries_ms_push(open.remove(i), newentry);
    assert(lifetimes_events_ms(ret).add(entries_events_ms(open2)) =~= processed.to_multiset().insert(
        ev,
    ));
    assert forall|p: int, q: int| 0 <= p < q < open2.len() implies (#[trigger] open2[p]).0 != (
    #[trigger] open2[q]).0 by {
        let p0: int = if p < i { p } else { p + 1 };
        if q == open2.len() - 1 {
            assert(open2[p] == open[p0]);
            assert(open[p0].0 != open[i].0);
        } else {
            let q0: int = if q < i { q } else { q + 1 };
            assert(open2[p] == open[p0] && open2[q] == open[q0]);
        }
    }
    assert forall|e: int| 0 <= e < open2.len() implies events_ok(
        (#[trigger] open2[e]).1@,
        open2[e].0,
        frames,
        bound,
    ) by {
        if e == open2.len() - 1 {
            assert(events_ok(open[i].1@, open[i].0, frames, bound));
            assert(forall|p: int|
                0 <= p < open[i].1@.len() ==> #[trigger] newentry.1@[p] == open[i].1@[p]);
            assert(newentry.1@[newentry.1@.len() - 1] == ev);
        } else {
            let e0: int = if e < i { e } else { e + 1 };
            assert(open2[e] == open[e0]);
        }
    }
    assert forall|j: int, e: int|
        0 <= j < ret.len() && 0 <= e < open2.len() && (#[trigger] ret[j]).first_actor() == (
        #[trigger] open2[e]).0 implies ret[j].creation_frame() <= open2[e].1@[0].frame by {
        if e == open2.len() - 1 {
            assert(newentry.1@[0] == open[i].1@[0]);
            assert(ret[j].creation_frame() <= open[i].1@[0].frame);
        } else {
            let e0: int = if e < i { e } else { e + 1 };
            assert(open2[e] == open[e0]);
        }
    }
}

/// Step: emit the open entry at `i` as a finished lifetime and open a fresh
/// entry holding only `ev` for the same identifier.
pub proof fn lemma_step_emit_replace(
    ret: Seq<Lifetime>,
    open: Seq<(i32, Vec<Event>)>,
    frames: Seq<FrameDelta>,
    bound: int,
    processed: Seq<Event>,
    i: int,
    ev: Event,
    lt: Lifetime,
    newentry: (i32, Vec<Event>),
)
    requires
        rec_inv(ret, open, frames, bound, processed),
        0 <= i < open.len(),
        open[i].0 == ev.event.spec_actor_id(),
        ev.event is N,
        lt.events == open[i].1,
        newentry.0 == open[i].0,
        newentry.1@ == Seq::<Event>::empty().push(ev),
        ev.frame == bound,
        event_in_frames(ev, frames),
    ensures
        rec_inv(
            ret.push(lt),
            open.remove(i).push(newentry),
            frames,
            bound,
            processed.push(ev),
        ),
{
    let aid = ev.event.spec_actor_id();
    let ret2 = ret.push(lt);
    let open2 = open.remove(i).push(newentry);
    open.remove_ensures(i);
    lemma_entries_ms_remove(open, i);
    lemma_entries_ms_push(open.remove(i), newentry);
    lemma_lifetimes_ms_push(ret, lt);
    lemma_singleton_ms(ev);
    assert(lifetimes_events_ms(ret2).add(entries_events_ms(open2))
        =~= processed.to_multiset().insert(ev));
    assert(events_ok(open[i].1@, open[i].0, frames, bound));
    assert(lt.first_actor() == aid);
    assert(lt.creation_frame() == open[i].1@[0].frame);
    // open entries
    assert forall|p: int, q: int| 0 <= p < q < open2.len() implies (#[trigger] open2[p]).0 != (
    #[trigger] open2[q]).0 by {
        let p0: int = if p < i { p } else { p + 1 };
        if q == open2.len() - 1 {
            assert(open2[p] == open[p0]);
            assert(open[p0].0 != open[i].0);
        } else {
            let q0: int = if q < i { q } else { q + 1 };
            assert(open2[p] == open[p0] && open2[q] == open[q0]);
        }
    }
    assert(newentry.1@[0] == ev);
    assert forall|e: int| 0 <= e < open2.len() implies events_ok(
        (#[trigger] open2[e]).1@,
        open2[e].0,
        frames,
        bound,
    ) by {
        if e < open2.len() - 1 {
            let e0: int = if e < i { e } else { e + 1 };
            assert(open2[e] == open[e0]);
        }
    }
    // emitted lifetimes
    assert forall|j: int, j2: int|
        0 <= j <= j2 < ret2.len() && (#[trigger] ret2[j]).first_actor() == (
        #[trigger] ret2[j2]).first_actor() implies ret2[j].creation_frame()
        <= ret2[j2].creation_frame() by {
        if j2 == ret2.len() - 1 && j < j2 {
            assert(ret2[j] == ret[j]);
            assert(ret[j].creation_frame() <= open[i].1@[0].frame);
        }
    }
    // cross ordering
    assert forall|j: int, e: int|
        0 <= j < ret2.len() && 0 <= e < open2.len() && (#[trigger] ret2[j]).first_actor() == (
        #[trigger] open2[e]).0 implies ret2[j].creation_frame() <= open2[e].1@[0].frame by {
        let jl = if j == ret2.len() - 1 {
            lt
        } else {
            ret[j]
        };
        assert(ret2[j] == jl);
        assert(jl.creation_frame() <= bound);
        if e < open2.len() - 1 {
            let e0: int = if e < i { e } else { e + 1 };
            assert(open2[e] == open[e0]);
            if j == ret2.len() - 1 {
                assert(open[e0].0 != open[i].0);
            }
        } else {
            assert(open2[e].1@[0].frame == bound);
        }
    }
}

/// Step: open a fresh entry holding only `ev` for an identifier with no open
/// entry.
pub proof fn lemma_step_new_entry(
    ret: Seq<Lifetime>,
    open: Seq<(i32, Vec<Event>)>,
    frames: Seq<FrameDelta>,
    bound: int,
    processed: Seq<Event>,
    ev: Event,
    newentry: (i32, Vec<Event>),
)
    requires
        rec_inv(ret, open, frames, bound, processed),
        assoc_find(open, newentry.0) == None::<int>,
        newentry.0 == ev.event.spec_actor_id(),
        !(ev.event is D),
        newentry.1@ == Seq::<Event>::empty().push(ev),
        ev.frame == bound,
        event_in_frames(ev, frames),
    ensures
        rec_inv(ret, open.push(newentry), frames, bound, processed.push(ev)),
{
    let open2 = open.push(newentry);
    lemma_assoc_find(open, newentry.0);
    lemma_entries_ms_push(open, newentry);
    lemma_singleton_ms(ev);
    assert(lifetimes_events_ms(ret).add(entries_events_ms(open2)) =~= processed.to_multiset().insert(
        ev,
    ));
    assert(newentry.1@[0] == ev);
    assert forall|p: int, q: int| 0 <= p < q < open2.len() implies (#[trigger] open2[p]).0 != (
    #[trigger] open2[q]).0 by {
        if q == open2.len() - 1 {
            assert(open2[p] == open[p]);
        } else {
            assert(open2[p] == open[p] && open2[q] == open[q]);
        }
    }
    assert forall|e: int| 0 <= e < open2.len() implies events_ok(
        (#[trigger] open2[e]).1@,
        open2[e].0,
        frames,
        bound,
    ) by {
        if e < open2.len() - 1 {
            assert(open2[e] == open[e]);
        }
    }
    assert forall|j: int, e: int|
        0 <= j < ret.len() && 0 <= e < open2.len() && (#[trigger] ret[j]).first_actor() == (
        #[trigger] open2[e]).0 implies ret[j].creation_frame() <= open2[e].1@[0].frame by {
        if e < open2.len() - 1 {
            assert(open2[e] == open[e]);
        } else {
            assert(ret[j].creation_frame() <= bound);
        }
    }
}

/// Step: append the deletion event `ev` to the open entry at `i` and emit it
/// as a finished lifetime.
pub proof fn lemma_step_emit_delete(
    ret: Seq<Lifetime>,
    open: Seq<(i32, Vec<Event>)>,
    frames: Seq<FrameDelta>,
    bound: int,
    processed: Seq<Event>,
    i: int,
    ev: Event,
    lt: Lifetime,
)
    requires
        rec_inv(ret, open, frames, bound, processed),
        0 <= i < open.len(),
        open[i].0 == ev.event.spec_actor_id(),
        ev.event is D,
        lt.events@ == open[i].1@.push(ev),
        ev.frame == bound,
        event_in_frames(ev, frames),
    ensures
        rec_inv(ret.push(lt), open.remove(i), frames, bound, processed.push(ev)),
{
    let aid = ev.event.spec_actor_id();
    let ret2 = ret.push(lt);
    let open2 = open.remove(i);
    open.remove_ensures(i);
    lemma_entries_ms_remove(open, i);
    lemma_lifetimes_ms_push(ret, lt);
    assert(lifetimes_events_ms(ret2).add(entries_events_ms(open2))
        =~= processed.to_multiset().insert(ev));
    assert(events_ok(open[i].1@, open[i].0, frames, bound));
    assert(lt.events@[0] == open[i].1@[0]);
    assert(lt.first_actor() == aid);
    assert(lt.creation_frame() == open[i].1@[0].frame);
    assert(events_ok(lt.events@, aid, frames, bound)) by {
        assert(forall|p: int|
            0 <= p < open[i].1@.len() ==> #[trigger] lt.events@[p] == open[i].1@[p]);
        assert(lt.events@[lt.events@.len() - 1] == ev);
    }
    assert forall|j: int, j2: int|
        0 <= j <= j2 < ret2.len() && (#[trigger] ret2[j]).first_actor() == (
        #[trigger] ret2[j2]).first_actor() implies ret2[j].creation_frame()
        <= ret2[j2].creation_frame() by {
        if j2 == ret2.len() - 1 && j < j2 {
            assert(ret2[j] == ret[j]);
            assert(ret[j].creation_frame() <= open[i].1@[0].frame);
        }
    }
    assert forall|j: int, e: int|
        0 <= j < ret2.len() && 0 <= e < open2.len() && (#[trigger] ret2[j]).first_actor() == (
        #[trigger] open2[e]).0 implies ret2[j].creation_frame() <= open2[e].1@[0].frame by {
        let e0: int = if e < i { e } else { e + 1 };
        assert(open2[e] == open[e0]);
        if j == ret2.len() - 1 {
            assert(open[e0].0 != open[i].0);
        }
    }
}

/// Step: emit a single-event lifetime for a deletion with no open entry.
pub proof fn lemma_step_emit_singleton(
    ret: Seq<Lifetime>,
    open: Seq<(i32, Vec<Event>)>,
    frames: Seq<FrameDelta>,
    bound: int,
    processed: Seq<Event>,
    ev: Event,
    lt: Lifetime,
)
    requires
        rec_inv(ret, open, frames, bound, processed),
        assoc_find(open, ev.event.spec_actor_id()) == None::<int>,
        lt.events@ == Seq::<Event>::empty().push(ev),
        ev.frame == bound,
        event_in_frames(ev, frames),
    ensures
        rec_inv(ret.push(lt), open, frames, bound, processed.push(ev)),
{
    let aid = ev.event.spec_actor_id();
    let ret2 = ret.push(lt);
    lemma_assoc_find(open, aid);
    lemma_lifetimes_ms_push(ret, lt);
    lemma_singleton_ms(ev);
    assert(lifetimes_events_ms(ret2).add(entries_events_ms(open)) =~= processed.to_multiset().insert(
        ev,
    ));
    assert(lt.events@[0] == ev);
    assert(lt.first_actor() == aid);
    assert(lt.creation_frame() == bound);
    assert forall|j: int, j2: int|
        0 <= j <= j2 < ret2.len() && (#[trigger] ret2[j]).first_actor() == (
        #[trigger] ret2[j2]).first_actor() implies ret2[j].creation_frame()
        <= ret2[j2].creation_frame() by {
        if j2 == ret2.len() - 1 && j < j2 {
            assert(ret2[j] == ret[j]);
            assert(ret[j].creation_frame() <= bound);
        }
    }
    assert forall|j: int, e: int|
        0 <= j < ret2.len() && 0 <= e < open.len() && (#[trigger] ret2[j]).first_actor() == (
        #[trigger] open[e]).0 implies ret2[j].creation_frame() <= open[e].1@[0].frame by {
        if j == ret2.len() - 1 {
            assert(open[e].0 != aid);
        }
    }
}

/// Step: flush the first still-open entry at stream end.
pub proof fn lemma_flush(
    ret: Seq<Lifetime>,
    open: Seq<(i32, Vec<Event>)>,
    frames: Seq<FrameDelta>,
    bound: int,
    processed: Seq<Event>,
    lt: Lifetime,
)
    requires
        rec_inv(ret, open, frames, bound, processed),
        open.len() > 0,
        lt.events == open[0].1,
    ensures
        rec_inv(ret.push(lt), open.remove(0), frames, bound, processed),
{
    let ret2 = ret.push(lt);
    let open2 = open.remove(0);
    open.remove_ensures(0);
    lemma_entries_ms_remove(open, 0);
    lemma_lifetimes_ms_push(ret, lt);
    assert(lifetimes_events_ms(ret2).add(entries_events_ms(open2)) =~= processed.to_multiset());
    assert(events_ok(open[0].1@, open[0].0, frames, bound));
    assert(lt.first_actor() == open[0].0);
    assert(lt.creation_frame() == open[0].1@[0].frame);
    assert forall|j: int, j2: int|
        0 <= j <= j2 < ret2.len() && (#[trigger] ret2[j]).first_actor() == (
        #[trigger] ret2[j2]).first_actor() implies ret2[j].creation_frame()
        <= ret2[j2].creation_frame() by {
        if j2 == ret2.len() - 1 && j < j2 {
            assert(ret2[j] == ret[j]);
            assert(ret[j].creation_frame() <= open[0].1@[0].frame);
        }
    }
    assert forall|j: int, e: int|
        0 <= j < ret2.len() && 0 <= e < open2.len() && (#[trigger] ret2[j]).first_actor() == (
        #[trigger] open2[e]).0 implies ret2[j].creation_frame() <= open2[e].1@[0].frame by {
        assert(open2[e] == open[e + 1]);
        if j == ret2.len() - 1 {
            assert(open[e + 1].0 != open[0].0);
        }
    }
}

/// Buckets every lifetime by the actor identifier of its first event,
/// preserving list order inside each bucket.
pub fn bucket_index(list: &Vec<Lifetime>) -> (m: Vec<(i32, Vec<usize>)>)
    requires
        forall|i: int| 0 <= i < list@.len() ==> (#[trigger] list@[i]).events@.len() > 0,
    ensures
        forall|a: i32| #[trigger] bucket_of(m@, a) == indices_for(list@, a, list@.len() as int),
{
    let mut m: Vec<(i32, Vec<usize>)> = Vec::new();
    let mut n: usize = 0;
    while n < list.len()
        invariant
            n <= list@.len(),
            forall|i: int| 0 <= i < list@.len() ==> (#[trigger] list@[i]).events@.len() > 0,
            forall|a: i32| #[trigger] bucket_of(m@, a) == indices_for(list@, a, n as int),
        decreases list@.len() - n,
    {
        assert(list@[n as int].events@.len() > 0);
        let a = list[n].events[0].event.actor_id();
        assert(a == list@[n as int].first_actor());
        let ghost m_old = m@;
        match find_idx_i32(&m, a) {
            Some(e) => {
                proof {
                    crate::assoc::lemma_assoc_find(m_old, a);
                }
                let mut entry = m.remove(e);
                entry.1.push(n);
                let ghost newbucket = entry.1;
                m.insert(e, entry);
                proof {
                    assert(m@ =~= m_old.update(e as int, (a, newbucket)));
                    assert(bucket_of(m_old, a) == indices_for(list@, a, n as int));
                    assert forall|k: i32| #[trigger]
                        bucket_of(m@, k) == indices_for(list@, k, n + 1) by {
                        lemma_assoc_update_value(m_old, e as int, newbucket, k);
                        assert(bucket_of(m_old, k) == indices_for(list@, k, n as int));
                        if k == a {
                            assert(newbucket@ =~= bucket_of(m_old, a).push(n));
                        }
                    }
                }
            },
            None => {
                let mut bucket: Vec<usize> = Vec::new();
                bucket.push(n);
                let ghost newbucket = bucket;
                m.push((a, bucket));
                proof {
                    assert(bucket_of(m_old, a) == indices_for(list@, a, n as int));
                    assert(bucket_of(m_old, a) =~= Seq::<usize>::empty());
                    assert forall|k: i32| #[trigger]
                        bucket_of(m@, k) == indices_for(list@, k, n + 1) by {
                        lemma_assoc_push(m_old, (a, newbucket), k);
                        assert(bucket_of(m_old, k) == indices_for(list@, k, n as int));
                        if k == a {
                            assert(newbucket@ =~= bucket_of(m_old, a).push(n));
                        }
                    }
                }
            },
        }
        n += 1;
    }
    m
}

/// Reconstructs the per-actor lifetimes of a frame stream.
///
/// Every creation, deletion and update event of the stream ends up in exactly
/// one emitted lifetime (the multiset equation below), each lifetime is a
/// nonempty frame-sorted history of a single identifier, and lifetimes of one
/// identifier are emitted in creation order.
#[verifier::loop_isolation(false)]
pub fn parse_lifetimes(frames: &Vec<FrameDelta>) -> (r: LifetimeList)
    ensures
        r.wf(),
        r.events_in(frames@),
        lifetimes_events_ms(r.list@) == stream_event_seq(
            frames@,
            frames@.len() as int,
        ).to_multiset(),
        times_monotone(frames@) ==> r.time_consistent(),
{
    let mut open: Vec<(i32, Vec<Event>)> = Vec::new();
    let mut ret: Vec<Lifetime> = Vec::new();
    proof {
        assert(stream_event_seq(frames@, 0) =~= Seq::<Event>::empty());
        assert(Seq::<Event>::empty().to_multiset().len() == 0);
        vstd::multiset::lemma_multiset_empty_len(Seq::<Event>::empty().to_multiset());
        assert(lifetimes_events_ms(ret@).add(entries_events_ms(open@)) =~= Seq::<
            Event,
        >::empty().to_multiset());
    }
    let mut frame_id: usize = 0;
    while frame_id < frames.len()
        invariant
            frame_id <= frames.len(),
            rec_inv(
                ret@,
                open@,
                frames@,
                frame_id as int,
                stream_event_seq(frames@, frame_id as int),
            ),
        decreases frames@.len() - frame_id,
    {
        let ghost f = frame_id as int;
        let ghost frv = frames@[f];
        let ghost pre = stream_event_seq(frames@, f);
        let time = frames[frame_id].time;
        // Creations: force-close any open occupancy of the identifier, then
        // open a fresh one seeded with the creation event.
        let mut k: usize = 0;
        proof {
            assert(pre + new_events(frv, f).take(0) =~= pre);
        }
        while k < frames[frame_id].new_actors.len()
            invariant
                k <= frv.new_actors@.len(),
                rec_inv(ret@, open@, frames@, f, pre + new_events(frv, f).take(k as int)),
            decreases frv.new_actors@.len() - k,
        {
            let na = frames[frame_id].new_actors[k];
            let ev = Event { event: ChangeEvent::N(na), frame: frame_id, time };
            let ghost processed = pre + new_events(frv, f).take(k as int);
            proof {
                assert(new_events(frv, f)[k as int] == ev);
                assert(pre + new_events(frv, f).take(k + 1) =~= processed.push(ev));
            }
            let ghost open0 = open@;
            let ghost ret0 = ret@;
            let mut v: Vec<Event> = Vec::new();
            v.push(ev);
            let ghost vg = v@;
            match find_idx_i32(&open, na.actor_id) {
                Some(i) => {
                    proof {
                        lemma_assoc_find(open0, na.actor_id);
                    }
                    let entry = open.remove(i);
                    let lt = Lifetime::from(entry.1);
                    let ghost ltg = lt;
                    ret.push(lt);
                    open.push((na.actor_id, v));
                    proof {
                        lemma_step_emit_replace(
                            ret0,
                            open0,
                            frames@,
                            f,
                            processed,
                            i as int,
                            ev,
                            ltg,
                            open@[open@.len() - 1],
                        );
                        assert(open@ =~= open0.remove(i as int).push(open@[open@.len() - 1]));
                    }
                },
                None => {
                    open.push((na.actor_id, v));
                    proof {
                        lemma_step_new_entry(
                            ret0,
                            open0,
                            frames@,
                            f,
                            processed,
                            ev,
                            open@[open@.len() - 1],
                        );
                        assert(open@ =~= open0.push(open@[open@.len() - 1]));
                    }
                },
            }
            k += 1;
        }
        let ghost pre2 = pre + new_events(frv, f);
        proof {
            assert(pre + new_events(frv, f).take(frv.new_actors@.len() as int) =~= pre2);
            assert(pre2 + del_events(frv, f).take(0) =~= pre2);
        }
        // Deletions: append the deletion event and close the occupancy; a
        // deletion with no open occupancy yields a single-event lifetime.
        let mut k: usize = 0;
        while k < frames[frame_id].deleted_actors.len()
            invariant
                k <= frv.deleted_actors@.len(),
                rec_inv(ret@, open@, frames@, f, pre2 + del_events(frv, f).take(k as int)),
            decreases frv.deleted_actors@.len() - k,
        {
            let da = frames[frame_id].deleted_actors[k];
            let ev = Event { event: ChangeEvent::D(da), frame: frame_id, time };
            let ghost processed = pre2 + del_events(frv, f).take(k as int);
            proof {
                assert(del_events(frv, f)[k as int] == ev);
                assert(pre2 + del_events(frv, f).take(k + 1) =~= processed.push(ev));
            }
            let ghost open0 = open@;
            let ghost ret0 = ret@;
            match find_idx_i32(&open, da) {
                Some(i) => {
                    proof {
                        lemma_assoc_find(open0, da);
                    }
                    let mut entry = open.remove(i);
                    entry.1.push(ev);
                    let lt = Lifetime::from(entry.1);
                    let ghost ltg = lt;
                    ret.push(lt);
                    proof {
                        lemma_step_emit_delete(ret0, open0, frames@, f, processed, i as int, ev, ltg);
                        assert(open@ =~= open0.remove(i as int));
                    }
                },
                None => {
                    let mut v: Vec<Event> = Vec::new();
                    v.push(ev);
                    let lt = Lifetime::from(v);
                    let ghost ltg = lt;
                    ret.push(lt);
                    proof {
                        lemma_step_emit_singleton(ret0, open0, frames@, f, processed, ev, ltg);
                    }
                },
            }
            k += 1;
        }
        let ghost pre3 = pre2 + del_events(frv, f);
        proof {
            assert(pre2 + del_events(frv, f).take(frv.deleted_actors@.len() as int) =~= pre3);
            assert(pre3 + upd_events(frv, f).take(0) =~= pre3);
        }
        // Updates: append to the open occupancy, opening one if the update
        // arrives before any observed creation.
        let mut k: usize = 0;
        while k < frames[frame_id].updated_actors.len()
            invariant
                k <= frv.updated_actors@.len(),
                rec_inv(ret@, open@, frames@, f, pre3 + upd_events(frv, f).take(k as int)),
            decreases frv.updated_actors@.len() - k,
        {
            let ua = frames[frame_id].updated_actors[k];
            let ev = Event { event: ChangeEvent::U(ua), frame: frame_id, time };
            let ghost processed = pre3 + upd_events(frv, f).take(k as int);
            proof {
                assert(upd_events(frv, f)[k as int] == ev);
                assert(pre3 + upd_events(frv, f).take(k + 1) =~= processed.push(ev));
            }
            let ghost open0 = open@;
            let ghost ret0 = ret@;
            match find_idx_i32(&open, ua.actor_id) {
                Some(i) => {
                    proof {
                        lemma_assoc_find(open0, ua.actor_id);
                    }
                    let mut entry = open.remove(i);
                    entry.1.push(ev);
                    open.push(entry);
                    proof {
                        lemma_step_append(
                            ret0,
                            open0,
                            frames@,
                            f,
                            processed,
                            i as int,
                            ev,
                            open@[open@.len() - 1],
                        );
                        assert(open@ =~= open0.remove(i as int).push(open@[open@.len() - 1]));
                    }
                },
                None => {
                    let mut v: Vec<Event> = Vec::new();
                    v.push(ev);
                    open.push((ua.actor_id, v));
                    proof {
                        lemma_step_new_entry(
                            ret0,
                            open0,
                            frames@,
                            f,
                            processed,
                            ev,
                            open@[open@.len() - 1],
                        );
                        assert(open@ =~= open0.push(open@[open@.len() - 1]));
                    }
                },
            }
            k += 1;
        }
        proof {
            assert(pre3 + upd_events(frv, f).take(frv.updated_actors@.len() as int) =~= pre3
                + upd_events(frv, f));
            assert(pre3 + upd_events(frv, f) =~= pre + frame_event_seq(frv, f));
            assert(pre + frame_event_seq(frv, f) =~= stream_event_seq(frames@, f + 1));
            lemma_rec_inv_mono(
                ret@,
                open@,
                frames@,
                f,
                f + 1,
                stream_event_seq(frames@, f + 1),
            );
        }
        frame_id += 1;
    }
    // Stream end: flush every still-open occupancy as a terminal, un-deleted
    // lifetime.
    while open.len() > 0
        invariant
            rec_inv(
                ret@,
                open@,
                frames@,
                frames@.len() as int,
                stream_event_seq(frames@, frames@.len() as int),
            ),
        decreases open@.len(),
    {
        let ghost open0 = open@;
        let ghost ret0 = ret@;
        let entry = open.remove(0);
        let lt = Lifetime::from(entry.1);
        let ghost ltg = lt;
        ret.push(lt);
        proof {
            lemma_flush(
                ret0,
                open0,
                frames@,
                frames@.len() as int,
                stream_event_seq(frames@, frames@.len() as int),
                ltg,
            );
            assert(open@ =~= open0.remove(0));
        }
    }
    let ghost retg = ret@;
    let r = LifetimeList::from(ret);
    proof {
        assert(entries_events_ms(Seq::<(i32, Vec<Event>)>::empty()) == Multiset::<Event>::empty());
        assert(lifetimes_events_ms(retg) =~= lifetimes_events_ms(retg).add(
            Multiset::<Event>::empty(),
        ));
        assert forall|i: int| 0 <= i < r.list@.len() implies (#[trigger] r.list@[i]).wf() by {
            assert(events_ok(
                retg[i].events@,
                retg[i].first_actor(),
                frames@,
                frames@.len() as int,
            ));
        }
        if times_monotone(frames@) {
            assert forall|i: int, j: int, p: int, q: int|
                0 <= i < r.list@.len() && 0 <= j < r.list@.len() && 0 <= p
                    < r.list@[i].events@.len() && 0 <= q < r.list@[j].events@.len() && (
                #[trigger] r.list@[i].events@[p]).frame <= (
                #[trigger] r.list@[j].events@[q]).frame implies r.list@[i].events@[p].time
                <= r.list@[j].events@[q].time by {
                assert(event_in_frames(r.list@[i].events@[p], frames@));
                assert(event_in_frames(r.list@[j].events@[q], frames@));
            }
        }
    }
    r
}

} // verus!
