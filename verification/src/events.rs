//! The raw event data model: per-frame actor deltas as plain values.

use vstd::prelude::*;

verus! {

/// The largest clock-tick magnitude the accounting accepts; generous enough
/// for any match at any sensible tick scale, and small enough that sums of
/// spans never overflow the accumulators.
pub const MAX_TICKS: i64 = 0x1000_0000_0000_0000;

/// A freshly created actor: its transient identifier, the object-type id
/// naming what kind of actor it is, and an optional display-name id.
#[derive(Debug, Clone, Copy, PartialEq, Eq)]
pub struct NewActorData {
    pub actor_id: i32,
    pub object_id: i32,
    pub name_id: Option<i32>,
}

/// The typed payload of an attribute update, reduced to the shapes the
/// analysis reads.  Payload kinds it never inspects are collapsed to `Other`.
#[derive(Debug, Clone, Copy, PartialEq, Eq)]
pub enum AttributeData {
    Boolean(bool),
    Int(i32),
    Byte(u8),
    /// A reference to another actor by its transient identifier.
    ActiveActor { active: bool, actor: i32 },
    /// A per-player reservation record: a stable player key plus the
    /// two-boolean status pair.
    Reservation { player: u64, flag1: bool, flag2: bool },
    /// A player's stable identity key.
    UniqueId(u64),
    Other,
}

/// An attribute update on a live actor.
#[derive(Debug, Clone, Copy, PartialEq, Eq)]
pub struct UpdatedAttributeData {
    pub actor_id: i32,
    pub object_id: i32,
    pub attribute: AttributeData,
}

/// One actor-lifecycle delta: creation, deletion, or attribute update.
#[derive(Debug, Clone, Copy, PartialEq, Eq)]
pub enum ChangeEvent {
    N(NewActorData),
    D(i32),
    U(UpdatedAttributeData),
}

impl ChangeEvent {
    /// The identifier of the actor this delta concerns.
    pub open spec fn spec_actor_id(&self) -> i32 {
        match self {
            ChangeEvent::N(na) => na.actor_id,
            ChangeEvent::D(da) => *da,
            ChangeEvent::U(ua) => ua.actor_id,
        }
    }

    #[verifier::when_used_as_spec(spec_actor_id)]
    pub fn actor_id(&self) -> (r: i32)
        ensures
            r == self.spec_actor_id(),
    {
        match self {
            ChangeEvent::N(na) => na.actor_id,
            ChangeEvent::D(da) => *da,
            ChangeEvent::U(ua) => ua.actor_id,
        }
    }
}

/// A delta stamped with the frame it occurred in and that frame's clock
/// time in ticks.
#[derive(Debug, Clone, Copy, PartialEq, Eq)]
pub struct Event {
    pub event: ChangeEvent,
    pub frame: usize,
    pub time: i64,
}

impl Event {
    pub fn from(event: ChangeEvent, frame: usize, time: i64) -> (r: Self)
        ensures
            r == (Event { event, frame, time }),
    {
        Self { event, frame, time }
    }
}

/// One tick's worth of deltas: everything that happened in a single frame.
#[derive(Debug)]
pub struct FrameDelta {
    pub time: i64,
    pub new_actors: Vec<NewActorData>,
    pub deleted_actors: Vec<i32>,
    pub updated_actors: Vec<UpdatedAttributeData>,
}

/// The creation events of one frame, stamped with its index and time.
pub open spec fn new_events(fr: FrameDelta, frame: int) -> Seq<Event> {
    fr.new_actors@.map_values(
        |na: NewActorData| Event { event: ChangeEvent::N(na), frame: frame as usize, time: fr.time },
    )
}

/// The deletion events of one frame.
pub open spec fn del_events(fr: FrameDelta, frame: int) -> Seq<Event> {
    fr.deleted_actors@.map_values(
        |da: i32| Event { event: ChangeEvent::D(da), frame: frame as usize, time: fr.time },
    )
}

/// The update events of one frame.
pub open spec fn upd_events(fr: FrameDelta, frame: int) -> Seq<Event> {
    fr.updated_actors@.map_values(
        |ua: UpdatedAttributeData| Event {
            event: ChangeEvent::U(ua),
            frame: frame as usize,
            time: fr.time,
        },
    )
}

/// The events of one frame in processing order: creations, then deletions,
/// then updates.
pub open spec fn frame_event_seq(fr: FrameDelta, frame: int) -> Seq<Event> {
    new_events(fr, frame) + del_events(fr, frame) + upd_events(fr, frame)
}

/// All events of the first `n` frames of a stream, in processing order.
pub open spec fn stream_event_seq(frames: Seq<FrameDelta>, n: int) -> Seq<Event>
    decreases n,
{
    if n <= 0 {
        Seq::empty()
    } else {
        stream_event_seq(frames, n - 1) + frame_event_seq(frames[n - 1], n - 1)
    }
}

/// Every frame's clock time lies within `[-bound, bound]`.
pub open spec fn frames_bounded(frames: Seq<FrameDelta>, bound: i64) -> bool {
    forall|i: int| 0 <= i < frames.len() ==> -bound <= (#[trigger] frames[i]).time <= bound
}

/// Frame clock times never decrease as the frame index grows.
pub open spec fn times_monotone(frames: Seq<FrameDelta>) -> bool {
    forall|i: int, j: int|
        0 <= i <= j < frames.len() ==> #[trigger] frames[i].time <= #[trigger] frames[j].time
}

} // verus!
