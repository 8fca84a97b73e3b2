//! The per-file analysis: from one replay's decoded frame stream and static
//! tables to every resolved player's accumulated camera statistics.

use vstd::prelude::*;

use crate::assoc::{assoc_get, unique_keys};
use crate::events::{frames_bounded, stream_event_seq, times_monotone, FrameDelta, MAX_TICKS};
use crate::lifetimes::{lemma_total_events_is_ms_len, lifetimes_events_ms, parse_lifetimes,
    total_events, LifetimeList};
use crate::phases::{game_frame_sorted, state_changes_spec, GameStateEvent, get_state_changes};
use crate::schema::{ballcam_name, camera_owner_name, camera_type_name, identity_name, name_index,
    reservations_name, state_name, Schema, SchemaError};
use crate::stats::{new_ballcam_lifetimes, player_result_spec, PlayerResult};

verus! {

broadcast use vstd::seq_lib::group_to_multiset_ensures;

/// The largest number of stream events one file may carry into the
/// accounting.
pub const MAX_EVENTS: u64 = 1_000_000_000;

/// Why a replay file cannot be scored.
#[derive(Debug, Clone, Copy, PartialEq, Eq, Structural)]
pub enum ReplayError {
    /// A required well-known name is absent from the static tables.
    Schema(SchemaError),
    /// Frame clock times decrease somewhere in the stream.
    TimesNotMonotone,
    /// A frame clock time exceeds the supported tick range.
    TimesOutOfRange,
    /// The stream carries more events than the accounting accepts.
    TooManyEvents,
    /// A static table is too large to be indexed by the schema identifiers.
    TablesTooLarge,
    /// The extracted match-phase timeline is not in frame order.
    PhaseTimelineUnordered,
}

/// Everything the analysis of one file yields: the resolved schema, the
/// reconstructed lifetimes, and each resolved player's totals.
#[derive(Debug)]
pub struct ReplayAnalysis {
    pub schema: Schema,
    pub lifetimes: LifetimeList,
    pub results: Vec<(u64, PlayerResult)>,
}

/// All six required object names are present.
pub open spec fn schema_present(objects: Seq<String>) -> bool {
    &&& name_index(objects, camera_type_name()) is Some
    &&& name_index(objects, camera_owner_name()) is Some
    &&& name_index(objects, identity_name()) is Some
    &&& name_index(objects, ballcam_name()) is Some
    &&& name_index(objects, reservations_name()) is Some
    &&& name_index(objects, state_name()) is Some
}

/// The conditions on the raw stream that the accounting needs.
pub open spec fn stream_ok(frames: Seq<FrameDelta>) -> bool {
    &&& times_monotone(frames)
    &&& frames_bounded(frames, MAX_TICKS)
    &&& stream_event_seq(frames, frames.len() as int).len() <= MAX_EVENTS
}

/// Whether the adjacent frames are in non-decreasing time order.
fn check_times_monotone(frames: &Vec<FrameDelta>) -> (r: bool)
    ensures
        r == times_monotone(frames@),
{
    if frames.len() == 0 {
        return true;
    }
    let mut i: usize = 1;
    while i < frames.len()
        invariant
            1 <= i <= frames@.len(),
            forall|a: int, b: int|
                0 <= a <= b < i ==> (#[trigger] frames@[a]).time <= (#[trigger] frames@[b]).time,
        decreases frames@.len() - i,
    {
        if frames[i - 1].time > frames[i].time {
            return false;
        }
        assert forall|a: int, b: int|
            0 <= a <= b < i + 1 implies (#[trigger] frames@[a]).time <= (
        #[trigger] frames@[b]).time by {
            if b == i && a < i {
                assert(frames@[a].time <= frames@[i - 1].time);
            }
        }
        i += 1;
    }
    true
}

/// Whether every frame time lies within the supported tick range.
fn check_times_bounded(frames: &Vec<FrameDelta>) -> (r: bool)
    ensures
        r == frames_bounded(frames@, MAX_TICKS),
{
    let mut i: usize = 0;
    while i < frames.len()
        invariant
            i <= frames@.len(),
            forall|a: int| 0 <= a < i ==> -MAX_TICKS <= (#[trigger] frames@[a]).time <= MAX_TICKS,
        decreases frames@.len() - i,
    {
        if frames[i].time < -MAX_TICKS || frames[i].time > MAX_TICKS {
            return false;
        }
        i += 1;
    }
    true
}

/// Counts the stream's events, refusing a stream over the supported size.
fn check_event_count(frames: &Vec<FrameDelta>) -> (r: bool)
    ensures
        r == (stream_event_seq(frames@, frames@.len() as int).len() <= MAX_EVENTS),
{
    let mut count: u128 = 0;
    let mut i: usize = 0;
    while i < frames.len()
        invariant
            i <= frames@.len(),
            count == stream_event_seq(frames@, i as int).len(),
            count <= MAX_EVENTS,
        decreases frames@.len() - i,
    {
        let fl = (frames[i].new_actors.len() as u128) + (frames[i].deleted_actors.len() as u128)
            + (frames[i].updated_actors.len() as u128);
        count = count + fl;
        if count > MAX_EVENTS as u128 {
            proof {
                lemma_stream_len_mono(frames@, i + 1, frames@.len() as int);
            }
            return false;
        }
        i += 1;
    }
    true
}

/// The stream's event count grows with the prefix length.
pub proof fn lemma_stream_len_mono(frames: Seq<FrameDelta>, m1: int, m2: int)
    requires
        0 <= m1 <= m2,
    ensures
        stream_event_seq(frames, m1).len() <= stream_event_seq(frames, m2).len(),
    decreases m2,
{
    if m2 > 0 {
        if m1 == m2 {
        } else {
            lemma_stream_len_mono(frames, m1, m2 - 1);
        }
    }
}

/// Whether the extracted phase timeline is in frame order.
fn check_game_sorted(game: &Vec<GameStateEvent>) -> (r: bool)
    ensures
        r == game_frame_sorted(game@),
{
    if game.len() == 0 {
        return true;
    }
    let mut i: usize = 1;
    while i < game.len()
        invariant
            1 <= i <= game@.len(),
            forall|a: int, b: int|
                0 <= a <= b < i ==> (#[trigger] game@[a]).info.frame <= (
                #[trigger] game@[b]).info.frame,
        decreases game@.len() - i,
    {
        if game[i - 1].info.frame > game[i].info.frame {
            return false;
        }
        assert forall|a: int, b: int|
            0 <= a <= b < i + 1 implies (#[trigger] game@[a]).info.frame <= (
        #[trigger] game@[b]).info.frame by {
            if b == i && a < i {
                assert(game@[a].info.frame <= game@[i - 1].info.frame);
            }
        }
        i += 1;
    }
    true
}

/// Scores one replay file: reconstructs lifetimes from the frame stream,
/// resolves players, and accumulates every resolved player's camera totals.
/// A missing required schema name, or a stream the accounting cannot accept,
/// fails the whole file and touches no other.
pub fn analyze_replay(
    frames: &Vec<FrameDelta>,
    objects: &Vec<String>,
    names: &Vec<String>,
    debounce: i64,
) -> (r: Result<ReplayAnalysis, ReplayError>)
    requires
        0 <= debounce,
    ensures
        match r {
            Ok(a) => {
                &&& stream_ok(frames@)
                &&& a.schema.resolved(objects@, names@)
                &&& a.lifetimes.wf()
                &&& a.lifetimes.time_consistent()
                &&& a.lifetimes.events_in(frames@)
                &&& lifetimes_events_ms(a.lifetimes.list@) == stream_event_seq(
                    frames@,
                    frames@.len() as int,
                ).to_multiset()
                &&& game_frame_sorted(state_changes_spec(a.lifetimes, a.schema))
                &&& unique_keys(a.results@)
                &&& forall|p: u64|
                    match #[trigger] assoc_get(a.results@, p) {
                        Some(res) => match player_result_spec(
                            a.lifetimes,
                            a.schema,
                            p,
                            debounce as int,
                        ) {
                            Some(m) => res@ == m && m.wf(),
                            None => false,
                        },
                        None => player_result_spec(a.lifetimes, a.schema, p, debounce as int)
                            is None,
                    }
            },
            Err(e) => match e {
                ReplayError::TimesNotMonotone => !times_monotone(frames@),
                ReplayError::TimesOutOfRange => !frames_bounded(frames@, MAX_TICKS),
                ReplayError::TooManyEvents => stream_event_seq(
                    frames@,
                    frames@.len() as int,
                ).len() > MAX_EVENTS,
                ReplayError::TablesTooLarge => objects@.len() > i32::MAX || names@.len()
                    > i32::MAX,
                ReplayError::Schema(_) => !schema_present(objects@),
                // some faithful reconstruction of these frames — well formed
                // and holding exactly the stream's events — resolves the
                // schema yet yields a phase timeline out of frame order
                ReplayError::PhaseTimelineUnordered => stream_ok(frames@) && schema_present(
                    objects@,
                ) && (exists|ltl: LifetimeList, s: Schema|
                    {
                        &&& ltl.wf()
                        &&& ltl.events_in(frames@)
                        &&& lifetimes_events_ms(ltl.list@) == stream_event_seq(
                            frames@,
                            frames@.len() as int,
                        ).to_multiset()
                        &&& s.resolved(objects@, names@)
                        &&& !game_frame_sorted(#[trigger] state_changes_spec(ltl, s))
                    }),
            },
        },
{
    if !check_times_monotone(frames) {
        return Err(ReplayError::TimesNotMonotone);
    }
    if !check_times_bounded(frames) {
        return Err(ReplayError::TimesOutOfRange);
    }
    if !check_event_count(frames) {
        return Err(ReplayError::TooManyEvents);
    }
    if objects.len() > i32::MAX as usize || names.len() > i32::MAX as usize {
        return Err(ReplayError::TablesTooLarge);
    }
    let schema = match Schema::resolve(objects, names) {
        Ok(s) => s,
        Err(e) => {
            return Err(ReplayError::Schema(e));
        },
    };
    let lifetimes = parse_lifetimes(frames);
    proof {
        assert(lifetimes.time_consistent());
        assert(lifetimes.times_bounded(MAX_TICKS)) by {
            assert forall|i: int, p: int|
                0 <= i < lifetimes.list@.len() && 0 <= p < lifetimes.list@[i].events@.len() implies
                -MAX_TICKS <= (#[trigger] lifetimes.list@[i].events@[p]).time <= MAX_TICKS by {
                assert(crate::lifetimes::event_in_frames(lifetimes.list@[i].events@[p], frames@));
            }
        }
        lemma_total_events_is_ms_len(lifetimes.list@);
        assert(total_events(lifetimes.list@, lifetimes.list@.len() as int) <= 1_000_000_000);
    }
    let game = get_state_changes(&lifetimes, &schema);
    if !check_game_sorted(&game) {
        proof {
            assert(!game_frame_sorted(state_changes_spec(lifetimes, schema)));
        }
        return Err(ReplayError::PhaseTimelineUnordered);
    }
    let results = new_ballcam_lifetimes(&lifetimes, &schema, debounce);
    Ok(ReplayAnalysis { schema, lifetimes, results })
}

} // verus!
