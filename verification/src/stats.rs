//! The stats accumulator: a two-pointer merge of one player's camera
//! timeline with the global match-phase timeline, accumulating elapsed time,
//! camera-on time and debounced toggle counts under three overlapping
//! accounting policies (all time, excluding the post-goal freeze, and live
//! play only).

use vstd::prelude::*;

use crate::assoc::{assoc_get, bucket_of, lemma_assoc_find, lemma_assoc_find_at,
    lemma_assoc_find_none, lemma_assoc_push, find_idx_u64, unique_keys};
use crate::ballcam::{ballcam_list_spec, frame_sorted, lemma_cam_updates_len, lemma_owned_len,
    owned_events, pair_consistent, BallcamEvent, BallcamVariant, get_ballcam_list};
use crate::disconnect::{disconnects_spec, get_disconnect_players};
use crate::discovery::{discover_from, lemma_selected_len, selected_events};
use crate::events::{Event, MAX_TICKS};
use crate::lifetimes::{lemma_total_events_mono, total_events, LifetimeList};
use crate::phases::{game_frame_sorted, lemma_phase_events_len, state_changes_spec, GameState,
    GameStateEvent, get_state_changes};
use crate::players::{lemma_player_indices, player_indices, player_id_buckets};
use crate::schema::Schema;

verus! {

/// The mathematical model of an accumulator: the three policies' elapsed
/// times, camera-on times and toggle counts as unbounded integers.
pub struct ResultModel {
    pub swaps_all: int,
    pub swaps_with_freeze: int,
    pub swaps_active_only: int,
    pub ballcam_all: int,
    pub ballcam_with_freeze: int,
    pub ballcam_active_only: int,
    pub total_time_all: int,
    pub total_time_with_freeze: int,
    pub total_time_active_only: int,
}

impl ResultModel {
    /// Non-negative camera-on times within their elapsed times, and the three
    /// policies nested: live play inside freeze-excluded inside all time.
    pub open spec fn wf(self) -> bool {
        &&& 0 <= self.ballcam_active_only
        &&& 0 <= self.ballcam_with_freeze
        &&& 0 <= self.ballcam_all
        &&& self.ballcam_active_only <= self.total_time_active_only
        &&& self.ballcam_with_freeze <= self.total_time_with_freeze
        &&& self.ballcam_all <= self.total_time_all
        &&& self.total_time_active_only <= self.total_time_with_freeze <= self.total_time_all
        &&& 0 <= self.swaps_active_only <= self.swaps_with_freeze <= self.swaps_all
    }
}

/// The all-zero accumulator.
pub open spec fn zero_model() -> ResultModel {
    ResultModel {
        swaps_all: 0,
        swaps_with_freeze: 0,
        swaps_active_only: 0,
        ballcam_all: 0,
        ballcam_with_freeze: 0,
        ballcam_active_only: 0,
        total_time_all: 0,
        total_time_with_freeze: 0,
        total_time_active_only: 0,
    }
}

/// One accounting step: the elapsed time since the previous event is added
/// to every policy whose phase gate is open, camera-on time follows the old
/// camera flag, and a toggle is counted only when the value changes and the
/// gap exceeds the debounce threshold.
pub open spec fn update_model(
    m: ResultModel,
    last_time: int,
    was_on: bool,
    new_on: bool,
    cur_time: int,
    state: GameState,
    debounce: int,
) -> ResultModel {
    let delta = cur_time - last_time;
    let on_time = if was_on {
        delta
    } else {
        0
    };
    let swap: int = if new_on != was_on && delta > debounce {
        1
    } else {
        0
    };
    ResultModel {
        total_time_all: m.total_time_all + delta,
        ballcam_all: m.ballcam_all + on_time,
        swaps_all: m.swaps_all + swap,
        total_time_with_freeze: if state != GameState::Goal {
            m.total_time_with_freeze + delta
        } else {
            m.total_time_with_freeze
        },
        ballcam_with_freeze: if state != GameState::Goal {
            m.ballcam_with_freeze + on_time
        } else {
            m.ballcam_with_freeze
        },
        swaps_with_freeze: if state != GameState::Goal {
            m.swaps_with_freeze + swap
        } else {
            m.swaps_with_freeze
        },
        total_time_active_only: if state == GameState::Active {
            m.total_time_active_only + delta
        } else {
            m.total_time_active_only
        },
        ballcam_active_only: if state == GameState::Active {
            m.ballcam_active_only + on_time
        } else {
            m.ballcam_active_only
        },
        swaps_active_only: if state == GameState::Active {
            m.swaps_active_only + swap
        } else {
            m.swaps_active_only
        },
    }
}

/// A step over a non-negative gap keeps the accumulator well formed: in
/// particular the nesting of the three policies' elapsed times is invariant.
pub proof fn lemma_update_model_wf(
    m: ResultModel,
    last_time: int,
    was_on: bool,
    new_on: bool,
    cur_time: int,
    state: GameState,
    debounce: int,
)
    requires
        m.wf(),
        last_time <= cur_time,
    ensures
        update_model(m, last_time, was_on, new_on, cur_time, state, debounce).wf(),
{
}

/// Replaying an identical camera value, or any event whose gap since the
/// previous event is within the debounce threshold, never increments a swap
/// counter, in any of the three accounting policies.
pub proof fn lemma_debounce_idempotent(
    m: ResultModel,
    last_time: int,
    was_on: bool,
    new_on: bool,
    cur_time: int,
    state: GameState,
    debounce: int,
)
    requires
        new_on == was_on || cur_time - last_time <= debounce,
    ensures
        update_model(m, last_time, was_on, new_on, cur_time, state, debounce).swaps_all
            == m.swaps_all,
        update_model(m, last_time, was_on, new_on, cur_time, state, debounce).swaps_with_freeze
            == m.swaps_with_freeze,
        update_model(m, last_time, was_on, new_on, cur_time, state, debounce).swaps_active_only
            == m.swaps_active_only,
{
}

/// Accumulated totals of one player under the three accounting policies.
#[derive(Debug, Clone, Copy, PartialEq, Eq, Structural)]
pub struct PlayerResult {
    pub swaps_all: i32,
    pub swaps_with_freeze: i32,
    pub swaps_active_only: i32,
    pub ballcam_all: i64,
    pub ballcam_with_freeze: i64,
    pub ballcam_active_only: i64,
    pub total_time_all: i64,
    pub total_time_with_freeze: i64,
    pub total_time_active_only: i64,
}

impl View for PlayerResult {
    type V = ResultModel;

    open spec fn view(&self) -> ResultModel {
        ResultModel {
            swaps_all: self.swaps_all as int,
            swaps_with_freeze: self.swaps_with_freeze as int,
            swaps_active_only: self.swaps_active_only as int,
            ballcam_all: self.ballcam_all as int,
            ballcam_with_freeze: self.ballcam_with_freeze as int,
            ballcam_active_only: self.ballcam_active_only as int,
            total_time_all: self.total_time_all as int,
            total_time_with_freeze: self.total_time_with_freeze as int,
            total_time_active_only: self.total_time_active_only as int,
        }
    }
}

impl PlayerResult {
    pub fn new() -> (r: Self)
        ensures
            r@ == zero_model(),
    {
        Self {
            swaps_all: 0,
            swaps_with_freeze: 0,
            swaps_active_only: 0,
            ballcam_all: 0,
            ballcam_with_freeze: 0,
            ballcam_active_only: 0,
            total_time_all: 0,
            total_time_with_freeze: 0,
            total_time_active_only: 0,
        }
    }

    /// Accounts the gap from `last_time` to `cur_time` under the camera flag
    /// that held over it, and a possible toggle to `new_ballcam`.
    pub fn update(
        &mut self,
        last_time: i64,
        ballcam_was_on: bool,
        new_ballcam: bool,
        cur_time: i64,
        last_game_state: &GameState,
        debounce: i64,
    )
        requires
            old(self)@.wf(),
            last_time <= cur_time,
            -MAX_TICKS <= last_time,
            cur_time <= MAX_TICKS,
            old(self)@.total_time_all <= 2 * MAX_TICKS,
            old(self)@.swaps_all < i32::MAX,
        ensures
            final(self)@ == update_model(
                old(self)@,
                last_time as int,
                ballcam_was_on,
                new_ballcam,
                cur_time as int,
                *last_game_state,
                debounce as int,
            ),
    {
        let delta = cur_time - last_time;
        self.total_time_all = self.total_time_all + delta;
        if ballcam_was_on {
            self.ballcam_all = self.ballcam_all + delta;
        }
        if new_ballcam != ballcam_was_on && delta > debounce {
            self.swaps_all = self.swaps_all + 1;
        }
        if *last_game_state != GameState::Goal {
            // include the countdown, exclude only the post-goal freeze
            self.total_time_with_freeze = self.total_time_with_freeze + delta;
            if ballcam_was_on {
                self.ballcam_with_freeze = self.ballcam_with_freeze + delta;
            }
            if new_ballcam != ballcam_was_on && delta > debounce {
                self.swaps_with_freeze = self.swaps_with_freeze + 1;
            }
        }
        if *last_game_state == GameState::Active {
            // count live play only
            self.total_time_active_only = self.total_time_active_only + delta;
            if ballcam_was_on {
                self.ballcam_active_only = self.ballcam_active_only + delta;
            }
            if new_ballcam != ballcam_was_on && delta > debounce {
                self.swaps_active_only = self.swaps_active_only + 1;
            }
        }
    }
}

/// The camera value after a timeline event: off at the synthetic start, the
/// toggle's own value on an update, and unchanged at the terminal marker.
pub open spec fn next_cam_value(v: BallcamVariant, cur: bool) -> bool {
    match v {
        BallcamVariant::Start => false,
        BallcamVariant::Update(b) => b,
        BallcamVariant::Disconnect => cur,
    }
}

/// Times of the two timelines order like their frames, within and across.
pub open spec fn merge_consistent(ball: Seq<BallcamEvent>, game: Seq<GameStateEvent>) -> bool {
    &&& pair_consistent(ball)
    &&& forall|p: int, q: int|
        0 <= p < game.len() && 0 <= q < game.len() && (#[trigger] game[p]).info.frame <= (
        #[trigger] game[q]).info.frame ==> game[p].info.time <= game[q].info.time
    &&& forall|p: int, q: int|
        0 <= p < ball.len() && 0 <= q < game.len() && (#[trigger] ball[p]).info.frame <= (
        #[trigger] game[q]).info.frame ==> ball[p].info.time <= game[q].info.time
    &&& forall|p: int, q: int|
        0 <= p < game.len() && 0 <= q < ball.len() && (#[trigger] game[p]).info.frame <= (
        #[trigger] ball[q]).info.frame ==> game[p].info.time <= ball[q].info.time
}

/// All timeline times lie within `[-MAX_TICKS, MAX_TICKS]`.
pub open spec fn merge_times_bounded(ball: Seq<BallcamEvent>, game: Seq<GameStateEvent>) -> bool {
    &&& forall|k: int|
        0 <= k < ball.len() ==> -MAX_TICKS <= (#[trigger] ball[k]).info.time <= MAX_TICKS
    &&& forall|k: int|
        0 <= k < game.len() ==> -MAX_TICKS <= (#[trigger] game[k]).info.time <= MAX_TICKS
}

/// The accumulator after merging the two timelines from positions `bi` and
/// `gi`: the event with the smaller frame is consumed first, the camera event
/// on a tie or when the phase list is exhausted, and the merge ends when the
/// camera timeline does.
pub open spec fn merge_from(
    ball: Seq<BallcamEvent>,
    game: Seq<GameStateEvent>,
    bi: int,
    gi: int,
    on: bool,
    phase: GameState,
    last: int,
    acc: ResultModel,
    debounce: int,
) -> ResultModel
    decreases ball.len() - bi, game.len() - gi,
{
    if bi < 0 || gi < 0 || bi >= ball.len() {
        acc
    } else if gi >= game.len() || ball[bi].info.frame <= game[gi].info.frame {
        let next = next_cam_value(ball[bi].variant, on);
        merge_from(
            ball,
            game,
            bi + 1,
            gi,
            next,
            phase,
            ball[bi].info.time as int,
            update_model(acc, last, on, next, ball[bi].info.time as int, phase, debounce),
            debounce,
        )
    } else {
        merge_from(
            ball,
            game,
            bi,
            gi + 1,
            on,
            game[gi].variant,
            game[gi].info.time as int,
            update_model(acc, last, on, on, game[gi].info.time as int, phase, debounce),
            debounce,
        )
    }
}

/// The full merge of a player's camera timeline with the phase timeline,
/// starting camera-off in the countdown phase at the earlier of the two
/// first moments.
pub open spec fn merge_spec(
    ball: Seq<BallcamEvent>,
    game: Seq<GameStateEvent>,
    debounce: int,
) -> ResultModel {
    let t0 = if ball[0].info.time < game[0].info.time {
        ball[0].info.time
    } else {
        game[0].info.time
    };
    merge_from(ball, game, 0, 0, false, GameState::Countdown, t0 as int, zero_model(), debounce)
}

/// Merges one player's camera timeline with the match-phase timeline and
/// accumulates the three policies' totals.  Yields nothing when either
/// timeline is empty.
#[verifier::loop_isolation(false)]
pub fn process_ballcam(
    ball_events: &Vec<BallcamEvent>,
    game_events: &Vec<GameStateEvent>,
    debounce: i64,
) -> (r: Option<PlayerResult>)
    requires
        frame_sorted(ball_events@),
        game_frame_sorted(game_events@),
        merge_consistent(ball_events@, game_events@),
        merge_times_bounded(ball_events@, game_events@),
        ball_events@.len() + game_events@.len() < i32::MAX,
        0 <= debounce,
    ensures
        match r {
            Some(res) => {
                &&& ball_events@.len() > 0
                &&& game_events@.len() > 0
                &&& res@ == merge_spec(ball_events@, game_events@, debounce as int)
                &&& res@.wf()
            },
            None => ball_events@.len() == 0 || game_events@.len() == 0,
        },
{
    if ball_events.len() == 0 || game_events.len() == 0 {
        return None;
    }
    let ghost ball = ball_events@;
    let ghost game = game_events@;
    let ghost db = debounce as int;
    let mut ret = PlayerResult::new();
    let mut current_ballcam = false;
    let mut current_game = GameState::Countdown;
    let mut ball_index: usize = 0;
    let mut game_index: usize = 0;
    let bt = ball_events[0].info.time;
    let gt = game_events[0].info.time;
    let mut last_time: i64 = if bt < gt {
        bt
    } else {
        gt
    };
    let ghost t0 = last_time as int;
    while ball_index < ball_events.len()
        invariant
            ball_index <= ball.len(),
            game_index <= game.len(),
            merge_spec(ball, game, db) == merge_from(
                ball,
                game,
                ball_index as int,
                game_index as int,
                current_ballcam,
                current_game,
                last_time as int,
                ret@,
                db,
            ),
            ret@.wf(),
            t0 <= last_time as int,
            -MAX_TICKS <= last_time <= MAX_TICKS,
            ret@.total_time_all <= last_time - t0,
            ret@.swaps_all <= ball_index + game_index,
            forall|k: int|
                ball_index <= k < ball.len() ==> last_time <= (#[trigger] ball[k]).info.time,
            forall|k: int|
                game_index <= k < game.len() ==> last_time <= (#[trigger] game[k]).info.time,
        decreases ball.len() - ball_index + game.len() - game_index,
    {
        let ghost acc0 = ret@;
        if game_index == game_events.len() || ball_events[ball_index].info.frame
            <= game_events[game_index].info.frame {
            let next_bc = match ball_events[ball_index].variant {
                BallcamVariant::Start => false,
                BallcamVariant::Update(vv) => vv,
                BallcamVariant::Disconnect => current_ballcam,
            };
            let et = ball_events[ball_index].info.time;
            ret.update(last_time, current_ballcam, next_bc, et, &current_game, debounce);
            proof {
                lemma_update_model_wf(
                    acc0,
                    last_time as int,
                    current_ballcam,
                    next_bc,
                    et as int,
                    current_game,
                    db,
                );
                assert forall|k: int|
                    ball_index + 1 <= k < ball.len() implies et <= (
                #[trigger] ball[k]).info.time by {
                    assert(ball[ball_index as int].info.frame <= ball[k].info.frame);
                }
                assert forall|k: int|
                    game_index <= k < game.len() implies et <= (#[trigger] game[k]).info.time by {
                    assert(ball[ball_index as int].info.frame <= game[k].info.frame);
                }
            }
            current_ballcam = next_bc;
            last_time = et;
            ball_index += 1;
        } else {
            let et = game_events[game_index].info.time;
            ret.update(last_time, current_ballcam, current_ballcam, et, &current_game, debounce);
            proof {
                lemma_update_model_wf(
                    acc0,
                    last_time as int,
                    current_ballcam,
                    current_ballcam,
                    et as int,
                    current_game,
                    db,
                );
                assert forall|k: int|
                    ball_index <= k < ball.len() implies et <= (#[trigger] ball[k]).info.time by {
                    assert(game[game_index as int].info.frame <= ball[k].info.frame);
                }
                assert forall|k: int|
                    game_index + 1 <= k < game.len() implies et <= (
                #[trigger] game[k]).info.time by {
                    assert(game[game_index as int].info.frame <= game[k].info.frame);
                }
            }
            last_time = et;
            current_game = game_events[game_index].variant;
            game_index += 1;
        }
    }
    Some(ret)
}

/// The accumulated totals one player identity ends up with: its camera
/// timeline, truncated at its disconnect cutoff, merged with the phase
/// timeline.  `None` when the player has no accountable camera data or the
/// match has no phase timeline.
pub open spec fn player_result_spec(
    ltl: LifetimeList,
    sch: Schema,
    p: u64,
    debounce: int,
) -> Option<ResultModel> {
    let bucket = player_indices(ltl, sch, p, ltl.list@.len() as int);
    let cutoff = assoc_get(disconnects_spec(ltl, sch), p);
    let game = state_changes_spec(ltl, sch);
    match ballcam_list_spec(ltl.list@, bucket, sch.ballcam_id, cutoff) {
        None => None,
        Some(ball) => if ball.len() == 0 || game.len() == 0 {
            None
        } else {
            Some(merge_spec(ball, game, debounce))
        },
    }
}

/// Computes every resolved player's accumulated totals for one replay.
#[verifier::loop_isolation(false)]
#[verifier::rlimit(100)]
pub fn new_ballcam_lifetimes(ltl: &LifetimeList, sch: &Schema, debounce: i64) -> (r: Vec<
    (u64, PlayerResult),
>)
    requires
        ltl.wf(),
        ltl.time_consistent(),
        ltl.times_bounded(MAX_TICKS),
        game_frame_sorted(state_changes_spec(*ltl, *sch)),
        total_events(ltl.list@, ltl.list@.len() as int) <= 1_000_000_000,
        0 <= debounce,
    ensures
        unique_keys(r@),
        forall|p: u64|
            match #[trigger] assoc_get(r@, p) {
                Some(res) => match player_result_spec(*ltl, *sch, p, debounce as int) {
                    Some(m) => res@ == m && m.wf(),
                    None => false,
                },
                None => player_result_spec(*ltl, *sch, p, debounce as int) is None,
            },
{
    let ghost listv = ltl.list@;
    let ghost db = debounce as int;
    let players = player_id_buckets(ltl, sch);
    let disconnect_players = get_disconnect_players(ltl, sch);
    let game_state_changes = get_state_changes(ltl, sch);
    let ghost game = game_state_changes@;
    proof {
        // the phase timeline is bounded in size and in time, and its times
        // order like its frames
        lemma_selected_len(
            listv,
            discover_from(listv, sch.state_change_object, 0),
            listv.len() as int,
        );
        lemma_phase_events_len(
            selected_events(listv, discover_from(listv, sch.state_change_object, 0), listv.len() as int),
            *sch,
        );
        assert(game.len() <= 1_000_000_000);
        assert forall|k: int| 0 <= k < game.len() implies -MAX_TICKS <= (
        #[trigger] game[k]).info.time <= MAX_TICKS by {
            let (si, sp) = choose|si: int, sp: int|
                0 <= si < listv.len() && 0 <= sp < listv[si].events@.len() && (
                #[trigger] listv[si].events@[sp]).frame == game[k].info.frame
                    && listv[si].events@[sp].time == game[k].info.time;
        }
        assert forall|p: int, q: int|
            0 <= p < game.len() && 0 <= q < game.len() && (#[trigger] game[p]).info.frame <= (
            #[trigger] game[q]).info.frame implies game[p].info.time <= game[q].info.time by {
            let (si, sp) = choose|si: int, sp: int|
                0 <= si < listv.len() && 0 <= sp < listv[si].events@.len() && (
                #[trigger] listv[si].events@[sp]).frame == game[p].info.frame
                    && listv[si].events@[sp].time == game[p].info.time;
            let (ti, tp) = choose|ti: int, tp: int|
                0 <= ti < listv.len() && 0 <= tp < listv[ti].events@.len() && (
                #[trigger] listv[ti].events@[tp]).frame == game[q].info.frame
                    && listv[ti].events@[tp].time == game[q].info.time;
        }
    }
    let mut results: Vec<(u64, PlayerResult)> = Vec::new();
    let mut n: usize = 0;
    while n < players.len()
        invariant
            n <= players@.len(),
            unique_keys(results@),
            forall|p: u64|
                match #[trigger] assoc_get(results@, p) {
                    Some(res) => (exists|k: int|
                        0 <= k < n && (#[trigger] players@[k]).0 == p) && (match player_result_spec(
                        *ltl,
                        *sch,
                        p,
                        db,
                    ) {
                        Some(m) => res@ == m && m.wf(),
                        None => false,
                    }),
                    None => (forall|k: int| 0 <= k < n ==> (#[trigger] players@[k]).0 != p)
                        || player_result_spec(*ltl, *sch, p, db) is None,
                },
        decreases players@.len() - n,
    {
        let pid: u64 = players[n].0;
        let ghost bucketg = players@[n as int].1@;
        proof {
            assert(ltl.list.len() == listv.len());
            lemma_assoc_find_at(players@, pid, n as int);
            assert(bucket_of(players@, pid) == bucketg);
            assert(bucketg == player_indices(*ltl, *sch, pid, listv.len() as int));
            lemma_player_indices(*ltl, *sch, pid, listv.len() as int);
        }
        let cutoff: Option<i64> = match find_idx_u64(&disconnect_players, pid) {
            Some(i) => {
                proof {
                    lemma_assoc_find(disconnect_players@, pid);
                }
                Some(disconnect_players[i].1)
            },
            None => None,
        };
        assert(cutoff == assoc_get(disconnects_spec(*ltl, *sch), pid));
        let ghost results0 = results@;
        let mut pushed = false;
        match get_ballcam_list(ltl, &players[n].1, sch, cutoff) {
            Some(ball_events) => {
                let ghost ball = ball_events@;
                proof {
                    // the timeline is small enough and bounded in time
                    lemma_owned_len(listv, bucketg, bucketg.len() as int);
                    if bucketg.len() > 0 {
                        lemma_total_events_mono(
                            listv,
                            bucketg[bucketg.len() - 1] + 1,
                            listv.len() as int,
                        );
                    }
                    assert(ball.len() <= 2 + 1_000_000_000);
                    // camera and phase stamps order consistently, within and
                    // across the two timelines
                    assert forall|p: int, q: int|
                        0 <= p < ball.len() && 0 <= q < game.len() && (
                        #[trigger] ball[p]).info.frame <= (#[trigger] game[q]).info.frame implies
                        ball[p].info.time <= game[q].info.time by {
                        let (si, sp) = choose|si: int, sp: int|
                            0 <= si < listv.len() && 0 <= sp < listv[si].events@.len() && (
                            #[trigger] listv[si].events@[sp]).frame == game[q].info.frame
                                && listv[si].events@[sp].time == game[q].info.time;
                        assert(ltl.consistent_stamp(ball[p].info.frame, ball[p].info.time));
                    }
                    assert forall|p: int, q: int|
                        0 <= p < game.len() && 0 <= q < ball.len() && (
                        #[trigger] game[p]).info.frame <= (#[trigger] ball[q]).info.frame implies
                        game[p].info.time <= ball[q].info.time by {
                        let (si, sp) = choose|si: int, sp: int|
                            0 <= si < listv.len() && 0 <= sp < listv[si].events@.len() && (
                            #[trigger] listv[si].events@[sp]).frame == game[p].info.frame
                                && listv[si].events@[sp].time == game[p].info.time;
                        assert(ltl.consistent_stamp(ball[q].info.frame, ball[q].info.time));
                    }
                    assert(merge_times_bounded(ball, game));
                }
                match process_ballcam(&ball_events, &game_state_changes, debounce) {
                    Some(res) => {
                        proof {
                            if assoc_get(results0, pid) is Some {
                                let k = choose|k: int|
                                    0 <= k < n && (#[trigger] players@[k]).0 == pid;
                                assert(players@[k].0 == players@[n as int].0);
                                assert(false);
                            }
                            lemma_assoc_find(results0, pid);
                        }
                        results.push((pid, res));
                        pushed = true;
                        proof {
                            lemma_assoc_push(results0, (pid, res), pid);
                            assert forall|p: u64| #[trigger]
                                assoc_get(results@, p) == (if p == pid {
                                    Some(res)
                                } else {
                                    assoc_get(results0, p)
                                }) by {
                                lemma_assoc_push(results0, (pid, res), p);
                            }
                            assert forall|p: int, q: int|
                                0 <= p < q < results@.len() implies (#[trigger] results@[p]).0 != (
                            #[trigger] results@[q]).0 by {
                                if q == results@.len() - 1 {
                                    assert(results@[p] == results0[p]);
                                    crate::assoc::lemma_assoc_find(results0, pid);
                                } else {
                                    assert(results@[p] == results0[p] && results@[q] == results0[q]);
                                }
                            }
                        }
                    },
                    None => {
                        proof {
                            assert(game.len() == 0);
                        }
                    },
                }
            },
            None => {},
        }
        proof {
            if !pushed {
                assert(player_result_spec(*ltl, *sch, pid, db) is None);
            }
            assert forall|p: u64|
                match #[trigger] assoc_get(results@, p) {
                    Some(res) => (exists|k: int|
                        0 <= k < n + 1 && (#[trigger] players@[k]).0 == p) && (match
                    player_result_spec(*ltl, *sch, p, db) {
                        Some(m) => res@ == m && m.wf(),
                        None => false,
                    }),
                    None => (forall|k: int| 0 <= k < n + 1 ==> (#[trigger] players@[k]).0 != p)
                        || player_result_spec(*ltl, *sch, p, db) is None,
                } by {
                if !pushed {
                    match assoc_get(results@, p) {
                        Some(res) => {
                            let k = choose|k: int| 0 <= k < n && (#[trigger] players@[k]).0 == p;
                            assert(players@[k].0 == p);
                        },
                        None => {
                            if p == pid {
                                assert(player_result_spec(*ltl, *sch, p, db) is None);
                            }
                        },
                    }
                } else {
                    if p == pid {
                        assert(players@[n as int].0 == p);
                    } else {
                        match assoc_get(results0, p) {
                            Some(res) => {
                                let k = choose|k: int|
                                    0 <= k < n && (#[trigger] players@[k]).0 == p;
                                assert(players@[k].0 == p);
                            },
                            None => {},
                        }
                    }
                }
            }
        }
        n += 1;
    }
    proof {
        assert forall|p: u64|
            match #[trigger] assoc_get(results@, p) {
                Some(res) => match player_result_spec(*ltl, *sch, p, db) {
                    Some(m) => res@ == m && m.wf(),
                    None => false,
                },
                None => player_result_spec(*ltl, *sch, p, db) is None,
            } by {
            match assoc_get(results@, p) {
                Some(res) => {},
                None => {
                    if (forall|k: int|
                        0 <= k < players@.len() ==> (#[trigger] players@[k]).0 != p) {
                        lemma_assoc_find_none(players@, p);
                        assert(bucket_of(players@, p) =~= Seq::<usize>::empty());
                        assert(player_indices(*ltl, *sch, p, listv.len() as int)
                            =~= Seq::<usize>::empty());
                        assert(owned_events(
                            listv,
                            player_indices(*ltl, *sch, p, listv.len() as int),
                            0,
                        ) =~= Seq::<Event>::empty());
                    }
                },
            }
        }
    }
    results
}

} // verus!
