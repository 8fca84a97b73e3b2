use replay_stats_rl::ballcam::{get_ballcam_list, BallcamEvent, BallcamVariant};
use replay_stats_rl::disconnect::get_disconnect_players;
use replay_stats_rl::events::{AttributeData, ChangeEvent, FrameDelta, NewActorData,
    UpdatedAttributeData};
use replay_stats_rl::lifetimes::parse_lifetimes;
use replay_stats_rl::meta::{Date, Metadata};
use replay_stats_rl::phases::{get_state_changes, GameState, GameStateEvent};
use replay_stats_rl::players::{get_ping_from_cam, player_id_buckets};
use replay_stats_rl::replay::{analyze_replay, ReplayError};
use replay_stats_rl::schema::{Schema, SchemaError};
use replay_stats_rl::stats::{process_ballcam, PlayerResult};

// Object-type table positions used throughout: the six required attribute
// names, the ping attribute, and three plain actor types.
const CAMERA_TYPE: i32 = 0;
const CAM_TO_PRI: i32 = 1;
const PRI_TO_UNIQUE: i32 = 2;
const BALLCAM: i32 = 3;
const RESERVATIONS: i32 = 4;
const STATE_NAME: i32 = 5;
const PING: i32 = 6;
const STATE_ACTOR_TYPE: i32 = 7;
const GRI_ACTOR_TYPE: i32 = 8;
const PRI_ACTOR_TYPE: i32 = 9;

const COUNTDOWN_NAME: i32 = 0;
const ACTIVE_NAME: i32 = 1;
const GOAL_NAME: i32 = 2;

fn objects_table() -> Vec<String> {
    vec![
        "TAGame.Default__CameraSettingsActor_TA".to_string(),
        "TAGame.CameraSettingsActor_TA:PRI".to_string(),
        "Engine.PlayerReplicationInfo:UniqueId".to_string(),
        "TAGame.CameraSettingsActor_TA:bUsingSecondaryCamera".to_string(),
        "ProjectX.GRI_X:Reservations".to_string(),
        "TAGame.GameEvent_TA:ReplicatedStateName".to_string(),
        "Engine.PlayerReplicationInfo:Ping".to_string(),
        "TAGame.GameEvent_Soccar_TA".to_string(),
        "GameInfo.GRI_Archetype".to_string(),
        "TAGame.PRI_TA".to_string(),
    ]
}

fn names_table() -> Vec<String> {
    vec![
        "Countdown".to_string(),
        "Active".to_string(),
        "PostGoalScored".to_string(),
    ]
}

fn frame(time: i64) -> FrameDelta {
    FrameDelta { time, new_actors: vec![], deleted_actors: vec![], updated_actors: vec![] }
}

fn created(fr: &mut FrameDelta, actor_id: i32, object_id: i32) {
    fr.new_actors.push(NewActorData { actor_id, object_id, name_id: None });
}

fn updated(fr: &mut FrameDelta, actor_id: i32, object_id: i32, attribute: AttributeData) {
    fr.updated_actors.push(UpdatedAttributeData { actor_id, object_id, attribute });
}

fn schema() -> Schema {
    Schema::resolve(&objects_table(), &names_table()).unwrap()
}

#[test]
fn schema_resolves_all_ids() {
    let sch = schema();
    assert_eq!(sch.camera_create, CAMERA_TYPE);
    assert_eq!(sch.cam_to_pri, CAM_TO_PRI);
    assert_eq!(sch.pri_to_unique, PRI_TO_UNIQUE);
    assert_eq!(sch.ballcam_id, BALLCAM);
    assert_eq!(sch.reservations, RESERVATIONS);
    assert_eq!(sch.state_change_object, STATE_NAME);
    assert_eq!(sch.countdown_event, Some(COUNTDOWN_NAME));
    assert_eq!(sch.active_event, Some(ACTIVE_NAME));
    assert_eq!(sch.goal_event, Some(GOAL_NAME));
    assert_eq!(sch.ping_object, Some(PING));
}

#[test]
fn schema_reports_missing_names() {
    let mut objects = objects_table();
    objects.remove(RESERVATIONS as usize);
    // removing an entry shifts later ids but leaves earlier lookups intact
    let r = Schema::resolve(&objects, &names_table());
    assert_eq!(r.unwrap_err(), SchemaError::MissingReservationsField);

    let empty: Vec<String> = vec![];
    let r = Schema::resolve(&empty, &names_table());
    assert_eq!(r.unwrap_err(), SchemaError::MissingCameraType);
}

// Identifier reuse: every input event lands in exactly one lifetime, in
// frame order, and occupancies of a reused identifier stay separate.
#[test]
fn lifetimes_partition_reused_identifier() {
    let mut f0 = frame(0);
    created(&mut f0, 5, PRI_ACTOR_TYPE);
    let mut f1 = frame(10);
    f1.deleted_actors.push(5);
    let mut f2 = frame(20);
    created(&mut f2, 5, CAMERA_TYPE);
    let mut f3 = frame(30);
    updated(&mut f3, 5, BALLCAM, AttributeData::Boolean(true));
    let frames = vec![f0, f1, f2, f3];
    let ltl = parse_lifetimes(&frames);

    assert_eq!(ltl.list.len(), 2);
    let first = &ltl.list[0];
    assert_eq!(first.events.len(), 2);
    assert!(matches!(first.events[0].event, ChangeEvent::N(na) if na.object_id == PRI_ACTOR_TYPE));
    assert!(matches!(first.events[1].event, ChangeEvent::D(5)));
    assert_eq!(first.events[0].frame, 0);
    assert_eq!(first.events[1].frame, 1);
    let second = &ltl.list[1];
    assert_eq!(second.events.len(), 2);
    assert!(matches!(second.events[0].event, ChangeEvent::N(na) if na.object_id == CAMERA_TYPE));
    assert!(matches!(second.events[1].event, ChangeEvent::U(_)));
    // four input events, four held events: nothing lost, nothing duplicated
    let held: usize = ltl.list.iter().map(|l| l.events.len()).sum();
    assert_eq!(held, 4);
}

// An update arriving before any observed creation opens a lifetime, and a
// deletion with no open occupancy yields a single-event lifetime.
#[test]
fn lifetimes_tolerate_partial_histories() {
    let mut f0 = frame(0);
    updated(&mut f0, 9, BALLCAM, AttributeData::Boolean(false));
    let mut f1 = frame(5);
    f1.deleted_actors.push(11);
    let frames = vec![f0, f1];
    let ltl = parse_lifetimes(&frames);
    assert_eq!(ltl.list.len(), 2);
    // the dangling delete closes immediately; the update-first lifetime is
    // flushed at stream end
    assert!(matches!(ltl.list[0].events[0].event, ChangeEvent::D(11)));
    assert_eq!(ltl.list[1].events.len(), 1);
    assert!(matches!(ltl.list[1].events[0].event, ChangeEvent::U(ua) if ua.actor_id == 9));
}

// Predecessor lookup: the lifetime with the greatest creation frame not
// exceeding the query frame wins; earlier queries fail.
#[test]
fn lookup_actor_picks_predecessor() {
    let mut f1 = frame(10);
    created(&mut f1, 5, PRI_ACTOR_TYPE);
    let mut f2 = frame(20);
    f2.deleted_actors.push(5);
    let mut f3 = frame(30);
    created(&mut f3, 5, CAMERA_TYPE);
    let frames = vec![frame(0), f1, f2, f3];
    let ltl = parse_lifetimes(&frames);

    let at_creation = ltl.lookup_actor(5, 1).unwrap();
    assert!(matches!(at_creation.events[0].event, ChangeEvent::N(na) if na.object_id == PRI_ACTOR_TYPE));
    let between = ltl.lookup_actor(5, 2).unwrap();
    assert!(matches!(between.events[0].event, ChangeEvent::N(na) if na.object_id == PRI_ACTOR_TYPE));
    let after_reuse = ltl.lookup_actor(5, 3).unwrap();
    assert!(matches!(after_reuse.events[0].event, ChangeEvent::N(na) if na.object_id == CAMERA_TYPE));
    // before the first creation, and for unknown identifiers, lookup fails
    assert!(ltl.lookup_actor(5, 0).is_err());
    assert!(ltl.lookup_actor(6, 3).is_err());
}

// The owner chain of the scenario: a camera created at t=0 referencing
// info-actor 7, which was created at t=-1 and reports its identity at t=0,
// resolves to that player with one camera lifetime.
#[test]
fn camera_resolves_owner_chain() {
    let mut f0 = frame(-1);
    created(&mut f0, 7, PRI_ACTOR_TYPE);
    let mut f1 = frame(0);
    created(&mut f1, 3, CAMERA_TYPE);
    updated(&mut f1, 3, CAM_TO_PRI, AttributeData::ActiveActor { active: true, actor: 7 });
    updated(&mut f1, 7, PRI_TO_UNIQUE, AttributeData::UniqueId(101));
    let mut f2 = frame(50);
    f2.deleted_actors.push(3);
    let frames = vec![f0, f1, f2];
    let ltl = parse_lifetimes(&frames);
    let buckets = player_id_buckets(&ltl, &schema());
    assert_eq!(buckets.len(), 1);
    assert_eq!(buckets[0].0, 101);
    assert_eq!(buckets[0].1.len(), 1);
}

// A camera without a resolvable owner contributes no player record.
#[test]
fn unresolved_camera_is_excluded() {
    let mut f0 = frame(0);
    created(&mut f0, 3, CAMERA_TYPE);
    updated(&mut f0, 3, BALLCAM, AttributeData::Boolean(true));
    let frames = vec![f0];
    let ltl = parse_lifetimes(&frames);
    let buckets = player_id_buckets(&ltl, &schema());
    assert!(buckets.is_empty());
}

// The ping chain walks the same owner reference.
#[test]
fn ping_follows_owner_chain() {
    let mut f0 = frame(0);
    created(&mut f0, 7, PRI_ACTOR_TYPE);
    created(&mut f0, 3, CAMERA_TYPE);
    updated(&mut f0, 3, CAM_TO_PRI, AttributeData::ActiveActor { active: true, actor: 7 });
    let mut f1 = frame(4);
    updated(&mut f1, 7, PING, AttributeData::Byte(33));
    let frames = vec![f0, f1];
    let ltl = parse_lifetimes(&frames);
    // the camera lifetime is flushed after the info-actor's
    let cam_index = if matches!(ltl.list[0].events[0].event, ChangeEvent::N(na) if na.object_id == CAMERA_TYPE) {
        0
    } else {
        1
    };
    let ping = get_ping_from_cam(cam_index, &ltl, CAM_TO_PRI, PING);
    assert_eq!(ping, Some((4, 33)));
    assert_eq!(get_ping_from_cam(1 - cam_index, &ltl, CAM_TO_PRI, PING), None);
}

fn reservation(player: u64, flag1: bool, flag2: bool) -> AttributeData {
    AttributeData::Reservation { player, flag1, flag2 }
}

// Reservation transitions: a drop from an engaged pair straight to
// both-false is a disconnect at that time; re-observations are not
// double-counted.
#[test]
fn disconnect_drop_from_engaged_state() {
    let mut f0 = frame(0);
    created(&mut f0, 2, GRI_ACTOR_TYPE);
    updated(&mut f0, 2, RESERVATIONS, reservation(202, true, false));
    let mut f1 = frame(7);
    updated(&mut f1, 2, RESERVATIONS, reservation(202, false, false));
    let frames = vec![f0, f1];
    let ltl = parse_lifetimes(&frames);
    let disc = get_disconnect_players(&ltl, &schema());
    assert_eq!(disc, vec![(202, 7)]);
}

#[test]
fn disconnect_not_double_counted() {
    let mut f0 = frame(0);
    created(&mut f0, 2, GRI_ACTOR_TYPE);
    // baseline first: no disconnect on the first observation
    updated(&mut f0, 2, RESERVATIONS, reservation(202, false, false));
    let mut f1 = frame(3);
    updated(&mut f1, 2, RESERVATIONS, reservation(202, true, false));
    let mut f2 = frame(9);
    updated(&mut f2, 2, RESERVATIONS, reservation(202, false, false));
    let mut f3 = frame(11);
    updated(&mut f3, 2, RESERVATIONS, reservation(202, true, false));
    let mut f4 = frame(15);
    updated(&mut f4, 2, RESERVATIONS, reservation(202, false, false));
    let frames = vec![f0, f1, f2, f3, f4];
    let ltl = parse_lifetimes(&frames);
    let disc = get_disconnect_players(&ltl, &schema());
    // only the first genuine drop is recorded
    assert_eq!(disc, vec![(202, 9)]);
}

#[test]
fn baseline_arrival_is_not_a_disconnect() {
    let mut f0 = frame(0);
    created(&mut f0, 2, GRI_ACTOR_TYPE);
    updated(&mut f0, 2, RESERVATIONS, reservation(202, false, false));
    let frames = vec![f0];
    let ltl = parse_lifetimes(&frames);
    let disc = get_disconnect_players(&ltl, &schema());
    assert!(disc.is_empty());
}

fn ball_event(frame: usize, time: i64, variant: BallcamVariant) -> BallcamEvent {
    BallcamEvent::from(frame, time, variant)
}

fn game_event(frame: usize, time: i64, variant: GameState) -> GameStateEvent {
    GameStateEvent::from(time, frame, variant)
}

// The scenario merge: phases [Countdown@0, Active@3, Goal@10, Active@12]
// against camera [Start@0(off), Update@5(on), Disconnect@12].
#[test]
fn merge_scenario_totals() {
    let ball = vec![
        ball_event(0, 0, BallcamVariant::Start),
        ball_event(5, 5, BallcamVariant::Update(true)),
        ball_event(12, 12, BallcamVariant::Disconnect),
    ];
    let game = vec![
        game_event(0, 0, GameState::Countdown),
        game_event(3, 3, GameState::Active),
        game_event(10, 10, GameState::Goal),
        game_event(12, 12, GameState::Active),
    ];
    let res = process_ballcam(&ball, &game, 0).unwrap();
    assert_eq!(res.total_time_all, 12);
    assert_eq!(res.ballcam_all, 7);
    assert_eq!(res.swaps_all, 1);
    assert_eq!(res.total_time_with_freeze, 10);
    assert_eq!(res.ballcam_with_freeze, 5);
    assert_eq!(res.swaps_with_freeze, 1);
    assert_eq!(res.total_time_active_only, 7);
    assert_eq!(res.ballcam_active_only, 5);
    assert_eq!(res.swaps_active_only, 1);
}

// Bucket monotonicity on the scenario's outcome.
#[test]
fn merge_scenario_bucket_monotonicity() {
    let ball = vec![
        ball_event(0, 0, BallcamVariant::Start),
        ball_event(5, 5, BallcamVariant::Update(true)),
        ball_event(12, 12, BallcamVariant::Disconnect),
    ];
    let game = vec![
        game_event(0, 0, GameState::Countdown),
        game_event(3, 3, GameState::Active),
        game_event(10, 10, GameState::Goal),
        game_event(12, 12, GameState::Active),
    ];
    let res = process_ballcam(&ball, &game, 0).unwrap();
    assert!(res.total_time_active_only <= res.total_time_with_freeze);
    assert!(res.total_time_with_freeze <= res.total_time_all);
    assert!(res.ballcam_active_only <= res.total_time_active_only);
    assert!(res.ballcam_with_freeze <= res.total_time_with_freeze);
    assert!(res.ballcam_all <= res.total_time_all);
    assert!(res.swaps_active_only <= res.swaps_with_freeze);
    assert!(res.swaps_with_freeze <= res.swaps_all);
}

// An empty phase timeline yields no result rather than totals.
#[test]
fn merge_requires_phase_timeline() {
    let ball = vec![
        ball_event(0, 0, BallcamVariant::Start),
        ball_event(5, 5, BallcamVariant::Disconnect),
    ];
    let game: Vec<GameStateEvent> = vec![];
    assert!(process_ballcam(&ball, &game, 0).is_none());
}

// Replaying an identical value, or a change within the debounce window,
// never counts a swap; a change beyond the window counts in every open
// bucket.
#[test]
fn debounce_suppresses_swaps() {
    let mut r = PlayerResult::new();
    // identical value: no swap however large the gap
    r.update(0, false, false, 100, &GameState::Active, 10);
    assert_eq!((r.swaps_all, r.swaps_with_freeze, r.swaps_active_only), (0, 0, 0));
    // changed value within the debounce window: no swap in any bucket
    r.update(100, false, true, 105, &GameState::Active, 10);
    assert_eq!((r.swaps_all, r.swaps_with_freeze, r.swaps_active_only), (0, 0, 0));
    // changed value beyond the window: one swap in every open bucket
    r.update(105, true, false, 150, &GameState::Active, 10);
    assert_eq!((r.swaps_all, r.swaps_with_freeze, r.swaps_active_only), (1, 1, 1));
    // during the freeze, only the all-time bucket counts
    r.update(150, false, true, 200, &GameState::Goal, 10);
    assert_eq!((r.swaps_all, r.swaps_with_freeze, r.swaps_active_only), (2, 1, 1));
    assert_eq!(r.total_time_all, 200);
    assert_eq!(r.total_time_with_freeze, 150);
    assert_eq!(r.total_time_active_only, 150);
    assert_eq!(r.ballcam_all, 45);
}

// The timeline builder wraps the toggles in a start marker at the first
// owned event and a terminal marker at the last accounted moment.
#[test]
fn ballcam_list_wraps_and_sorts() {
    let mut f0 = frame(0);
    created(&mut f0, 3, CAMERA_TYPE);
    let mut f1 = frame(5);
    updated(&mut f1, 3, BALLCAM, AttributeData::Boolean(true));
    let mut f2 = frame(12);
    f2.deleted_actors.push(3);
    let frames = vec![f0, f1, f2];
    let ltl = parse_lifetimes(&frames);
    let v = get_ballcam_list(&ltl, &vec![0], &schema(), None).unwrap();
    assert_eq!(v.len(), 3);
    assert_eq!(v[0], ball_event(0, 0, BallcamVariant::Start));
    assert_eq!(v[1], ball_event(1, 5, BallcamVariant::Update(true)));
    assert_eq!(v[2], ball_event(2, 12, BallcamVariant::Disconnect));
}

// Toggles at or past the disconnect cutoff are dropped and the terminal
// marker stops at the last moment before it.
#[test]
fn ballcam_list_respects_cutoff() {
    let mut f0 = frame(0);
    created(&mut f0, 3, CAMERA_TYPE);
    let mut f1 = frame(5);
    updated(&mut f1, 3, BALLCAM, AttributeData::Boolean(true));
    let mut f2 = frame(8);
    updated(&mut f2, 3, BALLCAM, AttributeData::Boolean(false));
    let mut f3 = frame(12);
    f3.deleted_actors.push(3);
    let frames = vec![f0, f1, f2, f3];
    let ltl = parse_lifetimes(&frames);
    let v = get_ballcam_list(&ltl, &vec![0], &schema(), Some(8)).unwrap();
    assert_eq!(v.len(), 3);
    assert_eq!(v[0], ball_event(0, 0, BallcamVariant::Start));
    assert_eq!(v[1], ball_event(1, 5, BallcamVariant::Update(true)));
    assert_eq!(v[2], ball_event(1, 5, BallcamVariant::Disconnect));
    // a cutoff before every owned event leaves nothing to account
    assert!(get_ballcam_list(&ltl, &vec![0], &schema(), Some(0)).is_none());
}

// The phase extractor keeps input order, keeps consecutive equal phases,
// and ignores unrecognized state ids.
#[test]
fn state_changes_follow_updates() {
    let mut f0 = frame(0);
    created(&mut f0, 1, STATE_ACTOR_TYPE);
    updated(&mut f0, 1, STATE_NAME, AttributeData::Int(COUNTDOWN_NAME));
    let mut f1 = frame(3);
    updated(&mut f1, 1, STATE_NAME, AttributeData::Int(ACTIVE_NAME));
    let mut f2 = frame(4);
    updated(&mut f2, 1, STATE_NAME, AttributeData::Int(77));
    let mut f3 = frame(9);
    updated(&mut f3, 1, STATE_NAME, AttributeData::Int(ACTIVE_NAME));
    let frames = vec![f0, f1, f2, f3];
    let ltl = parse_lifetimes(&frames);
    let phases = get_state_changes(&ltl, &schema());
    assert_eq!(
        phases,
        vec![
            game_event(0, 0, GameState::Countdown),
            game_event(1, 3, GameState::Active),
            game_event(3, 9, GameState::Active),
        ]
    );
}

// End to end: one player, the scenario's phase timeline and toggles,
// scored through the whole pipeline.
#[test]
fn analyze_replay_scores_one_player() {
    let mut f0 = frame(0);
    created(&mut f0, 7, PRI_ACTOR_TYPE);
    created(&mut f0, 1, STATE_ACTOR_TYPE);
    created(&mut f0, 3, CAMERA_TYPE);
    updated(&mut f0, 3, CAM_TO_PRI, AttributeData::ActiveActor { active: true, actor: 7 });
    updated(&mut f0, 7, PRI_TO_UNIQUE, AttributeData::UniqueId(101));
    updated(&mut f0, 1, STATE_NAME, AttributeData::Int(COUNTDOWN_NAME));
    let mut f1 = frame(3);
    updated(&mut f1, 1, STATE_NAME, AttributeData::Int(ACTIVE_NAME));
    let mut f2 = frame(5);
    updated(&mut f2, 3, BALLCAM, AttributeData::Boolean(true));
    let mut f3 = frame(10);
    updated(&mut f3, 1, STATE_NAME, AttributeData::Int(GOAL_NAME));
    let mut f4 = frame(12);
    updated(&mut f4, 1, STATE_NAME, AttributeData::Int(ACTIVE_NAME));
    f4.deleted_actors.push(3);
    let frames = vec![f0, f1, f2, f3, f4];

    let a = analyze_replay(&frames, &objects_table(), &names_table(), 0).unwrap();
    assert_eq!(a.results.len(), 1);
    let (pid, res) = &a.results[0];
    assert_eq!(*pid, 101);
    assert_eq!(res.total_time_all, 12);
    assert_eq!(res.ballcam_all, 7);
    assert_eq!(res.swaps_all, 1);
    assert_eq!(res.total_time_with_freeze, 10);
    assert_eq!(res.ballcam_with_freeze, 5);
    assert_eq!(res.swaps_with_freeze, 1);
    assert_eq!(res.total_time_active_only, 7);
    assert_eq!(res.ballcam_active_only, 5);
    assert_eq!(res.swaps_active_only, 1);
}

// A reconnecting player owns two camera lifetimes; their toggles merge into
// one timeline, and truncation is by event time, not lifetime position.
#[test]
fn reconnect_merges_two_camera_lifetimes() {
    let mut f0 = frame(0);
    created(&mut f0, 7, PRI_ACTOR_TYPE);
    created(&mut f0, 3, CAMERA_TYPE);
    updated(&mut f0, 3, CAM_TO_PRI, AttributeData::ActiveActor { active: true, actor: 7 });
    updated(&mut f0, 7, PRI_TO_UNIQUE, AttributeData::UniqueId(101));
    let mut f1 = frame(4);
    updated(&mut f1, 3, BALLCAM, AttributeData::Boolean(true));
    let mut f2 = frame(6);
    f2.deleted_actors.push(3);
    // the reconnect: a fresh camera actor for the same info-actor
    let mut f3 = frame(8);
    created(&mut f3, 4, CAMERA_TYPE);
    updated(&mut f3, 4, CAM_TO_PRI, AttributeData::ActiveActor { active: true, actor: 7 });
    let mut f4 = frame(10);
    updated(&mut f4, 4, BALLCAM, AttributeData::Boolean(false));
    let frames = vec![f0, f1, f2, f3, f4];
    let ltl = parse_lifetimes(&frames);
    let sch = schema();
    let buckets = player_id_buckets(&ltl, &sch);
    assert_eq!(buckets.len(), 1);
    assert_eq!(buckets[0].0, 101);
    assert_eq!(buckets[0].1.len(), 2);

    let v = get_ballcam_list(&ltl, &buckets[0].1, &sch, None).unwrap();
    assert_eq!(
        v,
        vec![
            ball_event(0, 0, BallcamVariant::Start),
            ball_event(1, 4, BallcamVariant::Update(true)),
            ball_event(4, 10, BallcamVariant::Update(false)),
            ball_event(4, 10, BallcamVariant::Disconnect),
        ]
    );
    // a cutoff inside the first lifetime also silences the later lifetime's
    // toggles at or past it
    let truncated = get_ballcam_list(&ltl, &buckets[0].1, &sch, Some(5)).unwrap();
    assert_eq!(
        truncated,
        vec![
            ball_event(0, 0, BallcamVariant::Start),
            ball_event(1, 4, BallcamVariant::Update(true)),
            ball_event(1, 4, BallcamVariant::Disconnect),
        ]
    );
}

// Two players are scored independently through the whole pipeline.
#[test]
fn analyze_replay_scores_two_players() {
    let mut f0 = frame(0);
    created(&mut f0, 7, PRI_ACTOR_TYPE);
    created(&mut f0, 8, PRI_ACTOR_TYPE);
    created(&mut f0, 1, STATE_ACTOR_TYPE);
    created(&mut f0, 3, CAMERA_TYPE);
    created(&mut f0, 4, CAMERA_TYPE);
    updated(&mut f0, 3, CAM_TO_PRI, AttributeData::ActiveActor { active: true, actor: 7 });
    updated(&mut f0, 4, CAM_TO_PRI, AttributeData::ActiveActor { active: true, actor: 8 });
    updated(&mut f0, 7, PRI_TO_UNIQUE, AttributeData::UniqueId(101));
    updated(&mut f0, 8, PRI_TO_UNIQUE, AttributeData::UniqueId(102));
    updated(&mut f0, 1, STATE_NAME, AttributeData::Int(ACTIVE_NAME));
    let mut f1 = frame(2);
    updated(&mut f1, 3, BALLCAM, AttributeData::Boolean(true));
    let mut f2 = frame(10);
    f2.deleted_actors.push(3);
    f2.deleted_actors.push(4);
    let frames = vec![f0, f1, f2];
    let a = analyze_replay(&frames, &objects_table(), &names_table(), 0).unwrap();
    assert_eq!(a.results.len(), 2);
    let one = a.results.iter().find(|e| e.0 == 101).unwrap();
    let two = a.results.iter().find(|e| e.0 == 102).unwrap();
    // player one toggles on at t=2 and stays on until the end at t=10
    assert_eq!(one.1.total_time_all, 10);
    assert_eq!(one.1.ballcam_all, 8);
    assert_eq!(one.1.swaps_all, 1);
    // player two never toggles
    assert_eq!(two.1.total_time_all, 10);
    assert_eq!(two.1.ballcam_all, 0);
    assert_eq!(two.1.swaps_all, 0);
}

#[test]
fn analyze_replay_empty_stream() {
    let frames: Vec<FrameDelta> = vec![];
    let a = analyze_replay(&frames, &objects_table(), &names_table(), 0).unwrap();
    assert!(a.results.is_empty());
}

#[test]
fn analyze_replay_rejects_unordered_times() {
    let frames = vec![frame(5), frame(3)];
    let r = analyze_replay(&frames, &objects_table(), &names_table(), 0);
    assert_eq!(r.unwrap_err(), ReplayError::TimesNotMonotone);
}

#[test]
fn analyze_replay_rejects_out_of_range_times() {
    let frames = vec![frame(i64::MAX)];
    let r = analyze_replay(&frames, &objects_table(), &names_table(), 0);
    assert_eq!(r.unwrap_err(), ReplayError::TimesOutOfRange);
}

#[test]
fn analyze_replay_reports_missing_schema() {
    let frames = vec![frame(0)];
    let objects: Vec<String> = vec![];
    let r = analyze_replay(&frames, &objects, &names_table(), 0);
    assert_eq!(r.unwrap_err(), ReplayError::Schema(SchemaError::MissingCameraType));
}

// The flat tally: camera-on time and total time between samples, toggles
// debounced, the run closed at the latest accounted moment.
#[test]
fn flat_tally_counts_toggles_and_time() {
    let mut f0 = frame(0);
    created(&mut f0, 7, PRI_ACTOR_TYPE);
    created(&mut f0, 3, CAMERA_TYPE);
    updated(&mut f0, 3, CAM_TO_PRI, AttributeData::ActiveActor { active: true, actor: 7 });
    updated(&mut f0, 7, PRI_TO_UNIQUE, AttributeData::UniqueId(101));
    let mut f1 = frame(5);
    updated(&mut f1, 3, BALLCAM, AttributeData::Boolean(true));
    let mut f2 = frame(9);
    updated(&mut f2, 3, BALLCAM, AttributeData::Boolean(false));
    let mut f3 = frame(12);
    f3.deleted_actors.push(3);
    let frames = vec![f0, f1, f2, f3];
    let ltl = parse_lifetimes(&frames);
    let r = replay_stats_rl::tally::ballcam_lifetimes(&ltl, &schema(), 0);
    assert_eq!(r.results, vec![(101, (4, 12, 2))]);
}

// The transition histogram: first observations count under a `None`
// predecessor; changed pairs count under their predecessor; repeats do not.
#[test]
fn reservation_transition_histogram() {
    let mut f0 = frame(0);
    updated(&mut f0, 2, RESERVATIONS, reservation(7, true, false));
    updated(&mut f0, 2, RESERVATIONS, reservation(8, false, true));
    let mut f1 = frame(4);
    updated(&mut f1, 2, RESERVATIONS, reservation(7, false, false));
    updated(&mut f1, 2, RESERVATIONS, reservation(7, false, false));
    let frames = vec![f0, f1];
    let mut results: Vec<(replay_stats_rl::reservations::Transition, i64)> =
        vec![((None, (true, false)), 5)];
    replay_stats_rl::reservations::reservation_transitions(&frames, RESERVATIONS, &mut results);
    assert_eq!(
        results,
        vec![
            ((None, (true, false)), 6),
            ((None, (false, true)), 1),
            ((Some((true, false)), (false, false)), 1),
        ]
    );
}

#[test]
fn fix_bytes_renders_little_endian_hex() {
    assert_eq!(replay_stats_rl::meta::fix_bytes(0x0123456789abcdef), "efcdab8967452301");
    assert_eq!(replay_stats_rl::meta::fix_bytes(0), "0000000000000000");
    assert_eq!(replay_stats_rl::meta::fix_bytes(u64::MAX), "ffffffffffffffff");
}

#[test]
fn analyze_replay_rejects_unordered_phase_timeline() {
    // two state-bearing actors whose updates interleave out of frame order
    let mut f0 = frame(0);
    created(&mut f0, 20, STATE_ACTOR_TYPE);
    let mut f1 = frame(3);
    created(&mut f1, 21, STATE_ACTOR_TYPE);
    let mut f2 = frame(5);
    updated(&mut f2, 20, STATE_NAME, AttributeData::Int(ACTIVE_NAME));
    let mut f3 = frame(9);
    updated(&mut f3, 21, STATE_NAME, AttributeData::Int(GOAL_NAME));
    let mut f4 = frame(12);
    updated(&mut f4, 20, STATE_NAME, AttributeData::Int(ACTIVE_NAME));
    let frames = vec![f0, f1, f2, f3, f4];
    let r = analyze_replay(&frames, &objects_table(), &names_table(), 0);
    assert_eq!(r.unwrap_err(), ReplayError::PhaseTimelineUnordered);
}

#[test]
fn schema_reports_each_missing_object() {
    let objects = objects_table();
    let prefixes: Vec<(usize, SchemaError)> = vec![
        (1, SchemaError::MissingCameraOwnerField),
        (2, SchemaError::MissingIdentityField),
        (3, SchemaError::MissingBallcamField),
        (5, SchemaError::MissingStateField),
    ];
    for (len, want) in prefixes {
        let table: Vec<String> = objects.iter().take(len).cloned().collect();
        assert_eq!(Schema::resolve(&table, &names_table()).unwrap_err(), want);
    }
}

#[test]
fn metadata_carries_plain_values() {
    let md = Metadata::new(
        Some("player one".to_string()),
        Date { year: 2023, month: 6, day: 30 },
        "TAGame.Replay_Soccar_TA-2".to_string(),
    );
    assert_eq!(md.name.as_deref(), Some("player one"));
    assert_eq!(md.date, Date { year: 2023, month: 6, day: 30 });
    assert_eq!(md.playlist, "TAGame.Replay_Soccar_TA-2");
}
