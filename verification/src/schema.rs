//! Resolution of the well-known object-type and name identifiers a replay's
//! static tables assign to the attributes the analysis reads.

use vstd::prelude::*;

verus! {

/// First index of `name` in a table of strings.
pub open spec fn name_index(table: Seq<String>, name: Seq<char>) -> Option<int>
    decreases table.len(),
{
    if table.len() == 0 {
        None
    } else if table[0]@ == name {
        Some(0)
    } else {
        match name_index(table.drop_first(), name) {
            Some(i) => Some(i + 1),
            None => None,
        }
    }
}

pub proof fn lemma_name_index_at(table: Seq<String>, name: Seq<char>, i: int)
    requires
        0 <= i < table.len(),
        table[i]@ == name,
        forall|j: int| 0 <= j < i ==> (#[trigger] table[j])@ != name,
    ensures
        name_index(table, name) == Some(i),
    decreases i,
{
    if i > 0 {
        lemma_name_index_at(table.drop_first(), name, i - 1);
        assert(forall|j: int|
            0 <= j < table.drop_first().len() ==> #[trigger] table.drop_first()[j] == table[j + 1]);
    }
}

pub proof fn lemma_name_index_none(table: Seq<String>, name: Seq<char>)
    requires
        forall|j: int| 0 <= j < table.len() ==> (#[trigger] table[j])@ != name,
    ensures
        name_index(table, name) == None::<int>,
    decreases table.len(),
{
    if table.len() > 0 {
        assert(forall|j: int|
            0 <= j < table.drop_first().len() ==> #[trigger] table.drop_first()[j] == table[j + 1]);
        lemma_name_index_none(table.drop_first(), name);
    }
}

/// Position of `name` in a static lookup table, as the replay format indexes
/// its tables: by `i32` identifiers.
pub fn get_object_id(table: &Vec<String>, name: &str) -> (r: Option<i32>)
    requires
        table@.len() <= i32::MAX,
    ensures
        match r {
            Some(i) => name_index(table@, name@) == Some(i as int),
            None => name_index(table@, name@) == None::<int>,
        },
{
    let target: String = name.to_owned();
    let mut i: usize = 0;
    while i < table.len()
        invariant
            i <= table@.len(),
            table@.len() <= i32::MAX,
            target@ == name@,
            forall|j: int| 0 <= j < i ==> (#[trigger] table@[j])@ != name@,
        decreases table@.len() - i,
    {
        if table[i] == target {
            proof {
                lemma_name_index_at(table@, name@, i as int);
            }
            return Some(i as i32);
        }
        i += 1;
    }
    proof {
        lemma_name_index_none(table@, name@);
    }
    None
}

/// The object-type name of camera-settings actors.
pub open spec fn camera_type_name() -> Seq<char> {
    "TAGame.Default__CameraSettingsActor_TA"@
}

/// The attribute referencing a camera's owning info-actor.
pub open spec fn camera_owner_name() -> Seq<char> {
    "TAGame.CameraSettingsActor_TA:PRI"@
}

/// The attribute holding an info-actor's stable player identity.
pub open spec fn identity_name() -> Seq<char> {
    "Engine.PlayerReplicationInfo:UniqueId"@
}

/// The camera-mode boolean attribute.
pub open spec fn ballcam_name() -> Seq<char> {
    "TAGame.CameraSettingsActor_TA:bUsingSecondaryCamera"@
}

/// The per-player reservation-status attribute.
pub open spec fn reservations_name() -> Seq<char> {
    "ProjectX.GRI_X:Reservations"@
}

/// The replicated match-state attribute.
pub open spec fn state_name() -> Seq<char> {
    "TAGame.GameEvent_TA:ReplicatedStateName"@
}

/// An info-actor's ping attribute.
pub open spec fn ping_name() -> Seq<char> {
    "Engine.PlayerReplicationInfo:Ping"@
}

pub open spec fn countdown_name() -> Seq<char> {
    "Countdown"@
}

pub open spec fn active_name() -> Seq<char> {
    "Active"@
}

pub open spec fn goal_name() -> Seq<char> {
    "PostGoalScored"@
}

/// A required well-known name is absent from the replay's static tables;
/// the file cannot be scored.
#[derive(Debug, Clone, Copy, PartialEq, Eq, Structural)]
pub enum SchemaError {
    MissingCameraType,
    MissingCameraOwnerField,
    MissingIdentityField,
    MissingBallcamField,
    MissingReservationsField,
    MissingStateField,
}

/// The well-known identifiers of one replay file, resolved once from its
/// static tables.
#[derive(Debug, Clone, Copy, PartialEq, Eq)]
pub struct Schema {
    pub camera_create: i32,
    pub cam_to_pri: i32,
    pub pri_to_unique: i32,
    pub ballcam_id: i32,
    pub reservations: i32,
    pub state_change_object: i32,
    pub countdown_event: Option<i32>,
    pub active_event: Option<i32>,
    pub goal_event: Option<i32>,
    pub ping_object: Option<i32>,
}

impl Schema {
    /// The schema fields are exactly the table positions of the well-known
    /// names.
    pub open spec fn resolved(self, objects: Seq<String>, names: Seq<String>) -> bool {
        &&& name_index(objects, camera_type_name()) == Some(self.camera_create as int)
        &&& name_index(objects, camera_owner_name()) == Some(self.cam_to_pri as int)
        &&& name_index(objects, identity_name()) == Some(self.pri_to_unique as int)
        &&& name_index(objects, ballcam_name()) == Some(self.ballcam_id as int)
        &&& name_index(objects, reservations_name()) == Some(self.reservations as int)
        &&& name_index(objects, state_name()) == Some(self.state_change_object as int)
        &&& match self.countdown_event {
            Some(x) => name_index(names, countdown_name()) == Some(x as int),
            None => name_index(names, countdown_name()) == None::<int>,
        }
        &&& match self.active_event {
            Some(x) => name_index(names, active_name()) == Some(x as int),
            None => name_index(names, active_name()) == None::<int>,
        }
        &&& match self.goal_event {
            Some(x) => name_index(names, goal_name()) == Some(x as int),
            None => name_index(names, goal_name()) == None::<int>,
        }
        &&& match self.ping_object {
            Some(x) => name_index(objects, ping_name()) == Some(x as int),
            None => name_index(objects, ping_name()) == None::<int>,
        }
    }

    /// Looks up every well-known identifier.  A missing required object name
    /// is fatal for the file; the phase names and the ping attribute are
    /// optional.
    pub fn resolve(objects: &Vec<String>, names: &Vec<String>) -> (r: Result<Schema, SchemaError>)
        requires
            objects@.len() <= i32::MAX,
            names@.len() <= i32::MAX,
        ensures
            match r {
                Ok(s) => s.resolved(objects@, names@),
                Err(e) => match e {
                    SchemaError::MissingCameraType => name_index(objects@, camera_type_name())
                        == None::<int>,
                    SchemaError::MissingCameraOwnerField => name_index(
                        objects@,
                        camera_owner_name(),
                    ) == None::<int>,
                    SchemaError::MissingIdentityField => name_index(objects@, identity_name())
                        == None::<int>,
                    SchemaError::MissingBallcamField => name_index(objects@, ballcam_name())
                        == None::<int>,
                    SchemaError::MissingReservationsField => name_index(
                        objects@,
                        reservations_name(),
                    ) == None::<int>,
                    SchemaError::MissingStateField => name_index(objects@, state_name())
                        == None::<int>,
                },
            },
    {
        let camera_create = match get_object_id(objects, "TAGame.Default__CameraSettingsActor_TA") {
            Some(x) => x,
            None => {
                return Err(SchemaError::MissingCameraType);
            },
        };
        let cam_to_pri = match get_object_id(objects, "TAGame.CameraSettingsActor_TA:PRI") {
            Some(x) => x,
            None => {
                return Err(SchemaError::MissingCameraOwnerField);
            },
        };
        let pri_to_unique = match get_object_id(objects, "Engine.PlayerReplicationInfo:UniqueId") {
            Some(x) => x,
            None => {
                return Err(SchemaError::MissingIdentityField);
            },
        };
        let ballcam_id = match get_object_id(
            objects,
            "TAGame.CameraSettingsActor_TA:bUsingSecondaryCamera",
        ) {
            Some(x) => x,
            None => {
                return Err(SchemaError::MissingBallcamField);
            },
        };
        let reservations = match get_object_id(objects, "ProjectX.GRI_X:Reservations") {
            Some(x) => x,
            None => {
                return Err(SchemaError::MissingReservationsField);
            },
        };
        let state_change_object = match get_object_id(
            objects,
            "TAGame.GameEvent_TA:ReplicatedStateName",
        ) {
            Some(x) => x,
            None => {
                return Err(SchemaError::MissingStateField);
            },
        };
        let countdown_event = get_object_id(names, "Countdown");
        let active_event = get_object_id(names, "Active");
        let goal_event = get_object_id(names, "PostGoalScored");
        let ping_object = get_object_id(objects, "Engine.PlayerReplicationInfo:Ping");
        Ok(
            Schema {
                camera_create,
                cam_to_pri,
                pri_to_unique,
                ballcam_id,
                reservations,
                state_change_object,
                countdown_event,
                active_event,
                goal_event,
                ping_object,
            },
        )
    }
}

} // verus!
