//! Resolution of camera lifetimes to stable player identities by walking the
//! camera → info-actor → identity reference chain at the frame the reference
//! was captured.

use vstd::prelude::*;

use crate::assoc::{bucket_of, find_idx_u64, lemma_assoc_find, lemma_assoc_push,
    lemma_assoc_update_value, unique_keys};
use crate::events::{AttributeData, ChangeEvent, Event};
use crate::lifetimes::{Lifetime, LifetimeList};
use crate::schema::Schema;

verus! {

/// Whether an event is an attribute update on object-type `obj`.
pub open spec fn is_update_on(ev: Event, obj: i32) -> bool {
    match ev.event {
        ChangeEvent::U(ua) => ua.object_id == obj,
        _ => false,
    }
}

/// The payload of an update event.
pub open spec fn update_attribute(ev: Event) -> AttributeData {
    match ev.event {
        ChangeEvent::U(ua) => ua.attribute,
        _ => AttributeData::Other,
    }
}

/// The first update event on object-type `obj`, if any.
pub open spec fn first_update_with(evs: Seq<Event>, obj: i32) -> Option<Event>
    decreases evs.len(),
{
    if evs.len() == 0 {
        None
    } else if is_update_on(evs[0], obj) {
        Some(evs[0])
    } else {
        first_update_with(evs.drop_first(), obj)
    }
}

pub proof fn lemma_first_update_at(evs: Seq<Event>, obj: i32, i: int)
    requires
        0 <= i < evs.len(),
        is_update_on(evs[i], obj),
        forall|j: int| 0 <= j < i ==> !is_update_on(#[trigger] evs[j], obj),
    ensures
        first_update_with(evs, obj) == Some(evs[i]),
    decreases i,
{
    if i > 0 {
        lemma_first_update_at(evs.drop_first(), obj, i - 1);
        assert(forall|j: int|
            0 <= j < evs.drop_first().len() ==> #[trigger] evs.drop_first()[j] == evs[j + 1]);
    }
}

pub proof fn lemma_first_update_none(evs: Seq<Event>, obj: i32)
    requires
        forall|j: int| 0 <= j < evs.len() ==> !is_update_on(#[trigger] evs[j], obj),
    ensures
        first_update_with(evs, obj) == None::<Event>,
    decreases evs.len(),
{
    if evs.len() > 0 {
        assert(forall|j: int|
            0 <= j < evs.drop_first().len() ==> #[trigger] evs.drop_first()[j] == evs[j + 1]);
        lemma_first_update_none(evs.drop_first(), obj);
    }
}

/// Index of the first update event on object-type `obj`.
pub fn find_first_update(evs: &Vec<Event>, obj: i32) -> (r: Option<usize>)
    ensures
        match r {
            Some(i) => i < evs@.len() && is_update_on(evs@[i as int], obj) && first_update_with(
                evs@,
                obj,
            ) == Some(evs@[i as int]),
            None => first_update_with(evs@, obj) == None::<Event>,
        },
{
    let mut i: usize = 0;
    while i < evs.len()
        invariant
            i <= evs@.len(),
            forall|j: int| 0 <= j < i ==> !is_update_on(#[trigger] evs@[j], obj),
        decreases evs@.len() - i,
    {
        let hit = match &evs[i].event {
            ChangeEvent::U(ua) => ua.object_id == obj,
            _ => false,
        };
        if hit {
            proof {
                lemma_first_update_at(evs@, obj, i as int);
            }
            return Some(i);
        }
        i += 1;
    }
    proof {
        lemma_first_update_none(evs@, obj);
    }
    None
}

/// Reads the target actor identifier out of an actor-reference payload.
pub fn parse_actor_reference(atr: &AttributeData) -> (r: Result<i32, ()>)
    ensures
        match r {
            Ok(a) => *atr matches AttributeData::ActiveActor { active: _, actor } && (match *atr {
                AttributeData::ActiveActor { active, actor } => actor == a,
                _ => false,
            }),
            Err(_) => !(*atr matches AttributeData::ActiveActor { .. }),
        },
{
    if let AttributeData::ActiveActor { active: _, actor } = atr {
        Ok(*actor)
    } else {
        Err(())
    }
}

/// Whether a lifetime starts with the creation of a camera-settings actor.
pub open spec fn is_camera_lifetime(lt: Lifetime, camera_create: i32) -> bool {
    match lt.events@[0].event {
        ChangeEvent::N(na) => na.object_id == camera_create,
        _ => false,
    }
}

/// The player identity a camera lifetime resolves to: the first owner
/// reference is followed, at the frame it was captured, to the info-actor
/// lifetime, whose first identity attribute is taken.  Any failed step
/// excludes the lifetime.
pub open spec fn resolve_camera(ltl: LifetimeList, i: int, sch: Schema) -> Option<u64> {
    let lt = ltl.list@[i];
    if !is_camera_lifetime(lt, sch.camera_create) {
        None
    } else {
        match first_update_with(lt.events@, sch.cam_to_pri) {
            None => None,
            Some(ev) => match update_attribute(ev) {
                AttributeData::ActiveActor { active, actor } => {
                    match ltl.lookup_spec(actor, ev.frame as int) {
                        None => None,
                        Some(pi) => match first_update_with(
                            ltl.list@[pi].events@,
                            sch.pri_to_unique,
                        ) {
                            None => None,
                            Some(ev2) => match update_attribute(ev2) {
                                AttributeData::UniqueId(u) => Some(u),
                                _ => None,
                            },
                        },
                    }
                },
                _ => None,
            },
        }
    }
}

/// Walks the reference chain of the camera lifetime at `index`.
fn resolve_camera_at(ltl: &LifetimeList, index: usize, sch: &Schema) -> (r: Option<u64>)
    requires
        ltl.wf(),
        index < ltl.list@.len(),
    ensures
        r == resolve_camera(*ltl, index as int, *sch),
{
    let lt = &ltl.list[index];
    assert(lt.wf());
    let is_camera = match &lt.events[0].event {
        ChangeEvent::N(na) => na.object_id == sch.camera_create,
        _ => false,
    };
    if !is_camera {
        return None;
    }
    let ei = match find_first_update(&lt.events, sch.cam_to_pri) {
        Some(ei) => ei,
        None => {
            return None;
        },
    };
    let ev = lt.events[ei];
    let atr = match &ev.event {
        ChangeEvent::U(ua) => ua.attribute,
        _ => {
            return None;
        },
    };
    let pri_actor = match parse_actor_reference(&atr) {
        Ok(a) => a,
        Err(_) => {
            return None;
        },
    };
    let pri_lifetime = match ltl.lookup_actor(pri_actor, ev.frame) {
        Ok(plt) => plt,
        Err(_) => {
            return None;
        },
    };
    let ei2 = match find_first_update(&pri_lifetime.events, sch.pri_to_unique) {
        Some(ei2) => ei2,
        None => {
            return None;
        },
    };
    let ev2 = pri_lifetime.events[ei2];
    match &ev2.event {
        ChangeEvent::U(ua) => match ua.attribute {
            AttributeData::UniqueId(u) => Some(u),
            _ => None,
        },
        _ => None,
    }
}

/// The first-reported ping of the info-actor a camera lifetime references:
/// the owner chain is walked as for identity resolution, then the first ping
/// update's time and byte value are taken.
pub open spec fn ping_spec(ltl: LifetimeList, i: int, cam_to_pri: i32, ping_object: i32) -> Option<
    (i64, usize),
> {
    match first_update_with(ltl.list@[i].events@, cam_to_pri) {
        None => None,
        Some(ev) => match update_attribute(ev) {
            AttributeData::ActiveActor { active, actor } => {
                match ltl.lookup_spec(actor, ev.frame as int) {
                    None => None,
                    Some(pi) => match first_update_with(ltl.list@[pi].events@, ping_object) {
                        None => None,
                        Some(ev2) => match update_attribute(ev2) {
                            AttributeData::Byte(b) => Some((ev2.time, b as usize)),
                            _ => None,
                        },
                    },
                }
            },
            _ => None,
        },
    }
}

/// Reports the referenced info-actor's first ping reading for the camera
/// lifetime at `index`, when the whole chain resolves.
pub fn get_ping_from_cam(
    index: usize,
    ltl: &LifetimeList,
    cam_to_pri: i32,
    ping_object: i32,
) -> (r: Option<(i64, usize)>)
    requires
        ltl.wf(),
        index < ltl.list@.len(),
    ensures
        r == ping_spec(*ltl, index as int, cam_to_pri, ping_object),
{
    let lt = &ltl.list[index];
    assert(lt.wf());
    let ei = match find_first_update(&lt.events, cam_to_pri) {
        Some(ei) => ei,
        None => {
            return None;
        },
    };
    let ev = lt.events[ei];
    let atr = match &ev.event {
        ChangeEvent::U(ua) => ua.attribute,
        _ => {
            return None;
        },
    };
    let pri_actor = match parse_actor_reference(&atr) {
        Ok(a) => a,
        Err(_) => {
            return None;
        },
    };
    let pri_lifetime = match ltl.lookup_actor(pri_actor, ev.frame) {
        Ok(plt) => plt,
        Err(_) => {
            return None;
        },
    };
    let ei2 = match find_first_update(&pri_lifetime.events, ping_object) {
        Some(ei2) => ei2,
        None => {
            return None;
        },
    };
    let ev2 = pri_lifetime.events[ei2];
    match &ev2.event {
        ChangeEvent::U(ua) => match ua.attribute {
            AttributeData::Byte(b) => Some((ev2.time, b as usize)),
            _ => None,
        },
        _ => None,
    }
}

/// The camera-lifetime indices below `n` resolving to player `p`, ascending.
pub open spec fn player_indices(ltl: LifetimeList, sch: Schema, p: u64, n: int) -> Seq<usize>
    decreases n,
{
    if n <= 0 {
        Seq::empty()
    } else if resolve_camera(ltl, n - 1, sch) == Some(p) {
        player_indices(ltl, sch, p, n - 1).push((n - 1) as usize)
    } else {
        player_indices(ltl, sch, p, n - 1)
    }
}

/// `player_indices` lists valid lifetime indices in ascending order.
pub proof fn lemma_player_indices(ltl: LifetimeList, sch: Schema, p: u64, n: int)
    requires
        0 <= n <= ltl.list@.len(),
        ltl.list@.len() <= usize::MAX,
    ensures
        forall|k: int|
            0 <= k < player_indices(ltl, sch, p, n).len() ==> (#[trigger] player_indices(
                ltl,
                sch,
                p,
                n,
            )[k]) < n,
        forall|k: int, q: int|
            0 <= k < q < player_indices(ltl, sch, p, n).len() ==> player_indices(ltl, sch, p, n)[k]
                < player_indices(ltl, sch, p, n)[q],
    decreases n,
{
    if n > 0 {
        lemma_player_indices(ltl, sch, p, n - 1);
        let prev = player_indices(ltl, sch, p, n - 1);
        let cur = player_indices(ltl, sch, p, n);
        if resolve_camera(ltl, n - 1, sch) == Some(p) {
            assert(cur =~= prev.push((n - 1) as usize));
            assert(forall|k: int| 0 <= k < prev.len() ==> #[trigger] cur[k] == prev[k]);
            assert(cur[cur.len() - 1] == (n - 1) as usize);
            assert forall|k: int, q: int| 0 <= k < q < cur.len() implies cur[k] < cur[q] by {
                if q < cur.len() - 1 {
                    assert(cur[k] == prev[k] && cur[q] == prev[q]);
                } else {
                    assert(cur[k] == prev[k] && cur[q] == (n - 1) as usize);
                }
            }
        } else {
            assert(cur =~= prev);
        }
    }
}

/// Buckets every camera lifetime by the player identity it resolves to.
/// Camera lifetimes whose owner chain cannot be resolved contribute nothing.
pub fn player_id_buckets(ltl: &LifetimeList, sch: &Schema) -> (m: Vec<(u64, Vec<usize>)>)
    requires
        ltl.wf(),
    ensures
        unique_keys(m@),
        forall|p: u64| #[trigger]
            bucket_of(m@, p) == player_indices(*ltl, *sch, p, ltl.list@.len() as int),
        forall|e: int| 0 <= e < m@.len() ==> (#[trigger] m@[e]).1@.len() > 0,
{
    let mut m: Vec<(u64, Vec<usize>)> = Vec::new();
    let mut n: usize = 0;
    while n < ltl.list.len()
        invariant
            ltl.wf(),
            n <= ltl.list@.len(),
            unique_keys(m@),
            forall|p: u64| #[trigger] bucket_of(m@, p) == player_indices(*ltl, *sch, p, n as int),
            forall|e: int| 0 <= e < m@.len() ==> (#[trigger] m@[e]).1@.len() > 0,
        decreases ltl.list@.len() - n,
    {
        let resolved = resolve_camera_at(ltl, n, sch);
        match resolved {
            Some(pid) => {
                let ghost m_old = m@;
                match find_idx_u64(&m, pid) {
                    Some(e) => {
                        proof {
                            lemma_assoc_find(m_old, pid);
                        }
                        let mut entry = m.remove(e);
                        entry.1.push(n);
                        let ghost newbucket = entry.1;
                        m.insert(e, entry);
                        proof {
                            assert(m@ =~= m_old.update(e as int, (pid, newbucket)));
                            assert(bucket_of(m_old, pid) == player_indices(
                                *ltl,
                                *sch,
                                pid,
                                n as int,
                            ));
                            assert forall|p: u64| #[trigger]
                                bucket_of(m@, p) == player_indices(*ltl, *sch, p, n + 1) by {
                                lemma_assoc_update_value(m_old, e as int, newbucket, p);
                                assert(bucket_of(m_old, p) == player_indices(*ltl, *sch, p, n as int));
                                if p == pid {
                                    assert(newbucket@ =~= bucket_of(m_old, pid).push(n));
                                }
                            }
                            assert forall|p: int, q: int|
                                0 <= p < q < m@.len() implies (#[trigger] m@[p]).0 != (
                            #[trigger] m@[q]).0 by {
                                assert(m@[p].0 == m_old[p].0 && m@[q].0 == m_old[q].0);
                            }
                        }
                    },
                    None => {
                        let mut bucket: Vec<usize> = Vec::new();
                        bucket.push(n);
                        let ghost newbucket = bucket;
                        m.push((pid, bucket));
                        proof {
                            lemma_assoc_find(m_old, pid);
                            assert(bucket_of(m_old, pid) == player_indices(
                                *ltl,
                                *sch,
                                pid,
                                n as int,
                            ));
                            assert(bucket_of(m_old, pid) =~= Seq::<usize>::empty());
                            assert forall|p: u64| #[trigger]
                                bucket_of(m@, p) == player_indices(*ltl, *sch, p, n + 1) by {
                                lemma_assoc_push(m_old, (pid, newbucket), p);
                                assert(bucket_of(m_old, p) == player_indices(*ltl, *sch, p, n as int));
                                if p == pid {
                                    assert(newbucket@ =~= bucket_of(m_old, pid).push(n));
                                }
                            }
                            assert forall|p: int, q: int|
                                0 <= p < q < m@.len() implies (#[trigger] m@[p]).0 != (
                            #[trigger] m@[q]).0 by {
                                if q < m@.len() - 1 {
                                    assert(m@[p].0 == m_old[p].0 && m@[q].0 == m_old[q].0);
                                } else {
                                    assert(m@[p].0 == m_old[p].0);
                                }
                            }
                        }
                    },
                }
            },
            None => {
            },
        }
        n += 1;
    }
    m
}

} // verus!
