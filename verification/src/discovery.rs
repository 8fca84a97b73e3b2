//! Dynamic discovery of the global attribute-bearing singleton actors: the
//! lifetime whose update stream touches a known attribute identifies the
//! actor's object type, which then selects the lifetimes to scan.

use vstd::prelude::*;

use crate::events::{ChangeEvent, Event};
use crate::lifetimes::{Lifetime, LifetimeList};
use crate::players::{find_first_update, first_update_with};

verus! {

/// The object type of the first lifetime that both updates `attr_obj` and
/// begins with a creation event: the dynamically discovered singleton actor.
pub open spec fn discover_from(list: Seq<Lifetime>, attr_obj: i32, i: int) -> Option<i32>
    decreases list.len() - i,
{
    if i < 0 || i >= list.len() {
        None
    } else if first_update_with(list[i].events@, attr_obj) is Some && (match list[i].events@[0].event {
        ChangeEvent::N(na) => true,
        _ => false,
    }) {
        match list[i].events@[0].event {
            ChangeEvent::N(na) => Some(na.object_id),
            _ => None,
        }
    } else {
        discover_from(list, attr_obj, i + 1)
    }
}

/// Whether a lifetime begins with the creation of an actor of the target
/// object type.
pub open spec fn is_target_lifetime(lt: Lifetime, target: Option<i32>) -> bool {
    match lt.events@[0].event {
        ChangeEvent::N(na) => Some(na.object_id) == target,
        _ => false,
    }
}

/// The events of the first `n` lifetimes of the target object type, in
/// list-then-event order.
pub open spec fn selected_events(list: Seq<Lifetime>, target: Option<i32>, n: int) -> Seq<Event>
    decreases n,
{
    if n <= 0 {
        Seq::empty()
    } else if is_target_lifetime(list[n - 1], target) {
        selected_events(list, target, n - 1) + list[n - 1].events@
    } else {
        selected_events(list, target, n - 1)
    }
}

/// How many of the first `n` lifetimes are of the target object type.
pub open spec fn target_count(list: Seq<Lifetime>, target: Option<i32>, n: int) -> int
    decreases n,
{
    if n <= 0 {
        0
    } else {
        target_count(list, target, n - 1) + if is_target_lifetime(list[n - 1], target) {
            1int
        } else {
            0int
        }
    }
}

pub proof fn lemma_target_count_nonneg(list: Seq<Lifetime>, target: Option<i32>, n: int)
    ensures
        target_count(list, target, n) >= 0,
    decreases n,
{
    if n > 0 {
        lemma_target_count_nonneg(list, target, n - 1);
    }
}

/// With no target lifetime in the prefix, nothing is selected.
pub proof fn lemma_selected_empty(list: Seq<Lifetime>, target: Option<i32>, n: int)
    requires
        target_count(list, target, n) == 0,
    ensures
        selected_events(list, target, n) =~= Seq::<Event>::empty(),
    decreases n,
{
    if n > 0 {
        lemma_target_count_nonneg(list, target, n - 1);
        lemma_selected_empty(list, target, n - 1);
    }
}

/// With at most one target lifetime — the singleton the design assumes —
/// the selected events are the frame-sorted history of that one lifetime.
pub proof fn lemma_selected_sorted(list: Seq<Lifetime>, target: Option<i32>, n: int)
    requires
        0 <= n <= list.len(),
        forall|i: int| 0 <= i < list.len() ==> (#[trigger] list[i]).wf(),
        target_count(list, target, n) <= 1,
    ensures
        forall|p: int, q: int|
            0 <= p <= q < selected_events(list, target, n).len() ==> (#[trigger] selected_events(
                list,
                target,
                n,
            )[p]).frame <= (#[trigger] selected_events(list, target, n)[q]).frame,
    decreases n,
{
    if n > 0 {
        if is_target_lifetime(list[n - 1], target) {
            lemma_target_count_nonneg(list, target, n - 1);
            lemma_selected_empty(list, target, n - 1);
            let sel = selected_events(list, target, n);
            assert(sel =~= list[n - 1].events@);
            assert(list[n - 1].wf());
        } else {
            lemma_selected_sorted(list, target, n - 1);
        }
    }
}

/// Selected events are a subset of all events held in the list.
pub proof fn lemma_selected_len(list: Seq<Lifetime>, target: Option<i32>, n: int)
    requires
        0 <= n,
    ensures
        0 <= selected_events(list, target, n).len() <= crate::lifetimes::total_events(list, n),
    decreases n,
{
    if n > 0 {
        lemma_selected_len(list, target, n - 1);
    }
}

/// Finds the object type of the singleton actor whose updates touch
/// `attr_obj`.
pub fn discover_singleton(ltl: &LifetimeList, attr_obj: i32) -> (r: Option<i32>)
    requires
        ltl.wf(),
    ensures
        r == discover_from(ltl.list@, attr_obj, 0),
{
    let mut target: Option<i32> = None;
    let mut i: usize = 0;
    while target.is_none() && i < ltl.list.len()
        invariant
            i <= ltl.list@.len(),
            ltl.wf(),
            match target {
                Some(t) => discover_from(ltl.list@, attr_obj, 0) == Some(t),
                None => discover_from(ltl.list@, attr_obj, 0) == discover_from(
                    ltl.list@,
                    attr_obj,
                    i as int,
                ),
            },
        decreases (if target is None { 1int } else { 0int }), ltl.list@.len() - i,
    {
        assert(ltl.list@[i as int].wf());
        let has_attr_update = find_first_update(&ltl.list[i].events, attr_obj);
        let mut found: Option<i32> = None;
        if has_attr_update.is_some() {
            match &ltl.list[i].events[0].event {
                ChangeEvent::N(na) => {
                    found = Some(na.object_id);
                },
                _ => {},
            }
        }
        match found {
            Some(t) => {
                target = Some(t);
            },
            None => {
                i += 1;
            },
        }
    }
    target
}

} // verus!
