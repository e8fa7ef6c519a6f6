use actuate::compose::DynComposeState;
use actuate::composer::{Composer, UpdateOp};
use actuate::error::CatchContext;
use actuate::traversal::Composition;

type Rt = Composer<i32, fn(&i32) -> i32>;

// Type identifiers of the composables these tests place in the tree.
const WRAP_COUNTER: u64 = 1;
const COUNTER: u64 = 2;
const WRAP_NON_UPDATE: u64 = 3;
const NON_UPDATE_COUNTER: u64 = 4;
const WRAP_DYN: u64 = 5;
const DYN: u64 = 6;
const MEMO_A: u64 = 7;
const MEMO: u64 = 8;
const MEMO_B: u64 = 9;

/// What the composables of a test remember between compositions, as the
/// runtime keeps it in their hooks.
#[derive(Default)]
struct World {
    x: i32,
    child: std::collections::HashMap<u64, u64>,
    dyn_state: Option<DynComposeState>,
    memo_last: Option<u64>,
}

fn compose_node(c: &mut Rt, key: u64, w: &mut World) {
    let data_id = c.node(key).unwrap().data_id;
    match data_id {
        WRAP_COUNTER | WRAP_NON_UPDATE | WRAP_DYN | MEMO_A => {
            let child = match data_id {
                WRAP_COUNTER => COUNTER,
                WRAP_NON_UPDATE => NON_UPDATE_COUNTER,
                WRAP_DYN => DYN,
                _ => MEMO,
            };
            let cached = w.child.get(&key).copied();
            let k = c.any_compose(key, cached, Some(child)).unwrap();
            w.child.insert(key, k);
        }
        COUNTER => {
            c.any_compose(key, None, None);
            w.x += 1;
            c.set_changed(key);
        }
        NON_UPDATE_COUNTER | MEMO_B => {
            c.any_compose(key, None, None);
            w.x += 1;
        }
        DYN => {
            c.begin_compose(key);
            w.dyn_state = c.dyn_compose(key, w.dyn_state, Some(COUNTER));
        }
        MEMO => {
            c.begin_compose(key);
            let cached = w.child.get(&key).copied();
            let k = c.use_node(key, cached, MEMO_B, 0);
            w.child.insert(key, k);
            w.memo_last = c.compose_memo(k, w.memo_last, 0u64);
        }
        _ => unreachable!(),
    }
}

/// One composition: returns `false` when there was nothing to compose.
fn compose_once(c: &mut Rt, w: &mut World) -> bool {
    if !c.try_compose(false) {
        return false;
    }
    let mut comp = Composition::new();
    while let Some(k) = c.next_to_compose(&mut comp) {
        compose_node(c, k, w);
    }
    assert!(c.finish_composition::<()>(comp, None).is_ok());
    true
}

fn check_it_composes() {
    let mut w = World::default();
    let mut c: Rt = Composer::new(WRAP_COUNTER);
    assert!(compose_once(&mut c, &mut w));
    assert_eq!(w.x, 1);
    assert!(compose_once(&mut c, &mut w));
    assert_eq!(w.x, 2);
}

fn check_it_skips_recomposes() {
    let mut w = World::default();
    let mut c: Rt = Composer::new(WRAP_NON_UPDATE);
    assert!(compose_once(&mut c, &mut w));
    assert_eq!(w.x, 1);
    assert!(!compose_once(&mut c, &mut w));
    assert_eq!(w.x, 1);
}

fn check_it_composes_any_compose() {
    let mut w = World::default();
    let mut c: Rt = Composer::new(WRAP_DYN);
    assert!(compose_once(&mut c, &mut w));
    assert_eq!(w.x, 1);
    assert!(compose_once(&mut c, &mut w));
    assert_eq!(w.x, 2);
}

fn check_it_memoizes_composables() {
    let mut w = World::default();
    let mut c: Rt = Composer::new(MEMO_A);
    assert!(compose_once(&mut c, &mut w));
    assert_eq!(w.x, 1);
    assert!(!compose_once(&mut c, &mut w));
    assert_eq!(w.x, 1);
}

#[test]
fn lib_it_composes() {
    check_it_composes();
}

#[test]
fn composer_it_composes() {
    check_it_composes();
}

#[test]
fn lib_it_skips_recomposes() {
    check_it_skips_recomposes();
}

#[test]
fn composer_it_skips_recomposes() {
    check_it_skips_recomposes();
}

#[test]
fn lib_it_composes_any_compose() {
    check_it_composes_any_compose();
}

#[test]
fn composer_it_composes_any_compose() {
    check_it_composes_any_compose();
}

#[test]
fn lib_it_memoizes_composables() {
    check_it_memoizes_composables();
}

#[test]
fn composer_it_memoizes_composables() {
    check_it_memoizes_composables();
}

fn add_one(v: &i32) -> i32 {
    *v + 1
}

#[test]
fn first_try_compose_always_composes() {
    let mut c: Rt = Composer::new(1);
    assert!(c.try_compose(false));
    assert!(!c.try_compose(false));
    assert!(c.try_compose(true));
}

#[test]
fn hooks_keep_their_values_across_compositions() {
    let mut c: Rt = Composer::new(1);
    let root = c.root_key();
    c.begin_compose(root);
    let a = c.use_ref(root, || 10);
    let b = c.use_ref(root, || 20);
    assert_eq!((a, b), (0, 1));
    assert_eq!(c.hook_count(root), 2);
    c.begin_compose(root);
    let a2 = c.use_ref(root, || 99);
    let b2 = c.use_ref(root, || 98);
    assert_eq!((a2, b2), (0, 1));
    assert_eq!(*c.hook(root, a2), 10);
    assert_eq!(*c.hook(root, b2), 20);
    assert_eq!(c.generation(root), 2);
    assert_eq!(c.hook_idx(root), 2);
}

#[test]
fn updates_apply_in_order_and_queue_recomposition() {
    let mut c: Rt = Composer::new(1);
    let root = c.root_key();
    c.begin_compose(root);
    let slot = c.use_ref(root, || 1);
    let m = c.signal_mut(root, slot);
    let g0 = c.signal(root, slot).generation;
    c.queue_update(m, UpdateOp::Assign(5), false);
    c.queue_update(m, UpdateOp::Apply(add_one as fn(&i32) -> i32), true);
    assert!(c.try_compose(false));
    assert!(c.try_compose(false));
    assert_eq!(*c.hook(root, slot), 6);
    assert_eq!(c.signal(root, slot).generation, g0 + 2);
    assert_eq!(c.pop_pending(), Some(root));
    assert_eq!(c.pop_pending(), None);
}

#[test]
fn update_without_recompose_does_not_queue() {
    let mut c: Rt = Composer::new(1);
    let root = c.root_key();
    c.begin_compose(root);
    let slot = c.use_ref(root, || 1);
    let m = c.signal_mut(root, slot);
    c.queue_update(m, UpdateOp::Assign(7), false);
    assert_eq!(c.apply_updates(), 1);
    assert_eq!(*c.hook(root, slot), 7);
    assert_eq!(c.pop_pending(), None);
    assert_eq!(c.apply_updates(), 0);
}

#[test]
fn update_of_missing_slot_is_skipped() {
    let mut c: Rt = Composer::new(1);
    let root = c.root_key();
    let child = c.insert_child(root, 2, 0);
    c.begin_compose(child);
    let slot = c.use_ref(child, || 1);
    let m = c.signal_mut(child, slot);
    c.drop_node(child);
    c.queue_update(m, UpdateOp::Assign(3), true);
    assert_eq!(c.apply_updates(), 1);
    assert_eq!(c.pop_pending(), None);
    assert!(!c.contains(child));
}

#[test]
fn set_changed_queues_once_and_take_changed_clears() {
    let mut c: Rt = Composer::new(1);
    let root = c.root_key();
    c.set_changed(root);
    c.set_changed(root);
    assert!(c.take_changed(root));
    assert!(!c.take_changed(root));
    assert_eq!(c.pop_pending(), Some(root));
    assert_eq!(c.pop_pending(), None);
}

#[test]
fn tasks_are_polled_in_order() {
    let mut c: Rt = Composer::new(1);
    c.push_task(3);
    c.push_task(1);
    assert_eq!(c.pop_task(), Some(3));
    assert_eq!(c.pop_task(), Some(1));
    assert_eq!(c.pop_task(), None);
}

#[test]
fn insert_and_drop_nodes() {
    let mut c: Rt = Composer::new(1);
    let root = c.root_key();
    assert_eq!(c.len(), 1);
    let a = c.insert_child(root, 2, 0);
    let b = c.insert_child(a, 3, 0);
    let d = c.insert_child(root, 4, 1);
    assert_eq!(c.len(), 4);
    assert_eq!(c.node(root).unwrap().children, vec![a, d]);
    assert_eq!(c.node(b).unwrap().parent, Some(a));
    assert_eq!(c.node(d).unwrap().child_idx, 1);
    c.drop_node(a);
    assert_eq!(c.len(), 2);
    assert!(!c.contains(a));
    assert!(!c.contains(b));
    assert!(c.contains(d));
    assert_eq!(c.node(root).unwrap().children, vec![d]);
}

#[test]
fn provided_context_reaches_children_only() {
    let mut c: Rt = Composer::new(1);
    let root = c.root_key();
    c.begin_compose(root);
    let slot = c.use_provider(root, 42, || 8);
    let child = c.insert_child(root, 2, 0);
    let r = c.use_context(child, 42).unwrap();
    assert_eq!(r.scope, root);
    assert_eq!(r.slot, slot);
    assert_eq!(*c.context_value(r).unwrap(), 8);
    let e = c.use_context(root, 42).unwrap_err();
    assert_eq!(e.type_key, 42);
    assert!(c.use_context(child, 7).is_err());
}

#[test]
fn inherited_contexts_follow_the_parent() {
    let mut c: Rt = Composer::new(1);
    let root = c.root_key();
    let child = c.insert_child(root, 2, 0);
    c.begin_compose(child);
    assert!(c.use_context(child, 5).is_err());
    c.begin_compose(root);
    c.use_provider(root, 5, || 1);
    c.inherit_contexts(child);
    c.begin_compose(child);
    assert!(c.use_context(child, 5).is_err());
    let other = c.insert_child(root, 3, 1);
    c.begin_compose(other);
    assert_eq!(c.use_context(other, 5).unwrap().scope, root);
}

#[test]
fn any_compose_with_empty_child_keeps_tree() {
    let mut c: Rt = Composer::new(1);
    let root = c.root_key();
    assert_eq!(c.any_compose(root, None, None), None);
    assert_eq!(c.len(), 1);
    assert_eq!(c.generation(root), 1);
    assert_eq!(c.pop_pending(), None);
    let k = c.any_compose(root, None, Some(2)).unwrap();
    assert_eq!(c.node(k).unwrap().data_id, 2);
    assert_eq!(c.any_compose(root, Some(k), Some(2)), Some(k));
    assert_eq!(c.len(), 2);
    assert_eq!(c.pop_pending(), Some(k));
    assert_eq!(c.pop_pending(), None);
}

#[test]
fn compose_option_adds_and_drops() {
    let mut c: Rt = Composer::new(1);
    let root = c.root_key();
    let k = c.compose_option(root, None, Some(2)).unwrap();
    assert!(c.contains(k));
    assert_eq!(c.compose_option(root, Some(k), Some(2)), Some(k));
    assert_eq!(c.compose_option(root, Some(k), None), None);
    assert!(!c.contains(k));
    assert_eq!(c.compose_option(root, None, None), None);
    assert_eq!(c.len(), 1);
}

#[test]
fn compose_result_hands_errors_to_the_catcher() {
    let mut c: Rt = Composer::new(1);
    let root = c.root_key();
    let mut last: Option<&str> = None;
    let none: Option<&CatchContext<fn(&str)>> = None;
    let k = c.compose_result(root, None, Ok(2), none, &mut last).unwrap();
    assert!(last.is_none());
    assert_eq!(c.compose_result(root, Some(k), Ok(2), none, &mut last), Some(k));
    assert_eq!(c.compose_result(root, Some(k), Err("bad"), none, &mut last), None);
    assert_eq!(last, Some("bad"));
    assert!(!c.contains(k));
    let seen = std::cell::RefCell::new(Vec::new());
    let catcher = CatchContext::new(|e: &str| seen.borrow_mut().push(e.to_string()));
    let mut last2: Option<&str> = None;
    assert_eq!(c.compose_result(root, None, Err("worse"), Some(&catcher), &mut last2), None);
    assert!(last2.is_none());
    assert_eq!(*seen.borrow(), vec![String::from("worse")]);
}

#[test]
fn composition_result_reports_the_last_error() {
    let mut c: Rt = Composer::new(1);
    let comp = Composition::new();
    assert_eq!(c.finish_composition(comp, Some("e")), Err("e"));
    let comp = Composition::new();
    assert_eq!(c.finish_composition::<&str>(comp, None), Ok(()));
}

#[test]
fn traversal_composes_root_then_each_queued_node_once() {
    let mut c: Rt = Composer::new(1);
    let root = c.root_key();
    let a = c.insert_child(root, 2, 0);
    let b = c.insert_child(root, 3, 1);
    c.queue(a);
    c.queue(b);
    let mut comp = Composition::new();
    assert_eq!(c.next_to_compose(&mut comp), Some(root));
    assert_eq!(c.next_to_compose(&mut comp), Some(a));
    c.queue(a);
    assert_eq!(c.next_to_compose(&mut comp), Some(b));
    assert_eq!(c.next_to_compose(&mut comp), None);
    assert_eq!(comp.again, vec![a]);
    assert!(c.finish_composition::<()>(comp, None).is_ok());
    assert_eq!(c.pop_pending(), Some(a));
    assert_eq!(c.pop_pending(), None);
}

#[test]
fn dyn_compose_replaces_other_types() {
    let mut c: Rt = Composer::new(1);
    let root = c.root_key();
    let s1 = c.dyn_compose(root, None, Some(2)).unwrap();
    assert_eq!(s1.data_id, 2);
    let s2 = c.dyn_compose(root, Some(s1), Some(3)).unwrap();
    assert_eq!(s2.data_id, 3);
    assert!(!c.contains(s1.key));
    assert!(c.contains(s2.key));
    let len = c.len();
    let s3 = c.dyn_compose(root, Some(s2), Some(3)).unwrap();
    assert_eq!(s3, s2);
    assert_eq!(c.len(), len);
    assert_eq!(c.node(root).unwrap().children, vec![s2.key]);
}

#[test]
fn from_iter_keeps_old_item_nodes() {
    let mut c: Rt = Composer::new(1);
    let root = c.root_key();
    let keys = c.compose_from_iter(root, Vec::new(), 2, 5);
    assert_eq!(keys.len(), 2);
    let k0 = keys[0].unwrap();
    let k1 = keys[1].unwrap();
    assert_ne!(k0, k1);
    assert_eq!(c.node(k1).unwrap().child_idx, 1);
    let keys2 = c.compose_from_iter(root, keys.clone(), 3, 5);
    assert_eq!(keys2[0], Some(k0));
    assert_eq!(keys2[1], Some(k1));
    assert_eq!(c.len(), 4);
    let mut queued = Vec::new();
    while let Some(k) = c.pop_pending() {
        queued.push(k);
    }
    assert_eq!(queued, vec![k0, k1, keys2[2].unwrap()]);
    let k2 = keys2[2].unwrap();
    let keys3 = c.compose_from_iter(root, keys2, 1, 5);
    assert_eq!(keys3, vec![Some(k0)]);
    assert!(!c.contains(k1));
    assert!(!c.contains(k2));
    assert_eq!(c.node(root).unwrap().children, vec![k0]);
}

#[test]
fn memo_composes_only_on_change() {
    let mut c: Rt = Composer::new(1);
    let root = c.root_key();
    let k = c.insert_child(root, 2, 0);
    let last = c.compose_memo(k, None, 1u8);
    assert_eq!(last, Some(1));
    assert_eq!(c.pop_pending(), Some(k));
    let last = c.compose_memo(k, last, 1u8);
    assert_eq!(last, Some(1));
    assert_eq!(c.pop_pending(), None);
    let last = c.compose_memo(k, last, 2u8);
    assert_eq!(last, Some(2));
    assert_eq!(c.pop_pending(), Some(k));
}

#[test]
fn use_memo_recomputes_when_dependency_changes() {
    let mut c: Rt = Composer::new(1);
    let root = c.root_key();
    c.begin_compose(root);
    let slot = c.use_memo(root, 1, || 100);
    assert_eq!(*c.hook(root, slot), 100);
    c.begin_compose(root);
    let slot = c.use_memo(root, 1, || 200);
    assert_eq!(c.apply_updates(), 0);
    assert_eq!(*c.hook(root, slot), 100);
    c.begin_compose(root);
    let slot = c.use_memo(root, 2, || 300);
    assert_eq!(*c.hook(root, slot), 100);
    assert_eq!(c.apply_updates(), 2);
    assert_eq!(*c.hook(root, slot), 300);
    assert_eq!(*c.hook(root, slot + 1), 2);
}

#[test]
fn use_effect_runs_on_first_and_changed_dependency() {
    let mut c: Rt = Composer::new(1);
    let root = c.root_key();
    let mut runs = Vec::new();
    c.begin_compose(root);
    assert!(c.use_effect(root, 1, |d: &i32| runs.push(*d)));
    c.begin_compose(root);
    assert!(!c.use_effect(root, 1, |d: &i32| runs.push(*d)));
    c.begin_compose(root);
    assert!(c.use_effect(root, 4, |d: &i32| runs.push(*d)));
    assert_eq!(runs, vec![1, 4]);
}

#[test]
fn drop_functions_are_handed_out_when_nodes_drop() {
    let mut c: Rt = Composer::new(1);
    let root = c.root_key();
    let a = c.insert_child(root, 2, 0);
    let b = c.insert_child(a, 3, 0);
    c.begin_compose(a);
    c.use_drop(a, 10);
    c.begin_compose(b);
    c.use_drop(b, 20);
    c.use_drop(b, 21);
    c.begin_compose(b);
    c.use_drop(b, 22);
    c.use_drop(b, 23);
    assert!(c.take_dropped().is_empty());
    c.drop_node(a);
    assert_eq!(c.take_dropped(), vec![22, 23, 10]);
    assert!(c.take_dropped().is_empty());
}

#[test]
fn children_drop_before_their_parent() {
    let mut c: Rt = Composer::new(1);
    let root = c.root_key();
    let a = c.insert_child(root, 2, 0);
    let b = c.insert_child(a, 3, 0);
    let d = c.insert_child(b, 4, 0);
    let e = c.insert_child(a, 5, 1);
    for (k, f) in [(a, 1), (b, 2), (d, 3), (e, 4)] {
        c.begin_compose(k);
        c.use_drop(k, f);
    }
    c.drop_node(a);
    // Each child's subtree in child order, then the node itself.
    assert_eq!(c.take_dropped(), vec![3, 2, 4, 1]);
}

#[test]
fn ending_the_composer_hands_out_every_drop_function() {
    let mut c: Rt = Composer::new(1);
    let root = c.root_key();
    let a = c.insert_child(root, 2, 0);
    let b = c.insert_child(root, 3, 1);
    c.begin_compose(root);
    c.use_drop(root, 1);
    c.begin_compose(a);
    c.use_drop(a, 2);
    c.begin_compose(b);
    c.use_drop(b, 3);
    c.drop_node(b);
    let mut fns = c.into_drop_fns();
    assert_eq!(fns[0], 3);
    fns.sort();
    assert_eq!(fns, vec![1, 2, 3]);
}

#[test]
fn callbacks_hold_the_latest_function() {
    let mut c: Rt = Composer::new(1);
    let root = c.root_key();
    c.begin_compose(root);
    let slot = c.use_callback(root, 5);
    c.begin_compose(root);
    assert_eq!(c.use_callback(root, 6), slot);
    assert_eq!(*c.hook(root, slot), 6);
    assert_eq!(c.signal(root, slot).generation, 0);
    assert_eq!(c.hook_count(root), 1);
}

#[test]
fn take_tasks_takes_all_in_order() {
    let mut c: Rt = Composer::new(1);
    c.push_task(4);
    c.push_task(2);
    assert_eq!(c.take_tasks(), vec![4, 2]);
    assert_eq!(c.pop_task(), None);
}

#[test]
fn set_if_neq_queues_only_a_change() {
    let mut c: Rt = Composer::new(1);
    let root = c.root_key();
    c.begin_compose(root);
    let slot = c.use_ref(root, || 3);
    let m = c.signal_mut(root, slot);
    c.set_if_neq(m, 3);
    assert_eq!(c.apply_updates(), 0);
    c.set_if_neq(m, 4);
    assert_eq!(c.apply_updates(), 1);
    assert_eq!(*c.hook(root, slot), 4);
    assert_eq!(c.pop_pending(), Some(root));
}

#[test]
fn hooks_keep_first_values_and_latest_functions() {
    let mut c: Rt = Composer::new(1);
    let root = c.root_key();
    for round in 0..3 {
        c.begin_compose(root);
        let r = c.use_ref(root, || 100 + round);
        let cb = c.use_callback(root, 200 + round);
        let d = c.use_drop(root, 300 + round);
        assert_eq!((r, cb, d), (0, 1, 2));
    }
    assert_eq!(c.hook_count(root), 3);
    assert_eq!(*c.hook(root, 0), 100);
    assert_eq!(*c.hook(root, 1), 202);
    assert_eq!(*c.hook(root, 2), 302);
    assert_eq!(c.into_drop_fns(), vec![302]);
}
