use actuate::compose::name;
use actuate::composer::Composer;
use actuate::error::{catch, CatchContext, Error};
use actuate::executor::{Executor, ExecutorContext};
use actuate::modify::{ClickState, Clickable, DrawModifier, ElementState, Modified, MouseButton};
use actuate::pointer::{Cow, Generational, Mapped, Memoize, RefMap, Signal, SignalMut};
use actuate::rebuild::{ComposeNode, Memo, MemoNode, RebuildContext};
use actuate::scope::ScopeData;
use actuate::update::Update;
use std::cell::{Cell, RefCell};
use std::collections::HashMap;

#[test]
fn cow_into_owned_returns_owned_and_clones_borrowed() {
    let owned: Cow<'_, String> = Cow::Owned(String::from("a"));
    assert_eq!(owned.into_owned(), "a");
    let s = String::from("b");
    let borrowed: Cow<'_, String> = Cow::Borrowed(RefMap::Ref(&s));
    assert_eq!(borrowed.into_owned(), "b");
    let sig = Signal::new(&s, 3);
    let from_signal: Cow<'_, String> = Cow::from(RefMap::Signal(sig));
    assert_eq!(*from_signal.get(), "b");
    assert_eq!(from_signal.to_owned(), "b");
    let again: Cow<'_, String> = Cow::Owned(String::from("c"));
    assert_eq!(again.to_owned(), "c");
    assert_eq!(*again.get(), "c");
}

#[test]
fn signal_map_keeps_generation() {
    let pair = (1, 2);
    let s = Signal::new(&pair, 7);
    assert_eq!(*s.get(), (1, 2));
    let m: Mapped<'_, i32> = Signal::map(s, |p: &(i32, i32)| &p.1);
    assert_eq!(*m.get(), 2);
    assert_eq!(m.generation(), 7);
    assert_eq!(m.memoized(), 7);
    let u = Signal::map_unchecked(s, |p: &(i32, i32)| &p.0);
    assert_eq!(*u.map.get(), 1);
    let r = RefMap::Mapped(m);
    assert_eq!(*r.get(), 2);
}

#[test]
fn memoized_references_compare_by_generation() {
    let a = 5;
    let s1 = Signal::new(&a, 1);
    let s2 = Signal::new(&a, 2);
    assert_ne!(s1.memoized(), s2.memoized());
    assert_eq!(s1.generation(), 1);
    let m = SignalMut::new(3, 0, 9);
    assert_eq!(m.memoized(), 9);
    assert_eq!(Generational::generation(m), 9);
    assert_eq!((m.scope_key, m.slot), (3, 0));
}

#[test]
fn signal_of_a_written_slot_has_a_new_generation() {
    let mut c: Composer<i32, fn(&i32) -> i32> = Composer::new(1);
    let root = c.root_key();
    c.begin_compose(root);
    let slot = c.use_ref(root, || 4);
    let before = c.signal(root, slot).memoized();
    let m = c.signal_mut(root, slot);
    c.queue_update(m, actuate::composer::UpdateOp::Assign(4), false);
    c.apply_updates();
    let after = c.signal(root, slot);
    assert_eq!(*after.get(), 4);
    assert_eq!(after.memoized(), before + 1);
}

#[test]
fn click_needs_press_then_release_of_left_button() {
    let count = Cell::new(0);
    let click = Clickable::new(|| count.set(count.get() + 1));
    let mut st = ClickState::new();
    assert!(!click.handle(&mut st, MouseButton::Left, ElementState::Released));
    assert!(!click.handle(&mut st, MouseButton::Right, ElementState::Pressed));
    assert!(!st.is_pressed);
    assert!(!click.handle(&mut st, MouseButton::Left, ElementState::Pressed));
    assert!(st.is_pressed);
    assert!(!click.handle(&mut st, MouseButton::Middle, ElementState::Released));
    assert!(click.handle(&mut st, MouseButton::Left, ElementState::Released));
    assert_eq!(count.get(), 1);
    assert!(click.handle(&mut st, MouseButton::Left, ElementState::Released));
    assert_eq!(count.get(), 2);
}

#[test]
fn modifiers_hold_their_parts() {
    let m = Modified::new(3u8, "content");
    assert_eq!(m.state, 3);
    assert_eq!(m.content, "content");
    let d = DrawModifier::new(vec![1, 2]);
    assert_eq!(*d.draw, vec![1, 2]);
}

#[test]
fn errors_are_cloned_and_handed_to_the_catcher() {
    let e = Error::new(String::from("boom"));
    assert_eq!(e.make_error(), "boom");
    let seen = RefCell::new(Vec::new());
    let cx = CatchContext::new(|err: String| seen.borrow_mut().push(err));
    cx.handle(e.make_error());
    assert_eq!(*seen.borrow(), vec![String::from("boom")]);
    let c = catch(|_: String| {}, 5u8);
    assert_eq!(c.content, 5);
}

struct Recorder {
    spawned: RefCell<Vec<u32>>,
}

impl Executor<u32> for Recorder {
    fn spawn(&self, task: u32) {
        self.spawned.borrow_mut().push(task);
    }
}

#[test]
fn executor_context_spawns_on_its_executor() {
    let cx = ExecutorContext::new(Recorder { spawned: RefCell::new(Vec::new()) });
    cx.spawn(1);
    cx.spawn_boxed(2);
    assert_eq!(*cx.executor.spawned.borrow(), vec![1, 2]);
}

#[test]
fn update_applies_its_function() {
    let hit = Cell::new(false);
    let u = Update::new(|| hit.set(true));
    u.apply();
    assert!(hit.get());
}

#[test]
fn memo_node_rebuilds_on_hash_change_only() {
    let mut c: Composer<i32, fn(&i32) -> i32> = Composer::new(1);
    let root = c.root_key();
    let node = Memo::new(0u8).into_node(11);
    let mut last = node.build();
    assert_eq!(last, 11);
    assert!(!node.rebuild(&mut last, &mut c, root, RebuildContext::new()).is_changed);
    assert_eq!(c.generation(root), 0);
    let other = MemoNode { hash: 12, node: ComposeNode::new(0u8) };
    assert!(other.rebuild(&mut last, &mut c, root, RebuildContext::new()).is_changed);
    assert_eq!(last, 12);
    assert_eq!(c.generation(root), 1);
}

#[test]
fn compose_node_rebuilds_when_changed() {
    let mut c: Composer<i32, fn(&i32) -> i32> = Composer::new(1);
    let root = c.root_key();
    let node = ComposeNode::new(());
    let r = node.rebuild(&mut c, root, RebuildContext::new());
    assert!(!r.is_changed);
    assert_eq!(c.generation(root), 0);
    c.set_changed(root);
    let r = node.rebuild(&mut c, root, RebuildContext::new());
    assert!(r.is_changed);
    assert_eq!(c.generation(root), 1);
    let r = node.rebuild(&mut c, root, RebuildContext { is_changed: true });
    assert!(r.is_changed);
    assert_eq!(c.generation(root), 2);
    let r = node.rebuild(&mut c, root, RebuildContext::new());
    assert!(!r.is_changed);
}

#[test]
fn scope_creates_hooks_once() {
    let mut s: ScopeData<u32> = ScopeData::new(7, HashMap::new());
    assert_eq!(s.key(), 7);
    s.begin_compose();
    assert_eq!(s.use_ref(|| 1), 0);
    let m = s.use_mut(|| 2);
    assert_eq!((m.scope_key, m.slot, m.generation), (7, 1, 0));
    s.begin_compose();
    assert_eq!(s.use_ref(|| 10), 0);
    assert_eq!(s.reuse_ref(), 1);
    assert_eq!(*s.hook(0), 1);
    assert_eq!(*s.hook(1), 2);
    assert_eq!(s.generation(), 2);
    s.write_hook(1, 5);
    assert_eq!(*s.hook(1), 5);
    assert_eq!(s.signal(1).generation, 1);
    assert_eq!(s.signal(0).generation, 0);
}

#[test]
fn scope_contexts_pass_to_children() {
    let mut s: ScopeData<u32> = ScopeData::new(1, HashMap::new());
    s.begin_compose();
    let slot = s.use_provider(9, || 3);
    assert!(s.use_context(9).is_err());
    let mut child = s.child(2);
    let r = child.use_context(9).unwrap();
    assert_eq!((r.scope, r.slot), (1, slot));
    let mut other: ScopeData<u32> = ScopeData::new(3, HashMap::new());
    assert!(other.use_context(9).is_err());
    other.adopt_contexts(child);
    assert!(other.use_context(9).is_ok());
    assert!(!other.take_changed());
    other.set_changed();
    assert!(other.take_changed());
}

#[test]
fn composable_names_drop_module_path_and_generics() {
    assert_eq!(name("my_app::ui::Counter<u8, actuate::Signal<'_, i32>>"), "Counter");
    assert_eq!(name("Counter"), "Counter");
    assert_eq!(name("a::b::"), "");
    assert_eq!(name("a:::b"), ":b");
    assert_eq!(name("<i32 as Trait>::Item"), "");
}
