use behavior_tree::dispatch::run_system_with;
use behavior_tree::leaf::LeafNodeResult;
use behavior_tree::node::{
    BehaviorTreeRoot, ControlNodeSystem, ControlNodeSystemInner, Entity, Error, Evaluator,
    NodeKind, NodeResult, NodeState, SequenceNode, SequenceState, SystemId, TimeLimitNode,
    TimeLimitState,
};
use behavior_tree::paths::all_paths_closed;
use behavior_tree::sequence::update_sequence;
use behavior_tree::target::AiTarget;
use behavior_tree::tick::{
    any_child_active, pre_update_action, reset_leaf_results, update_behavior_trees,
};
use behavior_tree::time::TimeSpan;
use behavior_tree::time_limit::{remove_active_node, update_time_limit};
use behavior_tree::world::World;

fn millis(ms: u32) -> TimeSpan {
    TimeSpan::new((ms / 1000) as u64, (ms % 1000) * 1_000_000).unwrap()
}

fn limit(ms: u32) -> NodeState {
    NodeState::time_limit(TimeLimitNode { duration: millis(ms) })
}

fn report(world: &mut World, entity: Entity, result: LeafNodeResult) {
    assert!(world.set_leaf_result(entity, result));
}

fn sequence_state(world: &World, entity: Entity) -> SequenceState {
    match world.state(entity).unwrap().kind {
        NodeKind::Sequence(_, state) => state,
        _ => panic!("not a sequence"),
    }
}

fn limit_state(world: &World, entity: Entity) -> TimeLimitState {
    match world.state(entity).unwrap().kind {
        NodeKind::TimeLimit(_, state) => state,
        _ => panic!("not a time limit"),
    }
}

#[test]
fn leaf_result_reset_on_idle_stays_idle() {
    let mut result = LeafNodeResult::Idle;
    result.reset();
    assert_eq!(result, LeafNodeResult::Idle);
    result.reset();
    assert_eq!(result, LeafNodeResult::Idle);
}

#[test]
fn leaf_result_complete_then_reset_is_idle() {
    let mut result = LeafNodeResult::Idle;
    result.set_complete();
    assert_eq!(result, LeafNodeResult::Complete);
    assert!(result.is_complete());
    result.reset();
    assert_eq!(result, LeafNodeResult::Idle);
    assert!(!result.is_complete());
}

#[test]
fn leaf_result_set_continue() {
    let mut result = LeafNodeResult::default();
    assert_eq!(result, LeafNodeResult::Idle);
    result.set_continue();
    assert_eq!(result, LeafNodeResult::Continue);
    assert!(!result.is_complete());
}

#[test]
fn time_span_keeps_seconds_and_nanos() {
    let t = TimeSpan::new(3, 250_000_000).unwrap();
    assert_eq!(t.as_secs(), 3);
    assert_eq!(t.subsec_nanos(), 250_000_000);
    assert!(TimeSpan::new(0, 999_999_999).is_some());
    assert!(TimeSpan::new(0, 1_000_000_000).is_none());
    assert!(TimeSpan::new(7, u32::MAX).is_none());
    assert_eq!(TimeSpan::zero().as_secs(), 0);
    assert_eq!(TimeSpan::zero().subsec_nanos(), 0);
    assert_eq!(TimeSpan::from_secs(9).as_secs(), 9);
    assert_eq!(TimeSpan::from_secs(9).subsec_nanos(), 0);
}

#[test]
fn spawn_links_parent_and_children() {
    let mut world = World::new();
    assert_eq!(world.len(), 0);
    let root = world.spawn(None, NodeState::plain()).unwrap();
    let a = world.spawn(Some(root), NodeState::leaf()).unwrap();
    let b = world.spawn(Some(root), NodeState::leaf()).unwrap();
    assert_eq!(root, Entity(0));
    assert_eq!(a, Entity(1));
    assert_eq!(b, Entity(2));
    assert_eq!(world.len(), 3);
    assert_eq!(world.parent(root), None);
    assert_eq!(world.parent(a), Some(root));
    assert_eq!(world.parent(b), Some(root));
    assert_eq!(world.child_count(root), 2);
    assert_eq!(world.child(root, 0), Some(a));
    assert_eq!(world.child(root, 1), Some(b));
    assert_eq!(world.child(root, 2), None);
    assert_eq!(world.child_count(a), 0);
    assert!(world.contains(b));
    assert!(!world.contains(Entity(3)));
}

#[test]
fn spawn_under_missing_parent_is_refused() {
    let mut world = World::new();
    assert_eq!(world.spawn(Some(Entity(0)), NodeState::plain()), None);
    assert_eq!(world.len(), 0);
    let root = world.spawn(None, NodeState::plain()).unwrap();
    assert_eq!(world.spawn(Some(Entity(5)), NodeState::plain()), None);
    assert_eq!(world.len(), 1);
    assert_eq!(world.child_count(root), 0);
}

#[test]
fn lookups_on_missing_entity_find_nothing() {
    let mut world = World::new();
    let ghost = Entity(4);
    assert!(world.state(ghost).is_none());
    assert_eq!(world.parent(ghost), None);
    assert_eq!(world.child_count(ghost), 0);
    assert_eq!(world.child(ghost, 0), None);
    assert!(!world.is_active(ghost));
    assert!(!world.has_control(ghost));
    assert_eq!(world.leaf_result(ghost), None);
    assert!(!world.set_state(ghost, NodeState::plain()));
    assert!(!world.set_leaf_result(ghost, LeafNodeResult::Complete));
    world.insert_active(ghost);
    world.remove_active(ghost);
    remove_active_node(&mut world, ghost);
    assert_eq!(world.len(), 0);
}

#[test]
fn activation_gives_a_bare_node_an_idle_result() {
    let mut world = World::new();
    let bare = world.spawn(None, NodeState::plain()).unwrap();
    assert_eq!(world.leaf_result(bare), None);
    world.insert_active(bare);
    assert!(world.is_active(bare));
    assert_eq!(world.leaf_result(bare), Some(LeafNodeResult::Idle));
}

#[test]
fn activation_leaves_control_nodes_without_result() {
    let mut world = World::new();
    let seq = world.spawn(None, NodeState::sequence(SequenceNode { repeat: false })).unwrap();
    world.insert_active(seq);
    assert!(world.is_active(seq));
    assert_eq!(world.leaf_result(seq), None);
    assert!(world.has_control(seq));
}

#[test]
fn activation_keeps_an_existing_result() {
    let mut world = World::new();
    let leaf = world.spawn(None, NodeState::leaf()).unwrap();
    report(&mut world, leaf, LeafNodeResult::Continue);
    world.insert_active(leaf);
    assert_eq!(world.leaf_result(leaf), Some(LeafNodeResult::Continue));
    report(&mut world, leaf, LeafNodeResult::Complete);
    world.insert_active(leaf);
    assert_eq!(world.leaf_result(leaf), Some(LeafNodeResult::Complete));
}

#[test]
fn spawning_active_runs_the_activation_hook() {
    let mut world = World::new();
    let bare = world.spawn(None, NodeState::plain().with_active()).unwrap();
    assert!(world.is_active(bare));
    assert_eq!(world.leaf_result(bare), Some(LeafNodeResult::Idle));
}

#[test]
fn deactivation_removes_the_result() {
    let mut world = World::new();
    let leaf = world.spawn(None, NodeState::leaf().with_active()).unwrap();
    assert_eq!(world.leaf_result(leaf), Some(LeafNodeResult::Idle));
    world.remove_active(leaf);
    assert!(!world.is_active(leaf));
    assert_eq!(world.leaf_result(leaf), None);
    assert!(!world.set_leaf_result(leaf, LeafNodeResult::Complete));
}

#[test]
fn deactivating_an_inactive_node_keeps_its_result() {
    let mut world = World::new();
    let leaf = world.spawn(None, NodeState::leaf()).unwrap();
    world.remove_active(leaf);
    assert_eq!(world.leaf_result(leaf), Some(LeafNodeResult::Idle));
}

#[test]
fn hooks_on_states() {
    let bare = NodeState::plain().with_active();
    assert_eq!(bare.on_add_active_node().result, Some(LeafNodeResult::Idle));
    let seq = NodeState::sequence(SequenceNode { repeat: true }).with_active();
    assert_eq!(seq.on_add_active_node().result, None);
    let mut leaf = NodeState::leaf();
    leaf.result = Some(LeafNodeResult::Complete);
    assert_eq!(leaf.on_add_active_node().result, Some(LeafNodeResult::Complete));
    assert_eq!(leaf.on_remove_active_node().result, None);
}

#[test]
fn remove_active_node_clears_the_whole_subtree() {
    let mut world = World::new();
    let outside = world.spawn(None, NodeState::leaf().with_active()).unwrap();
    let top = world.spawn(None, NodeState::plain().with_active()).unwrap();
    let a = world.spawn(Some(top), NodeState::leaf().with_active()).unwrap();
    let b = world.spawn(Some(top), NodeState::leaf()).unwrap();
    let a1 = world.spawn(Some(a), NodeState::leaf().with_active()).unwrap();
    let sibling = world.spawn(None, NodeState::leaf().with_active()).unwrap();
    let a2 = world.spawn(Some(a), NodeState::leaf().with_active()).unwrap();

    remove_active_node(&mut world, top);

    for e in [top, a, a1, a2] {
        assert!(!world.is_active(e));
        assert_eq!(world.leaf_result(e), None);
    }
    assert!(!world.is_active(b));
    assert_eq!(world.leaf_result(b), Some(LeafNodeResult::Idle));
    assert!(world.is_active(outside));
    assert!(world.is_active(sibling));
    assert_eq!(world.leaf_result(sibling), Some(LeafNodeResult::Idle));
}

#[test]
fn remove_active_node_on_inner_node_spares_the_rest() {
    let mut world = World::new();
    let top = world.spawn(None, NodeState::plain().with_active()).unwrap();
    let a = world.spawn(Some(top), NodeState::leaf().with_active()).unwrap();
    let b = world.spawn(Some(top), NodeState::leaf().with_active()).unwrap();
    let a1 = world.spawn(Some(a), NodeState::leaf().with_active()).unwrap();

    remove_active_node(&mut world, a);

    assert!(world.is_active(top));
    assert!(world.is_active(b));
    assert!(!world.is_active(a));
    assert!(!world.is_active(a1));
}

#[test]
fn target_without_root_is_an_error() {
    let mut world = World::new();
    let lone = world.spawn(None, NodeState::plain()).unwrap();
    let child = world.spawn(Some(lone), NodeState::plain()).unwrap();
    let ai_target = AiTarget::new(&world);
    assert_eq!(ai_target.get_target(lone), Err(Error::NoRoot));
    assert_eq!(ai_target.get_target(child), Err(Error::NoRoot));
    assert_eq!(ai_target.get_target(Entity(17)), Err(Error::NoRoot));
}

#[test]
fn target_comes_from_the_nearest_root() {
    let mut world = World::new();
    let outer = world.spawn(None, NodeState::plain().with_root(Entity(100))).unwrap();
    let mid = world.spawn(Some(outer), NodeState::plain()).unwrap();
    let inner = world.spawn(Some(mid), NodeState::plain().with_root(Entity(200))).unwrap();
    let low = world.spawn(Some(inner), NodeState::plain()).unwrap();
    let ai_target = AiTarget::new(&world);
    assert_eq!(ai_target.get_target(outer), Ok(Entity(100)));
    assert_eq!(ai_target.get_target(mid), Ok(Entity(100)));
    assert_eq!(ai_target.get_target(inner), Ok(Entity(200)));
    assert_eq!(ai_target.get_target(low), Ok(Entity(200)));
    assert_eq!(BehaviorTreeRoot::new(Entity(3)).target, Entity(3));
}

#[test]
fn sequence_repeat_wraps_around() {
    let mut world = World::new();
    let node = world
        .spawn(None, NodeState::sequence(SequenceNode { repeat: true }).with_active())
        .unwrap();
    let a = world.spawn(Some(node), NodeState::leaf()).unwrap();
    let b = world.spawn(Some(node), NodeState::leaf()).unwrap();

    update_behavior_trees(&mut world, 100).unwrap();
    assert!(world.is_active(a));
    report(&mut world, a, LeafNodeResult::Complete);
    update_behavior_trees(&mut world, 100).unwrap();
    assert!(world.is_active(b));
    assert_eq!(sequence_state(&world, node).current, Some(1));
    report(&mut world, b, LeafNodeResult::Complete);
    update_behavior_trees(&mut world, 100).unwrap();

    assert!(world.is_active(node));
    assert!(world.is_active(a));
    assert!(!world.is_active(b));
    assert_eq!(sequence_state(&world, node).current, Some(0));
    // The first child lost its result when it left the active path, and
    // got a fresh one on its return.
    assert_eq!(world.leaf_result(a), Some(LeafNodeResult::Idle));
    assert_eq!(world.leaf_result(b), None);
}

#[test]
fn sequence_waits_for_its_child() {
    let mut world = World::new();
    let node = world
        .spawn(None, NodeState::sequence(SequenceNode { repeat: false }).with_active())
        .unwrap();
    let a = world.spawn(Some(node), NodeState::leaf()).unwrap();
    let b = world.spawn(Some(node), NodeState::leaf()).unwrap();

    assert_eq!(update_sequence(&mut world, node), Ok(NodeResult::QueueNode(a)));
    assert_eq!(sequence_state(&world, node).current, Some(0));
    // A silent leaf holds the sequence where it is.
    assert_eq!(update_sequence(&mut world, node), Ok(NodeResult::Continue));
    report(&mut world, a, LeafNodeResult::Continue);
    assert_eq!(update_sequence(&mut world, node), Ok(NodeResult::Continue));
    assert_eq!(sequence_state(&world, node).current, Some(0));
    assert!(world.is_active(a));
    assert!(!world.is_active(b));
    report(&mut world, a, LeafNodeResult::Complete);
    assert_eq!(update_sequence(&mut world, node), Ok(NodeResult::QueueNode(b)));
    assert_eq!(sequence_state(&world, node).current, Some(1));
    report(&mut world, b, LeafNodeResult::Complete);
    assert_eq!(update_sequence(&mut world, node), Ok(NodeResult::Complete));
    assert_eq!(sequence_state(&world, node).current, None);
    assert!(!world.is_active(node));
}

#[test]
fn sequence_without_children_completes_at_once() {
    let mut world = World::new();
    let plain = world
        .spawn(None, NodeState::sequence(SequenceNode { repeat: false }).with_active())
        .unwrap();
    let repeating = world
        .spawn(None, NodeState::sequence(SequenceNode { repeat: true }).with_active())
        .unwrap();
    assert_eq!(update_sequence(&mut world, plain), Ok(NodeResult::Complete));
    assert_eq!(update_sequence(&mut world, repeating), Ok(NodeResult::Complete));
    assert!(!world.is_active(plain));
    assert!(!world.is_active(repeating));
    assert_eq!(sequence_state(&world, repeating).current, None);
}

#[test]
fn sequence_moves_past_a_child_without_result() {
    let mut world = World::new();
    let node = world
        .spawn(None, NodeState::sequence(SequenceNode { repeat: false }).with_active())
        .unwrap();
    let inner = world
        .spawn(Some(node), NodeState::sequence(SequenceNode { repeat: false }))
        .unwrap();
    let leaf = world.spawn(Some(node), NodeState::leaf()).unwrap();
    assert_eq!(update_sequence(&mut world, node), Ok(NodeResult::QueueNode(inner)));
    assert_eq!(world.leaf_result(inner), None);
    assert_eq!(update_sequence(&mut world, node), Ok(NodeResult::QueueNode(leaf)));
    // A child without a result is not deactivated by the sequence.
    assert!(world.is_active(inner));
    assert!(world.is_active(leaf));
}

#[test]
fn sequence_with_bad_index_fails() {
    let mut world = World::new();
    let mut state = NodeState::sequence(SequenceNode { repeat: true }).with_active();
    state.kind = NodeKind::Sequence(
        SequenceNode { repeat: true },
        SequenceState { current: Some(5) },
    );
    let node = world.spawn(None, state).unwrap();
    let a = world.spawn(Some(node), NodeState::leaf()).unwrap();
    assert_eq!(update_sequence(&mut world, node), Err(Error::InvalidChildIndex));
    assert_eq!(update_behavior_trees(&mut world, 10), Err(Error::InvalidChildIndex));
    assert!(world.is_active(node));
    assert!(!world.is_active(a));
    assert_eq!(sequence_state(&world, node).current, Some(5));
}

#[test]
fn evaluators_need_the_data_of_their_kind() {
    let mut world = World::new();
    let plain = world.spawn(None, NodeState::plain()).unwrap();
    let seq = world.spawn(None, NodeState::sequence(SequenceNode { repeat: false })).unwrap();
    let lim = world.spawn(None, limit(1000)).unwrap();
    assert_eq!(update_sequence(&mut world, plain), Err(Error::MissingComponent));
    assert_eq!(update_sequence(&mut world, lim), Err(Error::MissingComponent));
    assert_eq!(update_sequence(&mut world, Entity(40)), Err(Error::MissingComponent));
    assert_eq!(update_time_limit(&mut world, plain), Err(Error::MissingComponent));
    assert_eq!(update_time_limit(&mut world, seq), Err(Error::MissingComponent));
    assert_eq!(update_time_limit(&mut world, Entity(40)), Err(Error::MissingComponent));

    let mut odd = NodeState::plain().with_active();
    odd.control = Some(ControlNodeSystem::new(Evaluator::Sequence));
    let odd = world.spawn(None, odd).unwrap();
    assert_eq!(update_behavior_trees(&mut world, 10), Err(Error::MissingComponent));
    assert!(world.is_active(odd));
}

#[test]
fn time_limit_without_child_fails() {
    let mut world = World::new();
    let node = world.spawn(None, limit(1000).with_active()).unwrap();
    assert_eq!(update_time_limit(&mut world, node), Err(Error::MissingChild));
    assert_eq!(limit_state(&world, node).timer.is_none(), true);
    assert_eq!(update_behavior_trees(&mut world, 10), Err(Error::MissingChild));
}

#[test]
fn time_limit_counts_the_frame_time() {
    let mut world = World::new();
    let node = world.spawn(None, limit(1000).with_active()).unwrap();
    let child = world.spawn(Some(node), NodeState::leaf()).unwrap();

    world.set_delta(millis(250));
    assert_eq!(world.delta().subsec_nanos(), 250_000_000);
    assert_eq!(update_time_limit(&mut world, node), Ok(NodeResult::QueueNode(child)));
    let state = limit_state(&world, node);
    assert!(state.child_activated);
    let timer = state.timer.unwrap();
    assert_eq!(timer.duration.as_secs(), 1);
    assert_eq!(timer.duration.subsec_nanos(), 0);
    assert_eq!(timer.elapsed.as_secs(), 0);
    assert_eq!(timer.elapsed.subsec_nanos(), 250_000_000);

    world.set_delta(millis(500));
    assert_eq!(update_time_limit(&mut world, node), Ok(NodeResult::Continue));
    let timer = limit_state(&world, node).timer.unwrap();
    assert_eq!(timer.elapsed.as_secs(), 0);
    assert_eq!(timer.elapsed.subsec_nanos(), 750_000_000);

    world.set_delta(millis(249));
    assert_eq!(update_time_limit(&mut world, node), Ok(NodeResult::Continue));
    let timer = limit_state(&world, node).timer.unwrap();
    assert_eq!(timer.elapsed.subsec_nanos(), 999_000_000);

    // The deadline is reached exactly.
    world.set_delta(millis(1));
    assert_eq!(update_time_limit(&mut world, node), Ok(NodeResult::Complete));
    let state = limit_state(&world, node);
    assert!(state.timer.is_none());
    assert!(!state.child_activated);
    assert!(!world.is_active(node));
    assert!(!world.is_active(child));
}

#[test]
fn time_limit_carries_seconds_over() {
    let mut world = World::new();
    let node = world.spawn(None, limit(5000).with_active()).unwrap();
    let _child = world.spawn(Some(node), NodeState::leaf()).unwrap();
    world.set_delta(millis(1700));
    update_time_limit(&mut world, node).unwrap();
    update_time_limit(&mut world, node).unwrap();
    let timer = limit_state(&world, node).timer.unwrap();
    assert_eq!(timer.elapsed.as_secs(), 3);
    assert_eq!(timer.elapsed.subsec_nanos(), 400_000_000);
}

#[test]
fn time_limit_of_no_length_expires_on_first_run() {
    let mut world = World::new();
    let node = world.spawn(None, limit(0).with_active()).unwrap();
    let child = world.spawn(Some(node), NodeState::leaf()).unwrap();
    assert_eq!(update_time_limit(&mut world, node), Ok(NodeResult::Complete));
    assert!(!world.is_active(node));
    assert!(!world.is_active(child));
}

#[test]
fn time_limit_saturates_at_the_longest_span() {
    let mut world = World::new();
    let longest = TimeSpan::new(u64::MAX, 999_999_999).unwrap();
    let node = world
        .spawn(None, NodeState::time_limit(TimeLimitNode { duration: longest }).with_active())
        .unwrap();
    let _child = world.spawn(Some(node), NodeState::leaf()).unwrap();
    world.set_delta(TimeSpan::new(u64::MAX, 0).unwrap());
    assert!(matches!(update_time_limit(&mut world, node), Ok(NodeResult::QueueNode(_))));
    let timer = limit_state(&world, node).timer.unwrap();
    assert_eq!(timer.elapsed.as_secs(), u64::MAX);
    assert_eq!(timer.elapsed.subsec_nanos(), 0);
    // The sum passes the longest span and is held there, which ends the countdown.
    assert_eq!(update_time_limit(&mut world, node), Ok(NodeResult::Complete));
}

#[test]
fn time_limit_restarts_after_completion() {
    let mut world = World::new();
    let node = world.spawn(None, limit(1000).with_active()).unwrap();
    let child = world.spawn(Some(node), NodeState::leaf()).unwrap();
    world.set_delta(millis(600));
    assert_eq!(update_time_limit(&mut world, node), Ok(NodeResult::QueueNode(child)));
    assert_eq!(update_time_limit(&mut world, node), Ok(NodeResult::Complete));
    // A new cycle starts a new countdown and activates the child again.
    world.insert_active(node);
    assert_eq!(update_time_limit(&mut world, node), Ok(NodeResult::QueueNode(child)));
    let timer = limit_state(&world, node).timer.unwrap();
    assert_eq!(timer.elapsed.subsec_nanos(), 600_000_000);
    assert!(world.is_active(child));
}

#[test]
fn expiry_overrides_a_running_child() {
    let mut world = World::new();
    let node = world.spawn(None, limit(1000).with_active()).unwrap();
    let child = world.spawn(Some(node), NodeState::leaf()).unwrap();
    let grandchild = world.spawn(Some(child), NodeState::leaf().with_active()).unwrap();
    update_behavior_trees(&mut world, 10).unwrap_err();
    // The odd grandchild made the child the frontier's parent; start over cleanly.
    world.remove_active(grandchild);
    update_behavior_trees(&mut world, 10).unwrap();
    assert!(world.is_active(child));
    report(&mut world, child, LeafNodeResult::Continue);
    world.insert_active(grandchild);
    world.set_delta(millis(1100));
    update_behavior_trees(&mut world, 10).unwrap();
    assert!(!world.is_active(node));
    assert!(!world.is_active(child));
    assert!(!world.is_active(grandchild));
}

#[test]
fn evaluator_is_registered_once() {
    let mut world = World::new();
    let node = world
        .spawn(None, NodeState::sequence(SequenceNode { repeat: true }).with_active())
        .unwrap();
    let a = world.spawn(Some(node), NodeState::leaf()).unwrap();
    assert_eq!(world.system(SystemId(0)), None);

    update_behavior_trees(&mut world, 10).unwrap();
    assert_eq!(world.system(SystemId(0)), Some(Evaluator::Sequence));
    assert_eq!(world.system(SystemId(1)), None);
    match world.state(node).unwrap().control {
        Some(ControlNodeSystem(Some(ControlNodeSystemInner::Cached(id)))) => {
            assert_eq!(id, SystemId(0))
        }
        other => panic!("unexpected slot {other:?}"),
    }

    report(&mut world, a, LeafNodeResult::Complete);
    update_behavior_trees(&mut world, 10).unwrap();
    update_behavior_trees(&mut world, 10).unwrap();
    assert_eq!(world.system(SystemId(1)), None);
    match world.state(node).unwrap().control {
        Some(ControlNodeSystem(Some(ControlNodeSystemInner::Cached(id)))) => {
            assert_eq!(id, SystemId(0))
        }
        other => panic!("unexpected slot {other:?}"),
    }
}

#[test]
fn run_registers_and_caches() {
    let mut world = World::new();
    let node = world
        .spawn(None, NodeState::sequence(SequenceNode { repeat: false }).with_active())
        .unwrap();
    let a = world.spawn(Some(node), NodeState::leaf()).unwrap();
    let other = world.register_system(Evaluator::TimeLimit);
    assert_eq!(other, SystemId(0));

    let mut system = ControlNodeSystemInner::Uncached(Evaluator::Sequence);
    assert_eq!(system.run(&mut world, node), Ok(NodeResult::QueueNode(a)));
    assert!(matches!(system, ControlNodeSystemInner::Cached(SystemId(1))));
    assert_eq!(world.system(SystemId(1)), Some(Evaluator::Sequence));
    assert_eq!(system.run(&mut world, node), Ok(NodeResult::Continue));
    assert!(matches!(system, ControlNodeSystemInner::Cached(SystemId(1))));
    assert_eq!(world.system(SystemId(2)), None);

    // The handle decides which evaluator runs.
    assert_eq!(run_system_with(&mut world, SystemId(0), node), Err(Error::MissingComponent));
    assert_eq!(run_system_with(&mut world, SystemId(1), node), Ok(NodeResult::Continue));
}

#[test]
fn unknown_handle_fails() {
    let mut world = World::new();
    let mut state = NodeState::sequence(SequenceNode { repeat: false }).with_active();
    state.control = Some(ControlNodeSystem(Some(ControlNodeSystemInner::Cached(SystemId(9)))));
    let node = world.spawn(None, state).unwrap();
    let _a = world.spawn(Some(node), NodeState::leaf()).unwrap();
    assert_eq!(run_system_with(&mut world, SystemId(9), node), Err(Error::UnknownSystem));
    assert_eq!(update_behavior_trees(&mut world, 10), Err(Error::UnknownSystem));
    let mut system = ControlNodeSystemInner::Cached(SystemId(9));
    assert_eq!(system.run(&mut world, node), Err(Error::UnknownSystem));
    assert!(matches!(system, ControlNodeSystemInner::Cached(SystemId(9))));
}

#[test]
fn evaluator_is_put_back_after_a_failure() {
    let mut world = World::new();
    let node = world.spawn(None, limit(1000).with_active()).unwrap();
    assert_eq!(update_behavior_trees(&mut world, 10), Err(Error::MissingChild));
    match world.state(node).unwrap().control {
        Some(ControlNodeSystem(Some(ControlNodeSystemInner::Cached(id)))) => {
            assert_eq!(id, SystemId(0))
        }
        other => panic!("unexpected slot {other:?}"),
    }
    // The node gets its turn again on the next tick.
    assert_eq!(update_behavior_trees(&mut world, 10), Err(Error::MissingChild));
    assert_eq!(world.system(SystemId(1)), None);
}

#[test]
fn empty_slot_counts_as_no_evaluator() {
    let mut world = World::new();
    let mut state = NodeState::sequence(SequenceNode { repeat: false }).with_active();
    state.control = Some(ControlNodeSystem(None));
    let top = world
        .spawn(None, NodeState::sequence(SequenceNode { repeat: false }).with_active())
        .unwrap();
    let node = world.spawn(Some(top), state).unwrap();
    // The node never runs: it hands over to its parent, is queued by it as
    // a node with a slot, and hands over once more. The parent finds no
    // result on it, moves past it and completes.
    update_behavior_trees(&mut world, 10).unwrap();
    assert!(world.has_control(node));
    assert!(matches!(world.state(node).unwrap().control, Some(ControlNodeSystem(None))));
    assert_eq!(sequence_state(&world, node).current, None);
    assert_eq!(sequence_state(&world, top).current, None);
    assert!(!world.is_active(top));
    assert!(world.is_active(node));
    assert_eq!(world.system(SystemId(0)), Some(Evaluator::Sequence));
    assert_eq!(world.system(SystemId(1)), None);
}

#[test]
fn plain_node_on_top_of_a_tree_fails() {
    let mut world = World::new();
    let lone = world.spawn(None, NodeState::leaf().with_active()).unwrap();
    assert_eq!(update_behavior_trees(&mut world, 10), Err(Error::NonControlRoot));
    assert!(world.is_active(lone));
}

#[test]
fn root_marker_cuts_the_way_up() {
    let mut world = World::new();
    let above = world
        .spawn(None, NodeState::sequence(SequenceNode { repeat: false }))
        .unwrap();
    let root = world
        .spawn(Some(above), NodeState::leaf().with_root(Entity(0)).with_active())
        .unwrap();
    // The root records no parent, so a plain root has nobody to hand over to.
    assert_eq!(update_behavior_trees(&mut world, 10), Err(Error::NonControlRoot));
    assert_eq!(sequence_state(&world, above).current, None);
    assert!(world.is_active(root));
}

#[test]
fn no_active_node_means_no_work() {
    let mut world = World::new();
    let node = world.spawn(None, NodeState::sequence(SequenceNode { repeat: false })).unwrap();
    let a = world.spawn(Some(node), NodeState::leaf()).unwrap();
    assert_eq!(update_behavior_trees(&mut world, 0), Ok(()));
    assert!(!world.is_active(node));
    assert!(!world.is_active(a));
    assert_eq!(sequence_state(&world, node).current, None);
    assert_eq!(world.system(SystemId(0)), None);
}

#[test]
fn step_limit_stops_the_walk() {
    let mut world = World::new();
    let node = world
        .spawn(None, NodeState::sequence(SequenceNode { repeat: false }).with_active())
        .unwrap();
    let a = world.spawn(Some(node), NodeState::leaf()).unwrap();
    assert_eq!(update_behavior_trees(&mut world, 0), Err(Error::StepLimit));
    assert!(!world.is_active(a));
    assert_eq!(update_behavior_trees(&mut world, 1), Ok(()));
    assert!(world.is_active(a));
}

#[test]
fn step_limit_ends_a_walk_that_would_not_end() {
    let mut world = World::new();
    let outer = world
        .spawn(None, NodeState::sequence(SequenceNode { repeat: true }).with_active())
        .unwrap();
    let _first = world
        .spawn(Some(outer), NodeState::sequence(SequenceNode { repeat: false }))
        .unwrap();
    let _second = world
        .spawn(Some(outer), NodeState::sequence(SequenceNode { repeat: false }))
        .unwrap();
    assert_eq!(update_behavior_trees(&mut world, 1000), Err(Error::StepLimit));
    assert_eq!(world.len(), 3);
}

#[test]
fn queued_control_node_runs_on_the_same_tick() {
    let mut world = World::new();
    let seq = world
        .spawn(None, NodeState::sequence(SequenceNode { repeat: false }).with_active())
        .unwrap();
    let lim = world.spawn(Some(seq), limit(1000)).unwrap();
    let leaf = world.spawn(Some(lim), NodeState::leaf()).unwrap();
    let last = world.spawn(Some(seq), NodeState::leaf()).unwrap();

    update_behavior_trees(&mut world, 10).unwrap();
    assert!(world.is_active(seq));
    assert!(world.is_active(lim));
    assert!(world.is_active(leaf));
    assert!(!world.is_active(last));
    assert!(limit_state(&world, lim).child_activated);

    // The leaf finishes: the time limit completes and the sequence moves on,
    // all on one tick.
    report(&mut world, leaf, LeafNodeResult::Complete);
    update_behavior_trees(&mut world, 10).unwrap();
    assert!(world.is_active(seq));
    assert!(!world.is_active(lim));
    assert!(!world.is_active(leaf));
    assert!(world.is_active(last));
    assert_eq!(sequence_state(&world, seq).current, Some(1));

    report(&mut world, last, LeafNodeResult::Complete);
    update_behavior_trees(&mut world, 10).unwrap();
    assert!(!world.is_active(seq));
    assert!(!world.is_active(last));
}

#[test]
fn separate_trees_advance_together() {
    let mut world = World::new();
    let left = world
        .spawn(None, NodeState::sequence(SequenceNode { repeat: false }).with_active())
        .unwrap();
    let l1 = world.spawn(Some(left), NodeState::leaf()).unwrap();
    let right = world.spawn(None, limit(2000).with_active()).unwrap();
    let r1 = world.spawn(Some(right), NodeState::leaf()).unwrap();

    update_behavior_trees(&mut world, 10).unwrap();
    assert!(world.is_active(l1));
    assert!(world.is_active(r1));
    assert_eq!(world.system(SystemId(0)), Some(Evaluator::TimeLimit));
    assert_eq!(world.system(SystemId(1)), Some(Evaluator::Sequence));
}

#[test]
fn any_child_active_looks_at_children_only() {
    let mut world = World::new();
    let top = world.spawn(None, NodeState::plain()).unwrap();
    let a = world.spawn(Some(top), NodeState::leaf()).unwrap();
    let a1 = world.spawn(Some(a), NodeState::leaf().with_active()).unwrap();
    assert!(!any_child_active(&world, top));
    assert!(any_child_active(&world, a));
    assert!(!any_child_active(&world, a1));
    assert!(!any_child_active(&world, Entity(50)));
}

#[test]
fn reset_clears_results_of_active_nodes_only() {
    let mut world = World::new();
    let active = world.spawn(None, NodeState::leaf().with_active()).unwrap();
    let idle = world.spawn(None, NodeState::leaf()).unwrap();
    let control = world
        .spawn(None, NodeState::sequence(SequenceNode { repeat: false }).with_active())
        .unwrap();
    report(&mut world, active, LeafNodeResult::Complete);
    report(&mut world, idle, LeafNodeResult::Continue);

    reset_leaf_results(&mut world);

    assert_eq!(world.leaf_result(active), Some(LeafNodeResult::Idle));
    assert_eq!(world.leaf_result(idle), Some(LeafNodeResult::Continue));
    assert_eq!(world.leaf_result(control), None);
    assert!(world.is_active(active));
}

#[test]
fn pre_update_action_evaluates_then_resets() {
    let mut world = World::new();
    let node = world
        .spawn(None, NodeState::sequence(SequenceNode { repeat: false }).with_active())
        .unwrap();
    let a = world.spawn(Some(node), NodeState::leaf()).unwrap();
    let b = world.spawn(Some(node), NodeState::leaf()).unwrap();

    pre_update_action(&mut world, 10).unwrap();
    assert!(world.is_active(a));
    report(&mut world, a, LeafNodeResult::Complete);
    // The evaluation sees the report before it is cleared.
    pre_update_action(&mut world, 10).unwrap();
    assert!(!world.is_active(a));
    assert!(world.is_active(b));
    report(&mut world, b, LeafNodeResult::Continue);
    pre_update_action(&mut world, 10).unwrap();
    assert!(world.is_active(b));
    assert_eq!(world.leaf_result(b), Some(LeafNodeResult::Idle));
}

#[test]
fn pre_update_action_resets_after_a_failure() {
    let mut world = World::new();
    let lone = world.spawn(None, NodeState::leaf().with_active()).unwrap();
    report(&mut world, lone, LeafNodeResult::Complete);
    assert_eq!(pre_update_action(&mut world, 10), Err(Error::NonControlRoot));
    assert_eq!(world.leaf_result(lone), Some(LeafNodeResult::Idle));
}

#[test]
fn error_messages() {
    assert_eq!(Error::NoRoot.message(), "No BehaviorTreeRoot found in parents");
    assert_eq!(Error::InvalidChildIndex.message(), "Invalid child index");
    assert_eq!(Error::MissingChild.message(), "TimeLimitNode requires exactly one child");
    assert_eq!(
        Error::NonControlRoot.message(),
        "Non-control node is on root of behavior tree"
    );
    assert_ne!(Error::MissingComponent.message(), Error::UnknownSystem.message());
    assert_ne!(Error::StepLimit.message(), Error::UnknownSystem.message());
}

#[test]
fn builders_fill_in_the_required_parts() {
    let seq = NodeState::sequence(SequenceNode { repeat: true });
    assert!(!seq.active);
    assert!(seq.result.is_none());
    assert!(matches!(
        seq.control,
        Some(ControlNodeSystem(Some(ControlNodeSystemInner::Uncached(Evaluator::Sequence))))
    ));
    assert!(matches!(
        seq.kind,
        NodeKind::Sequence(SequenceNode { repeat: true }, SequenceState { current: None })
    ));
    let lim = limit(1500);
    assert!(matches!(
        lim.control,
        Some(ControlNodeSystem(Some(ControlNodeSystemInner::Uncached(Evaluator::TimeLimit))))
    ));
    match lim.kind {
        NodeKind::TimeLimit(config, state) => {
            assert_eq!(config.duration.as_secs(), 1);
            assert_eq!(config.duration.subsec_nanos(), 500_000_000);
            assert!(state.timer.is_none());
            assert!(!state.child_activated);
        }
        _ => panic!("not a time limit"),
    }
    let leaf = NodeState::leaf();
    assert_eq!(leaf.result, Some(LeafNodeResult::Idle));
    assert!(leaf.control.is_none());
    assert!(matches!(leaf.kind, NodeKind::Plain));
    let rooted = NodeState::plain().with_root(Entity(7)).with_active();
    assert_eq!(rooted.root, Some(BehaviorTreeRoot { target: Entity(7) }));
    assert!(rooted.active);
}

#[test]
fn paths_stay_closed_over_many_frames() {
    let mut world = World::new();
    let creature = world.spawn(None, NodeState::plain()).unwrap();
    let root = world
        .spawn(
            Some(creature),
            NodeState::sequence(SequenceNode { repeat: true })
                .with_root(creature)
                .with_active(),
        )
        .unwrap();
    let chase_limit = world.spawn(Some(root), limit(1000)).unwrap();
    let chase = world.spawn(Some(chase_limit), NodeState::plain()).unwrap();
    let sleep = world.spawn(Some(root), NodeState::plain()).unwrap();
    world.set_delta(millis(300));
    assert!(all_paths_closed(&world));

    let mut slept = 0;
    let mut sleeps_finished = 0;
    let mut chased = 0;
    for _frame in 0..200 {
        pre_update_action(&mut world, 1000).unwrap();
        assert!(all_paths_closed(&world));
        assert!(world.is_active(root));
        assert!(world.is_active(chase) != world.is_active(sleep));
        assert_eq!(world.is_active(chase), world.is_active(chase_limit));

        // The leaves act on what the evaluation left them.
        if world.is_active(chase) {
            chased += 1;
            report(&mut world, chase, LeafNodeResult::Continue);
        }
        if world.is_active(sleep) {
            slept += 1;
            if slept % 3 == 0 {
                sleeps_finished += 1;
                report(&mut world, sleep, LeafNodeResult::Complete);
            } else {
                report(&mut world, sleep, LeafNodeResult::Continue);
            }
        }
        assert!(all_paths_closed(&world));
    }
    assert!(chased > 50);
    assert!(sleeps_finished > 10);
    assert_eq!(AiTarget::new(&world).get_target(chase), Ok(creature));
    assert_eq!(AiTarget::new(&world).get_target(sleep), Ok(creature));
    // Each evaluator was registered once in all those frames.
    assert_eq!(world.system(SystemId(0)), Some(Evaluator::Sequence));
    assert_eq!(world.system(SystemId(1)), Some(Evaluator::TimeLimit));
    assert_eq!(world.system(SystemId(2)), None);
}

#[test]
fn unbacked_node_is_seen() {
    let mut world = World::new();
    let top = world
        .spawn(None, NodeState::sequence(SequenceNode { repeat: false }))
        .unwrap();
    let child = world.spawn(Some(top), NodeState::leaf()).unwrap();
    let rooted = world
        .spawn(Some(top), NodeState::leaf().with_root(Entity(0)))
        .unwrap();
    assert!(all_paths_closed(&world));
    // A root may be active under an inactive parent.
    world.insert_active(rooted);
    assert!(all_paths_closed(&world));
    world.insert_active(child);
    assert!(!all_paths_closed(&world));
    world.insert_active(top);
    assert!(all_paths_closed(&world));
    world.remove_active(top);
    assert!(!all_paths_closed(&world));
    remove_active_node(&mut world, top);
    assert!(all_paths_closed(&world));
}

#[test]
fn time_limit_runs_its_first_child_only() {
    let mut world = World::new();
    let node = world.spawn(None, limit(1000).with_active()).unwrap();
    let first = world.spawn(Some(node), NodeState::leaf()).unwrap();
    let second = world.spawn(Some(node), NodeState::leaf()).unwrap();
    world.set_delta(millis(100));

    update_behavior_trees(&mut world, 10).unwrap();
    assert!(world.is_active(first));
    assert!(!world.is_active(second));

    // A report of the second child does not count.
    report(&mut world, second, LeafNodeResult::Complete);
    update_behavior_trees(&mut world, 10).unwrap();
    assert!(world.is_active(node));
    assert!(world.is_active(first));
    assert!(!world.is_active(second));

    report(&mut world, first, LeafNodeResult::Complete);
    update_behavior_trees(&mut world, 10).unwrap();
    assert!(!world.is_active(node));
    assert!(!world.is_active(first));
    assert_eq!(world.leaf_result(second), Some(LeafNodeResult::Complete));
}
