use std::time::Duration;

use behavior_tree::leaf::LeafNodeResult;
use behavior_tree::node::{
    BehaviorTreeRoot, ControlNodeSystem, Entity, Evaluator, NodeKind, NodeState, SequenceNode,
    SequenceState, TimeLimitNode, TimeLimitState,
};
use behavior_tree::target::AiTarget;
use behavior_tree::tick::update_behavior_trees;
use behavior_tree::time::TimeSpan;
use behavior_tree::world::World;

const STEPS: usize = 1000;

fn run_behavior_tree(world: &mut World) {
    update_behavior_trees(world, STEPS).unwrap();
}

fn span(seconds: f32) -> TimeSpan {
    let d = Duration::from_secs_f32(seconds);
    TimeSpan::new(d.as_secs(), d.subsec_nanos()).unwrap()
}

fn set_complete(world: &mut World, entity: Entity) {
    let mut result = world.leaf_result(entity).unwrap();
    result.set_complete();
    assert!(world.set_leaf_result(entity, result));
}

fn sequence_bundle(repeat: bool) -> NodeState {
    NodeState {
        active: true,
        result: None,
        root: None,
        control: Some(ControlNodeSystem::new(Evaluator::Sequence)),
        kind: NodeKind::Sequence(SequenceNode { repeat }, SequenceState::default()),
    }
}

fn time_limit_bundle(seconds: f32) -> NodeState {
    NodeState {
        active: true,
        result: None,
        root: None,
        control: Some(ControlNodeSystem::new(Evaluator::TimeLimit)),
        kind: NodeKind::TimeLimit(
            TimeLimitNode { duration: span(seconds) },
            TimeLimitState::default(),
        ),
    }
}

#[test]
fn ai_target_gets_target_from_root_chain() {
    let mut world = World::new();

    let target = world.spawn(None, NodeState::plain()).unwrap();
    let root = world
        .spawn(
            None,
            NodeState { root: Some(BehaviorTreeRoot::new(target)), ..NodeState::plain() },
        )
        .unwrap();
    let child = world.spawn(Some(root), NodeState::plain()).unwrap();
    let grandchild = world.spawn(Some(child), NodeState::plain()).unwrap();

    let ai_target = AiTarget::new(&world);

    assert_eq!(ai_target.get_target(root).unwrap(), target);
    assert_eq!(ai_target.get_target(child).unwrap(), target);
    assert_eq!(ai_target.get_target(grandchild).unwrap(), target);
}

#[test]
fn sequence_node_queues_children_in_order() {
    let mut world = World::new();

    let node = world.spawn(None, sequence_bundle(false)).unwrap();

    let first_child = world.spawn(Some(node), NodeState::leaf()).unwrap();
    let second_child = world.spawn(Some(node), NodeState::leaf()).unwrap();

    run_behavior_tree(&mut world);
    assert!(world.is_active(first_child));
    assert!(!world.is_active(second_child));

    set_complete(&mut world, first_child);

    run_behavior_tree(&mut world);
    assert!(!world.is_active(first_child));
    assert!(world.is_active(second_child));

    set_complete(&mut world, second_child);

    run_behavior_tree(&mut world);
    assert!(!world.is_active(node));
    assert!(!world.is_active(first_child));
    assert!(!world.is_active(second_child));
}

#[test]
fn time_limit_node_completes_when_child_finishes() {
    let mut world = World::new();

    let node = world.spawn(None, time_limit_bundle(1.0)).unwrap();
    let child = world.spawn(Some(node), NodeState::leaf()).unwrap();

    run_behavior_tree(&mut world);
    assert!(world.is_active(child));

    set_complete(&mut world, child);

    run_behavior_tree(&mut world);
    assert!(!world.is_active(node));
    assert!(!world.is_active(child));
}

#[test]
fn time_limit_node_completes_when_duration_expires() {
    let mut world = World::new();

    let node = world.spawn(None, time_limit_bundle(1.0)).unwrap();
    let child = world.spawn(Some(node), NodeState::leaf()).unwrap();

    run_behavior_tree(&mut world);
    assert!(world.is_active(child));

    world.set_delta(span(0.5));
    run_behavior_tree(&mut world);
    assert!(world.is_active(node));
    assert!(world.is_active(child));

    world.set_delta(span(0.6));
    run_behavior_tree(&mut world);
    assert!(!world.is_active(node));
    assert!(!world.is_active(child));
}
