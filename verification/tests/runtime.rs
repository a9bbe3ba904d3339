use ecs_core::cloning::CloneConfig;
use ecs_core::commands::{drain, Command, CommandQueue, SpawnNode};
use ecs_core::entity::Entity;
use ecs_core::errors::{EcsError, HandledError, HandlerPolicy, Origin, OriginKind};
use ecs_core::registry::{HookAction, HookEvent, Mutability, Registry, RelPair, RequiredEntry, TypeInfo};
use ecs_core::value::Value;
use ecs_core::world::World;

const ENEMY: usize = 0;
const HEALTH: usize = 1;
const ATTACK: usize = 2;
const SUM_ME: usize = 3;
const LIKES: usize = 4;
const LIKED_BY: usize = 5;
const MARKER: usize = 6;
const LOOPER: usize = 7;

fn plain(mutability: Mutability, cloneable: bool) -> TypeInfo {
    TypeInfo {
        mutability,
        cloneable,
        required: Vec::new(),
        on_insert: Vec::new(),
        on_remove: Vec::new(),
    }
}

fn fixture_registry() -> Registry {
    let mut enemy = plain(Mutability::Mutable, true);
    enemy.required = vec![
        RequiredEntry { type_id: HEALTH, default_value: 100 },
        RequiredEntry { type_id: ATTACK, default_value: 10 },
    ];
    let mut sum_me = plain(Mutability::Immutable, true);
    sum_me.on_insert = vec![HookAction::AddToTotal];
    sum_me.on_remove = vec![HookAction::SubFromTotal];
    let likes = plain(Mutability::Immutable, true);
    let liked_by = plain(Mutability::Mutable, false);
    let mut looper = plain(Mutability::Mutable, false);
    looper.on_insert = vec![HookAction::EnqueueInsert(LOOPER, 1)];
    Registry {
        types: vec![
            enemy,
            plain(Mutability::Mutable, true),
            plain(Mutability::Mutable, true),
            sum_me,
            likes,
            liked_by,
            plain(Mutability::Mutable, false),
            looper,
        ],
        pairs: vec![RelPair { owning: LIKES, collection: LIKED_BY, remove_empty_collection: false }],
    }
}

fn fixture() -> World {
    World::new(fixture_registry()).unwrap()
}

#[test]
fn required_components_expand() {
    let mut w = fixture();
    let e = w.spawn_empty();
    w.insert_int(e, ENEMY, 1).unwrap();
    assert_eq!(w.get_value(e, ENEMY), Some(Value::Int(1)));
    assert_eq!(w.get_value(e, HEALTH), Some(Value::Int(100)));
    assert_eq!(w.get_value(e, ATTACK), Some(Value::Int(10)));
    assert_eq!(w.get_value(e, SUM_ME), None);
}

#[test]
fn required_components_keep_existing_values() {
    let mut w = fixture();
    let e = w.spawn_empty();
    w.insert_int(e, HEALTH, 55).unwrap();
    w.insert_int(e, ENEMY, 1).unwrap();
    assert_eq!(w.get_value(e, HEALTH), Some(Value::Int(55)));
    assert_eq!(w.get_value(e, ATTACK), Some(Value::Int(10)));
}

#[test]
fn immutable_replace_runs_remove_then_insert() {
    let mut w = fixture();
    let e1 = w.spawn_empty();
    let e2 = w.spawn_empty();
    w.insert_int(e1, SUM_ME, 5).unwrap();
    w.insert_int(e2, SUM_ME, 3).unwrap();
    assert_eq!(w.total, 8);
    let before = w.hook_log.len();
    w.insert_int(e1, SUM_ME, 6).unwrap();
    assert_eq!(w.total, 9);
    assert_eq!(w.hook_log.len(), before + 2);
    let rem = &w.hook_log[before];
    let ins = &w.hook_log[before + 1];
    assert_eq!(rem.event, HookEvent::OnRemove);
    assert_eq!(rem.entity, e1);
    assert_eq!(rem.value, Value::Int(5));
    assert_eq!(ins.event, HookEvent::OnInsert);
    assert_eq!(ins.entity, e1);
    assert_eq!(ins.value, Value::Int(6));
}

#[test]
fn linking_builds_collection_in_order() {
    let mut w = fixture();
    let e0 = w.spawn_empty();
    let e1 = w.spawn_empty();
    let e2 = w.spawn_empty();
    let e3 = w.spawn_empty();
    w.link(e1, LIKES, e0).unwrap();
    w.link(e2, LIKES, e0).unwrap();
    w.link(e3, LIKES, e0).unwrap();
    assert_eq!(w.get_value(e0, LIKED_BY), Some(Value::Members(vec![e1, e2, e3])));
    assert_eq!(w.get_value(e1, LIKES), Some(Value::Target(e0)));
}

#[test]
fn retarget_moves_membership() {
    let mut w = fixture();
    let e0 = w.spawn_empty();
    let e4 = w.spawn_empty();
    let e1 = w.spawn_empty();
    w.link(e1, LIKES, e0).unwrap();
    w.link(e1, LIKES, e4).unwrap();
    assert_eq!(w.get_value(e0, LIKED_BY), Some(Value::Members(vec![])));
    assert_eq!(w.get_value(e4, LIKED_BY), Some(Value::Members(vec![e1])));
    assert_eq!(w.get_value(e1, LIKES), Some(Value::Target(e4)));
}

#[test]
fn despawn_target_removes_all_owners() {
    let mut w = fixture();
    let e0 = w.spawn_empty();
    let e1 = w.spawn_empty();
    let e2 = w.spawn_empty();
    let other = w.spawn_empty();
    let e5 = w.spawn_empty();
    w.link(e1, LIKES, e0).unwrap();
    w.link(e2, LIKES, e0).unwrap();
    w.link(e5, LIKES, other).unwrap();
    w.despawn(e0).unwrap();
    assert!(!w.is_live(e0));
    assert_eq!(w.get_value(e1, LIKES), None);
    assert_eq!(w.get_value(e2, LIKES), None);
    // the unrelated link is untouched
    assert_eq!(w.get_value(e5, LIKES), Some(Value::Target(other)));
    assert_eq!(w.get_value(other, LIKED_BY), Some(Value::Members(vec![e5])));
}

#[test]
fn despawn_member_removes_only_its_entry() {
    let mut w = fixture();
    let e0 = w.spawn_empty();
    let e1 = w.spawn_empty();
    let e2 = w.spawn_empty();
    w.link(e1, LIKES, e0).unwrap();
    w.link(e2, LIKES, e0).unwrap();
    w.despawn(e1).unwrap();
    assert_eq!(w.get_value(e0, LIKED_BY), Some(Value::Members(vec![e2])));
    assert_eq!(w.get_value(e2, LIKES), Some(Value::Target(e0)));
}

#[test]
fn stale_identifiers_never_alias_reused_slots() {
    let mut w = fixture();
    let e = w.spawn_empty();
    w.insert_int(e, HEALTH, 3).unwrap();
    w.despawn(e).unwrap();
    let reborn = w.spawn_empty();
    assert_eq!(reborn.index, e.index);
    assert_ne!(reborn.generation, e.generation);
    assert!(!w.is_live(e));
    assert_eq!(w.get_value(e, HEALTH), None);
    assert_eq!(w.get_value(reborn, HEALTH), None);
}

#[test]
fn clone_deny_all_with_one_allowance() {
    let mut w = fixture();
    let src = w.spawn_empty();
    w.insert_int(src, HEALTH, 7).unwrap();
    w.insert_int(src, ATTACK, 9).unwrap();
    w.insert_int(src, MARKER, 1).unwrap();
    let mut cfg = CloneConfig::deny_all();
    cfg.with_override(HEALTH);
    let dst = w.clone_and_spawn(src, &cfg).unwrap();
    assert_eq!(w.get_value(dst, HEALTH), Some(Value::Int(7)));
    for t in [ENEMY, ATTACK, SUM_ME, LIKES, LIKED_BY, MARKER, LOOPER] {
        assert_eq!(w.get_value(dst, t), None);
    }
    // the source is untouched
    assert_eq!(w.get_value(src, HEALTH), Some(Value::Int(7)));
    assert_eq!(w.get_value(src, ATTACK), Some(Value::Int(9)));
}

#[test]
fn clone_skips_types_without_copy_capability() {
    let mut w = fixture();
    let src = w.spawn_empty();
    w.insert_int(src, MARKER, 1).unwrap();
    w.insert_int(src, HEALTH, 2).unwrap();
    let cfg = CloneConfig::allow_all();
    let dst = w.clone_and_spawn(src, &cfg).unwrap();
    assert_eq!(w.get_value(dst, MARKER), None);
    assert_eq!(w.get_value(dst, HEALTH), Some(Value::Int(2)));
}

#[test]
fn linked_clone_copies_a_two_level_tree() {
    let mut w = fixture();
    let root = w.spawn_empty();
    let c1 = w.spawn_empty();
    let c2 = w.spawn_empty();
    let g1 = w.spawn_empty();
    w.insert_int(root, HEALTH, 1).unwrap();
    w.insert_int(c1, HEALTH, 2).unwrap();
    w.insert_int(c2, HEALTH, 3).unwrap();
    w.insert_int(g1, HEALTH, 4).unwrap();
    w.link(c1, LIKES, root).unwrap();
    w.link(c2, LIKES, root).unwrap();
    w.link(g1, LIKES, c1).unwrap();
    let mut cfg = CloneConfig::allow_all();
    cfg.linked_cloning = true;
    let new_root = w.clone_and_spawn(root, &cfg).unwrap();
    assert_eq!(w.get_value(new_root, HEALTH), Some(Value::Int(1)));
    let new_children = match w.get_value(new_root, LIKED_BY) {
        Some(Value::Members(m)) => m,
        other => panic!("expected members, got {:?}", other),
    };
    assert_eq!(new_children.len(), 2);
    let (n1, n2) = (new_children[0], new_children[1]);
    assert_eq!(w.get_value(n1, HEALTH), Some(Value::Int(2)));
    assert_eq!(w.get_value(n2, HEALTH), Some(Value::Int(3)));
    assert_eq!(w.get_value(n1, LIKES), Some(Value::Target(new_root)));
    assert_eq!(w.get_value(n2, LIKES), Some(Value::Target(new_root)));
    let new_grand = match w.get_value(n1, LIKED_BY) {
        Some(Value::Members(m)) => m,
        other => panic!("expected members, got {:?}", other),
    };
    assert_eq!(new_grand.len(), 1);
    assert_eq!(w.get_value(new_grand[0], HEALTH), Some(Value::Int(4)));
    assert_eq!(w.get_value(new_grand[0], LIKES), Some(Value::Target(n1)));
    // the original tree is untouched
    assert_eq!(w.get_value(root, LIKED_BY), Some(Value::Members(vec![c1, c2])));
    assert_eq!(w.get_value(g1, LIKES), Some(Value::Target(c1)));
    assert_eq!(w.get_value(c1, LIKED_BY), Some(Value::Members(vec![g1])));
}

#[test]
fn move_components_fires_source_remove_before_destination_insert() {
    let mut w = fixture();
    let src = w.spawn_empty();
    let dst = w.spawn_empty();
    w.insert_int(src, HEALTH, 7).unwrap();
    let before = w.hook_log.len();
    w.move_components(src, dst, &vec![HEALTH]).unwrap();
    assert_eq!(w.get_value(src, HEALTH), None);
    assert_eq!(w.get_value(dst, HEALTH), Some(Value::Int(7)));
    assert_eq!(w.hook_log.len(), before + 2);
    let rem = &w.hook_log[before];
    let ins = &w.hook_log[before + 1];
    assert_eq!(rem.event, HookEvent::OnRemove);
    assert_eq!(rem.entity, src);
    assert_eq!(rem.value, Value::Int(7));
    assert_eq!(ins.event, HookEvent::OnInsert);
    assert_eq!(ins.entity, dst);
    assert_eq!(ins.value, Value::Int(7));
}

#[test]
fn global_handler_is_set_once() {
    let mut w = fixture();
    assert!(w.dispatch.set_handler(HandlerPolicy::LogWarn).is_ok());
    assert_eq!(
        w.dispatch.set_handler(HandlerPolicy::Ignore),
        Err(EcsError::HandlerAlreadySet)
    );
    let origin = Origin { kind: OriginKind::System, name: 42 };
    w.dispatch.route(Err(EcsError::NoMatch), origin, None);
    assert_eq!(w.dispatch.handled.len(), 1);
    assert_eq!(
        w.dispatch.handled[0],
        HandledError { origin, error: EcsError::NoMatch, policy: HandlerPolicy::LogWarn }
    );
    // a success is discarded
    w.dispatch.route(Ok(()), origin, None);
    assert_eq!(w.dispatch.handled.len(), 1);
}

#[test]
fn local_handler_shadows_the_global_one() {
    let mut w = fixture();
    w.dispatch.set_handler(HandlerPolicy::LogError).unwrap();
    let origin = Origin { kind: OriginKind::Observer, name: 7 };
    w.dispatch.route(Err(EcsError::MultipleMatches), origin, Some(HandlerPolicy::Ignore));
    assert_eq!(w.dispatch.handled.len(), 1);
    assert_eq!(w.dispatch.handled[0].policy, HandlerPolicy::Ignore);
}

#[test]
fn registry_rejects_cyclic_required_declarations() {
    let mut a = plain(Mutability::Mutable, true);
    a.required = vec![RequiredEntry { type_id: 1, default_value: 0 }];
    let mut b = plain(Mutability::Mutable, true);
    b.required = vec![RequiredEntry { type_id: 0, default_value: 0 }];
    let reg = Registry { types: vec![a, b], pairs: Vec::new() };
    assert!(matches!(World::new(reg), Err(EcsError::RequiredCycle)));
}

#[test]
fn registry_rejects_mutable_owning_types() {
    let reg = Registry {
        types: vec![plain(Mutability::Mutable, true), plain(Mutability::Mutable, false)],
        pairs: vec![RelPair { owning: 0, collection: 1, remove_empty_collection: false }],
    };
    assert!(matches!(World::new(reg), Err(EcsError::InvalidRegistry)));
}

#[test]
fn drain_skips_commands_on_despawned_entities() {
    let mut w = fixture();
    let e = w.spawn_empty();
    let mut q = CommandQueue::new(16);
    q.enqueue(Command::Despawn(e));
    q.enqueue(Command::Insert(e, HEALTH, Value::Int(1)));
    drain(&mut w, &mut q).unwrap();
    assert!(!w.is_live(e));
    let stale: Vec<&HandledError> = w
        .dispatch
        .handled
        .iter()
        .filter(|h| h.error == EcsError::StaleEntity)
        .collect();
    assert_eq!(stale.len(), 1);
    assert_eq!(stale[0].origin.kind, OriginKind::Command);
}

#[test]
fn drain_stops_hook_induced_loops() {
    let mut w = fixture();
    let e = w.spawn_empty();
    let mut q = CommandQueue::new(4);
    q.enqueue(Command::Insert(e, LOOPER, Value::Int(0)));
    assert_eq!(drain(&mut w, &mut q), Err(EcsError::CommandQueueOverflow));
    assert!(w
        .dispatch
        .handled
        .iter()
        .any(|h| h.error == EcsError::CommandQueueOverflow));
}

#[test]
fn drain_applies_commands_in_order() {
    let mut w = fixture();
    let e = w.spawn_empty();
    let mut q = CommandQueue::new(16);
    q.enqueue(Command::Insert(e, HEALTH, Value::Int(1)));
    q.enqueue(Command::Insert(e, HEALTH, Value::Int(2)));
    drain(&mut w, &mut q).unwrap();
    assert_eq!(w.get_value(e, HEALTH), Some(Value::Int(2)));
}

#[test]
fn query_single_reports_zero_and_many() {
    let mut w = fixture();
    assert_eq!(w.query_single(SUM_ME, None), Err(EcsError::NoMatch));
    let e1 = w.spawn_empty();
    w.insert_int(e1, SUM_ME, 1).unwrap();
    assert_eq!(w.query_single(SUM_ME, None), Ok(e1));
    let e2 = w.spawn_empty();
    w.insert_int(e2, SUM_ME, 2).unwrap();
    assert_eq!(w.query_single(SUM_ME, None), Err(EcsError::MultipleMatches));
}

#[test]
fn query_respects_absence_filters() {
    let mut w = fixture();
    let e0 = w.spawn_empty();
    let e1 = w.spawn_empty();
    w.link(e1, LIKES, e0).unwrap();
    // entities holding a collection but no owning component
    let roots = w.query(LIKED_BY, Some(LIKES));
    assert_eq!(roots, vec![e0]);
}

#[test]
fn structural_errors_are_reported_exactly() {
    let mut w = fixture();
    let e = w.spawn_empty();
    let dead = w.spawn_empty();
    w.despawn(dead).unwrap();
    assert_eq!(w.insert_int(dead, HEALTH, 1), Err(EcsError::DeadEntity));
    assert_eq!(w.link(e, LIKES, dead), Err(EcsError::InvalidTarget));
    assert_eq!(w.link(e, LIKES, e), Err(EcsError::InvalidTarget));
    assert_eq!(w.remove(e, LIKED_BY), Err(EcsError::CollectionNotWritable));
    assert_eq!(w.insert_int(e, 99, 1), Err(EcsError::UnknownType));
    assert_eq!(w.insert_int(e, LIKES, 1), Err(EcsError::ValueKindMismatch));
    assert_eq!(w.remove(e, MARKER), Ok(None));
    assert_eq!(
        w.insert_value(e, LIKED_BY, Value::Members(Vec::new())),
        Err(EcsError::CollectionNotWritable)
    );
    assert_eq!(w.clone_into(dead, e, &CloneConfig::allow_all()), Err(EcsError::SourceNotFound));
}

#[test]
fn spawn_tree_settles_a_two_level_named_graph() {
    let mut w = fixture();
    let mut q = CommandQueue::new(64);
    // root "0" with children "0-0" (children "0-0-0", "0-0-1") and "0-1",
    // names carried as health values
    let tree = SpawnNode {
        components: vec![(HEALTH, 0)],
        children: vec![
            SpawnNode {
                components: vec![(HEALTH, 100)],
                children: vec![
                    SpawnNode { components: vec![(HEALTH, 1000)], children: Vec::new() },
                    SpawnNode { components: vec![(HEALTH, 1001)], children: Vec::new() },
                ],
            },
            SpawnNode { components: vec![(HEALTH, 101)], children: Vec::new() },
        ],
    };
    q.enqueue(Command::SpawnTree(LIKES, tree));
    drain(&mut w, &mut q).unwrap();
    let root = w.query_single(LIKED_BY, Some(LIKES)).unwrap();
    assert_eq!(w.get_value(root, HEALTH), Some(Value::Int(0)));
    let level1 = match w.get_value(root, LIKED_BY) {
        Some(Value::Members(m)) => m,
        other => panic!("expected members, got {:?}", other),
    };
    assert_eq!(level1.len(), 2);
    assert_eq!(w.get_value(level1[0], HEALTH), Some(Value::Int(100)));
    assert_eq!(w.get_value(level1[1], HEALTH), Some(Value::Int(101)));
    assert_eq!(w.get_value(level1[0], LIKES), Some(Value::Target(root)));
    assert_eq!(w.get_value(level1[1], LIKES), Some(Value::Target(root)));
    let level2 = match w.get_value(level1[0], LIKED_BY) {
        Some(Value::Members(m)) => m,
        other => panic!("expected members, got {:?}", other),
    };
    assert_eq!(level2.len(), 2);
    assert_eq!(w.get_value(level2[0], HEALTH), Some(Value::Int(1000)));
    assert_eq!(w.get_value(level2[1], HEALTH), Some(Value::Int(1001)));
    assert_eq!(w.get_value(level2[0], LIKES), Some(Value::Target(level1[0])));
    assert_eq!(w.get_value(level1[1], LIKED_BY), None);
}

#[test]
fn spawn_forms_produce_the_same_graph() {
    // static nested list
    let static_form = SpawnNode {
        components: vec![(HEALTH, 1)],
        children: vec![
            SpawnNode { components: vec![(HEALTH, 2)], children: Vec::new() },
            SpawnNode { components: vec![(HEALTH, 3)], children: Vec::new() },
        ],
    };
    // incremental builder
    let mut built = SpawnNode::leaf(vec![(HEALTH, 1)]);
    built.with_child(SpawnNode::leaf(vec![(HEALTH, 2)]));
    built.with_child(SpawnNode::leaf(vec![(HEALTH, 3)]));
    // sequence-driven batch
    let batched = SpawnNode::from_batch(
        vec![(HEALTH, 1)],
        &vec![vec![(HEALTH, 2)], vec![(HEALTH, 3)]],
    );
    for node in [static_form, built, batched] {
        let mut w = fixture();
        let mut q = CommandQueue::new(64);
        q.enqueue(Command::SpawnTree(LIKES, node));
        drain(&mut w, &mut q).unwrap();
        let root = w.query_single(LIKED_BY, Some(LIKES)).unwrap();
        assert_eq!(w.get_value(root, HEALTH), Some(Value::Int(1)));
        let members = match w.get_value(root, LIKED_BY) {
            Some(Value::Members(m)) => m,
            other => panic!("expected members, got {:?}", other),
        };
        assert_eq!(members.len(), 2);
        assert_eq!(w.get_value(members[0], HEALTH), Some(Value::Int(2)));
        assert_eq!(w.get_value(members[1], HEALTH), Some(Value::Int(3)));
    }
}

#[test]
fn entity_scoped_observers_are_notified_and_cloned() {
    let mut w = fixture();
    let e = w.spawn_empty();
    w.add_observer(e, 900);
    w.insert_int(e, HEALTH, 5).unwrap();
    assert_eq!(w.observer_log.len(), 1);
    assert_eq!(w.observer_log[0].observer, 900);
    assert_eq!(w.observer_log[0].entity, e);
    let mut cfg = CloneConfig::allow_all();
    cfg.add_observers = true;
    let dst = w.clone_and_spawn(e, &cfg).unwrap();
    let watched: Vec<u64> = w
        .observers
        .iter()
        .filter(|o| o.watched == dst)
        .map(|o| o.name)
        .collect();
    assert_eq!(watched, vec![900]);
}

#[test]
fn saturating_total_never_panics() {
    let mut w = fixture();
    let e = w.spawn_empty();
    w.insert_int(e, SUM_ME, i64::MAX).unwrap();
    assert_eq!(w.total, i64::MAX);
    let e2 = w.spawn_empty();
    w.insert_int(e2, SUM_ME, i64::MAX).unwrap();
    assert_eq!(w.total, i64::MAX);
}

#[test]
fn in_place_writes_respect_mutability_kinds() {
    let mut w = fixture();
    let e = w.spawn_empty();
    w.insert_int(e, HEALTH, 1).unwrap();
    w.insert_int(e, SUM_ME, 5).unwrap();
    let log_len = w.hook_log.len();
    w.write_int(e, HEALTH, 2).unwrap();
    assert_eq!(w.get_value(e, HEALTH), Some(Value::Int(2)));
    // an in-place write is no structural change: no hook fires
    assert_eq!(w.hook_log.len(), log_len);
    // the immutable kind only changes through insert and remove
    assert_eq!(w.write_int(e, SUM_ME, 6), Err(EcsError::ImmutableMutation));
    assert_eq!(w.write_int(e, ATTACK, 1), Err(EcsError::NoMatch));
    assert_eq!(w.write_int(e, LIKED_BY, 1), Err(EcsError::CollectionNotWritable));
}

#[test]
fn despawn_fires_remove_hooks() {
    let mut w = fixture();
    let e = w.spawn_empty();
    w.insert_int(e, SUM_ME, 5).unwrap();
    assert_eq!(w.total, 5);
    w.despawn(e).unwrap();
    // the on-remove hook ran: the running total is back in sync
    assert_eq!(w.total, 0);
    assert!(w
        .hook_log
        .iter()
        .any(|r| r.event == HookEvent::OnRemove
            && r.type_id == SUM_ME
            && r.entity == e
            && r.value == Value::Int(5)));
}

#[test]
fn despawn_of_target_fires_member_unlink_hooks() {
    let mut w = fixture();
    let e0 = w.spawn_empty();
    let e1 = w.spawn_empty();
    w.link(e1, LIKES, e0).unwrap();
    w.despawn(e0).unwrap();
    assert!(w
        .hook_log
        .iter()
        .any(|r| r.event == HookEvent::OnRemove
            && r.type_id == LIKES
            && r.entity == e1
            && r.value == Value::Target(e0)));
}

#[test]
fn clone_does_not_expand_required_companions() {
    let mut w = fixture();
    let src = w.spawn_empty();
    w.insert_int(src, ENEMY, 1).unwrap();
    assert_eq!(w.get_value(src, HEALTH), Some(Value::Int(100)));
    let mut cfg = CloneConfig::deny_all();
    cfg.with_override(ENEMY);
    let dst = w.clone_and_spawn(src, &cfg).unwrap();
    // the clone carries exactly the allowed type, not its companions
    assert_eq!(w.get_value(dst, ENEMY), Some(Value::Int(1)));
    assert_eq!(w.get_value(dst, HEALTH), None);
    assert_eq!(w.get_value(dst, ATTACK), None);
    // the source keeps its expanded set
    assert_eq!(w.get_value(src, HEALTH), Some(Value::Int(100)));
    assert_eq!(w.get_value(src, ATTACK), Some(Value::Int(10)));
}

#[test]
fn clone_into_respects_the_overwrite_flag() {
    let mut w = fixture();
    let src = w.spawn_empty();
    let dst = w.spawn_empty();
    w.insert_int(src, HEALTH, 7).unwrap();
    w.insert_int(dst, HEALTH, 3).unwrap();
    let mut guarded = CloneConfig::allow_all();
    guarded.overwrite = false;
    assert_eq!(w.clone_into(src, dst, &guarded), Err(EcsError::DestinationConflict));
    assert_eq!(w.get_value(dst, HEALTH), Some(Value::Int(3)));
    // overwriting is the default
    w.clone_into(src, dst, &CloneConfig::allow_all()).unwrap();
    assert_eq!(w.get_value(dst, HEALTH), Some(Value::Int(7)));
}

#[test]
fn clone_into_duplicates_entity_scoped_observers() {
    let mut w = fixture();
    let src = w.spawn_empty();
    let dst = w.spawn_empty();
    w.add_observer(src, 77);
    let mut cfg = CloneConfig::allow_all();
    cfg.add_observers = true;
    w.clone_into(src, dst, &cfg).unwrap();
    let watching_dst: Vec<u64> = w
        .observers
        .iter()
        .filter(|o| o.watched == dst)
        .map(|o| o.name)
        .collect();
    assert_eq!(watching_dst, vec![77]);
}

#[test]
fn clone_and_move_error_conditions_are_exact() {
    let mut w = fixture();
    let e = w.spawn_empty();
    let dead = w.spawn_empty();
    w.despawn(dead).unwrap();
    assert_eq!(w.move_components(dead, e, &vec![HEALTH]), Err(EcsError::SourceNotFound));
    assert_eq!(w.move_components(e, dead, &vec![HEALTH]), Err(EcsError::DeadEntity));
    assert_eq!(w.move_components(e, e, &vec![HEALTH]), Err(EcsError::DestinationConflict));
    assert_eq!(w.clone_and_spawn(dead, &CloneConfig::allow_all()), Err(EcsError::SourceNotFound));
}

#[test]
fn drain_of_an_empty_batch_changes_nothing() {
    let mut w = fixture();
    let e = w.spawn_empty();
    w.insert_int(e, HEALTH, 1).unwrap();
    let log_before = w.hook_log.len();
    let mut q = CommandQueue::new(4);
    drain(&mut w, &mut q).unwrap();
    assert_eq!(w.hook_log.len(), log_before);
    assert_eq!(w.get_value(e, HEALTH), Some(Value::Int(1)));
}

#[test]
fn single_queries_count_matches_exactly() {
    let mut w = fixture();
    let e = w.spawn_empty();
    w.insert_int(e, MARKER, 1).unwrap();
    assert_eq!(w.query_single(MARKER, None), Ok(e));
    assert_eq!(w.query(MARKER, None), vec![e]);
}

#[test]
fn move_components_orders_each_moved_type() {
    let mut w = fixture();
    let src = w.spawn_empty();
    let dst = w.spawn_empty();
    w.insert_int(src, ENEMY, 1).unwrap();
    assert_eq!(w.get_value(src, HEALTH), Some(Value::Int(100)));
    let before = w.hook_log.len();
    w.move_components(src, dst, &vec![ENEMY, HEALTH, ATTACK]).unwrap();
    for (t, v) in [(ENEMY, 1), (HEALTH, 100), (ATTACK, 10)] {
        assert_eq!(w.get_value(src, t), None);
        assert_eq!(w.get_value(dst, t), Some(Value::Int(v)));
        let rem = w.hook_log[before..]
            .iter()
            .position(|r| r.event == HookEvent::OnRemove && r.type_id == t && r.entity == src)
            .unwrap();
        let ins = w.hook_log[before..]
            .iter()
            .position(|r| r.event == HookEvent::OnInsert && r.type_id == t && r.entity == dst)
            .unwrap();
        assert!(rem < ins);
    }
}

#[test]
fn required_expansion_logs_each_companion_in_order() {
    let mut w = fixture();
    let e = w.spawn_empty();
    w.add_observer(e, 500);
    let log_before = w.hook_log.len();
    let obs_before = w.observer_log.len();
    w.insert_int(e, ENEMY, 1).unwrap();
    // one insertion event per companion, in declaration order, then the
    // primary's own event
    assert_eq!(w.hook_log.len(), log_before + 3);
    assert_eq!(w.hook_log[log_before].type_id, HEALTH);
    assert_eq!(w.hook_log[log_before].value, Value::Int(100));
    assert_eq!(w.hook_log[log_before + 1].type_id, ATTACK);
    assert_eq!(w.hook_log[log_before + 1].value, Value::Int(10));
    assert_eq!(w.hook_log[log_before + 2].type_id, ENEMY);
    assert!(w.hook_log[log_before..].iter().all(|r| r.event == HookEvent::OnInsert
        && r.entity == e));
    // the entity-scoped observer saw the same three events
    assert_eq!(w.observer_log.len(), obs_before + 3);
    assert!(w.observer_log[obs_before..].iter().all(|r| r.observer == 500 && r.entity == e));
    // companions without hooks leave the accumulator alone
    assert_eq!(w.total, 0);
}

#[test]
fn name_rules_shadow_the_global_policy() {
    let mut w = fixture();
    w.dispatch.set_handler(HandlerPolicy::LogError).unwrap();
    w.dispatch.add_name_rule(7, HandlerPolicy::LogInfo);
    let named = Origin { kind: OriginKind::System, name: 7 };
    let other = Origin { kind: OriginKind::System, name: 8 };
    w.dispatch.route(Err(EcsError::NoMatch), named, None);
    w.dispatch.route(Err(EcsError::NoMatch), other, None);
    w.dispatch.route(Err(EcsError::NoMatch), named, Some(HandlerPolicy::Ignore));
    assert_eq!(w.dispatch.handled[0].policy, HandlerPolicy::LogInfo);
    assert_eq!(w.dispatch.handled[1].policy, HandlerPolicy::LogError);
    // a local handler still shadows every rule
    assert_eq!(w.dispatch.handled[2].policy, HandlerPolicy::Ignore);
}
