use vstd::prelude::*;
use crate::cloning::CloneConfig;
use crate::entity::Entity;
use crate::errors::{EcsError, Origin, OriginKind};
use crate::registry::Registry;
use crate::value::{SValue, Value};
use crate::world::World;

verus! {

/// One node of a spawn subtree: the plain components of the entity to
/// spawn and the nodes spawned as related children, each linked to this
/// node's entity through the relationship pair the command names.
#[derive(Debug)]
pub struct SpawnNode {
    pub components: Vec<(usize, i64)>,
    pub children: Vec<SpawnNode>,
}

impl SpawnNode {
    /// A leaf node: components only. This is the static nested-list form
    /// of the spawn api; nesting leaves under `with_child` builds trees.
    pub fn leaf(components: Vec<(usize, i64)>) -> (r: SpawnNode)
        ensures
            r.components == components,
            r.children@.len() == 0,
    {
        SpawnNode { components, children: Vec::new() }
    }

    /// The incremental-builder form: children are appended one at a time.
    pub fn with_child(&mut self, child: SpawnNode)
        ensures
            final(self).components == old(self).components,
            final(self).children@ == old(self).children@.push(child),
    {
        self.children.push(child);
    }

    /// The sequence-driven batch form: one leaf child per component list,
    /// in sequence order.
    pub fn from_batch(components: Vec<(usize, i64)>, batch: &Vec<Vec<(usize, i64)>>)
        -> (r: SpawnNode)
        ensures
            r.components == components,
            r.children@.len() == batch@.len(),
            forall|k: int| 0 <= k < batch@.len() ==> {
                &&& (#[trigger] r.children@[k]).components@ == batch@[k]@
                &&& r.children@[k].children@.len() == 0
            },
    {
        let mut root = SpawnNode { components, children: Vec::new() };
        let mut i: usize = 0;
        let total = batch.len();
        while i < total
            invariant
                total == batch@.len(),
                i == root.children@.len(),
                i <= total,
                forall|k: int| 0 <= k < i ==> {
                    &&& (#[trigger] root.children@[k]).components@ == batch@[k]@
                    &&& root.children@[k].children@.len() == 0
                },
                root.components == components,
            decreases total - i,
        {
            let comps = copy_pairs(&batch[i]);
            root.children.push(SpawnNode { components: comps, children: Vec::new() });
            i = i + 1;
        }
        root
    }
}

/// Copies one component list.
pub fn copy_pairs(src: &Vec<(usize, i64)>) -> (r: Vec<(usize, i64)>)
    ensures
        r@ == src@,
{
    let mut out: Vec<(usize, i64)> = Vec::new();
    let mut i: usize = 0;
    while i < src.len()
        invariant
            i <= src@.len(),
            out@ == src@.take(i as int),
        decreases src@.len() - i,
    {
        proof {
            assert(src@.take(i as int + 1) =~= src@.take(i as int).push(src@[i as int]));
        }
        out.push(src[i]);
        i = i + 1;
    }
    proof {
        assert(src@.take(src@.len() as int) =~= src@);
    }
    out
}

/// A deferred structural mutation. Commands are opaque data until a drain
/// applies them in recording order at a sync point.
#[derive(Debug)]
pub enum Command {
    /// Spawn one entity holding the given components.
    Spawn(Vec<(usize, Value)>),
    /// Spawn a relationship subtree under the given pair's owning type.
    SpawnTree(usize, SpawnNode),
    /// Insert a component value on an entity.
    Insert(Entity, usize, Value),
    /// Remove a component type from an entity.
    Remove(Entity, usize),
    /// Despawn an entity, cascading component and relationship cleanup.
    Despawn(Entity),
    /// Clone the source entity's components onto a freshly spawned entity.
    CloneEntity(Entity, CloneConfig),
    /// Clone the source entity's components onto an existing entity.
    CloneInto(Entity, Entity, CloneConfig),
    /// Move the listed component types from one entity to another.
    MoveComponents(Entity, Entity, Vec<usize>),
}

/// The deferred command buffer: commands recorded by systems and
/// observers during a tick, drained strictly in recording order at the
/// sync point, with a budget bounding the fixed-point drain.
pub struct CommandQueue {
    pub items: Vec<Command>,
    /// The largest number of commands one drain may apply.
    pub budget: usize,
}

impl CommandQueue {
    pub fn new(budget: usize) -> (r: CommandQueue)
        ensures
            r.items@.len() == 0,
            r.budget == budget,
    {
        CommandQueue { items: Vec::new(), budget }
    }

    /// Records one command; side effects become visible only after the
    /// next drain.
    pub fn enqueue(&mut self, cmd: Command)
        ensures
            final(self).items@ == old(self).items@.push(cmd),
            final(self).budget == old(self).budget,
    {
        self.items.push(cmd);
    }
}

/// Whether a spawn node's component list is well formed for exact
/// bookkeeping: every id names a registered plain type with no required
/// companions, and no id repeats.
pub open spec fn node_components_wf(reg: Registry, comps: Seq<(usize, i64)>) -> bool {
    &&& (forall|k: int| 0 <= k < comps.len() ==> {
        &&& ((#[trigger] comps[k]).0 as int) < reg.n_types()
        &&& reg.plain_type(comps[k].0 as int)
        &&& reg.types@[comps[k].0 as int].required@.len() == 0
    })
    &&& (forall|k: int, k2: int| #![trigger comps[k], comps[k2]]
        0 <= k < comps.len() && 0 <= k2 < comps.len() && k != k2
            ==> comps[k].0 != comps[k2].0)
}

/// Every component list in the subtree is well formed.
pub open spec fn tree_wf(reg: Registry, node: SpawnNode) -> bool
    decreases node,
{
    &&& node_components_wf(reg, node.components@)
    &&& forall|k: int| 0 <= k < node.children@.len()
        ==> tree_wf(reg, #[trigger] node.children@[k])
}

/// The settled shape of one spawn subtree under the pair whose owning
/// type is `owning` and collection column is `c`: the root holds exactly
/// the node's components, its member list holds one entity per child
/// node, in order, each member owns the root, and each child's subtree is
/// settled below it.
pub open spec fn subtree_settled(w: World, owning: usize, c: int, node: SpawnNode, root: Entity)
    -> bool
    decreases node,
{
    &&& w.live(root)
    &&& (forall|j: int| 0 <= j < node.components@.len()
        ==> w.sval(root.index as int, (#[trigger] node.components@[j]).0 as int)
            == Some(SValue::SInt(node.components@[j].1)))
    &&& (forall|u: int| #![trigger w.sval(root.index as int, u)]
        0 <= u < w.n_types() && w.registry.plain_type(u)
            && !(exists|j: int| 0 <= j < node.components@.len()
                && ((#[trigger] node.components@[j]).0 as int) == u)
            ==> w.sval(root.index as int, u) is None)
    &&& match w.sval(root.index as int, c) {
        Some(SValue::SMembers(m)) => {
            &&& m.len() == node.children@.len()
            &&& forall|k: int| 0 <= k < m.len() ==> {
                &&& w.sval((#[trigger] m[k]).index as int, owning as int)
                    == Some(SValue::STarget(root))
                &&& subtree_settled(w, owning, c, node.children@[k], m[k])
            }
        },
        None => node.children@.len() == 0,
        _ => false,
    }
}

/// No entity of the settled subtree occupies slot `ex`: the subtree was
/// spawned entirely beside the entity in that slot.
pub open spec fn subtree_avoids(w: World, c: int, node: SpawnNode, root: Entity, ex: int)
    -> bool
    decreases node,
{
    &&& root.index as int != ex
    &&& match w.sval(root.index as int, c) {
        Some(SValue::SMembers(m)) => forall|k: int|
            0 <= k < m.len() && k < node.children@.len()
                ==> subtree_avoids(w, c, node.children@[k], #[trigger] m[k], ex),
        _ => true,
    }
}

/// A settled subtree reads only its own entities' rows, so it survives
/// any change confined to one row it avoids.
proof fn lemma_subtree_preserved(
    w1: World, w2: World, owning: usize, c: int, node: SpawnNode, root: Entity, ex: int,
)
    requires
        tree_wf(w1.registry, node),
        subtree_settled(w1, owning, c, node, root),
        subtree_avoids(w1, c, node, root, ex),
        0 <= c < w1.n_types(),
        (owning as int) < w1.n_types(),
        w2.registry == w1.registry,
        w2.n_slots() >= w1.n_slots(),
        forall|x: Entity| w1.live(x) ==> w2.live(x),
        forall|i: int, u: int| #![trigger w2.sval(i, u)]
            0 <= i < w1.n_slots() && w1.live_at(i) && i != ex && 0 <= u < w1.n_types()
                ==> w2.sval(i, u) == w1.sval(i, u),
    ensures
        subtree_settled(w2, owning, c, node, root),
        forall|x: int| subtree_avoids(w1, c, node, root, x)
            ==> subtree_avoids(w2, c, node, root, x),
    decreases node,
{
    assert(w1.live_at(root.index as int));
    assert forall|j: int| 0 <= j < node.components@.len()
        implies w2.sval(root.index as int, (#[trigger] node.components@[j]).0 as int)
            == Some(SValue::SInt(node.components@[j].1)) by {
        assert(w2.sval(root.index as int, node.components@[j].0 as int)
            == w1.sval(root.index as int, node.components@[j].0 as int));
    }
    assert forall|u: int| #![trigger w2.sval(root.index as int, u)]
        0 <= u < w2.n_types() && w2.registry.plain_type(u)
            && !(exists|j: int| 0 <= j < node.components@.len()
                && ((#[trigger] node.components@[j]).0 as int) == u)
            implies w2.sval(root.index as int, u) is None by {
        assert(w2.sval(root.index as int, u) == w1.sval(root.index as int, u));
    }
    assert(w2.sval(root.index as int, c) == w1.sval(root.index as int, c));
    match w1.sval(root.index as int, c) {
        Some(SValue::SMembers(m)) => {
            assert forall|k: int| 0 <= k < m.len() implies {
                &&& w2.sval((#[trigger] m[k]).index as int, owning as int)
                    == Some(SValue::STarget(root))
                &&& subtree_settled(w2, owning, c, node.children@[k], m[k])
            } by {
                assert(subtree_settled(w1, owning, c, node.children@[k], m[k]));
                assert(subtree_avoids(w1, c, node.children@[k], m[k], ex));
                assert(w1.live(m[k]));
                assert(w1.live_at(m[k].index as int));
                assert(m[k].index as int != ex);
                assert(w2.sval(m[k].index as int, owning as int)
                    == w1.sval(m[k].index as int, owning as int));
                assert(tree_wf(w1.registry, node.children@[k]));
                lemma_subtree_preserved(w1, w2, owning, c, node.children@[k], m[k], ex);
            }
        },
        _ => {},
    }
    assert forall|x: int| subtree_avoids(w1, c, node, root, x)
        implies subtree_avoids(w2, c, node, root, x) by {
        match w1.sval(root.index as int, c) {
            Some(SValue::SMembers(m)) => {
                assert forall|k: int| 0 <= k < m.len() && k < node.children@.len()
                    implies subtree_avoids(w2, c, node.children@[k], #[trigger] m[k], x) by {
                    assert(subtree_avoids(w1, c, node.children@[k], m[k], x));
                    assert(subtree_avoids(w1, c, node.children@[k], m[k], ex));
                    assert(subtree_settled(w1, owning, c, node.children@[k], m[k]));
                    assert(tree_wf(w1.registry, node.children@[k]));
                    lemma_subtree_preserved(w1, w2, owning, c, node.children@[k], m[k], ex);
                }
            },
            _ => {},
        }
    }
}

/// Applies one command to the world, preserving the invariant; each
/// variant's result and effect are those of the store operation it
/// dispatches to. A command naming a despawned entity reports the error
/// instead of applying.
pub fn apply_command(world: &mut World, cmd: Command) -> (r: Result<(), EcsError>)
    requires
        old(world).inv(),
    ensures
        final(world).inv(),
        final(world).registry == old(world).registry,
        final(world).dispatch.handler == old(world).dispatch.handler,
        old(world).log_extended(*final(world)),
        match cmd {
            Command::Insert(e, t, v) => match v@ {
                SValue::SInt(x) => match r {
                    Ok(_) => old(world).plain_insert_err(e, t as int) is None
                        && final(world).sval(e.index as int, t as int)
                            == Some(SValue::SInt(x)),
                    Err(er) => old(world).plain_insert_err(e, t as int) == Some(er)
                        && *final(world) == *old(world),
                },
                SValue::STarget(tgt) => match r {
                    Ok(_) => old(world).link_err(e, t as int, tgt) is None
                        && final(world).sval(e.index as int, t as int)
                            == Some(SValue::STarget(tgt)),
                    Err(er) => old(world).link_err(e, t as int, tgt) == Some(er)
                        && *final(world) == *old(world),
                },
                SValue::SMembers(_) => r == Err::<(), EcsError>(
                    EcsError::CollectionNotWritable) && *final(world) == *old(world),
            },
            Command::Remove(e, t) => match r {
                Ok(_) => old(world).remove_err(e, t as int) is None
                    && final(world).sval(e.index as int, t as int) is None,
                Err(er) => old(world).remove_err(e, t as int) == Some(er)
                    && *final(world) == *old(world),
            },
            Command::Despawn(e) => match r {
                Ok(_) => old(world).live(e) && !final(world).live(e),
                Err(er) => er == EcsError::DeadEntity && !old(world).live(e)
                    && *final(world) == *old(world),
            },
            Command::CloneEntity(src, cfg) => {
                &&& (r is Ok) == old(world).live(src)
                &&& (r is Err ==> *final(world) == *old(world))
            },
            Command::CloneInto(src, dst, cfg) => {
                &&& (r is Ok) == (old(world).live(src) && old(world).live(dst)
                    && !old(world).clone_conflict(src, dst, cfg))
                &&& (r is Err ==> *final(world) == *old(world))
            },
            Command::MoveComponents(src, dst, types) => {
                &&& (r is Ok) == (old(world).live(src) && old(world).live(dst)
                    && src.index != dst.index)
                &&& (r is Err ==> *final(world) == *old(world))
            },
            Command::Spawn(comps) => {
                // a fresh entity exists, and nothing that was live loses
                // a plain cell
                &&& (exists|fresh: Entity| final(world).live(fresh)
                    && !old(world).live(fresh))
                &&& (forall|i: int, u: int| #![trigger final(world).sval(i, u)]
                    0 <= i < old(world).n_slots() && old(world).live_at(i)
                        && 0 <= u < old(world).n_types()
                        && old(world).registry.plain_type(u)
                        ==> final(world).sval(i, u) == old(world).sval(i, u))
            },
            Command::SpawnTree(o2, node) => {
                // a fresh root exists, and with no parent to link, every
                // cell of every previously live entity is untouched
                &&& (exists|fresh: Entity| final(world).live(fresh)
                    && !old(world).live(fresh))
                &&& (forall|i: int, u: int| #![trigger final(world).sval(i, u)]
                    0 <= i < old(world).n_slots() && old(world).live_at(i)
                        && 0 <= u < old(world).n_types()
                        ==> final(world).sval(i, u) == old(world).sval(i, u))
                // under a well-formed tree the whole subtree settles under
                // some fresh root
                &&& (old(world).registry.owning_type(o2 as int)
                    && tree_wf(old(world).registry, node)
                    ==> forall|q: int| #![trigger old(world).registry.pairs@[q]]
                        0 <= q < old(world).registry.n_pairs()
                            && old(world).registry.pairs@[q].owning == o2
                            ==> exists|root: Entity|
                                !old(world).live(root)
                                    && #[trigger] subtree_settled(*final(world), o2,
                                        old(world).registry.pairs@[q].collection as int,
                                        node, root))
            },
        },
{
    match cmd {
        Command::Spawn(comps) => {
            let e = world.spawn_empty();
            let ghost s1 = *world;
            let mut k: usize = 0;
            let n = comps.len();
            let mut first_err: Result<(), EcsError> = Ok(());
            while k < n
                invariant
                    world.inv(),
                    world.registry == old(world).registry,
                    world.dispatch.handler == old(world).dispatch.handler,
                    old(world).log_extended(*world),
                    n == comps@.len(),
                    k <= n,
                    world.live(e),
                    !old(world).live(e),
                    world.n_slots() == s1.n_slots(),
                    s1.n_slots() >= old(world).n_slots(),
                    forall|x: Entity| old(world).live(x) ==> world.live(x),
                    forall|i: int, u: int| #![trigger world.sval(i, u)]
                        0 <= i < old(world).n_slots() && i != e.index as int
                            && 0 <= u < old(world).n_types()
                            && old(world).registry.plain_type(u)
                            ==> world.sval(i, u) == s1.sval(i, u),
                decreases n - k,
            {
                let (t, v) = (comps[k].0, comps[k].1.duplicate());
                let res = world.insert_value(e, t, v);
                if first_err.is_ok() && res.is_err() {
                    first_err = res;
                }
                k = k + 1;
            }
            proof {
                assert forall|i: int, u: int| #![trigger world.sval(i, u)]
                    0 <= i < old(world).n_slots() && old(world).live_at(i)
                        && 0 <= u < old(world).n_types()
                        && old(world).registry.plain_type(u)
                        implies world.sval(i, u) == old(world).sval(i, u) by {
                    assert(i != e.index as int) by {
                        if i == e.index as int {
                            old(world).lemma_entity_at(i);
                            assert(old(world).live(old(world).entity_at(i)));
                            assert(s1.live(old(world).entity_at(i)));
                            assert(s1.live(e));
                            assert(old(world).entity_at(i) == e);
                        }
                    }
                    assert(s1.sval(i, u) == old(world).sval(i, u));
                }
            }
            first_err
        },
        Command::SpawnTree(owning, node) => {
            let (root, res) = spawn_tree(world, owning, &node, None);
            proof {
                assert(world.live(root) && !old(world).live(root));
                if old(world).registry.owning_type(owning as int)
                    && tree_wf(old(world).registry, node) {
                    assert forall|q: int| #![trigger old(world).registry.pairs@[q]]
                        0 <= q < old(world).registry.n_pairs()
                            && old(world).registry.pairs@[q].owning == owning
                            implies exists|root2: Entity|
                                !old(world).live(root2)
                                    && #[trigger] subtree_settled(*world, owning,
                                        old(world).registry.pairs@[q].collection as int,
                                        node, root2) by {
                        assert(subtree_settled(*world, owning,
                            old(world).registry.pairs@[q].collection as int, node, root));
                    }
                }
            }
            res
        },
        Command::Insert(e, t, v) => world.insert_value(e, t, v),
        Command::Remove(e, t) => {
            match world.remove(e, t) {
                Ok(_) => Ok(()),
                Err(er) => Err(er),
            }
        },
        Command::Despawn(e) => world.despawn(e),
        Command::CloneEntity(src, cfg) => {
            match world.clone_and_spawn(src, &cfg) {
                Ok(_) => Ok(()),
                Err(er) => Err(er),
            }
        },
        Command::CloneInto(src, dst, cfg) => world.clone_into(src, dst, &cfg),
        Command::MoveComponents(src, dst, types) => world.move_components(src, dst, &types),
    }
}

/// Spawns one subtree and returns its root, always fresh and live. The
/// node's components go onto the root, the root is linked under `owning`
/// to the parent when one is given, and the children follow in order, so
/// siblings keep their relative order in the root's member list. The
/// first structural error, if any, is reported alongside; the spawn is
/// best-effort, as the original command is.
pub fn spawn_tree(world: &mut World, owning: usize, node: &SpawnNode, parent: Option<Entity>)
    -> (r: (Entity, Result<(), EcsError>))
    requires
        old(world).inv(),
    ensures
        final(world).inv(),
        final(world).registry == old(world).registry,
        final(world).dispatch.handler == old(world).dispatch.handler,
        old(world).log_extended(*final(world)),
        final(world).live(r.0),
        !old(world).live(r.0),
        final(world).n_slots() >= old(world).n_slots(),
        forall|x: Entity| old(world).live(x) ==> final(world).live(x),
        // among entities live before the call, only the parent's member
        // lists can change
        forall|i: int, u: int| #![trigger final(world).sval(i, u)]
            0 <= i < old(world).n_slots() && old(world).live_at(i)
                && 0 <= u < old(world).n_types()
                && (!old(world).registry.collection_type(u)
                    || (match parent {
                        Some(par) => i != par.index as int,
                        None => true,
                    }))
                ==> final(world).sval(i, u) == old(world).sval(i, u),
        // the parent's member list gains exactly the new root
        (match parent {
            Some(par) => old(world).live(par) && old(world).registry.owning_type(owning as int)
                ==> forall|q: int| #![trigger old(world).registry.pairs@[q]]
                    0 <= q < old(world).registry.n_pairs()
                        && old(world).registry.pairs@[q].owning == owning
                        ==> {
                        let c = old(world).registry.pairs@[q].collection as int;
                        match old(world).sval(par.index as int, c) {
                            Some(SValue::SMembers(m)) => final(world).sval(par.index as int, c)
                                == Some(SValue::SMembers(m.push(r.0))),
                            None => final(world).sval(par.index as int, c)
                                == Some(SValue::SMembers(seq![r.0])),
                            _ => true,
                        }
                    },
            None => true,
        }),
        // under a well-formed component list the root holds exactly it
        node_components_wf(old(world).registry, node.components@) ==> {
            &&& (forall|k: int| 0 <= k < node.components@.len()
                ==> final(world).sval(r.0.index as int, (#[trigger] node.components@[k]).0 as int)
                    == Some(SValue::SInt(node.components@[k].1)))
            &&& (forall|u: int| #![trigger final(world).sval(r.0.index as int, u)]
                0 <= u < old(world).n_types() && old(world).registry.plain_type(u)
                    && !(exists|k: int| 0 <= k < node.components@.len()
                        && (#[trigger] node.components@[k]).0 as int == u)
                    ==> final(world).sval(r.0.index as int, u) is None)
        },
        // the root's member list holds one fresh child per child node
        old(world).registry.owning_type(owning as int)
            ==> forall|q: int| #![trigger old(world).registry.pairs@[q]]
                0 <= q < old(world).registry.n_pairs()
                    && old(world).registry.pairs@[q].owning == owning
                    ==> {
                    let c = old(world).registry.pairs@[q].collection as int;
                    match final(world).sval(r.0.index as int, c) {
                        Some(SValue::SMembers(m)) => m.len() == node.children@.len()
                            && forall|k: int| 0 <= k < m.len()
                                ==> !old(world).live(#[trigger] m[k]),
                        None => node.children@.len() == 0,
                        _ => false,
                    }
                },
        // the root owns the parent it was spawned under
        (match parent {
            Some(par) => old(world).live(par)
                && old(world).registry.owning_type(owning as int)
                ==> final(world).sval(r.0.index as int, owning as int)
                    == Some(SValue::STarget(par)),
            None => true,
        }),
        // under a well-formed tree the whole subtree settles below the
        // root, member k carrying exactly child k's components, and the
        // subtree keeps clear of every previously occupied slot
        old(world).registry.owning_type(owning as int)
            && tree_wf(old(world).registry, *node)
            ==> forall|q: int| #![trigger old(world).registry.pairs@[q]]
                0 <= q < old(world).registry.n_pairs()
                    && old(world).registry.pairs@[q].owning == owning
                    ==> subtree_settled(*final(world), owning,
                            old(world).registry.pairs@[q].collection as int, *node, r.0)
                        && (forall|j: int|
                            0 <= j < old(world).n_slots() && old(world).live_at(j)
                                ==> subtree_avoids(*final(world),
                                    old(world).registry.pairs@[q].collection as int,
                                    *node, r.0, j)),
    decreases *node,
{
    let e = world.spawn_empty();
    let ghost w0 = *old(world);
    let ghost s1 = *world;
    let mut first_err: Result<(), EcsError> = Ok(());
    let n = node.components.len();
    let mut k: usize = 0;
    while k < n
        invariant
            world.inv(),
            w0.inv(),
            s1.inv(),
            world.registry == w0.registry,
            world.dispatch.handler == w0.dispatch.handler,
            w0.log_extended(*world),
            s1.live(e),
            world.live(e),
            !w0.live(e),
            world.n_slots() == s1.n_slots(),
            s1.n_slots() >= w0.n_slots(),
            world.slots == s1.slots,
            n == node.components@.len(),
            k <= n,
            forall|x: Entity| w0.live(x) ==> world.live(x),
            forall|i: int, u: int| #![trigger world.sval(i, u)]
                0 <= i < s1.n_slots() && i != e.index as int && 0 <= u < w0.n_types()
                    ==> world.sval(i, u) == s1.sval(i, u),
            forall|u: int| #![trigger world.sval(e.index as int, u)]
                0 <= u < w0.n_types() && !w0.registry.plain_type(u)
                    ==> world.sval(e.index as int, u) == s1.sval(e.index as int, u),
            node_components_wf(w0.registry, node.components@) ==> {
                &&& (forall|k2: int| 0 <= k2 < k
                    ==> world.sval(e.index as int, (#[trigger] node.components@[k2]).0 as int)
                        == Some(SValue::SInt(node.components@[k2].1)))
                &&& (forall|u: int| #![trigger world.sval(e.index as int, u)]
                    0 <= u < w0.n_types() && w0.registry.plain_type(u)
                        && !(exists|k2: int| 0 <= k2 < k
                            && (#[trigger] node.components@[k2]).0 as int == u)
                        ==> world.sval(e.index as int, u) is None)
            },
        decreases n - k,
    {
        let (t, v) = node.components[k];
        let ghost pre = *world;
        let res = world.insert_int(e, t, v);
        proof {
            if node_components_wf(w0.registry, node.components@) {
                assert(node.components@[k as int].0 == t);
                assert(w0.registry.plain_type(t as int));
                assert(w0.registry.types@[t as int].required@.len() == 0);
                match res {
                    Ok(_) => {},
                    Err(_) => {
                        assert(false);
                    },
                }
                assert forall|u: int| #![trigger w0.registry.names_required(t as int, u as usize)]
                    0 <= u < w0.n_types()
                    implies !w0.registry.names_required(t as int, u as usize) by {
                }
            }
        }
        proof {
            assert forall|u: int| #![trigger world.sval(e.index as int, u)]
                0 <= u < w0.n_types() && !w0.registry.plain_type(u)
                    implies world.sval(e.index as int, u)
                        == pre.sval(e.index as int, u) by {
                match res {
                    Ok(_) => {
                        assert(pre.registry.plain_type(t as int));
                        assert(u != t as int);
                        if w0.registry.names_required(t as int, u as usize) {
                            let k2 = choose|k2: int|
                                #![trigger w0.registry.types@[t as int].required@[k2]]
                                0 <= k2 < w0.registry.types@[t as int].required@.len()
                                    && w0.registry.types@[t as int].required@[k2].type_id
                                        == u as usize;
                            assert(w0.registry.required_entry_wf(t as int, k2));
                            assert(w0.registry.plain_type(u));
                            assert(false);
                        }
                    },
                    Err(_) => {},
                }
            }
        }
        if first_err.is_ok() && res.is_err() {
            first_err = res;
        }
        k = k + 1;
    }
    let ghost s2 = *world;
    match parent {
        Some(par) => {
            let res = world.link(e, owning, par);
            if first_err.is_ok() && res.is_err() {
                first_err = res;
            }
        },
        None => {},
    }
    proof {
        if w0.registry.owning_type(owning as int) {
            assert forall|q: int| #![trigger w0.registry.pairs@[q]]
                0 <= q < w0.registry.n_pairs()
                    && w0.registry.pairs@[q].owning == owning
                    implies world.sval(
                        e.index as int, w0.registry.pairs@[q].collection as int) is None by {
                assert(w0.registry.pair_wf(q));
                assert(w0.registry.collection_type(
                    w0.registry.pairs@[q].collection as int));
                assert(s1.sval(e.index as int,
                    w0.registry.pairs@[q].collection as int) is None);
            }
        }
    }
    let ghost s3 = *world;
    let cn = node.children.len();
    let mut c: usize = 0;
    while c < cn
        invariant
            world.inv(),
            w0.inv(),
            s3.inv(),
            world.registry == w0.registry,
            world.dispatch.handler == w0.dispatch.handler,
            w0.log_extended(*world),
            world.live(e),
            s3.live(e),
            !w0.live(e),
            world.n_slots() >= s3.n_slots(),
            s3.n_slots() >= w0.n_slots(),
            cn == node.children@.len(),
            c <= cn,
            forall|x: Entity| w0.live(x) ==> world.live(x),
            forall|x: Entity| s3.live(x) ==> world.live(x),
            forall|i: int, u: int| #![trigger world.sval(i, u)]
                0 <= i < s3.n_slots() && s3.live_at(i) && 0 <= u < w0.n_types()
                    && (!w0.registry.collection_type(u) || i != e.index as int)
                    ==> world.sval(i, u) == s3.sval(i, u),
            w0.registry.owning_type(owning as int)
                ==> forall|q: int| #![trigger w0.registry.pairs@[q]]
                    0 <= q < w0.registry.n_pairs()
                        && w0.registry.pairs@[q].owning == owning
                        ==> {
                        let cc = w0.registry.pairs@[q].collection as int;
                        match world.sval(e.index as int, cc) {
                            Some(SValue::SMembers(m)) => m.len() == c
                                && forall|k2: int| 0 <= k2 < m.len()
                                    ==> !w0.live(#[trigger] m[k2]),
                            None => c == 0,
                            _ => false,
                        }
                    },
            w0.registry.owning_type(owning as int) && tree_wf(w0.registry, *node)
                ==> forall|q: int| #![trigger w0.registry.pairs@[q]]
                    0 <= q < w0.registry.n_pairs()
                        && w0.registry.pairs@[q].owning == owning
                        ==> {
                        let cc = w0.registry.pairs@[q].collection as int;
                        match world.sval(e.index as int, cc) {
                            Some(SValue::SMembers(m)) => forall|k2: int|
                                0 <= k2 < m.len() && k2 < node.children@.len() ==> {
                                &&& world.sval((#[trigger] m[k2]).index as int,
                                    owning as int) == Some(SValue::STarget(e))
                                &&& subtree_settled(*world, owning, cc,
                                    node.children@[k2], m[k2])
                                &&& forall|j: int|
                                    #![trigger subtree_avoids(*world, cc, node.children@[k2], m[k2], j)]
                                    (0 <= j < w0.n_slots() && w0.live_at(j))
                                        || j == e.index as int
                                        ==> subtree_avoids(*world, cc,
                                            node.children@[k2], m[k2], j)
                            },
                            _ => true,
                        }
                    },
        decreases cn - c,
    {
        let ghost pre = *world;
        let (child_root, res) = spawn_tree(world, owning, &node.children[c], Some(e));
        proof {
            assert(!w0.live(child_root)) by {
                if w0.live(child_root) {
                    assert(pre.live(child_root));
                }
            }
            if w0.registry.owning_type(owning as int) {
                assert forall|q: int| #![trigger w0.registry.pairs@[q]]
                    0 <= q < w0.registry.n_pairs()
                        && w0.registry.pairs@[q].owning == owning
                        implies {
                        let cc = w0.registry.pairs@[q].collection as int;
                        match world.sval(e.index as int, cc) {
                            Some(SValue::SMembers(m)) => m.len() == c + 1
                                && forall|k2: int| 0 <= k2 < m.len()
                                    ==> !w0.live(#[trigger] m[k2]),
                            None => false,
                            _ => false,
                        }
                    } by {
                    assert(w0.registry.pair_wf(q));
                    let cc = w0.registry.pairs@[q].collection as int;
                    match pre.sval(e.index as int, cc) {
                        Some(SValue::SMembers(m)) => {
                            lemma_seq_push_not_old_live(w0, m, child_root);
                        },
                        None => {},
                        _ => {},
                    }
                }
            }
        }
        proof {
            assert forall|i: int, u: int| #![trigger world.sval(i, u)]
                0 <= i < s3.n_slots() && s3.live_at(i) && 0 <= u < w0.n_types()
                    && (!w0.registry.collection_type(u) || i != e.index as int)
                    implies world.sval(i, u) == s3.sval(i, u) by {
                assert(pre.live_at(i)) by {
                    s3.lemma_entity_at(i);
                    assert(s3.live(s3.entity_at(i)));
                    assert(pre.live(s3.entity_at(i)));
                }
                assert(pre.sval(i, u) == s3.sval(i, u));
                assert(world.sval(i, u) == pre.sval(i, u));
            }
            if w0.registry.owning_type(owning as int) && tree_wf(w0.registry, *node) {
                assert forall|q: int| #![trigger w0.registry.pairs@[q]]
                    0 <= q < w0.registry.n_pairs()
                        && w0.registry.pairs@[q].owning == owning
                        implies {
                        let cc = w0.registry.pairs@[q].collection as int;
                        match world.sval(e.index as int, cc) {
                            Some(SValue::SMembers(m)) => forall|k2: int|
                                0 <= k2 < m.len() && k2 < node.children@.len() ==> {
                                &&& world.sval((#[trigger] m[k2]).index as int,
                                    owning as int) == Some(SValue::STarget(e))
                                &&& subtree_settled(*world, owning, cc,
                                    node.children@[k2], m[k2])
                                &&& forall|j: int|
                                    #![trigger subtree_avoids(*world, cc, node.children@[k2], m[k2], j)]
                                    (0 <= j < w0.n_slots() && w0.live_at(j))
                                        || j == e.index as int
                                        ==> subtree_avoids(*world, cc,
                                            node.children@[k2], m[k2], j)
                            },
                            _ => true,
                        }
                    } by {
                    assert(w0.registry.pair_wf(q));
                    let cc = w0.registry.pairs@[q].collection as int;
                    assert(!w0.registry.collection_type(owning as int)) by {
                        if w0.registry.collection_type(owning as int) {
                            let q2 = choose|q2: int| #![trigger w0.registry.pairs@[q2]]
                                0 <= q2 < w0.registry.n_pairs()
                                    && w0.registry.pairs@[q2].collection == owning;
                            assert(w0.registry.pairs_disjoint());
                            assert(w0.registry.pairs@[q].owning
                                != w0.registry.pairs@[q2].collection);
                        }
                    }
                    assert(tree_wf(w0.registry, node.children@[c as int]));
                    let nm = match world.sval(e.index as int, cc) {
                        Some(SValue::SMembers(m)) => m,
                        _ => arbitrary(),
                    };
                    let om = match pre.sval(e.index as int, cc) {
                        Some(SValue::SMembers(m)) => m,
                        _ => Seq::<Entity>::empty(),
                    };
                    assert(nm =~= om.push(child_root));
                    assert forall|k2: int|
                        0 <= k2 < nm.len() && k2 < node.children@.len() implies {
                        &&& world.sval((#[trigger] nm[k2]).index as int,
                            owning as int) == Some(SValue::STarget(e))
                        &&& subtree_settled(*world, owning, cc,
                            node.children@[k2], nm[k2])
                        &&& forall|j: int|
                            #![trigger subtree_avoids(*world, cc, node.children@[k2], nm[k2], j)]
                            (0 <= j < w0.n_slots() && w0.live_at(j))
                                || j == e.index as int
                                ==> subtree_avoids(*world, cc,
                                    node.children@[k2], nm[k2], j)
                    } by {
                        if k2 < om.len() {
                            // an earlier sibling: carried over, since the
                            // child call changed no row but the root's
                            assert(nm[k2] == om[k2]);
                            assert(subtree_settled(pre, owning, cc,
                                node.children@[k2], om[k2]));
                            assert(subtree_avoids(pre, cc, node.children@[k2],
                                om[k2], e.index as int));
                            assert(tree_wf(w0.registry, node.children@[k2]));
                            lemma_subtree_preserved(pre, *world, owning, cc,
                                node.children@[k2], om[k2], e.index as int);
                            assert(om[k2].index as int != e.index as int);
                            assert(pre.live(om[k2]));
                            assert(pre.live_at(om[k2].index as int));
                            assert(world.sval(om[k2].index as int, owning as int)
                                == pre.sval(om[k2].index as int, owning as int));
                            assert forall|j: int|
                                #![trigger subtree_avoids(*world, cc, node.children@[k2], nm[k2], j)]
                                (0 <= j < w0.n_slots() && w0.live_at(j))
                                    || j == e.index as int
                                    implies subtree_avoids(*world, cc,
                                        node.children@[k2], nm[k2], j) by {
                                assert(subtree_avoids(pre, cc,
                                    node.children@[k2], om[k2], j));
                            }
                        } else {
                            // the child spawned this iteration
                            assert(k2 == om.len());
                            assert(nm[k2] == child_root);
                            assert(subtree_settled(*world, owning, cc,
                                node.children@[c as int], child_root));
                            assert(world.sval(child_root.index as int, owning as int)
                                == Some(SValue::STarget(e)));
                            assert forall|j: int|
                                #![trigger subtree_avoids(*world, cc, node.children@[k2], nm[k2], j)]
                                (0 <= j < w0.n_slots() && w0.live_at(j))
                                    || j == e.index as int
                                    implies subtree_avoids(*world, cc,
                                        node.children@[k2], nm[k2], j) by {
                                assert(pre.live_at(j)) by {
                                    if j == e.index as int {
                                        assert(pre.live(e));
                                    } else {
                                        w0.lemma_entity_at(j);
                                        assert(w0.live(w0.entity_at(j)));
                                        assert(pre.live(w0.entity_at(j)));
                                    }
                                }
                            }
                        }
                    }
                }
            }
        }
        if first_err.is_ok() && res.is_err() {
            first_err = res;
        }
        c = c + 1;
    }
    proof {
        // the component phase and the children all leave the parent's row
        // unchanged except its member lists, which only the link touches
        assert forall|i: int, u: int| #![trigger world.sval(i, u)]
            0 <= i < w0.n_slots() && w0.live_at(i) && 0 <= u < w0.n_types()
                && (!w0.registry.collection_type(u)
                    || (match parent {
                        Some(par) => i != par.index as int,
                        None => true,
                    }))
                implies world.sval(i, u) == w0.sval(i, u) by {
            assert(i != e.index as int) by {
                if i == e.index as int {
                    w0.lemma_entity_at(i);
                    assert(w0.live(w0.entity_at(i)));
                    assert(s1.live(w0.entity_at(i)));
                    assert(s1.live(e));
                    assert(w0.entity_at(i) == e);
                    assert(!w0.live(e));
                }
            }
            assert(s3.live_at(i)) by {
                w0.lemma_entity_at(i);
                assert(s3.live(w0.entity_at(i)));
            }
            assert(world.sval(i, u) == s3.sval(i, u));
            assert(s1.sval(i, u) == w0.sval(i, u));
            assert(s2.sval(i, u) == s1.sval(i, u));
            assert(s3.sval(i, u) == s2.sval(i, u));
        }
        match parent {
            Some(par) => {
                if w0.live(par) && w0.registry.owning_type(owning as int) {
                    assert(s2.live(par));
                    assert(s2.live(e));
                    assert(par.index != e.index) by {
                        if par.index == e.index {
                            w0.lemma_entity_at(par.index as int);
                            assert(w0.entity_at(par.index as int) == par);
                            assert(s1.live(par));
                            assert(s1.live(e));
                            assert(par == e);
                            assert(!w0.live(e));
                        }
                    }
                    let q0 = choose|q: int| #![trigger w0.registry.pairs@[q]]
                        0 <= q < w0.registry.n_pairs()
                            && w0.registry.pairs@[q].owning == owning;
                    assert(w0.registry.pair_wf(q0));
                    assert((owning as int) < s2.n_types());
                    assert(s2.registry.owning_type(owning as int));
                    assert(s2.link_err(e, owning as int, par) is None);
                    assert forall|q: int| #![trigger w0.registry.pairs@[q]]
                        0 <= q < w0.registry.n_pairs()
                            && w0.registry.pairs@[q].owning == owning
                            implies {
                            let c = w0.registry.pairs@[q].collection as int;
                            match w0.sval(par.index as int, c) {
                                Some(SValue::SMembers(m)) => world.sval(par.index as int, c)
                                    == Some(SValue::SMembers(m.push(e))),
                                None => world.sval(par.index as int, c)
                                    == Some(SValue::SMembers(seq![e])),
                                _ => true,
                            }
                        } by {
                        assert(w0.registry.pair_wf(q));
                        let c = w0.registry.pairs@[q].collection as int;
                        assert(s2.sval(e.index as int, owning as int) is None) by {
                            assert(w0.registry.collection_type(c) || true);
                            assert(!w0.registry.plain_type(owning as int));
                        }
                        assert(s1.sval(par.index as int, c) == w0.sval(par.index as int, c));
                        assert(s2.sval(par.index as int, c) == s1.sval(par.index as int, c));
                        assert(s3.live_at(par.index as int)) by {
                            assert(s3.live(par));
                        }
                        assert(world.sval(par.index as int, c)
                            == s3.sval(par.index as int, c));
                    }
                }
            },
            None => {},
        }
        if w0.registry.owning_type(owning as int) && tree_wf(w0.registry, *node) {
            assert forall|q: int| #![trigger w0.registry.pairs@[q]]
                0 <= q < w0.registry.n_pairs()
                    && w0.registry.pairs@[q].owning == owning
                    implies subtree_settled(*world, owning,
                        w0.registry.pairs@[q].collection as int, *node, e)
                        && (forall|j: int|
                            0 <= j < w0.n_slots() && w0.live_at(j)
                                ==> subtree_avoids(*world,
                                    w0.registry.pairs@[q].collection as int,
                                    *node, e, j)) by {
                assert(w0.registry.pair_wf(q));
                let cc = w0.registry.pairs@[q].collection as int;
                // the root's own cells: exactly the node's components
                assert(node_components_wf(w0.registry, node.components@));
                assert forall|j2: int| 0 <= j2 < node.components@.len()
                    implies world.sval(e.index as int,
                        (#[trigger] node.components@[j2]).0 as int)
                        == Some(SValue::SInt(node.components@[j2].1)) by {}
                assert forall|u: int| #![trigger world.sval(e.index as int, u)]
                    0 <= u < w0.n_types() && w0.registry.plain_type(u)
                        && !(exists|j2: int| 0 <= j2 < node.components@.len()
                            && ((#[trigger] node.components@[j2]).0 as int) == u)
                        implies world.sval(e.index as int, u) is None by {}
                // the member list: settled children in order
                assert(world.registry == w0.registry);
                match world.sval(e.index as int, cc) {
                    Some(SValue::SMembers(m)) => {
                        assert(m.len() == node.children@.len());
                        assert forall|k: int| 0 <= k < m.len() implies {
                            &&& world.sval((#[trigger] m[k]).index as int,
                                owning as int) == Some(SValue::STarget(e))
                            &&& subtree_settled(*world, owning, cc,
                                node.children@[k], m[k])
                        } by {}
                    },
                    None => {
                        assert(node.children@.len() == 0);
                    },
                    _ => {
                        assert(false);
                    },
                }
                assert(subtree_settled(*world, owning, cc, *node, e));
                assert forall|j: int|
                    0 <= j < w0.n_slots() && w0.live_at(j)
                        implies subtree_avoids(*world, cc, *node, e, j) by {
                    assert(e.index as int != j) by {
                        if e.index as int == j {
                            w0.lemma_entity_at(j);
                            assert(w0.live(w0.entity_at(j)));
                            assert(world.live(w0.entity_at(j)));
                            assert(world.live(e));
                            assert(w0.entity_at(j) == e);
                            assert(!w0.live(e));
                        }
                    }
                    match world.sval(e.index as int, cc) {
                        Some(SValue::SMembers(m)) => {
                            assert forall|k: int|
                                0 <= k < m.len() && k < node.children@.len()
                                    implies subtree_avoids(*world, cc,
                                        node.children@[k], #[trigger] m[k], j) by {}
                        },
                        _ => {},
                    }
                }
            }
        }
    }
    (e, first_err)
}

/// Pushing a fresh entity onto a member list of fresh entities keeps them
/// all fresh.
proof fn lemma_seq_push_not_old_live(w0: World, m: Seq<Entity>, x: Entity)
    requires
        forall|k: int| 0 <= k < m.len() ==> !w0.live(#[trigger] m[k]),
        !w0.live(x),
    ensures
        forall|k: int| 0 <= k < m.push(x).len() ==> !w0.live(#[trigger] m.push(x)[k]),
{
    assert forall|k: int| 0 <= k < m.push(x).len()
        implies !w0.live(#[trigger] m.push(x)[k]) by {
        if k < m.len() {
            assert(m.push(x)[k] == m[k]);
        } else {
            assert(m.push(x)[k] == x);
        }
    }
}

/// Drains the queue at a sync point: commands apply strictly in recording
/// order; commands that hooks enqueue while the batch runs are appended
/// and drained in the same pass, until the queue is empty or the budget is
/// exhausted, which fails loudly with `CommandQueueOverflow`. A command
/// naming a dead entity is skipped and reported as `StaleEntity`; the
/// drain does not distinguish an entity despawned earlier in the same
/// batch from one already dead when the batch was recorded — both count
/// as stale, a deliberately coarser policy than reporting the latter as
/// `DeadEntity`. Every per-command failure is routed to the error
/// dispatcher under a `Command` origin, and the drain continues. The world
/// invariant holds when the drain returns, whatever the commands were:
/// after every settled batch, every owning component names a live target
/// whose collection lists the owner exactly once, and conversely. What
/// each drained command does is `apply_command`'s contract; this function
/// does not restate the batch as a single fold, which would take a
/// spec-level interpreter of command semantics over world states.
pub fn drain(world: &mut World, queue: &mut CommandQueue) -> (r: Result<(), EcsError>)
    requires
        old(world).inv(),
    ensures
        final(world).inv(),
        final(world).registry == old(world).registry,
        final(world).dispatch.handler == old(world).dispatch.handler,
        old(world).log_extended(*final(world)),
        match r {
            Ok(_) => final(queue).items@.len() == 0 && final(world).pending@.len() == 0,
            Err(er) => er == EcsError::CommandQueueOverflow,
        },
        old(queue).items@.len() == 0 && old(world).pending@.len() == 0
            ==> r is Ok && *final(world) == *old(world)
                && final(queue).budget == old(queue).budget,
{
    if queue.items.len() == 0 && world.pending.len() == 0 {
        return Ok(());
    }
    let mut processed: usize = 0;
    let budget = queue.budget;
    while queue.items.len() > 0 || world.pending.len() > 0
        invariant
            world.inv(),
            world.registry == old(world).registry,
            world.dispatch.handler == old(world).dispatch.handler,
            old(world).log_extended(*world),
            processed <= budget,
            old(queue).items@.len() > 0 || old(world).pending@.len() > 0,
        ensures
            queue.items@.len() == 0,
            world.pending@.len() == 0,
        decreases budget - processed,
    {
        // move hook-deferred commands to the end of the running batch
        let mut reversed: Vec<Command> = Vec::new();
        while world.pending.len() > 0
            invariant
                world.inv(),
                world.registry == old(world).registry,
                world.dispatch.handler == old(world).dispatch.handler,
                old(world).log_extended(*world),
            decreases world.pending@.len(),
        {
            let ghost hs0 = *world;
            match world.pending.pop() {
                Some(c) => {
                    reversed.push(c);
                },
                None => {},
            }
            proof {
                world.lemma_inv_frame(hs0);
            }
        }
        while reversed.len() > 0
            invariant
                world.inv(),
                world.registry == old(world).registry,
                world.dispatch.handler == old(world).dispatch.handler,
                old(world).log_extended(*world),
            decreases reversed@.len(),
        {
            match reversed.pop() {
                Some(c) => {
                    queue.items.push(c);
                },
                None => {},
            }
        }
        if queue.items.len() == 0 {
            break;
        }
        if processed >= budget {
            let ghost hs1 = *world;
            world.dispatch.route(
                Err(EcsError::CommandQueueOverflow),
                Origin { kind: OriginKind::Command, name: processed as u64 },
                None,
            );
            proof {
                world.lemma_inv_frame(hs1);
            }
            let ghost hs2 = *world;
            world.pending = Vec::new();
            proof {
                world.lemma_inv_frame(hs2);
            }
            queue.items = Vec::new();
            return Err(EcsError::CommandQueueOverflow);
        }
        let cmd = queue.items.remove(0);
        let res = apply_command(world, cmd);
        let reported = match res {
            Err(EcsError::DeadEntity) => Err(EcsError::StaleEntity),
            other => other,
        };
        let ghost hs3 = *world;
        world.dispatch.route(
            reported,
            Origin { kind: OriginKind::Command, name: processed as u64 },
            None,
        );
        proof {
            world.lemma_inv_frame(hs3);
        }
        processed = processed + 1;
    }
    Ok(())
}

} // verus!
