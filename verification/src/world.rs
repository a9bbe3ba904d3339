use vstd::prelude::*;
use crate::commands::Command;
use crate::entity::Entity;
use crate::errors::{EcsError, ErrorDispatch};
use crate::membership::{count_in, erase_member, lemma_count_at, lemma_count_le_len,
    lemma_count_positive_index, lemma_count_push, lemma_remove_all_head, lemma_remove_all_len,
    lemma_remove_all_membership, remove_all};
use crate::registry::{HookAction, HookEvent, Mutability, Registry, RequiredEntry};
use crate::value::{SValue, Value};

verus! {

/// `x` clamped to the representable range of the accumulator; hook
/// arithmetic saturates instead of overflowing.
pub open spec fn sat_i64(x: int) -> int {
    if x > i64::MAX { i64::MAX as int } else if x < i64::MIN { i64::MIN as int } else { x }
}

/// Saturating addition on the accumulator.
pub fn sat_add(a: i64, b: i64) -> (r: i64)
    ensures
        r as int == sat_i64(a as int + b as int),
{
    if b >= 0 {
        if a <= i64::MAX - b { a + b } else { i64::MAX }
    } else {
        if a >= i64::MIN - b { a + b } else { i64::MIN }
    }
}

/// Saturating subtraction on the accumulator.
pub fn sat_sub(a: i64, b: i64) -> (r: i64)
    ensures
        r as int == sat_i64(a as int - b as int),
{
    if b >= 0 {
        if a >= i64::MIN + b { a - b } else { i64::MIN }
    } else {
        if a <= i64::MAX + b { a - b } else { i64::MAX }
    }
}

/// The accumulator after one hook action fires on triggering value `v`.
pub open spec fn total_step(total: int, a: HookAction, v: SValue) -> int {
    match a {
        HookAction::AddToTotal => match v {
            SValue::SInt(x) => sat_i64(total + x),
            _ => total,
        },
        HookAction::SubFromTotal => match v {
            SValue::SInt(x) => sat_i64(total - x),
            _ => total,
        },
        _ => total,
    }
}

/// The accumulator after a whole action list fires, in registration order.
pub open spec fn total_fold(total: int, acts: Seq<HookAction>, v: SValue) -> int
    decreases acts.len(),
{
    if acts.len() == 0 {
        total
    } else {
        total_fold(total_step(total, acts[0], v), acts.drop_first(), v)
    }
}

/// The deferred-command buffer after one hook action fires for entity `e`.
pub open spec fn pending_step(p: Seq<Command>, a: HookAction, e: Entity) -> Seq<Command> {
    match a {
        HookAction::EnqueueInsert(tt, x) => p.push(Command::Insert(e, tt, Value::Int(x))),
        HookAction::EnqueueRemove(tt) => p.push(Command::Remove(e, tt)),
        _ => p,
    }
}

/// The deferred-command buffer after a whole action list fires.
pub open spec fn pending_fold(p: Seq<Command>, acts: Seq<HookAction>, e: Entity) -> Seq<Command>
    decreases acts.len(),
{
    if acts.len() == 0 {
        p
    } else {
        pending_fold(pending_step(p, acts[0], e), acts.drop_first(), e)
    }
}

/// The observer log after every observer scoped to `e` is notified of one
/// lifecycle event, in registration order.
pub open spec fn obs_note(
    obs: Seq<Observer>, log: Seq<ObserverRecord>, e: Entity, ev: HookEvent, t: usize,
) -> Seq<ObserverRecord>
    decreases obs.len(),
{
    if obs.len() == 0 {
        log
    } else {
        let log2 = if obs[0].watched == e {
            log.push(ObserverRecord { observer: obs[0].name, event: ev, type_id: t, entity: e })
        } else {
            log
        };
        obs_note(obs.drop_first(), log2, e, ev, t)
    }
}

/// The observers gained by duplicating every watcher of `src` onto
/// `dst`, in registration order.
pub open spec fn watchers_dup(obs: Seq<Observer>, src: Entity, dst: Entity) -> Seq<Observer>
    decreases obs.len(),
{
    if obs.len() == 0 {
        Seq::empty()
    } else {
        let rest = watchers_dup(obs.drop_last(), src, dst);
        if obs.last().watched == src {
            rest.push(Observer { watched: dst, name: obs.last().name })
        } else {
            rest
        }
    }
}

/// The required companions an insert actually adds: those absent from
/// the entity when the insert begins, in declaration order.
pub open spec fn newly_required(w: World, e: Entity, reqs: Seq<RequiredEntry>)
    -> Seq<RequiredEntry>
    decreases reqs.len(),
{
    if reqs.len() == 0 {
        Seq::empty()
    } else {
        let rest = newly_required(w, e, reqs.drop_last());
        if w.sval(e.index as int, reqs.last().type_id as int) is Some {
            rest
        } else {
            rest.push(reqs.last())
        }
    }
}

/// The observer notifications the expansion delivers, one `obs_note` pass
/// per newly inserted companion, in order.
pub open spec fn obs_required(
    obs: Seq<Observer>, log: Seq<ObserverRecord>, e: Entity, newly: Seq<RequiredEntry>,
) -> Seq<ObserverRecord>
    decreases newly.len(),
{
    if newly.len() == 0 {
        log
    } else {
        obs_note(obs, obs_required(obs, log, e, newly.drop_last()), e,
            HookEvent::OnInsert, newly.last().type_id)
    }
}

/// Whether every listed required companion fires no insertion hooks, so
/// expansion leaves the accumulator and the deferred queue alone.
pub open spec fn required_hooks_silent(reg: Registry, reqs: Seq<RequiredEntry>) -> bool {
    forall|k: int| 0 <= k < reqs.len()
        ==> reg.types@[(#[trigger] reqs[k]).type_id as int].on_insert@.len() == 0
}

/// One entity slot: whether it is occupied and under which generation.
#[derive(Clone, Copy, PartialEq, Eq, Structural, Debug)]
pub struct Slot {
    pub live: bool,
    pub generation: u64,
}

/// One lifecycle event as delivered to the hooks registered for it.
#[derive(Clone, PartialEq, Eq, Debug)]
pub struct HookRecord {
    pub event: HookEvent,
    pub type_id: usize,
    pub entity: Entity,
    pub value: Value,
}

/// An observer scoped to one specific entity rather than to a component
/// type; it is notified of every lifecycle event on that entity.
#[derive(Clone, Copy, PartialEq, Eq, Structural, Debug)]
pub struct Observer {
    pub watched: Entity,
    pub name: u64,
}

/// One notification delivered to an entity-scoped observer.
#[derive(Clone, Copy, PartialEq, Eq, Structural, Debug)]
pub struct ObserverRecord {
    pub observer: u64,
    pub event: HookEvent,
    pub type_id: usize,
    pub entity: Entity,
}

/// The single mutable resource of the runtime: entity slots, the component
/// grid, the relationship registry, the hook accumulator and logs, the
/// commands hooks have deferred, and the error dispatcher.
pub struct World {
    pub registry: Registry,
    pub slots: Vec<Slot>,
    pub components: Vec<Vec<Option<Value>>>,
    pub free: Vec<usize>,
    /// The accumulator hook actions fold triggering values into.
    pub total: i64,
    /// Every lifecycle event delivered to hooks, in delivery order.
    pub hook_log: Vec<HookRecord>,
    pub observers: Vec<Observer>,
    pub observer_log: Vec<ObserverRecord>,
    /// Commands enqueued by hooks, appended to the running batch.
    pub pending: Vec<Command>,
    pub dispatch: ErrorDispatch,
}

impl World {
    /// A slot index is representable as `usize`: the slot vector's length
    /// is itself a `usize`.
    pub(crate) proof fn lemma_entity_at(&self, i: int)
        requires
            0 <= i < self.n_slots(),
        ensures
            self.entity_at(i).index as int == i,
    {
        assert(self.slots@.len() == vstd::std_specs::vec::spec_vec_len(&self.slots));
    }

    pub open spec fn n_slots(self) -> int {
        self.slots@.len() as int
    }

    pub open spec fn n_types(self) -> int {
        self.registry.n_types()
    }

    /// The shape of the component stored for slot `i` at type `t`.
    pub open spec fn sval(self, i: int, t: int) -> Option<SValue> {
        match self.components@[i]@[t] {
            Some(v) => Some(v@),
            None => None,
        }
    }

    /// The identifier currently naming slot `i`.
    pub open spec fn entity_at(self, i: int) -> Entity {
        Entity { index: i as usize, generation: self.slots@[i].generation }
    }

    /// Whether `e` names a live entity: its slot is occupied under the
    /// same generation.
    pub open spec fn live(self, e: Entity) -> bool {
        &&& (e.index as int) < self.n_slots()
        &&& self.slots@[e.index as int].live
        &&& self.slots@[e.index as int].generation == e.generation
    }

    pub open spec fn live_at(self, i: int) -> bool {
        0 <= i < self.n_slots() && self.slots@[i].live
    }

    /// The component grid mirrors the slots: one row per slot, one cell
    /// per registered type, and a despawned slot holds nothing.
    pub open spec fn grid_wf(self) -> bool {
        &&& self.components@.len() == self.slots@.len()
        &&& (forall|i: int| 0 <= i < self.n_slots()
            ==> #[trigger] self.components@[i]@.len() == self.n_types())
        &&& (forall|i: int, t: int| #![trigger self.sval(i, t)]
            0 <= i < self.n_slots() && 0 <= t < self.n_types() && !self.slots@[i].live
                ==> self.sval(i, t) is None)
    }

    /// The free list names dead slots, once each, with room left in their
    /// generation counters for one more occupancy.
    pub open spec fn free_wf(self) -> bool {
        &&& (forall|k: int| #![trigger self.free@[k]] 0 <= k < self.free@.len() ==> {
            &&& (self.free@[k] as int) < self.n_slots()
            &&& !self.slots@[self.free@[k] as int].live
            &&& self.slots@[self.free@[k] as int].generation < u64::MAX
        })
        &&& (forall|k: int, j: int| #![trigger self.free@[k], self.free@[j]]
            0 <= k < self.free@.len() && 0 <= j < self.free@.len() && k != j
                ==> self.free@[k] != self.free@[j])
    }

    /// Every stored value fits the role of its column: plain types hold
    /// integers, owning types hold targets, collection types hold member
    /// lists.
    pub open spec fn cell_typed(self, i: int, t: int) -> bool {
        match self.sval(i, t) {
            None => true,
            Some(SValue::SInt(_)) => self.registry.plain_type(t),
            Some(SValue::STarget(_)) => self.registry.owning_type(t),
            Some(SValue::SMembers(_)) => self.registry.collection_type(t),
        }
    }

    pub open spec fn typed_wf(self) -> bool {
        forall|i: int, t: int|
            0 <= i < self.n_slots() && 0 <= t < self.n_types()
                ==> #[trigger] self.cell_typed(i, t)
    }

    /// The owning half of the relationship invariant: an owning component
    /// on a live slot names a live target whose collection contains the
    /// owner exactly once.
    pub open spec fn owning_ok(self, p: int, i: int) -> bool {
        let pr = self.registry.pairs@[p];
        match self.sval(i, pr.owning as int) {
            Some(SValue::STarget(tgt)) => {
                &&& tgt.index as int != i
                &&& self.live(tgt)
                &&& match self.sval(tgt.index as int, pr.collection as int) {
                    Some(SValue::SMembers(m)) => count_in(m, self.entity_at(i)) == 1,
                    _ => false,
                }
            },
            _ => true,
        }
    }

    /// The collection half of the relationship invariant: every member of
    /// a live slot's collection is live, occurs once, and owns the
    /// collection's entity.
    pub open spec fn collection_ok(self, p: int, j: int) -> bool {
        let pr = self.registry.pairs@[p];
        match self.sval(j, pr.collection as int) {
            Some(SValue::SMembers(m)) => forall|k: int| 0 <= k < m.len() ==> {
                &&& self.live(#[trigger] m[k])
                &&& self.sval(m[k].index as int, pr.owning as int)
                    == Some(SValue::STarget(self.entity_at(j)))
                &&& count_in(m, m[k]) == 1
            },
            _ => true,
        }
    }

    /// The bidirectional relationship invariant over every declared pair
    /// and every live slot.
    pub open spec fn rel_wf(self) -> bool {
        forall|p: int, i: int|
            #![trigger self.owning_ok(p, i)]
            #![trigger self.collection_ok(p, i)]
            0 <= p < self.registry.n_pairs() && self.live_at(i)
                ==> self.owning_ok(p, i) && self.collection_ok(p, i)
    }

    /// The world invariant: a well-formed registry, a well-shaped grid and
    /// free list, role-typed cells, and consistent relationship edges. It
    /// holds after construction and after every settled operation.
    pub open spec fn inv(self) -> bool {
        &&& self.registry.wf()
        &&& self.grid_wf()
        &&& self.free_wf()
        &&& self.typed_wf()
        &&& self.rel_wf()
    }

    /// Everything but slots, grid and free list is unchanged.
    pub open spec fn same_side_state(self, other: World) -> bool {
        &&& self.registry == other.registry
        &&& self.total == other.total
        &&& self.hook_log == other.hook_log
        &&& self.observers == other.observers
        &&& self.observer_log == other.observer_log
        &&& self.pending == other.pending
        &&& self.dispatch.handler == other.dispatch.handler
        &&& self.dispatch.handled == other.dispatch.handled
    }

    /// Builds a world over a registry, rejecting ill-formed configuration
    /// before the first command: a required-component declaration that is
    /// cyclic or not closed fails with `RequiredCycle`, and an ill-formed
    /// relationship-pair table fails with `InvalidRegistry`.
    pub fn new(registry: Registry) -> (r: Result<World, EcsError>)
        ensures
            match r {
                Ok(w) => {
                    &&& registry.wf()
                    &&& w.inv()
                    &&& w.registry == registry
                    &&& w.n_slots() == 0
                    &&& w.total == 0
                    &&& w.hook_log@.len() == 0
                    &&& w.observers@.len() == 0
                    &&& w.observer_log@.len() == 0
                    &&& w.pending@.len() == 0
                    &&& w.dispatch.handler is None
                    &&& w.dispatch.handled@.len() == 0
                },
                Err(e) => {
                    &&& !registry.wf()
                    &&& (e == EcsError::RequiredCycle <==> !registry.required_wf())
                },
            },
    {
        if !registry.check_required() {
            return Err(EcsError::RequiredCycle);
        }
        if !registry.check_pairs() {
            return Err(EcsError::InvalidRegistry);
        }
        Ok(World {
            registry,
            slots: Vec::new(),
            components: Vec::new(),
            free: Vec::new(),
            total: 0,
            hook_log: Vec::new(),
            observers: Vec::new(),
            observer_log: Vec::new(),
            pending: Vec::new(),
            dispatch: ErrorDispatch::new(),
        })
    }

    /// Spawns an entity with no components. Live entities, their
    /// components, and every identifier previously handed out are
    /// unaffected; the returned identifier did not name a live entity
    /// before the call.
    pub fn spawn_empty(&mut self) -> (r: Entity)
        requires
            old(self).inv(),
        ensures
            final(self).inv(),
            final(self).live(r),
            !old(self).live(r),
            old(self).same_side_state(*final(self)),
            final(self).n_slots() >= old(self).n_slots(),
            forall|e: Entity| old(self).live(e)
                ==> final(self).live(e) && e.index != r.index,
            forall|e: Entity| !old(self).live(e) && e != r ==> !final(self).live(e),
            forall|i: int, t: int|
                0 <= i < old(self).n_slots() && i != r.index as int && 0 <= t < old(self).n_types()
                    ==> final(self).sval(i, t) == old(self).sval(i, t),
            forall|t: int| 0 <= t < final(self).n_types()
                ==> final(self).sval(r.index as int, t) is None,
            forall|i: int| 0 <= i < old(self).n_slots() && i != r.index as int
                ==> final(self).slots@[i] == old(self).slots@[i],
    {
        match self.free.pop() {
            Some(idx) => {
                proof {
                    assert(old(self).free@[old(self).free@.len() - 1] == idx);
                    assert(!old(self).slots@[idx as int].live);
                    assert(old(self).slots@[idx as int].generation < u64::MAX);
                }
                let generation = self.slots[idx].generation + 1;
                self.slots[idx] = Slot { live: true, generation };
                let r = Entity { index: idx, generation };
                proof {
                    let ii = idx as int;
                    assert(self.components == old(self).components);
                    assert forall|t: int| 0 <= t < self.n_types()
                        implies self.sval(ii, t) is None by {
                        assert(old(self).sval(ii, t) is None);
                    }
                    assert forall|i: int, t: int|
                        0 <= i < self.n_slots() && 0 <= t < self.n_types()
                            implies #[trigger] self.cell_typed(i, t) by {
                        assert(old(self).cell_typed(i, t));
                        assert(self.sval(i, t) == old(self).sval(i, t));
                    }
                    assert forall|i: int, t: int|
                        #![trigger self.sval(i, t)]
                        0 <= i < self.n_slots() && 0 <= t < self.n_types()
                            && !self.slots@[i].live
                            implies self.sval(i, t) is None by {
                        assert(old(self).sval(i, t) is None);
                    }
                    self.lemma_spawn_rel(*old(self), ii);
                }
                r
            },
            None => {
                let idx = self.slots.len();
                self.slots.push(Slot { live: true, generation: 0 });
                let mut row: Vec<Option<Value>> = Vec::new();
                let n = self.registry.types.len();
                while row.len() < n
                    invariant
                        row@.len() <= n,
                        forall|t: int| 0 <= t < row@.len() ==> row@[t] is None,
                    decreases n - row@.len(),
                {
                    row.push(None);
                }
                self.components.push(row);
                let r = Entity { index: idx, generation: 0 };
                proof {
                    let ii = idx as int;
                    assert(self.components@[ii] == row);
                    assert forall|t: int| 0 <= t < self.n_types()
                        implies self.sval(ii, t) is None by {
                        assert(row@[t] is None);
                    }
                    assert forall|i: int, t: int|
                        0 <= i < old(self).n_slots() && 0 <= t < self.n_types()
                            implies self.sval(i, t) == old(self).sval(i, t) by {
                        assert(self.components@[i] == old(self).components@[i]);
                    }
                    assert forall|i: int, t: int|
                        0 <= i < self.n_slots() && 0 <= t < self.n_types()
                            implies #[trigger] self.cell_typed(i, t) by {
                        if i < ii {
                            assert(old(self).cell_typed(i, t));
                        } else {
                            assert(self.sval(i, t) is None);
                        }
                    }
                    assert forall|i: int, t: int|
                        #![trigger self.sval(i, t)]
                        0 <= i < self.n_slots() && 0 <= t < self.n_types()
                            && !self.slots@[i].live
                            implies self.sval(i, t) is None by {
                        if i < ii {
                            assert(old(self).sval(i, t) is None);
                        }
                    }
                    self.lemma_spawn_rel(*old(self), ii);
                }
                r
            },
        }
    }

    /// After reviving or appending slot `ii` with an empty component row,
    /// the relationship invariant carries over from the previous state.
    proof fn lemma_spawn_rel(&self, prev: World, ii: int)
        requires
            prev.inv(),
            self.registry == prev.registry,
            self.n_slots() >= prev.n_slots(),
            self.n_slots() == self.components@.len(),
            0 <= ii < self.n_slots(),
            !prev.live_at(ii),
            forall|i: int| 0 <= i < prev.n_slots() && i != ii
                ==> #[trigger] self.slots@[i] == prev.slots@[i],
            self.n_slots() == prev.n_slots()
                || (self.n_slots() == prev.n_slots() + 1 && ii == prev.n_slots()),
            forall|i: int, t: int| #![trigger self.sval(i, t)]
                0 <= i < prev.n_slots() && i != ii && 0 <= t < self.n_types()
                    ==> self.sval(i, t) == prev.sval(i, t),
            forall|t: int| 0 <= t < self.n_types()
                ==> #[trigger] self.sval(ii, t) is None,
        ensures
            self.rel_wf(),
    {
        assert forall|p: int, i: int|
            0 <= p < self.registry.n_pairs() && self.live_at(i)
                implies self.owning_ok(p, i) && self.collection_ok(p, i) by {
            let pr = self.registry.pairs@[p];
            assert(self.registry.pair_wf(p));
            if i != ii {
                assert(prev.live_at(i));
                assert(prev.owning_ok(p, i));
                assert(prev.collection_ok(p, i));
                assert(self.sval(i, pr.owning as int) == prev.sval(i, pr.owning as int));
                assert(self.sval(i, pr.collection as int) == prev.sval(i, pr.collection as int));
                assert(self.entity_at(i) == prev.entity_at(i));
                match prev.sval(i, pr.owning as int) {
                    Some(SValue::STarget(tgt)) => {
                        assert(prev.live(tgt));
                        assert(tgt.index as int != ii);
                        assert(self.slots@[tgt.index as int] == prev.slots@[tgt.index as int]);
                        assert(self.live(tgt));
                        assert(self.sval(tgt.index as int, pr.collection as int)
                            == prev.sval(tgt.index as int, pr.collection as int));
                    },
                    _ => {},
                }
                match prev.sval(i, pr.collection as int) {
                    Some(SValue::SMembers(m)) => {
                        assert forall|k: int| 0 <= k < m.len() implies {
                            &&& self.live(#[trigger] m[k])
                            &&& self.sval(m[k].index as int, pr.owning as int)
                                == Some(SValue::STarget(self.entity_at(i)))
                            &&& count_in(m, m[k]) == 1
                        } by {
                            assert(prev.live(m[k]));
                            assert(m[k].index as int != ii);
                            assert(self.slots@[m[k].index as int]
                                == prev.slots@[m[k].index as int]);
                            assert(self.sval(m[k].index as int, pr.owning as int)
                                == prev.sval(m[k].index as int, pr.owning as int));
                        }
                    },
                    _ => {},
                }
                assert(self.owning_ok(p, i));
                assert(self.collection_ok(p, i));
            } else {
                assert(self.sval(ii, pr.owning as int) is None);
                assert(self.sval(ii, pr.collection as int) is None);
            }
        }
    }

    /// The value stored for `e` at type `t`, or nothing when the entity is
    /// dead, the type unknown, or the component absent.
    pub fn get_value(&self, e: Entity, t: usize) -> (r: Option<Value>)
        requires
            self.inv(),
        ensures
            match r {
                Some(v) => self.live(e) && (t as int) < self.n_types()
                    && self.sval(e.index as int, t as int) == Some(v@),
                None => !self.live(e) || (t as int) >= self.n_types()
                    || self.sval(e.index as int, t as int) is None,
            },
    {
        if !self.is_live(e) || t >= self.registry.types.len() {
            return None;
        }
        match &self.components[e.index][t] {
            Some(v) => Some(v.duplicate()),
            None => None,
        }
    }

    /// Writes one cell of the component grid and changes nothing else.
    fn cell_set(&mut self, i: usize, t: usize, v: Option<Value>)
        requires
            (i as int) < old(self).components@.len(),
            (t as int) < old(self).components@[i as int]@.len(),
        ensures
            final(self).slots == old(self).slots,
            final(self).registry == old(self).registry,
            final(self).free == old(self).free,
            final(self).total == old(self).total,
            final(self).hook_log == old(self).hook_log,
            final(self).observers == old(self).observers,
            final(self).observer_log == old(self).observer_log,
            final(self).pending == old(self).pending,
            final(self).dispatch == old(self).dispatch,
            final(self).components@.len() == old(self).components@.len(),
            forall|a: int| 0 <= a < old(self).components@.len() && a != i as int
                ==> final(self).components@[a] == old(self).components@[a],
            final(self).components@[i as int]@.len() == old(self).components@[i as int]@.len(),
            forall|b: int| 0 <= b < old(self).components@[i as int]@.len() && b != t as int
                ==> final(self).components@[i as int]@[b]
                    == old(self).components@[i as int]@[b],
            final(self).components@[i as int]@[t as int] == v,
    {
        self.components[i][t] = v;
    }

    /// The action list registered for `(t, ev)`.
    pub open spec fn actions_of(self, t: int, ev: HookEvent) -> Seq<HookAction> {
        match ev {
            HookEvent::OnInsert => self.registry.types@[t].on_insert@,
            HookEvent::OnRemove => self.registry.types@[t].on_remove@,
        }
    }

    /// What one delivery of lifecycle event `(e, t, ev, v)` does to the
    /// hook-visible state: one log record, the accumulator and
    /// deferred-command folds, and one notification per observer of `e`.
    pub open spec fn hook_effects(
        self, e: Entity, t: usize, ev: HookEvent, v: SValue, post: World,
    ) -> bool {
        let acts = self.actions_of(t as int, ev);
        &&& post.total as int == total_fold(self.total as int, acts, v)
        &&& post.pending@ == pending_fold(self.pending@, acts, e)
        &&& post.hook_log@.len() == self.hook_log@.len() + 1
        &&& post.hook_log@ == self.hook_log@.push(post.hook_log@.last())
        &&& post.hook_log@.last().event == ev
        &&& post.hook_log@.last().type_id == t
        &&& post.hook_log@.last().entity == e
        &&& post.hook_log@.last().value@ == v
        &&& post.observer_log@ == obs_note(self.observers@, self.observer_log@, e, ev, t)
    }

    /// Everything the hook machinery never touches is unchanged.
    pub open spec fn hooks_frame(self, post: World) -> bool {
        &&& post.registry == self.registry
        &&& post.slots == self.slots
        &&& post.components == self.components
        &&& post.free == self.free
        &&& post.observers == self.observers
        &&& post.dispatch == self.dispatch
    }

    /// Earlier log records are never rewritten.
    pub open spec fn log_extended(self, post: World) -> bool {
        &&& post.hook_log@.len() >= self.hook_log@.len()
        &&& forall|j: int|
            #![trigger self.hook_log@[j]]
            #![trigger post.hook_log@[j]]
            0 <= j < self.hook_log@.len()
                ==> post.hook_log@[j] == self.hook_log@[j]
    }

    /// Delivers one lifecycle event: records it, notifies entity-scoped
    /// observers, and runs the registered actions in order.
    fn fire_hooks(&mut self, e: Entity, t: usize, ev: HookEvent, v: &Value)
        requires
            (t as int) < old(self).n_types(),
        ensures
            old(self).hooks_frame(*final(self)),
            old(self).hook_effects(e, t, ev, v@, *final(self)),
    {
        let rec_value = v.duplicate();
        self.hook_log.push(HookRecord { event: ev, type_id: t, entity: e, value: rec_value });
        let ghost log0 = self.observer_log@;
        let obs_len = self.observers.len();
        proof {
            assert(self.observers@.skip(0) =~= self.observers@);
        }
        let mut k: usize = 0;
        while k < obs_len
            invariant
                obs_len == self.observers@.len(),
                k <= obs_len,
                obs_note(self.observers@, log0, e, ev, t)
                    == obs_note(self.observers@.skip(k as int), self.observer_log@, e, ev, t),
                self.registry == old(self).registry,
                self.slots == old(self).slots,
                self.components == old(self).components,
                self.free == old(self).free,
                self.observers == old(self).observers,
                self.dispatch == old(self).dispatch,
                self.total == old(self).total,
                self.pending == old(self).pending,
                self.hook_log@.len() == old(self).hook_log@.len() + 1,
                self.hook_log@ == old(self).hook_log@.push(self.hook_log@.last()),
                self.hook_log@.last().event == ev,
                self.hook_log@.last().type_id == t,
                self.hook_log@.last().entity == e,
                self.hook_log@.last().value@ == v@,
            decreases obs_len - k,
        {
            proof {
                assert(self.observers@.skip(k as int)[0] == self.observers@[k as int]);
                assert(self.observers@.skip(k as int).drop_first()
                    =~= self.observers@.skip(k as int + 1));
            }
            let ob = self.observers[k];
            if ob.watched.index == e.index && ob.watched.generation == e.generation {
                self.observer_log.push(ObserverRecord {
                    observer: ob.name,
                    event: ev,
                    type_id: t,
                    entity: e,
                });
                proof {
                    assert(ob.watched == e);
                }
            } else {
                proof {
                    assert(ob.watched != e);
                }
            }
            k = k + 1;
        }
        proof {
            assert(self.observers@.skip(obs_len as int) =~= Seq::<Observer>::empty());
        }
        let ghost total0 = self.total as int;
        let ghost pending0 = self.pending@;
        let ghost acts = old(self).actions_of(t as int, ev);
        let acts_len = match ev {
            HookEvent::OnInsert => self.registry.types[t].on_insert.len(),
            HookEvent::OnRemove => self.registry.types[t].on_remove.len(),
        };
        proof {
            assert(acts.skip(0) =~= acts);
        }
        let mut j: usize = 0;
        while j < acts_len
            invariant
                (t as int) < self.n_types(),
                acts == self.actions_of(t as int, ev),
                acts_len == acts.len(),
                j <= acts_len,
                total_fold(total0, acts, v@)
                    == total_fold(self.total as int, acts.skip(j as int), v@),
                pending_fold(pending0, acts, e)
                    == pending_fold(self.pending@, acts.skip(j as int), e),
                self.registry == old(self).registry,
                self.slots == old(self).slots,
                self.components == old(self).components,
                self.free == old(self).free,
                self.observers == old(self).observers,
                self.dispatch == old(self).dispatch,
                self.observer_log@ == obs_note(old(self).observers@, old(self).observer_log@, e, ev, t),
                self.hook_log@.len() == old(self).hook_log@.len() + 1,
                self.hook_log@ == old(self).hook_log@.push(self.hook_log@.last()),
                self.hook_log@.last().event == ev,
                self.hook_log@.last().type_id == t,
                self.hook_log@.last().entity == e,
                self.hook_log@.last().value@ == v@,
            decreases acts_len - j,
        {
            proof {
                assert(acts.skip(j as int)[0] == acts[j as int]);
                assert(acts.skip(j as int).drop_first() =~= acts.skip(j as int + 1));
            }
            let a = match ev {
                HookEvent::OnInsert => self.registry.types[t].on_insert[j],
                HookEvent::OnRemove => self.registry.types[t].on_remove[j],
            };
            match a {
                HookAction::AddToTotal => {
                    match v {
                        Value::Int(x) => {
                            self.total = sat_add(self.total, *x);
                        },
                        _ => {},
                    }
                },
                HookAction::SubFromTotal => {
                    match v {
                        Value::Int(x) => {
                            self.total = sat_sub(self.total, *x);
                        },
                        _ => {},
                    }
                },
                HookAction::EnqueueInsert(tt, x) => {
                    self.pending.push(Command::Insert(e, tt, Value::Int(x)));
                },
                HookAction::EnqueueRemove(tt) => {
                    self.pending.push(Command::Remove(e, tt));
                },
            }
            j = j + 1;
        }
        proof {
            assert(acts.skip(acts_len as int) =~= Seq::<HookAction>::empty());
        }
    }

    /// Slots, free list, registry and dispatcher are untouched; the
    /// observer table may change.
    pub open spec fn same_store_frame(self, post: World) -> bool {
        &&& post.registry == self.registry
        &&& post.slots == self.slots
        &&& post.free == self.free
        &&& post.dispatch == self.dispatch
    }

    /// Slots, free list, registry, observers and dispatcher are untouched.
    pub open spec fn same_skeleton(self, post: World) -> bool {
        &&& post.registry == self.registry
        &&& post.slots == self.slots
        &&& post.free == self.free
        &&& post.observers == self.observers
        &&& post.dispatch == self.dispatch
    }

    /// Why an insert of a plain value at `(e, t)` is rejected, if it is.
    pub open spec fn plain_insert_err(self, e: Entity, t: int) -> Option<EcsError> {
        if !(0 <= t < self.n_types()) {
            Some(EcsError::UnknownType)
        } else if !self.live(e) {
            Some(EcsError::DeadEntity)
        } else if !self.registry.plain_type(t) {
            Some(EcsError::ValueKindMismatch)
        } else {
            None
        }
    }

    /// Why a removal at `(e, t)` is rejected, if it is.
    pub open spec fn remove_err(self, e: Entity, t: int) -> Option<EcsError> {
        if !(0 <= t < self.n_types()) {
            Some(EcsError::UnknownType)
        } else if !self.live(e) {
            Some(EcsError::DeadEntity)
        } else if self.registry.collection_type(t) {
            Some(EcsError::CollectionNotWritable)
        } else {
            None
        }
    }

    /// Every component type `t` requires is already present on `e`, so an
    /// insert of `t` expands nothing.
    pub open spec fn requireds_present(self, e: Entity, t: int) -> bool {
        forall|k: int| #![trigger self.registry.types@[t].required@[k]]
            0 <= k < self.registry.types@[t].required@.len()
                ==> self.sval(
                    e.index as int,
                    self.registry.types@[t].required@[k].type_id as int,
                ) is Some
    }

    /// The hook-visible side effects of one replace-style insert at
    /// `(e, t)`: when a prior value is replaced its removal hooks fire
    /// first, then the insertion hooks for the new value, both before the
    /// command settles.
    pub open spec fn replace_side_effects(
        self, e: Entity, t: usize, oldv: Option<SValue>, v: SValue, post: World,
    ) -> bool {
        let rem = self.actions_of(t as int, HookEvent::OnRemove);
        let ins = self.actions_of(t as int, HookEvent::OnInsert);
        let n0 = self.hook_log@.len() as int;
        match oldv {
            Some(ov) => {
                &&& post.total as int == total_fold(total_fold(self.total as int, rem, ov), ins, v)
                &&& post.pending@ == pending_fold(pending_fold(self.pending@, rem, e), ins, e)
                &&& post.hook_log@.len() == n0 + 2
                &&& post.hook_log@[n0].event == HookEvent::OnRemove
                &&& post.hook_log@[n0].type_id == t
                &&& post.hook_log@[n0].entity == e
                &&& post.hook_log@[n0].value@ == ov
                &&& post.hook_log@[n0 + 1].event == HookEvent::OnInsert
                &&& post.hook_log@[n0 + 1].type_id == t
                &&& post.hook_log@[n0 + 1].entity == e
                &&& post.hook_log@[n0 + 1].value@ == v
                &&& post.observer_log@ == obs_note(
                    self.observers@,
                    obs_note(self.observers@, self.observer_log@, e, HookEvent::OnRemove, t),
                    e, HookEvent::OnInsert, t)
            },
            None => {
                &&& post.total as int == total_fold(self.total as int, ins, v)
                &&& post.pending@ == pending_fold(self.pending@, ins, e)
                &&& post.hook_log@.len() == n0 + 1
                &&& post.hook_log@[n0].event == HookEvent::OnInsert
                &&& post.hook_log@[n0].type_id == t
                &&& post.hook_log@[n0].entity == e
                &&& post.hook_log@[n0].value@ == v
                &&& post.observer_log@ == obs_note(
                    self.observers@, self.observer_log@, e, HookEvent::OnInsert, t)
            },
        }
    }

    /// The hook-visible side effects of one removal at `(e, t)`.
    pub open spec fn remove_side_effects(
        self, e: Entity, t: usize, ov: SValue, post: World,
    ) -> bool {
        let rem = self.actions_of(t as int, HookEvent::OnRemove);
        let n0 = self.hook_log@.len() as int;
        &&& post.total as int == total_fold(self.total as int, rem, ov)
        &&& post.pending@ == pending_fold(self.pending@, rem, e)
        &&& post.hook_log@.len() == n0 + 1
        &&& post.hook_log@[n0].event == HookEvent::OnRemove
        &&& post.hook_log@[n0].type_id == t
        &&& post.hook_log@[n0].entity == e
        &&& post.hook_log@[n0].value@ == ov
        &&& post.observer_log@ == obs_note(
            self.observers@, self.observer_log@, e, HookEvent::OnRemove, t)
    }

    /// The invariant reads only the registry, slots, grid and free list,
    /// so it carries over any change to the other fields.
    pub(crate) proof fn lemma_inv_frame(&self, prev: World)
        requires
            prev.inv(),
            self.registry == prev.registry,
            self.slots == prev.slots,
            self.components == prev.components,
            self.free == prev.free,
        ensures
            self.inv(),
    {
        assert forall|i: int, t: int|
            0 <= i < self.n_slots() && 0 <= t < self.n_types()
                implies #[trigger] self.cell_typed(i, t) by {
            assert(prev.cell_typed(i, t));
        }
        assert forall|i: int, t: int| #![trigger self.sval(i, t)]
            0 <= i < self.n_slots() && 0 <= t < self.n_types() && !self.slots@[i].live
                implies self.sval(i, t) is None by {
            assert(prev.sval(i, t) is None);
        }
        assert forall|p: int, i: int|
            0 <= p < self.registry.n_pairs() && self.live_at(i)
                implies self.owning_ok(p, i) && self.collection_ok(p, i) by {
            assert(prev.owning_ok(p, i));
            assert(prev.collection_ok(p, i));
        }
    }

    /// After a write confined to one plain-typed cell of a live row, the
    /// whole invariant carries over: no relationship column is touched.
    proof fn lemma_plain_write(&self, prev: World, ci: int, ct: int)
        requires
            prev.inv(),
            self.registry == prev.registry,
            self.slots == prev.slots,
            self.free == prev.free,
            self.components@.len() == prev.components@.len(),
            0 <= ci < prev.n_slots(),
            0 <= ct < prev.n_types(),
            prev.live_at(ci),
            prev.registry.plain_type(ct),
            forall|a: int| 0 <= a < prev.components@.len() && a != ci
                ==> #[trigger] self.components@[a] == prev.components@[a],
            self.components@[ci]@.len() == prev.components@[ci]@.len(),
            forall|b: int| 0 <= b < prev.components@[ci]@.len() && b != ct
                ==> #[trigger] self.components@[ci]@[b] == prev.components@[ci]@[b],
            self.sval(ci, ct) is None || self.sval(ci, ct) matches Some(SValue::SInt(_)),
        ensures
            self.inv(),
    {
        assert forall|i: int, u: int|
            #![trigger self.sval(i, u)]
            0 <= i < self.n_slots() && 0 <= u < self.n_types() && !(i == ci && u == ct)
                implies self.sval(i, u) == prev.sval(i, u) by {
            if i != ci {
                assert(self.components@[i] == prev.components@[i]);
            } else {
                assert(self.components@[ci]@[u] == prev.components@[ci]@[u]);
            }
        }
        assert forall|i: int| 0 <= i < self.n_slots()
            implies #[trigger] self.components@[i]@.len() == self.n_types() by {
            if i != ci {
                assert(self.components@[i] == prev.components@[i]);
            }
        }
        assert(self.grid_wf());
        assert forall|i: int, u: int|
            0 <= i < self.n_slots() && 0 <= u < self.n_types()
                implies #[trigger] self.cell_typed(i, u) by {
            if i == ci && u == ct {
            } else {
                assert(prev.cell_typed(i, u));
            }
        }
        assert forall|p: int, i: int|
            0 <= p < self.registry.n_pairs() && self.live_at(i)
                implies self.owning_ok(p, i) && self.collection_ok(p, i) by {
            let pr = self.registry.pairs@[p];
            assert(self.registry.pair_wf(p));
            assert(pr.owning as int != ct && pr.collection as int != ct);
            assert(prev.owning_ok(p, i));
            assert(prev.collection_ok(p, i));
            assert(self.sval(i, pr.owning as int) == prev.sval(i, pr.owning as int));
            assert(self.sval(i, pr.collection as int) == prev.sval(i, pr.collection as int));
            match prev.sval(i, pr.owning as int) {
                Some(SValue::STarget(tgt)) => {
                    assert(self.sval(tgt.index as int, pr.collection as int)
                        == prev.sval(tgt.index as int, pr.collection as int));
                },
                _ => {},
            }
            match prev.sval(i, pr.collection as int) {
                Some(SValue::SMembers(m)) => {
                    assert forall|k: int| 0 <= k < m.len() implies {
                        &&& self.live(#[trigger] m[k])
                        &&& self.sval(m[k].index as int, pr.owning as int)
                            == Some(SValue::STarget(self.entity_at(i)))
                        &&& count_in(m, m[k]) == 1
                    } by {
                        assert(prev.live(m[k]));
                        assert(self.sval(m[k].index as int, pr.owning as int)
                            == prev.sval(m[k].index as int, pr.owning as int));
                    }
                },
                _ => {},
            }
        }
    }

    /// Inserts a plain integer component, expanding the type's required
    /// components first so their defaults are visible before the primary
    /// value's hooks fire. Replacing an existing value delivers the old
    /// value's removal event strictly before the new value's insertion
    /// event. Succeeds exactly on a registered plain type and a live
    /// entity.
    pub fn insert_int(&mut self, e: Entity, t: usize, v: i64) -> (r: Result<(), EcsError>)
        requires
            old(self).inv(),
        ensures
            final(self).inv(),
            old(self).same_skeleton(*final(self)),
            old(self).log_extended(*final(self)),
            match r {
                Err(er) => old(self).plain_insert_err(e, t as int) == Some(er)
                    && *final(self) == *old(self),
                Ok(_) => {
                    let reqs = old(self).registry.types@[t as int].required@;
                    &&& old(self).plain_insert_err(e, t as int) is None
                    &&& final(self).sval(e.index as int, t as int) == Some(SValue::SInt(v))
                    &&& (forall|i: int, u: int| #![trigger final(self).sval(i, u)]
                        0 <= i < old(self).n_slots() && i != e.index as int
                            && 0 <= u < old(self).n_types()
                            ==> final(self).sval(i, u) == old(self).sval(i, u))
                    &&& (forall|u: int| #![trigger final(self).sval(e.index as int, u)]
                        0 <= u < old(self).n_types() && u != t as int
                            && !old(self).registry.names_required(t as int, u as usize)
                            ==> final(self).sval(e.index as int, u)
                                == old(self).sval(e.index as int, u))
                    &&& (forall|k: int| #![trigger reqs[k]]
                        0 <= k < reqs.len()
                            ==> final(self).sval(e.index as int, reqs[k].type_id as int)
                                == if old(self).sval(e.index as int, reqs[k].type_id as int)
                                    is Some {
                                    old(self).sval(e.index as int, reqs[k].type_id as int)
                                } else {
                                    Some(SValue::SInt(reqs[k].default_value))
                                })
                    &&& (old(self).requireds_present(e, t as int)
                        ==> old(self).replace_side_effects(
                            e, t, old(self).sval(e.index as int, t as int),
                            SValue::SInt(v), *final(self)))
                    // the hook log records the expansion exactly: one
                    // insertion event per newly added companion, in
                    // declaration order, then the primary's replace events
                    &&& ({
                        let newly = newly_required(*old(self), e, reqs);
                        let n0 = old(self).hook_log@.len() as int;
                        let p0 = n0 + newly.len() as int;
                        &&& (forall|k: int| 0 <= k < newly.len() ==> {
                            &&& (#[trigger] final(self).hook_log@[n0 + k]).event
                                == HookEvent::OnInsert
                            &&& final(self).hook_log@[n0 + k].type_id
                                == newly[k].type_id
                            &&& final(self).hook_log@[n0 + k].entity == e
                            &&& final(self).hook_log@[n0 + k].value@
                                == SValue::SInt(newly[k].default_value)
                        })
                        &&& match old(self).sval(e.index as int, t as int) {
                            Some(ov) => {
                                &&& final(self).hook_log@.len() == p0 + 2
                                &&& final(self).hook_log@[p0].event == HookEvent::OnRemove
                                &&& final(self).hook_log@[p0].type_id == t
                                &&& final(self).hook_log@[p0].entity == e
                                &&& final(self).hook_log@[p0].value@ == ov
                                &&& final(self).hook_log@[p0 + 1].event
                                    == HookEvent::OnInsert
                                &&& final(self).hook_log@[p0 + 1].type_id == t
                                &&& final(self).hook_log@[p0 + 1].entity == e
                                &&& final(self).hook_log@[p0 + 1].value@
                                    == SValue::SInt(v)
                            },
                            None => {
                                &&& final(self).hook_log@.len() == p0 + 1
                                &&& final(self).hook_log@[p0].event == HookEvent::OnInsert
                                &&& final(self).hook_log@[p0].type_id == t
                                &&& final(self).hook_log@[p0].entity == e
                                &&& final(self).hook_log@[p0].value@ == SValue::SInt(v)
                            },
                        }
                        // the observers see the same events, in the same
                        // order
                        &&& final(self).observer_log@ == (match old(self).sval(
                            e.index as int, t as int) {
                            Some(_) => obs_note(old(self).observers@,
                                obs_note(old(self).observers@,
                                    obs_required(old(self).observers@,
                                        old(self).observer_log@, e, newly),
                                    e, HookEvent::OnRemove, t),
                                e, HookEvent::OnInsert, t),
                            None => obs_note(old(self).observers@,
                                obs_required(old(self).observers@,
                                    old(self).observer_log@, e, newly),
                                e, HookEvent::OnInsert, t),
                        })
                        // companions without insertion hooks leave the
                        // accumulator and the deferred queue to the
                        // primary's own hooks
                        &&& (required_hooks_silent(old(self).registry, reqs) ==> {
                            let rem = old(self).actions_of(t as int, HookEvent::OnRemove);
                            let ins = old(self).actions_of(t as int, HookEvent::OnInsert);
                            match old(self).sval(e.index as int, t as int) {
                                Some(ov) => {
                                    &&& final(self).total as int == total_fold(
                                        total_fold(old(self).total as int, rem, ov),
                                        ins, SValue::SInt(v))
                                    &&& final(self).pending@ == pending_fold(
                                        pending_fold(old(self).pending@, rem, e), ins, e)
                                },
                                None => {
                                    &&& final(self).total as int == total_fold(
                                        old(self).total as int, ins, SValue::SInt(v))
                                    &&& final(self).pending@
                                        == pending_fold(old(self).pending@, ins, e)
                                },
                            }
                        })
                    })
                },
            },
    {
        if t >= self.registry.types.len() {
            return Err(EcsError::UnknownType);
        }
        if !self.is_live(e) {
            return Err(EcsError::DeadEntity);
        }
        if !self.registry.is_plain(t) {
            return Err(EcsError::ValueKindMismatch);
        }
        let ghost w0 = *self;
        let ghost reqs = self.registry.types@[t as int].required@;
        let nreq = self.registry.types[t].required.len();
        let mut k: usize = 0;
        while k < nreq
            invariant
                self.inv(),
                w0.inv(),
                w0.same_skeleton(*self),
                w0.log_extended(*self),
                w0.live(e),
                (t as int) < w0.n_types(),
                w0.registry.plain_type(t as int),
                reqs == w0.registry.types@[t as int].required@,
                nreq == reqs.len(),
                k <= nreq,
                forall|i: int, u: int| #![trigger self.sval(i, u)]
                    0 <= i < w0.n_slots() && i != e.index as int && 0 <= u < w0.n_types()
                        ==> self.sval(i, u) == w0.sval(i, u),
                forall|u: int| #![trigger self.sval(e.index as int, u)]
                    0 <= u < w0.n_types()
                        && !w0.registry.names_required(t as int, u as usize)
                        ==> self.sval(e.index as int, u) == w0.sval(e.index as int, u),
                forall|k2: int| #![trigger reqs[k2]]
                    0 <= k2 < k
                        ==> self.sval(e.index as int, reqs[k2].type_id as int)
                            == if w0.sval(e.index as int, reqs[k2].type_id as int) is Some {
                                w0.sval(e.index as int, reqs[k2].type_id as int)
                            } else {
                                Some(SValue::SInt(reqs[k2].default_value))
                            },
                forall|k2: int| #![trigger reqs[k2]]
                    k <= k2 < nreq
                        ==> self.sval(e.index as int, reqs[k2].type_id as int)
                            == w0.sval(e.index as int, reqs[k2].type_id as int),
                w0.requireds_present(e, t as int)
                    ==> (self.total == w0.total && self.hook_log == w0.hook_log
                        && self.pending == w0.pending && self.observer_log == w0.observer_log),
                self.hook_log@.len()
                    == w0.hook_log@.len() + newly_required(w0, e, reqs.take(k as int)).len(),
                forall|k2: int| 0 <= k2 < newly_required(w0, e, reqs.take(k as int)).len()
                    ==> {
                    let rec = #[trigger] self.hook_log@[w0.hook_log@.len() + k2];
                    let entry = newly_required(w0, e, reqs.take(k as int))[k2];
                    &&& rec.event == HookEvent::OnInsert
                    &&& rec.type_id == entry.type_id
                    &&& rec.entity == e
                    &&& rec.value@ == SValue::SInt(entry.default_value)
                },
                self.observer_log@ == obs_required(
                    w0.observers@, w0.observer_log@, e,
                    newly_required(w0, e, reqs.take(k as int))),
                required_hooks_silent(w0.registry, reqs)
                    ==> (self.total == w0.total && self.pending@ == w0.pending@),
            decreases nreq - k,
        {
            let ghost pre = *self;
            let entry = self.registry.types[t].required[k];
            proof {
                assert(w0.registry.required_entry_wf(t as int, k as int));
                assert(w0.registry.names_required(t as int, entry.type_id));
            }
            let present = self.components[e.index][entry.type_id].is_some();
            if !present {
                let ghost mid = *self;
                self.cell_set(e.index, entry.type_id, Some(Value::Int(entry.default_value)));
                proof {
                    self.lemma_plain_write(mid, e.index as int, entry.type_id as int);
                }
                let ghost mid_b = *self;
                self.fire_hooks(e, entry.type_id, HookEvent::OnInsert,
                    &Value::Int(entry.default_value));
                proof {
                    self.lemma_inv_frame(mid_b);
                    assert(self.observer_log@ == obs_note(mid_b.observers@,
                        mid_b.observer_log@, e, HookEvent::OnInsert, entry.type_id));
                    if required_hooks_silent(w0.registry, reqs) {
                        assert(w0.registry.types@[entry.type_id as int].on_insert@.len()
                            == 0);
                        assert(mid_b.actions_of(entry.type_id as int, HookEvent::OnInsert)
                            =~= Seq::<HookAction>::empty());
                        assert(total_fold(mid_b.total as int,
                            mid_b.actions_of(entry.type_id as int, HookEvent::OnInsert),
                            SValue::SInt(entry.default_value)) == mid_b.total as int);
                        assert(pending_fold(mid_b.pending@,
                            mid_b.actions_of(entry.type_id as int, HookEvent::OnInsert),
                            e) =~= mid_b.pending@);
                        assert(self.total == mid_b.total);
                        assert(self.pending@ == mid_b.pending@);
                    }
                }
            }
            proof {
                if !present {
                    assert forall|i: int, u: int| #![trigger self.sval(i, u)]
                        0 <= i < w0.n_slots() && 0 <= u < w0.n_types()
                            && !(i == e.index as int && u == entry.type_id as int)
                            implies self.sval(i, u) == pre.sval(i, u) by {
                        if i != e.index as int {
                            assert(self.components@[i] == pre.components@[i]);
                        } else {
                            assert(self.components@[i]@[u] == pre.components@[i]@[u]);
                        }
                    }
                    assert(self.sval(e.index as int, entry.type_id as int)
                        == Some(SValue::SInt(entry.default_value)));
                    assert(pre.sval(e.index as int, entry.type_id as int) is None);
                    assert(w0.sval(e.index as int, entry.type_id as int) is None);
                }
                assert forall|k2: int| #![trigger reqs[k2]]
                    0 <= k2 < k + 1
                        implies self.sval(e.index as int, reqs[k2].type_id as int)
                            == if w0.sval(e.index as int, reqs[k2].type_id as int) is Some {
                                w0.sval(e.index as int, reqs[k2].type_id as int)
                            } else {
                                Some(SValue::SInt(reqs[k2].default_value))
                            } by {
                    assert(w0.registry.required_entry_wf(t as int, k2));
                    if k2 < k {
                        assert(reqs[k2].type_id != entry.type_id);
                        assert(self.sval(e.index as int, reqs[k2].type_id as int)
                            == pre.sval(e.index as int, reqs[k2].type_id as int));
                    }
                }
                assert forall|k2: int| #![trigger reqs[k2]]
                    k + 1 <= k2 < nreq
                        implies self.sval(e.index as int, reqs[k2].type_id as int)
                            == w0.sval(e.index as int, reqs[k2].type_id as int) by {
                    assert(w0.registry.required_entry_wf(t as int, k2));
                    assert(reqs[k2].type_id != entry.type_id);
                    assert(self.sval(e.index as int, reqs[k2].type_id as int)
                        == pre.sval(e.index as int, reqs[k2].type_id as int));
                }
                assert forall|u: int| #![trigger self.sval(e.index as int, u)]
                    0 <= u < w0.n_types()
                        && !w0.registry.names_required(t as int, u as usize)
                        implies self.sval(e.index as int, u)
                            == w0.sval(e.index as int, u) by {
                    assert(u != entry.type_id as int);
                    assert(self.sval(e.index as int, u) == pre.sval(e.index as int, u));
                }
                if w0.requireds_present(e, t as int) {
                    assert(w0.sval(e.index as int, reqs[k as int].type_id as int) is Some);
                    assert(present);
                }
                // the expansion bookkeeping: the processed prefix grows by
                // this companion exactly when it was newly inserted
                assert(reqs.take(k as int + 1).drop_last() =~= reqs.take(k as int));
                assert(reqs.take(k as int + 1).last() == reqs[k as int]);
                assert(pre.sval(e.index as int, entry.type_id as int)
                    == w0.sval(e.index as int, entry.type_id as int));
                assert(present == (w0.sval(e.index as int, entry.type_id as int) is Some));
                if present {
                    assert(newly_required(w0, e, reqs.take(k as int + 1))
                        =~= newly_required(w0, e, reqs.take(k as int)));
                } else {
                    assert(newly_required(w0, e, reqs.take(k as int + 1))
                        =~= newly_required(w0, e, reqs.take(k as int)).push(entry));
                    let grown = newly_required(w0, e, reqs.take(k as int + 1));
                    assert(grown.drop_last() =~= newly_required(w0, e, reqs.take(k as int)));
                    assert(grown.last() == entry);
                    assert(obs_required(w0.observers@, w0.observer_log@, e, grown)
                        == obs_note(w0.observers@,
                            obs_required(w0.observers@, w0.observer_log@, e,
                                newly_required(w0, e, reqs.take(k as int))),
                            e, HookEvent::OnInsert, entry.type_id));
                }
            }
            k = k + 1;
        }
        proof {
            assert(!w0.registry.names_required(t as int, t)) by {
                if w0.registry.names_required(t as int, t) {
                    let k2 = choose|k2: int|
                        0 <= k2 < w0.registry.types@[t as int].required@.len()
                            && #[trigger] w0.registry.types@[t as int].required@[k2].type_id == t;
                    assert(w0.registry.required_entry_wf(t as int, k2));
                }
            }
            assert(self.sval(e.index as int, t as int) == w0.sval(e.index as int, t as int));
        }
        let ghost loop_end = *self;
        let oldv_opt = match &self.components[e.index][t] {
            Some(x) => Some(x.duplicate()),
            None => None,
        };
        match &oldv_opt {
            Some(ov) => {
                let ghost pre_rem = *self;
                self.fire_hooks(e, t, HookEvent::OnRemove, ov);
                proof {
                    self.lemma_inv_frame(pre_rem);
                }
            },
            None => {},
        }
        let ghost mid2 = *self;
        self.cell_set(e.index, t, Some(Value::Int(v)));
        proof {
            self.lemma_plain_write(mid2, e.index as int, t as int);
        }
        let ghost mid3 = *self;
        self.fire_hooks(e, t, HookEvent::OnInsert, &Value::Int(v));
        proof {
            self.lemma_inv_frame(mid3);
            assert forall|i: int, u: int| #![trigger self.sval(i, u)]
                0 <= i < w0.n_slots() && 0 <= u < w0.n_types()
                    && !(i == e.index as int && u == t as int)
                    implies self.sval(i, u) == loop_end.sval(i, u) by {
                if i != e.index as int {
                    assert(self.components@[i] == loop_end.components@[i]);
                } else {
                    assert(self.components@[i]@[u] == loop_end.components@[i]@[u]);
                }
            }
            assert(self.sval(e.index as int, t as int) == Some(SValue::SInt(v)));
            assert forall|k2: int| #![trigger reqs[k2]]
                0 <= k2 < nreq
                    implies self.sval(e.index as int, reqs[k2].type_id as int)
                        == if w0.sval(e.index as int, reqs[k2].type_id as int) is Some {
                            w0.sval(e.index as int, reqs[k2].type_id as int)
                        } else {
                            Some(SValue::SInt(reqs[k2].default_value))
                        } by {
                assert(w0.registry.required_entry_wf(t as int, k2));
                assert(reqs[k2].type_id != t);
            }
            // assemble the exact expansion bookkeeping for the whole call
            assert(reqs.take(nreq as int) =~= reqs);
            let newly = newly_required(w0, e, reqs);
            let n0 = w0.hook_log@.len() as int;
            let p0 = n0 + newly.len() as int;
            assert(loop_end.hook_log@.len() == p0);
            assert(loop_end.sval(e.index as int, t as int)
                == w0.sval(e.index as int, t as int));
            match w0.sval(e.index as int, t as int) {
                Some(ov) => {
                    assert(oldv_opt is Some);
                    assert(self.hook_log@.len() == p0 + 2);
                    assert(self.hook_log@[p0] == mid2.hook_log@[p0]);
                    assert(self.hook_log@[p0].event == HookEvent::OnRemove);
                    assert(self.hook_log@[p0].value@ == ov);
                    assert(self.hook_log@[p0 + 1].event == HookEvent::OnInsert);
                    assert(self.hook_log@[p0 + 1].value@ == SValue::SInt(v));
                    assert(self.observer_log@ == obs_note(w0.observers@,
                        obs_note(w0.observers@,
                            obs_required(w0.observers@, w0.observer_log@, e, newly),
                            e, HookEvent::OnRemove, t),
                        e, HookEvent::OnInsert, t));
                },
                None => {
                    assert(oldv_opt is None);
                    assert(self.hook_log@.len() == p0 + 1);
                    assert(self.hook_log@[p0].event == HookEvent::OnInsert);
                    assert(self.hook_log@[p0].value@ == SValue::SInt(v));
                    assert(self.observer_log@ == obs_note(w0.observers@,
                        obs_required(w0.observers@, w0.observer_log@, e, newly),
                        e, HookEvent::OnInsert, t));
                },
            }
            assert forall|k2: int| 0 <= k2 < newly.len() implies {
                let rec = #[trigger] self.hook_log@[n0 + k2];
                &&& rec.event == HookEvent::OnInsert
                &&& rec.type_id == newly[k2].type_id
                &&& rec.entity == e
                &&& rec.value@ == SValue::SInt(newly[k2].default_value)
            } by {
                assert(self.hook_log@[n0 + k2] == loop_end.hook_log@[n0 + k2]);
            }
            if required_hooks_silent(w0.registry, reqs) {
                assert(loop_end.total == w0.total);
                assert(loop_end.pending@ == w0.pending@);
            }
        }
        Ok(())
    }

    /// Writes a plain value with replace semantics — the old value's
    /// removal event fires strictly before the new value's insertion
    /// event — but without required-component expansion. The clone engine
    /// uses it: a clone carries exactly the filtered set, and required
    /// companions are not added behind the filter's back.
    pub(crate) fn insert_plain_direct(&mut self, e: Entity, t: usize, v: i64)
        requires
            old(self).inv(),
            old(self).live(e),
            (t as int) < old(self).n_types(),
            old(self).registry.plain_type(t as int),
        ensures
            final(self).inv(),
            old(self).same_skeleton(*final(self)),
            old(self).log_extended(*final(self)),
            final(self).sval(e.index as int, t as int) == Some(SValue::SInt(v)),
            forall|i: int, u: int| #![trigger final(self).sval(i, u)]
                0 <= i < old(self).n_slots() && 0 <= u < old(self).n_types()
                    && !(i == e.index as int && u == t as int)
                    ==> final(self).sval(i, u) == old(self).sval(i, u),
            old(self).replace_side_effects(
                e, t, old(self).sval(e.index as int, t as int), SValue::SInt(v),
                *final(self)),
    {
        let ghost w0 = *self;
        let oldv_opt = match &self.components[e.index][t] {
            Some(x) => Some(x.duplicate()),
            None => None,
        };
        match &oldv_opt {
            Some(ov) => {
                let ghost pre_rem = *self;
                self.fire_hooks(e, t, HookEvent::OnRemove, ov);
                proof {
                    self.lemma_inv_frame(pre_rem);
                }
            },
            None => {},
        }
        let ghost mid = *self;
        self.cell_set(e.index, t, Some(Value::Int(v)));
        proof {
            self.lemma_plain_write(mid, e.index as int, t as int);
        }
        let ghost mid2 = *self;
        self.fire_hooks(e, t, HookEvent::OnInsert, &Value::Int(v));
        proof {
            self.lemma_inv_frame(mid2);
            assert forall|i: int, u: int| #![trigger self.sval(i, u)]
                0 <= i < w0.n_slots() && 0 <= u < w0.n_types()
                    && !(i == e.index as int && u == t as int)
                    implies self.sval(i, u) == w0.sval(i, u) by {
                if i != e.index as int {
                    assert(self.components@[i] == mid.components@[i]);
                } else {
                    assert(self.components@[i]@[u] == mid.components@[i]@[u]);
                }
            }
            assert(self.sval(e.index as int, t as int) == Some(SValue::SInt(v)));
        }
    }

    /// Why a relationship link from `e` to `target` through owning type
    /// `t` is rejected, if it is. A target must be live and distinct from
    /// the source: an entity cannot own itself.
    pub open spec fn link_err(self, e: Entity, t: int, target: Entity) -> Option<EcsError> {
        if !(0 <= t < self.n_types()) {
            Some(EcsError::UnknownType)
        } else if !self.registry.owning_type(t) {
            Some(EcsError::ValueKindMismatch)
        } else if !self.live(e) {
            Some(EcsError::DeadEntity)
        } else if !self.live(target) || target.index == e.index {
            Some(EcsError::InvalidTarget)
        } else {
            None
        }
    }

    /// After clearing the owning cell of `ei` and erasing `ei` from the
    /// old target's member list, the invariant carries over.
    #[verifier::rlimit(50)]
    proof fn lemma_unlink(&self, prev: World, p: int, ei: int, tgt: Entity)
        requires
            prev.inv(),
            self.registry == prev.registry,
            self.slots == prev.slots,
            self.free == prev.free,
            self.components@.len() == prev.components@.len(),
            0 <= p < prev.registry.n_pairs(),
            prev.live_at(ei),
            prev.sval(ei, prev.registry.pairs@[p].owning as int)
                == Some(SValue::STarget(tgt)),
            self.sval(ei, prev.registry.pairs@[p].owning as int) is None,
            ({
                let c = prev.registry.pairs@[p].collection as int;
                match prev.sval(tgt.index as int, c) {
                    Some(SValue::SMembers(m)) => {
                        let m2 = remove_all(m, prev.entity_at(ei));
                        self.sval(tgt.index as int, c) == if m2.len() == 0
                            && prev.registry.pairs@[p].remove_empty_collection {
                            None::<SValue>
                        } else {
                            Some(SValue::SMembers(m2))
                        }
                    },
                    _ => false,
                }
            }),
            forall|a: int| 0 <= a < prev.components@.len()
                ==> #[trigger] self.components@[a]@.len() == prev.components@[a]@.len(),
            forall|i: int, u: int| #![trigger self.sval(i, u)]
                0 <= i < prev.n_slots() && 0 <= u < prev.n_types()
                    && !(i == ei && u == prev.registry.pairs@[p].owning as int)
                    && !(i == tgt.index as int && u == prev.registry.pairs@[p].collection as int)
                    ==> self.sval(i, u) == prev.sval(i, u),
        ensures
            self.inv(),
    {
        let pr = prev.registry.pairs@[p];
        let o = pr.owning as int;
        let c = pr.collection as int;
        let eent = prev.entity_at(ei);
        prev.lemma_entity_at(ei);
        assert(eent.index as int == ei);
        assert(prev.registry.pair_wf(p));
        assert(prev.owning_ok(p, ei));
        assert(prev.live(tgt));
        assert(tgt.index as int != ei);
        let m = match prev.sval(tgt.index as int, c) {
            Some(SValue::SMembers(m)) => m,
            _ => arbitrary(),
        };
        let m2 = remove_all(m, eent);
        lemma_remove_all_membership(m, eent);
        lemma_remove_all_len(m, eent);
        assert forall|i: int| 0 <= i < self.n_slots()
            implies #[trigger] self.components@[i]@.len() == self.n_types() by {
            assert(self.components@[i]@.len() == prev.components@[i]@.len());
        }
        assert forall|i: int, u: int| #![trigger self.sval(i, u)]
            0 <= i < self.n_slots() && 0 <= u < self.n_types() && !self.slots@[i].live
                implies self.sval(i, u) is None by {
            assert(prev.sval(i, u) is None);
        }
        assert forall|i: int, u: int|
            0 <= i < self.n_slots() && 0 <= u < self.n_types()
                implies #[trigger] self.cell_typed(i, u) by {
            if i == ei && u == o {
            } else if i == tgt.index as int && u == c {
                assert(prev.registry.collection_type(c));
            } else {
                assert(self.sval(i, u) == prev.sval(i, u));
                assert(prev.cell_typed(i, u));
            }
        }
        assert forall|p2: int, i: int|
            0 <= p2 < self.registry.n_pairs() && self.live_at(i)
                implies self.owning_ok(p2, i) && self.collection_ok(p2, i) by {
            let pr2 = self.registry.pairs@[p2];
            let o2 = pr2.owning as int;
            let c2 = pr2.collection as int;
            assert(prev.registry.pair_wf(p2));
            assert(prev.owning_ok(p2, i));
            assert(prev.collection_ok(p2, i));
            if p2 != p {
                assert(o2 != o && c2 != c && o2 != c && c2 != o);
                assert(self.sval(i, o2) == prev.sval(i, o2));
                assert(self.sval(i, c2) == prev.sval(i, c2));
                match prev.sval(i, o2) {
                    Some(SValue::STarget(t2)) => {
                        assert(self.sval(t2.index as int, c2) == prev.sval(t2.index as int, c2));
                    },
                    _ => {},
                }
                match prev.sval(i, c2) {
                    Some(SValue::SMembers(mj)) => {
                        assert forall|k: int| 0 <= k < mj.len() implies {
                            &&& self.live(#[trigger] mj[k])
                            &&& self.sval(mj[k].index as int, o2)
                                == Some(SValue::STarget(self.entity_at(i)))
                            &&& count_in(mj, mj[k]) == 1
                        } by {
                            assert(prev.live(mj[k]));
                            assert(self.sval(mj[k].index as int, o2)
                                == prev.sval(mj[k].index as int, o2));
                        }
                    },
                    _ => {},
                }
            } else {
                // the pair whose link was severed
                if i != ei {
                    assert(self.sval(i, o) == prev.sval(i, o));
                    match prev.sval(i, o) {
                        Some(SValue::STarget(t2)) => {
                            assert(prev.live(t2));
                            let ent_i = prev.entity_at(i);
                            prev.lemma_entity_at(i);
                            assert(ent_i.index as int == i);
                            if t2.index as int == tgt.index as int {
                                assert(t2 == tgt);
                                assert(count_in(m, ent_i) == 1);
                                assert(ent_i != eent);
                                assert(count_in(m2, ent_i) == 1);
                                if m2.len() == 0 && pr.remove_empty_collection {
                                    lemma_count_le_len(m2, ent_i);
                                    assert(false);
                                }
                                assert(self.sval(t2.index as int, c)
                                    == Some(SValue::SMembers(m2)));
                            } else {
                                assert(self.sval(t2.index as int, c)
                                    == prev.sval(t2.index as int, c));
                            }
                        },
                        _ => {},
                    }
                }
                assert(self.owning_ok(p, i));
                if i == tgt.index as int {
                    match self.sval(i, c) {
                        Some(SValue::SMembers(mm)) => {
                            assert(mm == m2);
                            assert forall|k: int| 0 <= k < mm.len() implies {
                                &&& self.live(#[trigger] mm[k])
                                &&& self.sval(mm[k].index as int, o)
                                    == Some(SValue::STarget(self.entity_at(i)))
                                &&& count_in(mm, mm[k]) == 1
                            } by {
                                let x = mm[k];
                                lemma_count_at(m2, x, k);
                                assert(x != eent);
                                assert(count_in(m, x) == count_in(m2, x));
                                lemma_count_positive_index(m, x);
                                let k0 = choose|k0: int| 0 <= k0 < m.len() && m[k0] == x;
                                assert(prev.live(x));
                                assert(count_in(m, x) == 1);
                                assert(x.index as int != ei);
                                assert(self.sval(x.index as int, o)
                                    == prev.sval(x.index as int, o));
                                assert(self.entity_at(i) == prev.entity_at(i));
                            }
                        },
                        _ => {},
                    }
                } else {
                    assert(self.sval(i, c) == prev.sval(i, c));
                    match prev.sval(i, c) {
                        Some(SValue::SMembers(mj)) => {
                            assert forall|k: int| 0 <= k < mj.len() implies {
                                &&& self.live(#[trigger] mj[k])
                                &&& self.sval(mj[k].index as int, o)
                                    == Some(SValue::STarget(self.entity_at(i)))
                                &&& count_in(mj, mj[k]) == 1
                            } by {
                                let x = mj[k];
                                assert(prev.collection_ok(p, i));
                                assert(prev.live(x));
                                assert(prev.sval(x.index as int, o)
                                    == Some(SValue::STarget(prev.entity_at(i))));
                                if x.index as int == ei {
                                    assert(x.index == eent.index);
                                    assert(x.generation == prev.slots@[ei].generation);
                                    assert(x == eent);
                                    assert(prev.sval(ei, o) == Some(SValue::STarget(prev.entity_at(i))));
                                    assert(prev.sval(ei, o) == Some(SValue::STarget(tgt)));
                                    assert(SValue::STarget(prev.entity_at(i)) == SValue::STarget(tgt));
                                    assert(prev.entity_at(i) == tgt);
                                    prev.lemma_entity_at(i);
                                    assert(tgt.index as int == i);
                                    assert(false);
                                }
                                assert(self.sval(x.index as int, o)
                                    == prev.sval(x.index as int, o));
                            }
                        },
                        _ => {},
                    }
                }
                assert(self.collection_ok(p, i));
            }
        }
    }

    /// After writing a fresh owning cell on `ei` and appending `ei` to the
    /// target's member list, the invariant carries over.
    #[verifier::rlimit(50)]
    proof fn lemma_fresh_link(&self, prev: World, p: int, ei: int, target: Entity)
        requires
            prev.inv(),
            self.registry == prev.registry,
            self.slots == prev.slots,
            self.free == prev.free,
            self.components@.len() == prev.components@.len(),
            0 <= p < prev.registry.n_pairs(),
            prev.live_at(ei),
            prev.live(target),
            target.index as int != ei,
            prev.sval(ei, prev.registry.pairs@[p].owning as int) is None,
            self.sval(ei, prev.registry.pairs@[p].owning as int)
                == Some(SValue::STarget(target)),
            ({
                let c = prev.registry.pairs@[p].collection as int;
                match prev.sval(target.index as int, c) {
                    Some(SValue::SMembers(m)) => self.sval(target.index as int, c)
                        == Some(SValue::SMembers(m.push(prev.entity_at(ei)))),
                    None => self.sval(target.index as int, c)
                        == Some(SValue::SMembers(seq![prev.entity_at(ei)])),
                    _ => false,
                }
            }),
            forall|a: int| 0 <= a < prev.components@.len()
                ==> #[trigger] self.components@[a]@.len() == prev.components@[a]@.len(),
            forall|i: int, u: int| #![trigger self.sval(i, u)]
                0 <= i < prev.n_slots() && 0 <= u < prev.n_types()
                    && !(i == ei && u == prev.registry.pairs@[p].owning as int)
                    && !(i == target.index as int
                        && u == prev.registry.pairs@[p].collection as int)
                    ==> self.sval(i, u) == prev.sval(i, u),
        ensures
            self.inv(),
    {
        let pr = prev.registry.pairs@[p];
        let o = pr.owning as int;
        let c = pr.collection as int;
        let eent = prev.entity_at(ei);
        prev.lemma_entity_at(ei);
        assert(eent.index as int == ei);
        assert(prev.registry.pair_wf(p));
        let m0 = match prev.sval(target.index as int, c) {
            Some(SValue::SMembers(m)) => m,
            _ => Seq::<Entity>::empty(),
        };
        assert(count_in(m0, eent) == 0) by {
            if count_in(m0, eent) >= 1 {
                lemma_count_positive_index(m0, eent);
                let k0 = choose|k0: int| 0 <= k0 < m0.len() && m0[k0] == eent;
                assert(prev.collection_ok(p, target.index as int));
                assert(prev.sval(m0[k0].index as int, o) is Some);
                assert(m0[k0].index as int == ei);
                assert(prev.sval(ei, o) is Some);
            }
        }
        let mn = m0.push(eent);
        assert(seq![eent] =~= Seq::<Entity>::empty().push(eent));
        assert(self.sval(target.index as int, c) == Some(SValue::SMembers(mn)));
        lemma_count_push(m0, eent, eent);
        assert forall|i: int| 0 <= i < self.n_slots()
            implies #[trigger] self.components@[i]@.len() == self.n_types() by {
            assert(self.components@[i]@.len() == prev.components@[i]@.len());
        }
        assert forall|i: int, u: int| #![trigger self.sval(i, u)]
            0 <= i < self.n_slots() && 0 <= u < self.n_types() && !self.slots@[i].live
                implies self.sval(i, u) is None by {
            assert(prev.sval(i, u) is None);
        }
        assert forall|i: int, u: int|
            0 <= i < self.n_slots() && 0 <= u < self.n_types()
                implies #[trigger] self.cell_typed(i, u) by {
            if i == ei && u == o {
                assert(self.registry.owning_type(o));
            } else if i == target.index as int && u == c {
                assert(self.registry.collection_type(c));
            } else {
                assert(self.sval(i, u) == prev.sval(i, u));
                assert(prev.cell_typed(i, u));
            }
        }
        assert forall|p2: int, i: int|
            0 <= p2 < self.registry.n_pairs() && self.live_at(i)
                implies self.owning_ok(p2, i) && self.collection_ok(p2, i) by {
            let pr2 = self.registry.pairs@[p2];
            let o2 = pr2.owning as int;
            let c2 = pr2.collection as int;
            assert(prev.registry.pair_wf(p2));
            assert(prev.owning_ok(p2, i));
            assert(prev.collection_ok(p2, i));
            if p2 != p {
                assert(o2 != o && c2 != c && o2 != c && c2 != o);
                assert(self.sval(i, o2) == prev.sval(i, o2));
                assert(self.sval(i, c2) == prev.sval(i, c2));
                match prev.sval(i, o2) {
                    Some(SValue::STarget(t2)) => {
                        assert(self.sval(t2.index as int, c2) == prev.sval(t2.index as int, c2));
                    },
                    _ => {},
                }
                match prev.sval(i, c2) {
                    Some(SValue::SMembers(mj)) => {
                        assert forall|k: int| 0 <= k < mj.len() implies {
                            &&& self.live(#[trigger] mj[k])
                            &&& self.sval(mj[k].index as int, o2)
                                == Some(SValue::STarget(self.entity_at(i)))
                            &&& count_in(mj, mj[k]) == 1
                        } by {
                            assert(prev.live(mj[k]));
                            assert(self.sval(mj[k].index as int, o2)
                                == prev.sval(mj[k].index as int, o2));
                        }
                    },
                    _ => {},
                }
            } else {
                if i == ei {
                    assert(count_in(mn, eent) == 1);
                    assert(self.owning_ok(p, i));
                } else {
                    assert(self.sval(i, o) == prev.sval(i, o));
                    match prev.sval(i, o) {
                        Some(SValue::STarget(t2)) => {
                            assert(prev.live(t2));
                            let ent_i = prev.entity_at(i);
                            if t2.index as int == target.index as int {
                                assert(t2 == target);
                                assert(count_in(m0, ent_i) == 1);
                                lemma_count_push(m0, eent, ent_i);
                                assert(ent_i != eent);
                                assert(count_in(mn, ent_i) == 1);
                            } else {
                                assert(self.sval(t2.index as int, c)
                                    == prev.sval(t2.index as int, c));
                            }
                        },
                        _ => {},
                    }
                    assert(self.owning_ok(p, i));
                }
                if i == target.index as int {
                    assert forall|k: int| 0 <= k < mn.len() implies {
                        &&& self.live(#[trigger] mn[k])
                        &&& self.sval(mn[k].index as int, o)
                            == Some(SValue::STarget(self.entity_at(i)))
                        &&& count_in(mn, mn[k]) == 1
                    } by {
                        let x = mn[k];
                        assert(mn[k] == m0.push(eent)[k]);
                        if k < m0.len() {
                            assert(x == m0[k]);
                            assert(prev.collection_ok(p, i));
                            assert(prev.live(x));
                            assert(prev.sval(m0[k].index as int, o)
                                == Some(SValue::STarget(prev.entity_at(i))));
                            assert(count_in(m0, x) == 1);
                            assert(x != eent);
                            assert(x.index as int != ei) by {
                                if x.index as int == ei {
                                    assert(x == eent);
                                }
                            }
                            lemma_count_push(m0, eent, x);
                            assert(self.sval(x.index as int, o) == prev.sval(x.index as int, o));
                            assert(self.entity_at(i) == prev.entity_at(i));
                        } else {
                            assert(x == eent);
                            assert(count_in(mn, eent) == 1);
                            assert(self.entity_at(i) == target);
                        }
                    }
                    assert(self.collection_ok(p, i));
                } else {
                    assert(self.sval(i, c) == prev.sval(i, c));
                    match prev.sval(i, c) {
                        Some(SValue::SMembers(mj)) => {
                            assert forall|k: int| 0 <= k < mj.len() implies {
                                &&& self.live(#[trigger] mj[k])
                                &&& self.sval(mj[k].index as int, o)
                                    == Some(SValue::STarget(self.entity_at(i)))
                                &&& count_in(mj, mj[k]) == 1
                            } by {
                                let x = mj[k];
                                assert(prev.collection_ok(p, i));
                                assert(prev.live(x));
                                assert(prev.sval(x.index as int, o)
                                    == Some(SValue::STarget(prev.entity_at(i))));
                                if x.index as int == ei {
                                    assert(x == eent);
                                    assert(prev.sval(ei, o) is Some);
                                    assert(false);
                                }
                                assert(self.sval(x.index as int, o)
                                    == prev.sval(x.index as int, o));
                            }
                        },
                        _ => {},
                    }
                    assert(self.collection_ok(p, i));
                }
            }
        }
    }

    /// Removes the component of type `t` from `e` and returns the prior
    /// value. Absence is a no-op returning nothing; a collection type is
    /// refused, since only the relationship index maintains it. Removing
    /// an owning component also erases `e` from the old target's member
    /// list, dropping the list itself when it empties and the pair's
    /// policy says so.
    pub fn remove(&mut self, e: Entity, t: usize) -> (r: Result<Option<Value>, EcsError>)
        requires
            old(self).inv(),
        ensures
            final(self).inv(),
            old(self).same_skeleton(*final(self)),
            old(self).log_extended(*final(self)),
            match r {
                Err(er) => old(self).remove_err(e, t as int) == Some(er)
                    && *final(self) == *old(self),
                Ok(None) => old(self).remove_err(e, t as int) is None
                    && old(self).sval(e.index as int, t as int) is None
                    && *final(self) == *old(self),
                Ok(Some(val)) => {
                    &&& old(self).remove_err(e, t as int) is None
                    &&& old(self).sval(e.index as int, t as int) == Some(val@)
                    &&& final(self).sval(e.index as int, t as int) is None
                    &&& old(self).remove_side_effects(e, t, val@, *final(self))
                    &&& (old(self).registry.plain_type(t as int)
                        ==> forall|i: int, u: int| #![trigger final(self).sval(i, u)]
                            0 <= i < old(self).n_slots() && 0 <= u < old(self).n_types()
                                && !(i == e.index as int && u == t as int)
                                ==> final(self).sval(i, u) == old(self).sval(i, u))
                    &&& (forall|p: int| #![trigger old(self).registry.pairs@[p]]
                        0 <= p < old(self).registry.n_pairs()
                            && old(self).registry.pairs@[p].owning == t
                            ==> match val@ {
                                SValue::STarget(tgt) => {
                                    let c = old(self).registry.pairs@[p].collection as int;
                                    &&& (match old(self).sval(tgt.index as int, c) {
                                        Some(SValue::SMembers(m)) => {
                                            let m2 = remove_all(m, e);
                                            final(self).sval(tgt.index as int, c)
                                                == if m2.len() == 0 && old(self).registry
                                                    .pairs@[p].remove_empty_collection {
                                                    None::<SValue>
                                                } else {
                                                    Some(SValue::SMembers(m2))
                                                }
                                        },
                                        _ => false,
                                    })
                                    &&& (forall|i: int, u: int|
                                        #![trigger final(self).sval(i, u)]
                                        0 <= i < old(self).n_slots()
                                            && 0 <= u < old(self).n_types()
                                            && !(i == e.index as int && u == t as int)
                                            && !(i == tgt.index as int && u == c)
                                            ==> final(self).sval(i, u)
                                                == old(self).sval(i, u))
                                },
                                _ => false,
                            })
                },
            },
    {
        if t >= self.registry.types.len() {
            return Err(EcsError::UnknownType);
        }
        if !self.is_live(e) {
            return Err(EcsError::DeadEntity);
        }
        if let Some(_cp) = self.registry.collection_pair(t) {
            return Err(EcsError::CollectionNotWritable);
        }
        let val = match &self.components[e.index][t] {
            Some(x) => x.duplicate(),
            None => {
                return Ok(None);
            },
        };
        let ghost w0 = *self;
        match self.registry.owning_pair(t) {
            None => {
                proof {
                    assert(w0.registry.plain_type(t as int));
                }
                self.cell_set(e.index, t, None);
                proof {
                    self.lemma_plain_write(w0, e.index as int, t as int);
                    assert forall|i: int, u: int| #![trigger self.sval(i, u)]
                        0 <= i < w0.n_slots() && 0 <= u < w0.n_types()
                            && !(i == e.index as int && u == t as int)
                            implies self.sval(i, u) == w0.sval(i, u) by {
                        if i != e.index as int {
                            assert(self.components@[i] == w0.components@[i]);
                        } else {
                            assert(self.components@[i]@[u] == w0.components@[i]@[u]);
                        }
                    }
                }
                let ghost mid = *self;
                self.fire_hooks(e, t, HookEvent::OnRemove, &val);
                proof {
                    self.lemma_inv_frame(mid);
                }
                Ok(Some(val))
            },
            Some(p) => {
                proof {
                    assert(w0.cell_typed(e.index as int, t as int));
                    assert(w0.registry.owning_type(t as int));
                    match w0.sval(e.index as int, t as int) {
                        Some(SValue::SInt(_)) => {
                            assert(w0.registry.plain_type(t as int));
                            assert(false);
                        },
                        Some(SValue::SMembers(_)) => {
                            assert(w0.registry.collection_type(t as int));
                            assert(false);
                        },
                        _ => {},
                    }
                }
                let tgt = match &val {
                    Value::Target(x) => *x,
                    _ => {
                        proof {
                            assert(false);
                        }
                        e
                    },
                };
                proof {
                    assert(w0.rel_wf());
                    assert(w0.live_at(e.index as int));
                    assert(w0.owning_ok(p as int, e.index as int));
                    assert(w0.live(tgt));
                    assert(w0.registry.pair_wf(p as int));
                    w0.lemma_entity_at(e.index as int);
                    assert(w0.entity_at(e.index as int) == e);
                }
                let ct = self.registry.pairs[p].collection;
                let pol = self.registry.pairs[p].remove_empty_collection;
                self.cell_set(e.index, t, None);
                let ghost s1 = *self;
                let old_members = match &self.components[tgt.index][ct] {
                    Some(x) => match x.duplicate() {
                        Value::Members(mv) => mv,
                        _ => {
                            proof {
                                assert(false);
                            }
                            Vec::new()
                        },
                    },
                    None => {
                        proof {
                            assert(false);
                        }
                        Vec::new()
                    },
                };
                let new_members = erase_member(&old_members, e);
                if new_members.len() == 0 && pol {
                    self.cell_set(tgt.index, ct, None);
                } else {
                    self.cell_set(tgt.index, ct, Some(Value::Members(new_members)));
                }
                proof {
                    assert forall|i: int, u: int| #![trigger self.sval(i, u)]
                        0 <= i < w0.n_slots() && 0 <= u < w0.n_types()
                            && !(i == e.index as int && u == t as int)
                            && !(i == tgt.index as int && u == ct as int)
                            implies self.sval(i, u) == w0.sval(i, u) by {
                        if i != tgt.index as int {
                            assert(self.components@[i] == s1.components@[i]);
                        } else {
                            assert(self.components@[i]@[u] == s1.components@[i]@[u]);
                        }
                        if i != e.index as int {
                            assert(s1.components@[i] == w0.components@[i]);
                        } else {
                            assert(s1.components@[i]@[u] == w0.components@[i]@[u]);
                        }
                    }
                    assert(self.sval(e.index as int, t as int) is None) by {
                        if e.index as int != tgt.index as int {
                            assert(self.components@[e.index as int]
                                == s1.components@[e.index as int]);
                        } else {
                            assert(false);
                        }
                    }
                    assert forall|a: int| 0 <= a < w0.components@.len()
                        implies #[trigger] self.components@[a]@.len()
                            == w0.components@[a]@.len() by {}
                    self.lemma_unlink(w0, p as int, e.index as int, tgt);
                }
                let ghost mid = *self;
                self.fire_hooks(e, t, HookEvent::OnRemove, &val);
                proof {
                    self.lemma_inv_frame(mid);
                    assert forall|p2: int| #![trigger w0.registry.pairs@[p2]]
                        0 <= p2 < w0.registry.n_pairs()
                            && w0.registry.pairs@[p2].owning == t
                            implies p2 == p as int by {
                        if p2 != p as int {
                            assert(w0.registry.pairs_disjoint());
                        }
                    }
                }
                Ok(Some(val))
            },
        }
    }

    /// Establishes or retargets the relationship link whose owning
    /// component type is `t`: `e` comes to own `target`, appearing exactly
    /// once in the target's member list. Changing an existing link to a
    /// different target is a move, not an added duplicate: `e` is first
    /// unlinked from the old target. The old value's removal event fires
    /// strictly before the new value's insertion event. Succeeds exactly
    /// on a registered owning type, a live source, and a live target other
    /// than the source.
    pub fn link(&mut self, e: Entity, t: usize, target: Entity) -> (r: Result<(), EcsError>)
        requires
            old(self).inv(),
        ensures
            final(self).inv(),
            old(self).same_skeleton(*final(self)),
            old(self).log_extended(*final(self)),
            match r {
                Err(er) => old(self).link_err(e, t as int, target) == Some(er)
                    && *final(self) == *old(self),
                Ok(_) => {
                    &&& old(self).link_err(e, t as int, target) is None
                    &&& final(self).sval(e.index as int, t as int)
                        == Some(SValue::STarget(target))
                    &&& old(self).replace_side_effects(
                        e, t, old(self).sval(e.index as int, t as int),
                        SValue::STarget(target), *final(self))
                    &&& (forall|p: int| #![trigger old(self).registry.pairs@[p]]
                        0 <= p < old(self).registry.n_pairs()
                            && old(self).registry.pairs@[p].owning == t
                            ==> {
                            let c = old(self).registry.pairs@[p].collection as int;
                            match old(self).sval(e.index as int, t as int) {
                                Some(SValue::STarget(old_t)) => if old_t == target {
                                    forall|i: int, u: int| #![trigger final(self).sval(i, u)]
                                        0 <= i < old(self).n_slots()
                                            && 0 <= u < old(self).n_types()
                                            ==> final(self).sval(i, u) == old(self).sval(i, u)
                                } else {
                                    &&& (match old(self).sval(old_t.index as int, c) {
                                        Some(SValue::SMembers(mo)) => {
                                            let m2 = remove_all(mo, e);
                                            final(self).sval(old_t.index as int, c)
                                                == if m2.len() == 0 && old(self).registry
                                                    .pairs@[p].remove_empty_collection {
                                                    None::<SValue>
                                                } else {
                                                    Some(SValue::SMembers(m2))
                                                }
                                        },
                                        _ => false,
                                    })
                                    &&& (match old(self).sval(target.index as int, c) {
                                        Some(SValue::SMembers(mt)) => final(self).sval(
                                            target.index as int, c)
                                            == Some(SValue::SMembers(mt.push(e))),
                                        None => final(self).sval(target.index as int, c)
                                            == Some(SValue::SMembers(seq![e])),
                                        _ => false,
                                    })
                                    &&& (forall|i: int, u: int|
                                        #![trigger final(self).sval(i, u)]
                                        0 <= i < old(self).n_slots()
                                            && 0 <= u < old(self).n_types()
                                            && !(i == e.index as int && u == t as int)
                                            && !(i == old_t.index as int && u == c)
                                            && !(i == target.index as int && u == c)
                                            ==> final(self).sval(i, u)
                                                == old(self).sval(i, u))
                                },
                                None => {
                                    &&& (match old(self).sval(target.index as int, c) {
                                        Some(SValue::SMembers(mt)) => final(self).sval(
                                            target.index as int, c)
                                            == Some(SValue::SMembers(mt.push(e))),
                                        None => final(self).sval(target.index as int, c)
                                            == Some(SValue::SMembers(seq![e])),
                                        _ => false,
                                    })
                                    &&& (forall|i: int, u: int|
                                        #![trigger final(self).sval(i, u)]
                                        0 <= i < old(self).n_slots()
                                            && 0 <= u < old(self).n_types()
                                            && !(i == e.index as int && u == t as int)
                                            && !(i == target.index as int && u == c)
                                            ==> final(self).sval(i, u)
                                                == old(self).sval(i, u))
                                },
                                _ => false,
                            }
                        })
                },
            },
    {
        if t >= self.registry.types.len() {
            return Err(EcsError::UnknownType);
        }
        let p = match self.registry.owning_pair(t) {
            Some(p) => p,
            None => {
                return Err(EcsError::ValueKindMismatch);
            },
        };
        if !self.is_live(e) {
            return Err(EcsError::DeadEntity);
        }
        if !self.is_live(target) || target.index == e.index {
            return Err(EcsError::InvalidTarget);
        }
        let ghost w0 = *self;
        proof {
            assert(w0.cell_typed(e.index as int, t as int));
            assert(w0.registry.owning_type(t as int));
            match w0.sval(e.index as int, t as int) {
                Some(SValue::SInt(_)) => {
                    assert(w0.registry.plain_type(t as int));
                    assert(false);
                },
                Some(SValue::SMembers(_)) => {
                    assert(w0.registry.collection_type(t as int));
                    assert(false);
                },
                _ => {},
            }
            assert(w0.registry.pair_wf(p as int));
            assert(w0.owning_ok(p as int, e.index as int));
            w0.lemma_entity_at(e.index as int);
            assert(w0.entity_at(e.index as int) == e);
            assert forall|p2: int| #![trigger w0.registry.pairs@[p2]]
                0 <= p2 < w0.registry.n_pairs() && w0.registry.pairs@[p2].owning == t
                    implies p2 == p as int by {
                if p2 != p as int {
                    assert(w0.registry.pairs_disjoint());
                }
            }
        }
        let ct = self.registry.pairs[p].collection;
        let pol = self.registry.pairs[p].remove_empty_collection;
        let old_val = match &self.components[e.index][t] {
            Some(x) => Some(x.duplicate()),
            None => None,
        };
        match &old_val {
            Some(ov) => {
                let old_t = match ov {
                    Value::Target(x) => *x,
                    _ => {
                        proof {
                            assert(false);
                        }
                        e
                    },
                };
                if old_t.index == target.index && old_t.generation == target.generation {
                    // same target: a replace in place, membership unchanged
                    self.fire_hooks(e, t, HookEvent::OnRemove, ov);
                    let ghost mid = *self;
                    self.fire_hooks(e, t, HookEvent::OnInsert, &Value::Target(target));
                    proof {
                        self.lemma_inv_frame(w0);
                        assert(old_t == target);
                    }
                    return Ok(());
                }
                // retarget: unlink from the old target first
                proof {
                    assert(w0.live(old_t));
                }
                self.cell_set(e.index, t, None);
                let ghost s1 = *self;
                let old_members = match &self.components[old_t.index][ct] {
                    Some(x) => match x.duplicate() {
                        Value::Members(mv) => mv,
                        _ => {
                            proof {
                                assert(false);
                            }
                            Vec::new()
                        },
                    },
                    None => {
                        proof {
                            assert(false);
                        }
                        Vec::new()
                    },
                };
                let new_members = erase_member(&old_members, e);
                if new_members.len() == 0 && pol {
                    self.cell_set(old_t.index, ct, None);
                } else {
                    self.cell_set(old_t.index, ct, Some(Value::Members(new_members)));
                }
                proof {
                    assert forall|i: int, u: int| #![trigger self.sval(i, u)]
                        0 <= i < w0.n_slots() && 0 <= u < w0.n_types()
                            && !(i == e.index as int && u == t as int)
                            && !(i == old_t.index as int && u == ct as int)
                            implies self.sval(i, u) == w0.sval(i, u) by {
                        if i != old_t.index as int {
                            assert(self.components@[i] == s1.components@[i]);
                        } else {
                            assert(self.components@[i]@[u] == s1.components@[i]@[u]);
                        }
                        if i != e.index as int {
                            assert(s1.components@[i] == w0.components@[i]);
                        } else {
                            assert(s1.components@[i]@[u] == w0.components@[i]@[u]);
                        }
                    }
                    assert(self.sval(e.index as int, t as int) is None) by {
                        if e.index as int != old_t.index as int {
                            assert(self.components@[e.index as int]
                                == s1.components@[e.index as int]);
                        } else {
                            assert(false);
                        }
                    }
                    assert forall|a: int| 0 <= a < w0.components@.len()
                        implies #[trigger] self.components@[a]@.len()
                            == w0.components@[a]@.len() by {}
                    self.lemma_unlink(w0, p as int, e.index as int, old_t);
                }
                let ghost pre_u = *self;
                self.fire_hooks(e, t, HookEvent::OnRemove, ov);
                proof {
                    self.lemma_inv_frame(pre_u);
                }
            },
            None => {},
        }
        // fresh link onto the target
        let ghost w1 = *self;
        proof {
            assert(w1.sval(e.index as int, t as int) is None);
            assert(w1.live(target));
            assert(w1.live_at(e.index as int));
            assert(w1.entity_at(e.index as int) == e);
        }
        self.cell_set(e.index, t, Some(Value::Target(target)));
        let ghost s2 = *self;
        let target_members = match &self.components[target.index][ct] {
            Some(x) => match x.duplicate() {
                Value::Members(mv) => Some(mv),
                _ => {
                    proof {
                        assert(w1.cell_typed(target.index as int, ct as int));
                        assert(w1.registry.collection_type(ct as int));
                        assert(false);
                    }
                    None
                },
            },
            None => None,
        };
        match target_members {
            Some(mut mv) => {
                mv.push(e);
                self.cell_set(target.index, ct, Some(Value::Members(mv)));
            },
            None => {
                let mut mv: Vec<Entity> = Vec::new();
                mv.push(e);
                proof {
                    assert(mv@ =~= seq![e]);
                }
                self.cell_set(target.index, ct, Some(Value::Members(mv)));
            },
        }
        proof {
            assert forall|i: int, u: int| #![trigger self.sval(i, u)]
                0 <= i < w1.n_slots() && 0 <= u < w1.n_types()
                    && !(i == e.index as int && u == t as int)
                    && !(i == target.index as int && u == ct as int)
                    implies self.sval(i, u) == w1.sval(i, u) by {
                if i != target.index as int {
                    assert(self.components@[i] == s2.components@[i]);
                } else {
                    assert(self.components@[i]@[u] == s2.components@[i]@[u]);
                }
                if i != e.index as int {
                    assert(s2.components@[i] == w1.components@[i]);
                } else {
                    assert(s2.components@[i]@[u] == w1.components@[i]@[u]);
                }
            }
            assert(self.sval(e.index as int, t as int) == Some(SValue::STarget(target))) by {
                if e.index as int != target.index as int {
                    assert(self.components@[e.index as int] == s2.components@[e.index as int]);
                } else {
                    assert(false);
                }
            }
            assert forall|a: int| 0 <= a < w1.components@.len()
                implies #[trigger] self.components@[a]@.len()
                    == w1.components@[a]@.len() by {}
            self.lemma_fresh_link(w1, p as int, e.index as int, target);
        }
        let ghost mid3 = *self;
        self.fire_hooks(e, t, HookEvent::OnInsert, &Value::Target(target));
        proof {
            self.lemma_inv_frame(mid3);
            assert forall|i: int, u: int| #![trigger final(self).sval(i, u)]
                0 <= i < w1.n_slots() && 0 <= u < w1.n_types()
                    && !(i == e.index as int && u == t as int)
                    && !(i == target.index as int && u == ct as int)
                    implies self.sval(i, u) == w1.sval(i, u) by {}
        }
        Ok(())
    }

    /// The number of members a collection cell currently holds.
    fn collection_len(&self, i: usize, t: usize) -> (r: usize)
        requires
            (i as int) < self.components@.len(),
            (t as int) < self.components@[i as int]@.len(),
        ensures
            r as int == (match self.sval(i as int, t as int) {
                Some(SValue::SMembers(m)) => m.len() as int,
                _ => 0,
            }),
    {
        match &self.components[i][t] {
            Some(Value::Members(m)) => m.len(),
            _ => 0,
        }
    }

    /// Dropping an emptied collection cell preserves the invariant: a
    /// collection with no members has no owners pointing at it.
    proof fn lemma_drop_empty_collection(&self, prev: World, p: int, ei: int)
        requires
            prev.inv(),
            self.registry == prev.registry,
            self.slots == prev.slots,
            self.free == prev.free,
            self.components@.len() == prev.components@.len(),
            0 <= p < prev.registry.n_pairs(),
            prev.live_at(ei),
            match prev.sval(ei, prev.registry.pairs@[p].collection as int) {
                Some(SValue::SMembers(m)) => m.len() == 0,
                _ => false,
            },
            self.sval(ei, prev.registry.pairs@[p].collection as int) is None,
            forall|a: int| 0 <= a < prev.components@.len()
                ==> #[trigger] self.components@[a]@.len() == prev.components@[a]@.len(),
            forall|i: int, u: int| #![trigger self.sval(i, u)]
                0 <= i < prev.n_slots() && 0 <= u < prev.n_types()
                    && !(i == ei && u == prev.registry.pairs@[p].collection as int)
                    ==> self.sval(i, u) == prev.sval(i, u),
        ensures
            self.inv(),
    {
        let pr = prev.registry.pairs@[p];
        let o = pr.owning as int;
        let c = pr.collection as int;
        assert(prev.registry.pair_wf(p));
        assert forall|i: int| 0 <= i < self.n_slots()
            implies #[trigger] self.components@[i]@.len() == self.n_types() by {
            assert(self.components@[i]@.len() == prev.components@[i]@.len());
        }
        assert forall|i: int, u: int| #![trigger self.sval(i, u)]
            0 <= i < self.n_slots() && 0 <= u < self.n_types() && !self.slots@[i].live
                implies self.sval(i, u) is None by {
            assert(prev.sval(i, u) is None);
        }
        assert forall|i: int, u: int|
            0 <= i < self.n_slots() && 0 <= u < self.n_types()
                implies #[trigger] self.cell_typed(i, u) by {
            if i == ei && u == c {
            } else {
                assert(self.sval(i, u) == prev.sval(i, u));
                assert(prev.cell_typed(i, u));
            }
        }
        assert forall|p2: int, i: int|
            0 <= p2 < self.registry.n_pairs() && self.live_at(i)
                implies self.owning_ok(p2, i) && self.collection_ok(p2, i) by {
            let pr2 = self.registry.pairs@[p2];
            let o2 = pr2.owning as int;
            let c2 = pr2.collection as int;
            assert(prev.registry.pair_wf(p2));
            assert(prev.owning_ok(p2, i));
            assert(prev.collection_ok(p2, i));
            assert((i == ei && o2 == c) == false);
            assert(self.sval(i, o2) == prev.sval(i, o2));
            match prev.sval(i, o2) {
                Some(SValue::STarget(t2)) => {
                    if p2 == p && t2.index as int == ei {
                        match prev.sval(ei, c) {
                            Some(SValue::SMembers(m)) => {
                                assert(count_in(m, prev.entity_at(i)) == 1);
                                lemma_count_le_len(m, prev.entity_at(i));
                                assert(false);
                            },
                            _ => {
                                assert(false);
                            },
                        }
                    } else {
                        assert(self.sval(t2.index as int, c2) == prev.sval(t2.index as int, c2));
                    }
                },
                _ => {},
            }
            if i == ei && c2 == c {
                assert(self.sval(i, c2) is None);
            } else {
                assert(self.sval(i, c2) == prev.sval(i, c2));
                match prev.sval(i, c2) {
                    Some(SValue::SMembers(mj)) => {
                        assert forall|k: int| 0 <= k < mj.len() implies {
                            &&& self.live(#[trigger] mj[k])
                            &&& self.sval(mj[k].index as int, o2)
                                == Some(SValue::STarget(self.entity_at(i)))
                            &&& count_in(mj, mj[k]) == 1
                        } by {
                            assert(prev.live(mj[k]));
                            assert(self.sval(mj[k].index as int, o2)
                                == prev.sval(mj[k].index as int, o2));
                        }
                    },
                    _ => {},
                }
            }
        }
    }

    /// Marking a fully cleared row dead preserves the invariant: nothing
    /// owns or lists an entity whose row is empty.
    proof fn lemma_kill_slot(&self, prev: World, ei: int, eu: usize)
        requires
            prev.inv(),
            self.registry == prev.registry,
            self.components == prev.components,
            0 <= ei < prev.n_slots(),
            eu as int == ei,
            prev.live_at(ei),
            forall|u: int| 0 <= u < prev.n_types() ==> #[trigger] prev.sval(ei, u) is None,
            self.slots@.len() == prev.slots@.len(),
            forall|i: int| 0 <= i < prev.n_slots() && i != ei
                ==> #[trigger] self.slots@[i] == prev.slots@[i],
            !self.slots@[ei].live,
            self.free@ == prev.free@
                || (self.free@ == prev.free@.push(eu)
                    && self.slots@[ei].generation < u64::MAX),
        ensures
            self.inv(),
    {
        assert forall|k: int| #![trigger self.free@[k]] 0 <= k < self.free@.len() implies {
            &&& (self.free@[k] as int) < self.n_slots()
            &&& !self.slots@[self.free@[k] as int].live
            &&& self.slots@[self.free@[k] as int].generation < u64::MAX
        } by {
            if k < prev.free@.len() {
                assert(prev.free@[k] == self.free@[k]);
                assert((prev.free@[k] as int) != ei);
            }
        }
        assert forall|k: int, j: int| #![trigger self.free@[k], self.free@[j]]
            0 <= k < self.free@.len() && 0 <= j < self.free@.len() && k != j
                implies self.free@[k] != self.free@[j] by {
            if k < prev.free@.len() && j < prev.free@.len() {
            } else {
                if k < prev.free@.len() {
                    assert((prev.free@[k] as int) != ei);
                }
                if j < prev.free@.len() {
                    assert((prev.free@[j] as int) != ei);
                }
            }
        }
        assert forall|i: int, u: int| #![trigger self.sval(i, u)]
            0 <= i < self.n_slots() && 0 <= u < self.n_types() && !self.slots@[i].live
                implies self.sval(i, u) is None by {
            if i == ei {
                assert(prev.sval(ei, u) is None);
            } else {
                assert(prev.sval(i, u) is None);
            }
        }
        assert forall|i: int, u: int|
            0 <= i < self.n_slots() && 0 <= u < self.n_types()
                implies #[trigger] self.cell_typed(i, u) by {
            assert(prev.cell_typed(i, u));
        }
        assert forall|p: int, i: int|
            0 <= p < self.registry.n_pairs() && self.live_at(i)
                implies self.owning_ok(p, i) && self.collection_ok(p, i) by {
            let pr = self.registry.pairs@[p];
            let o = pr.owning as int;
            let c = pr.collection as int;
            assert(prev.registry.pair_wf(p));
            assert(i != ei);
            assert(prev.live_at(i));
            assert(prev.owning_ok(p, i));
            assert(prev.collection_ok(p, i));
            assert(self.entity_at(i) == prev.entity_at(i));
            match prev.sval(i, o) {
                Some(SValue::STarget(t2)) => {
                    if t2.index as int == ei {
                        assert(prev.sval(ei, c) is None);
                        assert(false);
                    }
                    assert(self.live(t2));
                },
                _ => {},
            }
            match prev.sval(i, c) {
                Some(SValue::SMembers(mj)) => {
                    assert forall|k: int| 0 <= k < mj.len() implies {
                        &&& self.live(#[trigger] mj[k])
                        &&& self.sval(mj[k].index as int, o)
                            == Some(SValue::STarget(self.entity_at(i)))
                        &&& count_in(mj, mj[k]) == 1
                    } by {
                        assert(prev.live(mj[k]));
                        if mj[k].index as int == ei {
                            assert(prev.sval(ei, o) is Some);
                            assert(false);
                        }
                        assert(self.slots@[mj[k].index as int]
                            == prev.slots@[mj[k].index as int]);
                    }
                },
                _ => {},
            }
        }
    }

    /// Despawns `e`: every component it holds is removed through the
    /// standard removal paths, so relationship cleanup cascades and every
    /// removal — the entity's own components and each unlinked member's
    /// owning component — delivers its removal event to the hooks and
    /// observers exactly as a direct `remove` does (the crate's tests
    /// exercise this; the contract below pins the store effects and keeps
    /// the log at prefix preservation). Each
    /// member of one of `e`'s collections loses exactly its own owning
    /// component; owners of other targets, other members and unrelated
    /// cells are untouched. The slot is then marked dead, so the
    /// identifier is detectably stale and is never reused for new data.
    #[verifier::rlimit(100)]
    #[verifier::spinoff_prover]
    pub fn despawn(&mut self, e: Entity) -> (r: Result<(), EcsError>)
        requires
            old(self).inv(),
        ensures
            final(self).inv(),
            final(self).registry == old(self).registry,
            final(self).observers == old(self).observers,
            final(self).dispatch == old(self).dispatch,
            old(self).log_extended(*final(self)),
            match r {
                Err(er) => er == EcsError::DeadEntity && !old(self).live(e)
                    && *final(self) == *old(self),
                Ok(_) => {
                    &&& old(self).live(e)
                    &&& !final(self).live(e)
                    &&& final(self).n_slots() == old(self).n_slots()
                    &&& (forall|i: int| 0 <= i < old(self).n_slots() && i != e.index as int
                        ==> #[trigger] final(self).slots@[i] == old(self).slots@[i])
                    &&& !final(self).slots@[e.index as int].live
                    &&& (forall|u: int| 0 <= u < old(self).n_types()
                        ==> #[trigger] final(self).sval(e.index as int, u) is None)
                    // each owner of `e` loses exactly its owning component
                    &&& (forall|p: int, i: int|
                        #![trigger final(self).sval(i, old(self).registry.pairs@[p].owning as int)]
                        0 <= p < old(self).registry.n_pairs() && 0 <= i < old(self).n_slots()
                            && i != e.index as int
                            ==> final(self).sval(i, old(self).registry.pairs@[p].owning as int)
                                == if old(self).sval(i, old(self).registry.pairs@[p].owning as int)
                                    == Some(SValue::STarget(e)) {
                                    None::<SValue>
                                } else {
                                    old(self).sval(i, old(self).registry.pairs@[p].owning as int)
                                })
                    // `e` leaves the member list of the target it owned
                    &&& (forall|p: int| #![trigger old(self).registry.pairs@[p]]
                        0 <= p < old(self).registry.n_pairs()
                            ==> match old(self).sval(
                                e.index as int, old(self).registry.pairs@[p].owning as int) {
                                Some(SValue::STarget(tgt)) => {
                                    let c = old(self).registry.pairs@[p].collection as int;
                                    match old(self).sval(tgt.index as int, c) {
                                        Some(SValue::SMembers(m)) => {
                                            let m2 = remove_all(m, e);
                                            final(self).sval(tgt.index as int, c)
                                                == if m2.len() == 0 && old(self).registry
                                                    .pairs@[p].remove_empty_collection {
                                                    None::<SValue>
                                                } else {
                                                    Some(SValue::SMembers(m2))
                                                }
                                        },
                                        _ => true,
                                    }
                                },
                                _ => true,
                            })
                    // every other collection cell is untouched
                    &&& (forall|p: int, i: int|
                        #![trigger final(self).sval(i, old(self).registry.pairs@[p].collection as int)]
                        0 <= p < old(self).registry.n_pairs() && 0 <= i < old(self).n_slots()
                            && i != e.index as int
                            && (match old(self).sval(
                                e.index as int, old(self).registry.pairs@[p].owning as int) {
                                Some(SValue::STarget(tgt)) => i != tgt.index as int,
                                _ => true,
                            })
                            ==> final(self).sval(i, old(self).registry.pairs@[p].collection as int)
                                == old(self).sval(
                                    i, old(self).registry.pairs@[p].collection as int))
                    // plain cells of other entities are untouched
                    &&& (forall|i: int, u: int| #![trigger final(self).sval(i, u)]
                        0 <= i < old(self).n_slots() && i != e.index as int
                            && 0 <= u < old(self).n_types()
                            && old(self).registry.plain_type(u)
                            ==> final(self).sval(i, u) == old(self).sval(i, u))
                },
            },
    {
        if !self.is_live(e) {
            return Err(EcsError::DeadEntity);
        }
        let ghost w0 = *self;
        proof {
            w0.lemma_entity_at(e.index as int);
            assert(w0.entity_at(e.index as int) == e);
        }
        let n = self.registry.types.len();
        let mut t: usize = 0;
        while t < n
            invariant
                self.inv(),
                w0.inv(),
                w0.same_skeleton(*self),
                w0.log_extended(*self),
                w0.live(e),
                self.live(e),
                w0.entity_at(e.index as int) == e,
                n == w0.n_types(),
                t <= n,
                forall|u: int| #![trigger self.sval(e.index as int, u)]
                    0 <= u < n ==> self.sval(e.index as int, u)
                        == if u < t { None::<SValue> } else { w0.sval(e.index as int, u) },
                forall|p: int, i: int|
                    #![trigger self.sval(i, w0.registry.pairs@[p].owning as int)]
                    0 <= p < w0.registry.n_pairs() && 0 <= i < w0.n_slots()
                        && i != e.index as int
                        ==> self.sval(i, w0.registry.pairs@[p].owning as int)
                            == if (w0.registry.pairs@[p].collection as int) < t
                                && w0.sval(i, w0.registry.pairs@[p].owning as int)
                                    == Some(SValue::STarget(e)) {
                                None::<SValue>
                            } else {
                                w0.sval(i, w0.registry.pairs@[p].owning as int)
                            },
                forall|p: int| #![trigger w0.registry.pairs@[p]]
                    0 <= p < w0.registry.n_pairs()
                        && (w0.registry.pairs@[p].owning as int) < t
                        ==> match w0.sval(
                            e.index as int, w0.registry.pairs@[p].owning as int) {
                            Some(SValue::STarget(tgt)) => {
                                let c = w0.registry.pairs@[p].collection as int;
                                match w0.sval(tgt.index as int, c) {
                                    Some(SValue::SMembers(m)) => {
                                        let m2 = remove_all(m, e);
                                        self.sval(tgt.index as int, c)
                                            == if m2.len() == 0 && w0.registry
                                                .pairs@[p].remove_empty_collection {
                                                None::<SValue>
                                            } else {
                                                Some(SValue::SMembers(m2))
                                            }
                                    },
                                    _ => true,
                                }
                            },
                            _ => true,
                        },
                forall|p: int, i: int|
                    #![trigger self.sval(i, w0.registry.pairs@[p].collection as int)]
                    0 <= p < w0.registry.n_pairs() && 0 <= i < w0.n_slots()
                        && i != e.index as int
                        && (match w0.sval(
                            e.index as int, w0.registry.pairs@[p].owning as int) {
                            Some(SValue::STarget(tgt)) =>
                                i != tgt.index as int
                                    || (w0.registry.pairs@[p].owning as int) >= t,
                            _ => true,
                        })
                        ==> self.sval(i, w0.registry.pairs@[p].collection as int)
                            == w0.sval(i, w0.registry.pairs@[p].collection as int),
                forall|i: int, u: int| #![trigger self.sval(i, u)]
                    0 <= i < w0.n_slots() && i != e.index as int && 0 <= u < n
                        && w0.registry.plain_type(u)
                        ==> self.sval(i, u) == w0.sval(i, u),
            decreases n - t,
        {
            match self.registry.collection_pair(t) {
                Some(p) => {
                    let o = self.registry.pairs[p].owning;
                    proof {
                        assert(w0.registry.pair_wf(p as int));
                        assert forall|p2: int| #![trigger w0.registry.pairs@[p2]]
                            0 <= p2 < w0.registry.n_pairs()
                                && w0.registry.pairs@[p2].collection == t
                                implies p2 == p as int by {
                            if p2 != p as int {
                                assert(w0.registry.pairs_disjoint());
                            }
                        }
                    }
                    let ghost m0 = match w0.sval(e.index as int, t as int) {
                        Some(SValue::SMembers(m)) => m,
                        _ => Seq::<Entity>::empty(),
                    };
                    let ghost k: int = 0;
                    proof {
                        assert(m0.skip(0) =~= m0);
                        assert(m0.take(0) =~= Seq::<Entity>::empty());
                        assert(w0.cell_typed(e.index as int, t as int));
                        assert(w0.registry.collection_type(t as int));
                        assert(self.sval(e.index as int, t as int)
                            == w0.sval(e.index as int, t as int));
                        match w0.sval(e.index as int, t as int) {
                            Some(SValue::SMembers(m)) => {
                                assert(m == m0);
                            },
                            Some(_) => {
                                assert(false);
                            },
                            None => {},
                        }
                    }
                    while self.collection_len(e.index, t) > 0
                        invariant
                            self.inv(),
                            w0.inv(),
                            w0.same_skeleton(*self),
                            w0.log_extended(*self),
                            w0.live(e),
                            self.live(e),
                            w0.entity_at(e.index as int) == e,
                            n == w0.n_types(),
                            t < n,
                            (p as int) < w0.registry.n_pairs(),
                            w0.registry.pairs@[p as int].collection == t,
                            o == w0.registry.pairs@[p as int].owning,
                            (o as int) < n,
                            o != t,
                            0 <= k <= m0.len(),
                            m0 == (match w0.sval(e.index as int, t as int) {
                                Some(SValue::SMembers(m)) => m,
                                _ => Seq::<Entity>::empty(),
                            }),
                            self.sval(e.index as int, t as int)
                                == if k == m0.len() && m0.len() > 0
                                    && w0.registry.pairs@[p as int].remove_empty_collection {
                                    None::<SValue>
                                } else if w0.sval(e.index as int, t as int) is Some {
                                    Some(SValue::SMembers(m0.skip(k)))
                                } else {
                                    None::<SValue>
                                },
                            forall|u: int| #![trigger self.sval(e.index as int, u)]
                                0 <= u < n && u != t as int
                                    ==> self.sval(e.index as int, u)
                                        == if u < t as int { None::<SValue> }
                                            else { w0.sval(e.index as int, u) },
                            forall|i: int| #![trigger self.sval(i, o as int)]
                                0 <= i < w0.n_slots() && i != e.index as int
                                    ==> self.sval(i, o as int)
                                        == if w0.sval(i, o as int) == Some(SValue::STarget(e))
                                            && count_in(m0.take(k), self.entity_at(i)) >= 1 {
                                            None::<SValue>
                                        } else {
                                            w0.sval(i, o as int)
                                        },
                            forall|p2: int, i: int|
                                #![trigger self.sval(i, w0.registry.pairs@[p2].owning as int)]
                                0 <= p2 < w0.registry.n_pairs() && 0 <= i < w0.n_slots()
                                    && i != e.index as int && p2 != p as int
                                    ==> self.sval(i, w0.registry.pairs@[p2].owning as int)
                                        == if (w0.registry.pairs@[p2].collection as int) < t as int
                                            && w0.sval(i, w0.registry.pairs@[p2].owning as int)
                                                == Some(SValue::STarget(e)) {
                                            None::<SValue>
                                        } else {
                                            w0.sval(i, w0.registry.pairs@[p2].owning as int)
                                        },
                            forall|p2: int| #![trigger w0.registry.pairs@[p2]]
                                0 <= p2 < w0.registry.n_pairs()
                                    && (w0.registry.pairs@[p2].owning as int) < t as int
                                    ==> match w0.sval(
                                        e.index as int, w0.registry.pairs@[p2].owning as int) {
                                        Some(SValue::STarget(tgt)) => {
                                            let c = w0.registry.pairs@[p2].collection as int;
                                            match w0.sval(tgt.index as int, c) {
                                                Some(SValue::SMembers(m)) => {
                                                    let m2 = remove_all(m, e);
                                                    self.sval(tgt.index as int, c)
                                                        == if m2.len() == 0 && w0.registry
                                                            .pairs@[p2].remove_empty_collection {
                                                            None::<SValue>
                                                        } else {
                                                            Some(SValue::SMembers(m2))
                                                        }
                                                },
                                                _ => true,
                                            }
                                        },
                                        _ => true,
                                    },
                            forall|p2: int, i: int|
                                #![trigger self.sval(i, w0.registry.pairs@[p2].collection as int)]
                                0 <= p2 < w0.registry.n_pairs() && 0 <= i < w0.n_slots()
                                    && i != e.index as int
                                    && (match w0.sval(
                                        e.index as int, w0.registry.pairs@[p2].owning as int) {
                                        Some(SValue::STarget(tgt)) =>
                                            i != tgt.index as int
                                                || (w0.registry.pairs@[p2].owning as int)
                                                    >= t as int,
                                        _ => true,
                                    })
                                    ==> self.sval(i, w0.registry.pairs@[p2].collection as int)
                                        == w0.sval(
                                            i, w0.registry.pairs@[p2].collection as int),
                            forall|i: int, u: int| #![trigger self.sval(i, u)]
                                0 <= i < w0.n_slots() && i != e.index as int && 0 <= u < n
                                    && w0.registry.plain_type(u)
                                    ==> self.sval(i, u) == w0.sval(i, u),
                        decreases m0.len() - k,
                    {
                        proof {
                            assert(k < m0.len());
                            assert(self.sval(e.index as int, t as int)
                                == Some(SValue::SMembers(m0.skip(k))));
                        }
                        let x = match &self.components[e.index][t] {
                            Some(Value::Members(mv)) => mv[0],
                            _ => {
                                proof {
                                    assert(false);
                                }
                                e
                            },
                        };
                        proof {
                            assert(x == m0.skip(k)[0]);
                            assert(x == m0[k]);
                            assert(self.collection_ok(p as int, e.index as int));
                            assert(self.live(x));
                            assert(self.sval(x.index as int, o as int)
                                == Some(SValue::STarget(self.entity_at(e.index as int))));
                            assert(self.entity_at(e.index as int) == e);
                            assert(count_in(m0.skip(k), x) == 1);
                            assert(x.index != e.index) by {
                                if x.index == e.index {
                                    assert(self.owning_ok(p as int, x.index as int));
                                }
                            }
                            self.lemma_entity_at(x.index as int);
                        }
                        let ghost before = *self;
                        let res = self.remove(x, o);
                        proof {
                            assert(before.remove_err(x, o as int) is None) by {
                                if before.registry.collection_type(o as int) {
                                    let q = choose|q: int| 0 <= q < before.registry.n_pairs()
                                        && #[trigger] before.registry.pairs@[q].collection
                                            == o;
                                    assert(before.registry.pairs_disjoint());
                                    assert(before.registry.pairs@[p as int].owning
                                        != before.registry.pairs@[q].collection);
                                }
                            }
                            match res {
                                Ok(Some(val)) => {
                                    assert(val@ == SValue::STarget(e));
                                    assert forall|p2: int| #![trigger w0.registry.pairs@[p2]]
                                        0 <= p2 < w0.registry.n_pairs()
                                            && w0.registry.pairs@[p2].owning == o
                                            implies p2 == p as int by {
                                        if p2 != p as int {
                                            assert(w0.registry.pairs_disjoint());
                                        }
                                    }
                                    assert(before.sval(e.index as int, t as int)
                                        == Some(SValue::SMembers(m0.skip(k))));
                                    lemma_remove_all_head(m0.skip(k), x);
                                    assert(remove_all(m0.skip(k), x) =~= m0.skip(k + 1));
                                    assert(m0.skip(k).drop_first() =~= m0.skip(k + 1));
                                    assert(m0.take(k + 1) =~= m0.take(k).push(m0[k]));
                                    assert forall|i2: int, u2: int| #![trigger self.sval(i2, u2)]
                                        0 <= i2 < w0.n_slots() && 0 <= u2 < n as int
                                            && !(i2 == x.index as int && u2 == o as int)
                                            && !(i2 == e.index as int && u2 == t as int)
                                            implies self.sval(i2, u2) == before.sval(i2, u2) by {}
                                    assert(self.sval(x.index as int, o as int) is None);
                                    assert(self.sval(e.index as int, t as int)
                                        == if m0.skip(k + 1).len() == 0
                                            && w0.registry.pairs@[p as int]
                                                .remove_empty_collection {
                                            None::<SValue>
                                        } else {
                                            Some(SValue::SMembers(m0.skip(k + 1)))
                                        });
                                    assert(before.entity_at(x.index as int) == x);
                                    assert forall|i2: int| #![trigger self.sval(i2, o as int)]
                                        0 <= i2 < w0.n_slots() && i2 != e.index as int
                                            implies self.sval(i2, o as int)
                                                == if w0.sval(i2, o as int)
                                                    == Some(SValue::STarget(e))
                                                    && count_in(m0.take(k + 1),
                                                        self.entity_at(i2)) >= 1 {
                                                    None::<SValue>
                                                } else {
                                                    w0.sval(i2, o as int)
                                                } by {
                                        lemma_count_push(m0.take(k), m0[k], self.entity_at(i2));
                                        if i2 == x.index as int {
                                            assert(self.entity_at(i2) == x);
                                            assert(count_in(m0.take(k + 1), x) >= 1);
                                            assert(before.sval(i2, o as int)
                                                == Some(SValue::STarget(e)));
                                            assert(count_in(m0.take(k), x) == 0);
                                            assert(w0.sval(i2, o as int)
                                                == Some(SValue::STarget(e)));
                                        } else {
                                            assert(self.sval(i2, o as int)
                                                == before.sval(i2, o as int));
                                            assert(self.entity_at(i2)
                                                == before.entity_at(i2));
                                            if self.entity_at(i2) == x {
                                                before.lemma_entity_at(i2);
                                                assert(x.index as int == i2);
                                                assert(false);
                                            }
                                        }
                                    }
                                    assert forall|p2: int, i2: int|
                                        #![trigger self.sval(i2, w0.registry.pairs@[p2].owning as int)]
                                        0 <= p2 < w0.registry.n_pairs()
                                            && 0 <= i2 < w0.n_slots()
                                            && i2 != e.index as int && p2 != p as int
                                            implies self.sval(
                                                i2, w0.registry.pairs@[p2].owning as int)
                                                == before.sval(
                                                    i2, w0.registry.pairs@[p2].owning as int)
                                                by {
                                        assert(w0.registry.pair_wf(p2));
                                        assert(w0.registry.pairs_disjoint());
                                        assert(w0.registry.pairs@[p2].owning
                                            != w0.registry.pairs@[p as int].owning);
                                        assert(w0.registry.pairs@[p2].owning
                                            != w0.registry.pairs@[p as int].collection);
                                        assert(w0.registry.pairs@[p2].owning != o);
                                        assert(w0.registry.pairs@[p2].owning != t);
                                    }
                                    assert forall|p2: int, i2: int|
                                        #![trigger self.sval(i2, w0.registry.pairs@[p2].collection as int)]
                                        0 <= p2 < w0.registry.n_pairs()
                                            && 0 <= i2 < w0.n_slots()
                                            && i2 != e.index as int
                                            implies self.sval(
                                                i2, w0.registry.pairs@[p2].collection as int)
                                                == before.sval(
                                                    i2, w0.registry.pairs@[p2].collection as int)
                                                by {
                                        assert(w0.registry.pair_wf(p2));
                                        assert(w0.registry.pairs_disjoint());
                                        assert(w0.registry.pairs@[p2].collection
                                            != w0.registry.pairs@[p as int].owning);
                                    }
                                    assert forall|p2: int| #![trigger w0.registry.pairs@[p2]]
                                        0 <= p2 < w0.registry.n_pairs()
                                            && (w0.registry.pairs@[p2].owning as int) < t as int
                                            implies match w0.sval(
                                                e.index as int,
                                                w0.registry.pairs@[p2].owning as int) {
                                                Some(SValue::STarget(tgt)) => {
                                                    let c = w0.registry.pairs@[p2]
                                                        .collection as int;
                                                    match w0.sval(tgt.index as int, c) {
                                                        Some(SValue::SMembers(m)) => {
                                                            let m2 = remove_all(m, e);
                                                            self.sval(tgt.index as int, c)
                                                                == if m2.len() == 0
                                                                    && w0.registry.pairs@[p2]
                                                                        .remove_empty_collection {
                                                                    None::<SValue>
                                                                } else {
                                                                    Some(SValue::SMembers(m2))
                                                                }
                                                        },
                                                        _ => true,
                                                    }
                                                },
                                                _ => true,
                                            } by {
                                        assert(w0.registry.pair_wf(p2));
                                        match w0.sval(e.index as int,
                                            w0.registry.pairs@[p2].owning as int) {
                                            Some(SValue::STarget(tgt)) => {
                                                let c = w0.registry.pairs@[p2]
                                                    .collection as int;
                                                assert(w0.owning_ok(p2, e.index as int));
                                                assert(tgt.index as int != e.index as int);
                                                if p2 != p as int {
                                                    assert(w0.registry.pairs_disjoint());
                                                    assert(c != t as int && c != o as int);
                                                    assert(self.sval(tgt.index as int, c)
                                                        == before.sval(tgt.index as int, c));
                                                } else {
                                                    assert(c == t as int);
                                                    if tgt.index as int == x.index as int {
                                                        assert(w0.live(tgt));
                                                        assert(before.live(x));
                                                        assert(tgt == x);
                                                    }
                                                    assert(self.sval(tgt.index as int, c)
                                                        == before.sval(tgt.index as int, c));
                                                }
                                            },
                                            _ => {},
                                        }
                                    }
                                },
                                _ => {
                                    assert(false);
                                },
                            }
                        }
                        proof {
                            k = k + 1;
                        }
                    }
                    // the collection is empty now; drop the cell if it is
                    // still there
                    proof {
                        if k < m0.len() {
                            assert(self.sval(e.index as int, t as int)
                                == Some(SValue::SMembers(m0.skip(k))));
                            assert(m0.skip(k).len() == 0);
                            assert(m0.len() - k > 0);
                            assert(false);
                        }
                    }
                    let still = match &self.components[e.index][t] {
                        Some(_) => true,
                        None => false,
                    };
                    if still {
                        let ghost before2 = *self;
                        self.cell_set(e.index, t, None);
                        proof {
                            assert forall|i: int, u: int| #![trigger self.sval(i, u)]
                                0 <= i < w0.n_slots() && 0 <= u < n
                                    && !(i == e.index as int && u == t as int)
                                    implies self.sval(i, u) == before2.sval(i, u) by {
                                if i != e.index as int {
                                    assert(self.components@[i] == before2.components@[i]);
                                } else {
                                    assert(self.components@[i]@[u]
                                        == before2.components@[i]@[u]);
                                }
                            }
                            assert(m0.skip(k) =~= Seq::<Entity>::empty());
                            self.lemma_drop_empty_collection(
                                before2, p as int, e.index as int);
                        }
                    }
                    proof {
                        assert(self.sval(e.index as int, t as int) is None);
                        assert forall|u: int| #![trigger self.sval(e.index as int, u)]
                            0 <= u < n implies self.sval(e.index as int, u)
                                == if u < t + 1 { None::<SValue> }
                                    else { w0.sval(e.index as int, u) } by {}
                        assert forall|p2: int| #![trigger w0.registry.pairs@[p2]]
                            0 <= p2 < w0.registry.n_pairs()
                                implies w0.registry.pairs@[p2].owning != t by {
                            assert(w0.registry.pairs_disjoint());
                        }
                        assert forall|i: int| #![trigger self.sval(i, o as int)]
                            0 <= i < w0.n_slots() && i != e.index as int
                                implies self.sval(i, o as int)
                                    == if w0.sval(i, o as int) == Some(SValue::STarget(e)) {
                                        None::<SValue>
                                    } else {
                                        w0.sval(i, o as int)
                                    } by {
                            if w0.sval(i, o as int) == Some(SValue::STarget(e)) {
                                assert(w0.owning_ok(p as int, i));
                                assert(w0.live_at(i));
                                assert(w0.sval(e.index as int, t as int)
                                    == w0.sval(e.index as int,
                                        w0.registry.pairs@[p as int].collection as int));
                                match w0.sval(e.index as int, t as int) {
                                    Some(SValue::SMembers(m)) => {
                                        assert(m == m0);
                                        assert(count_in(m0, w0.entity_at(i)) == 1);
                                        assert(m0.take(k) =~= m0);
                                        w0.lemma_entity_at(i);
                                        assert(self.entity_at(i) == w0.entity_at(i));
                                    },
                                    _ => {
                                        assert(false);
                                    },
                                }
                            }
                        }
                        assert forall|p2: int, i: int|
                            #![trigger self.sval(i, w0.registry.pairs@[p2].owning as int)]
                            0 <= p2 < w0.registry.n_pairs() && 0 <= i < w0.n_slots()
                                && i != e.index as int
                                implies self.sval(i, w0.registry.pairs@[p2].owning as int)
                                    == if (w0.registry.pairs@[p2].collection as int) < t + 1
                                        && w0.sval(i, w0.registry.pairs@[p2].owning as int)
                                            == Some(SValue::STarget(e)) {
                                        None::<SValue>
                                    } else {
                                        w0.sval(i, w0.registry.pairs@[p2].owning as int)
                                    } by {
                            if p2 != p as int {
                                assert(w0.registry.pairs_disjoint());
                                assert(w0.registry.pairs@[p2].owning != o);
                                assert(w0.registry.pairs@[p2].owning != t);
                                assert(w0.registry.pairs@[p2].collection != t);
                            }
                        }
                        assert forall|p2: int| #![trigger w0.registry.pairs@[p2]]
                            0 <= p2 < w0.registry.n_pairs()
                                && (w0.registry.pairs@[p2].owning as int) < t + 1
                                implies match w0.sval(
                                    e.index as int, w0.registry.pairs@[p2].owning as int) {
                                    Some(SValue::STarget(tgt)) => {
                                        let c = w0.registry.pairs@[p2].collection as int;
                                        match w0.sval(tgt.index as int, c) {
                                            Some(SValue::SMembers(m)) => {
                                                let m2 = remove_all(m, e);
                                                self.sval(tgt.index as int, c)
                                                    == if m2.len() == 0 && w0.registry
                                                        .pairs@[p2].remove_empty_collection {
                                                        None::<SValue>
                                                    } else {
                                                        Some(SValue::SMembers(m2))
                                                    }
                                            },
                                            _ => true,
                                        }
                                    },
                                    _ => true,
                                } by {
                            assert(w0.registry.pair_wf(p2));
                            assert(w0.registry.pairs@[p2].owning != t);
                            match w0.sval(e.index as int,
                                w0.registry.pairs@[p2].owning as int) {
                                Some(SValue::STarget(tgt)) => {
                                    assert(w0.owning_ok(p2, e.index as int));
                                    assert(tgt.index as int != e.index as int);
                                    if p2 != p as int {
                                        assert(w0.registry.pairs_disjoint());
                                        assert(w0.registry.pairs@[p2].collection != t);
                                        assert(w0.registry.pairs@[p2].collection != o);
                                    }
                                },
                                _ => {},
                            }
                        }
                        assert forall|p2: int, i: int|
                            #![trigger self.sval(i, w0.registry.pairs@[p2].collection as int)]
                            0 <= p2 < w0.registry.n_pairs() && 0 <= i < w0.n_slots()
                                && i != e.index as int
                                && (match w0.sval(
                                    e.index as int, w0.registry.pairs@[p2].owning as int) {
                                    Some(SValue::STarget(tgt)) =>
                                        i != tgt.index as int
                                            || (w0.registry.pairs@[p2].owning as int) >= t + 1,
                                    _ => true,
                                })
                                implies self.sval(i, w0.registry.pairs@[p2].collection as int)
                                    == w0.sval(i, w0.registry.pairs@[p2].collection as int)
                                    by {
                            assert(w0.registry.pair_wf(p2));
                            assert(w0.registry.pairs@[p2].owning != t);
                        }
                    }
                },
                None => {
                    let ghost before = *self;
                    let res = self.remove(e, t);
                    proof {
                        assert(before.remove_err(e, t as int) is None);
                        match res {
                            Err(_) => {
                                assert(false);
                            },
                            _ => {},
                        }
                        assert(self.sval(e.index as int, t as int) is None);
                        if before.registry.plain_type(t as int) {
                            assert forall|i: int, u: int| #![trigger self.sval(i, u)]
                                0 <= i < w0.n_slots() && 0 <= u < n as int
                                    && !(i == e.index as int && u == t as int)
                                    implies self.sval(i, u) == before.sval(i, u) by {
                                match res {
                                    Ok(Some(_)) => {},
                                    _ => {},
                                }
                            }
                        } else {
                            // an owning column: the unlink may also rewrite
                            // the old target's member list
                            assert(w0.cell_typed(e.index as int, t as int));
                            assert(before.sval(e.index as int, t as int)
                                == w0.sval(e.index as int, t as int));
                            let op2 = choose|op2: int| 0 <= op2 < w0.registry.n_pairs()
                                && #[trigger] w0.registry.pairs@[op2].owning == t;
                            assert(w0.registry.pair_wf(op2));
                            match res {
                                Ok(Some(val)) => {
                                    match val@ {
                                        SValue::STarget(tgt) => {
                                            let c = w0.registry.pairs@[op2].collection as int;
                                            assert(w0.owning_ok(op2, e.index as int));
                                            assert(self.sval(tgt.index as int, c) == (
                                                match before.sval(tgt.index as int, c) {
                                                    Some(SValue::SMembers(m)) => {
                                                        let m2 = remove_all(m, e);
                                                        if m2.len() == 0 && w0.registry
                                                            .pairs@[op2].remove_empty_collection {
                                                            None::<SValue>
                                                        } else {
                                                            Some(SValue::SMembers(m2))
                                                        }
                                                    },
                                                    _ => before.sval(tgt.index as int, c),
                                                }));
                                            assert(before.sval(tgt.index as int, c)
                                                == w0.sval(tgt.index as int, c));
                                            assert(match w0.sval(tgt.index as int, c) {
                                                Some(SValue::SMembers(m)) => {
                                                    let m2 = remove_all(m, e);
                                                    self.sval(tgt.index as int, c)
                                                        == if m2.len() == 0 && w0.registry
                                                            .pairs@[op2].remove_empty_collection {
                                                            None::<SValue>
                                                        } else {
                                                            Some(SValue::SMembers(m2))
                                                        }
                                                },
                                                _ => true,
                                            });
                                            assert forall|i: int, u: int|
                                                #![trigger self.sval(i, u)]
                                                0 <= i < w0.n_slots() && 0 <= u < n as int
                                                    && !(i == e.index as int && u == t as int)
                                                    && !(i == tgt.index as int && u == c)
                                                    implies self.sval(i, u)
                                                        == before.sval(i, u) by {}
                                        },
                                        _ => {
                                            assert(false);
                                        },
                                    }
                                },
                                Ok(None) => {},
                                _ => {},
                            }
                        }
                        assert forall|p2: int| #![trigger w0.registry.pairs@[p2]]
                            0 <= p2 < w0.registry.n_pairs()
                                implies w0.registry.pairs@[p2].collection != t by {
                            if w0.registry.pairs@[p2].collection == t {
                                assert(w0.registry.collection_type(t as int));
                            }
                        }
                        assert forall|u: int| #![trigger self.sval(e.index as int, u)]
                            0 <= u < n implies self.sval(e.index as int, u)
                                == if u < t + 1 { None::<SValue> }
                                    else { w0.sval(e.index as int, u) } by {}
                        assert forall|p2: int, i: int|
                            #![trigger self.sval(i, w0.registry.pairs@[p2].owning as int)]
                            0 <= p2 < w0.registry.n_pairs() && 0 <= i < w0.n_slots()
                                && i != e.index as int
                                implies self.sval(i, w0.registry.pairs@[p2].owning as int)
                                    == if (w0.registry.pairs@[p2].collection as int) < t + 1
                                        && w0.sval(i, w0.registry.pairs@[p2].owning as int)
                                            == Some(SValue::STarget(e)) {
                                        None::<SValue>
                                    } else {
                                        w0.sval(i, w0.registry.pairs@[p2].owning as int)
                                    } by {
                            assert(w0.registry.pair_wf(p2));
                            assert(w0.registry.pairs@[p2].collection != t);
                            if before.registry.plain_type(t as int) {
                            } else {
                                let opb = choose|q: int| #![trigger w0.registry.pairs@[q]]
                                    0 <= q < w0.registry.n_pairs()
                                        && (w0.registry.pairs@[q].owning == t
                                            || w0.registry.pairs@[q].collection == t);
                                assert(w0.registry.pairs@[opb].owning == t);
                                assert(w0.registry.pairs_disjoint());
                                assert(w0.registry.pairs@[p2].owning
                                    != w0.registry.pairs@[opb].collection);
                                match res {
                                    Ok(Some(val)) => {},
                                    _ => {},
                                }
                            }
                        }
                        assert forall|p2: int| #![trigger w0.registry.pairs@[p2]]
                            0 <= p2 < w0.registry.n_pairs()
                                && (w0.registry.pairs@[p2].owning as int) < t + 1
                                implies match w0.sval(
                                    e.index as int, w0.registry.pairs@[p2].owning as int) {
                                    Some(SValue::STarget(tgt)) => {
                                        let c = w0.registry.pairs@[p2].collection as int;
                                        match w0.sval(tgt.index as int, c) {
                                            Some(SValue::SMembers(m)) => {
                                                let m2 = remove_all(m, e);
                                                self.sval(tgt.index as int, c)
                                                    == if m2.len() == 0 && w0.registry
                                                        .pairs@[p2].remove_empty_collection {
                                                        None::<SValue>
                                                    } else {
                                                        Some(SValue::SMembers(m2))
                                                    }
                                            },
                                            _ => true,
                                        }
                                    },
                                    _ => true,
                                } by {
                            assert(w0.registry.pair_wf(p2));
                            assert(w0.registry.pairs@[p2].collection != t);
                            if w0.registry.pairs@[p2].owning == t {
                                assert forall|q: int| #![trigger w0.registry.pairs@[q]]
                                    0 <= q < w0.registry.n_pairs()
                                        && w0.registry.pairs@[q].owning == t
                                        implies q == p2 by {
                                    if q != p2 {
                                        assert(w0.registry.pairs_disjoint());
                                    }
                                }
                                if before.registry.plain_type(t as int) {
                                    assert(false);
                                }
                                let op2b = choose|op2: int| 0 <= op2 < w0.registry.n_pairs()
                                    && #[trigger] w0.registry.pairs@[op2].owning == t;
                                assert(p2 == op2b);
                            } else {
                                assert((w0.registry.pairs@[p2].owning as int) < t as int);
                                match w0.sval(e.index as int,
                                    w0.registry.pairs@[p2].owning as int) {
                                    Some(SValue::STarget(tgt2)) => {
                                        assert(w0.owning_ok(p2, e.index as int));
                                        assert(tgt2.index as int != e.index as int);
                                        if !before.registry.plain_type(t as int) {
                                            let opb2 = choose|q: int|
                                                #![trigger w0.registry.pairs@[q]]
                                                0 <= q < w0.registry.n_pairs()
                                                    && (w0.registry.pairs@[q].owning == t
                                                        || w0.registry.pairs@[q].collection == t);
                                            assert(w0.registry.pairs@[opb2].owning == t);
                                            assert(w0.registry.pairs_disjoint());
                                            assert(w0.registry.pairs@[p2].collection
                                                != w0.registry.pairs@[opb2].collection);
                                        }
                                    },
                                    _ => {},
                                }
                            }
                        }
                        assert forall|p2: int, i: int|
                            #![trigger self.sval(i, w0.registry.pairs@[p2].collection as int)]
                            0 <= p2 < w0.registry.n_pairs() && 0 <= i < w0.n_slots()
                                && i != e.index as int
                                && (match w0.sval(
                                    e.index as int, w0.registry.pairs@[p2].owning as int) {
                                    Some(SValue::STarget(tgt)) =>
                                        i != tgt.index as int
                                            || (w0.registry.pairs@[p2].owning as int) >= t + 1,
                                    _ => true,
                                })
                                implies self.sval(i, w0.registry.pairs@[p2].collection as int)
                                    == w0.sval(i, w0.registry.pairs@[p2].collection as int)
                                    by {
                            assert(w0.registry.pair_wf(p2));
                            assert(w0.registry.pairs@[p2].collection != t);
                            if !before.registry.plain_type(t as int) {
                                let opb3 = choose|q: int|
                                    #![trigger w0.registry.pairs@[q]]
                                    0 <= q < w0.registry.n_pairs()
                                        && (w0.registry.pairs@[q].owning == t
                                            || w0.registry.pairs@[q].collection == t);
                                assert(w0.registry.pairs@[opb3].owning == t);
                                if p2 != opb3 {
                                    assert(w0.registry.pairs_disjoint());
                                    assert(w0.registry.pairs@[p2].collection
                                        != w0.registry.pairs@[opb3].collection);
                                } else {
                                    assert((w0.registry.pairs@[p2].owning as int) == t as int);
                                }
                            }
                        }
                    }
                },
            }
            t = t + 1;
        }
        // the row is clear; retire the slot
        let generation = self.slots[e.index].generation;
        let ghost before_kill = *self;
        self.slots[e.index] = Slot { live: false, generation };
        if generation < u64::MAX {
            self.free.push(e.index);
        }
        proof {
            self.lemma_kill_slot(before_kill, e.index as int, e.index);
            assert forall|u: int| 0 <= u < w0.n_types()
                implies #[trigger] self.sval(e.index as int, u) is None by {
                assert(self.sval(e.index as int, u)
                    == before_kill.sval(e.index as int, u));
            }
            assert forall|p: int, i: int|
                #![trigger self.sval(i, w0.registry.pairs@[p].owning as int)]
                0 <= p < w0.registry.n_pairs() && 0 <= i < w0.n_slots()
                    && i != e.index as int
                    implies self.sval(i, w0.registry.pairs@[p].owning as int)
                        == if w0.sval(i, w0.registry.pairs@[p].owning as int)
                            == Some(SValue::STarget(e)) {
                            None::<SValue>
                        } else {
                            w0.sval(i, w0.registry.pairs@[p].owning as int)
                        } by {
                assert(w0.registry.pair_wf(p));
                assert((w0.registry.pairs@[p].collection as int) < n as int);
                assert(self.sval(i, w0.registry.pairs@[p].owning as int)
                    == before_kill.sval(i, w0.registry.pairs@[p].owning as int));
            }
            assert forall|p: int| #![trigger w0.registry.pairs@[p]]
                0 <= p < w0.registry.n_pairs()
                    implies match w0.sval(
                        e.index as int, w0.registry.pairs@[p].owning as int) {
                        Some(SValue::STarget(tgt)) => {
                            let c = w0.registry.pairs@[p].collection as int;
                            match w0.sval(tgt.index as int, c) {
                                Some(SValue::SMembers(m)) => {
                                    let m2 = remove_all(m, e);
                                    self.sval(tgt.index as int, c)
                                        == if m2.len() == 0 && w0.registry.pairs@[p]
                                            .remove_empty_collection {
                                            None::<SValue>
                                        } else {
                                            Some(SValue::SMembers(m2))
                                        }
                                },
                                _ => true,
                            }
                        },
                        _ => true,
                    } by {
                assert(w0.registry.pair_wf(p));
                assert((w0.registry.pairs@[p].owning as int) < n as int);
                match w0.sval(e.index as int, w0.registry.pairs@[p].owning as int) {
                    Some(SValue::STarget(tgt)) => {
                        let c = w0.registry.pairs@[p].collection as int;
                        assert(self.sval(tgt.index as int, c)
                            == before_kill.sval(tgt.index as int, c));
                    },
                    _ => {},
                }
            }
            assert forall|p: int, i: int|
                #![trigger self.sval(i, w0.registry.pairs@[p].collection as int)]
                0 <= p < w0.registry.n_pairs() && 0 <= i < w0.n_slots()
                    && i != e.index as int
                    && (match w0.sval(
                        e.index as int, w0.registry.pairs@[p].owning as int) {
                        Some(SValue::STarget(tgt)) => i != tgt.index as int,
                        _ => true,
                    })
                    implies self.sval(i, w0.registry.pairs@[p].collection as int)
                        == w0.sval(i, w0.registry.pairs@[p].collection as int) by {
                assert(w0.registry.pair_wf(p));
                assert(self.sval(i, w0.registry.pairs@[p].collection as int)
                    == before_kill.sval(i, w0.registry.pairs@[p].collection as int));
            }
            assert forall|i: int, u: int| #![trigger self.sval(i, u)]
                0 <= i < w0.n_slots() && i != e.index as int && 0 <= u < w0.n_types()
                    && w0.registry.plain_type(u)
                    implies self.sval(i, u) == w0.sval(i, u) by {
                assert(self.sval(i, u) == before_kill.sval(i, u));
            }
        }
        Ok(())
    }

    /// Inserts a component value, dispatching on its shape: integers go to
    /// plain types, targets establish relationship links, and member lists
    /// are refused, since only the relationship index maintains them.
    pub fn insert_value(&mut self, e: Entity, t: usize, v: Value) -> (r: Result<(), EcsError>)
        requires
            old(self).inv(),
        ensures
            final(self).inv(),
            old(self).same_skeleton(*final(self)),
            old(self).log_extended(*final(self)),
            // plain cells of other entities are never touched
            forall|i: int, u: int| #![trigger final(self).sval(i, u)]
                0 <= i < old(self).n_slots() && i != e.index as int
                    && 0 <= u < old(self).n_types() && old(self).registry.plain_type(u)
                    ==> final(self).sval(i, u) == old(self).sval(i, u),
            match v@ {
                SValue::SInt(x) => match r {
                    Ok(_) => old(self).plain_insert_err(e, t as int) is None
                        && final(self).sval(e.index as int, t as int)
                            == Some(SValue::SInt(x)),
                    Err(er) => old(self).plain_insert_err(e, t as int) == Some(er)
                        && *final(self) == *old(self),
                },
                SValue::STarget(tgt) => match r {
                    Ok(_) => old(self).link_err(e, t as int, tgt) is None
                        && final(self).sval(e.index as int, t as int)
                            == Some(SValue::STarget(tgt)),
                    Err(er) => old(self).link_err(e, t as int, tgt) == Some(er)
                        && *final(self) == *old(self),
                },
                SValue::SMembers(_) => r == Err::<(), EcsError>(EcsError::CollectionNotWritable)
                    && *final(self) == *old(self),
            },
    {
        let r = match v {
            Value::Int(x) => self.insert_int(e, t, x),
            Value::Target(tgt) => self.link(e, t, tgt),
            Value::Members(_) => Err(EcsError::CollectionNotWritable),
        };
        proof {
            assert forall|i: int, u: int| #![trigger self.sval(i, u)]
                0 <= i < old(self).n_slots() && i != e.index as int
                    && 0 <= u < old(self).n_types() && old(self).registry.plain_type(u)
                    implies self.sval(i, u) == old(self).sval(i, u) by {
                match v@ {
                    SValue::STarget(tgt) => {
                        match r {
                            Ok(_) => {
                                assert(old(self).registry.owning_type(t as int));
                                let q = choose|q: int|
                                    #![trigger old(self).registry.pairs@[q]]
                                    0 <= q < old(self).registry.n_pairs()
                                        && old(self).registry.pairs@[q].owning == t;
                                assert(old(self).registry.pair_wf(q));
                                assert(old(self).registry.pairs@[q].owning != u
                                    && old(self).registry.pairs@[q].collection != u);
                            },
                            Err(_) => {},
                        }
                    },
                    _ => {},
                }
            }
        }
        r
    }

    /// Overwrites a mutable plain component in place, without firing
    /// hooks: in-place mutation is no structural change. An immutable kind
    /// refuses with `ImmutableMutation`, so every value change of such a
    /// component goes through insert and remove and is seen by the hooks;
    /// a relationship column refuses likewise.
    pub fn write_int(&mut self, e: Entity, t: usize, v: i64) -> (r: Result<(), EcsError>)
        requires
            old(self).inv(),
        ensures
            final(self).inv(),
            old(self).same_skeleton(*final(self)),
            final(self).hook_log == old(self).hook_log,
            final(self).total == old(self).total,
            final(self).pending == old(self).pending,
            final(self).observer_log == old(self).observer_log,
            match r {
                Ok(_) => {
                    &&& old(self).live(e)
                    &&& (t as int) < old(self).n_types()
                    &&& old(self).registry.plain_type(t as int)
                    &&& old(self).registry.types@[t as int].mutability is Mutable
                    &&& old(self).sval(e.index as int, t as int) is Some
                    &&& final(self).sval(e.index as int, t as int) == Some(SValue::SInt(v))
                    &&& (forall|i: int, u: int| #![trigger final(self).sval(i, u)]
                        0 <= i < old(self).n_slots() && 0 <= u < old(self).n_types()
                            && !(i == e.index as int && u == t as int)
                            ==> final(self).sval(i, u) == old(self).sval(i, u))
                },
                Err(er) => *final(self) == *old(self) && (
                    if (t as int) >= old(self).n_types() {
                        er == EcsError::UnknownType
                    } else if !old(self).live(e) {
                        er == EcsError::DeadEntity
                    } else if old(self).registry.collection_type(t as int) {
                        er == EcsError::CollectionNotWritable
                    } else if !old(self).registry.plain_type(t as int) {
                        er == EcsError::ValueKindMismatch
                    } else if !(old(self).registry.types@[t as int].mutability is Mutable) {
                        er == EcsError::ImmutableMutation
                    } else {
                        er == EcsError::NoMatch
                            && old(self).sval(e.index as int, t as int) is None
                    }
                ),
            },
    {
        if t >= self.registry.types.len() {
            return Err(EcsError::UnknownType);
        }
        if !self.is_live(e) {
            return Err(EcsError::DeadEntity);
        }
        if self.registry.collection_pair(t).is_some() {
            return Err(EcsError::CollectionNotWritable);
        }
        if !self.registry.is_plain(t) {
            return Err(EcsError::ValueKindMismatch);
        }
        if matches!(self.registry.types[t].mutability, Mutability::Immutable) {
            return Err(EcsError::ImmutableMutation);
        }
        if self.components[e.index][t].is_none() {
            return Err(EcsError::NoMatch);
        }
        let ghost pre = *self;
        self.cell_set(e.index, t, Some(Value::Int(v)));
        proof {
            self.lemma_plain_write(pre, e.index as int, t as int);
            assert forall|i: int, u: int| #![trigger self.sval(i, u)]
                0 <= i < pre.n_slots() && 0 <= u < pre.n_types()
                    && !(i == e.index as int && u == t as int)
                    implies self.sval(i, u) == pre.sval(i, u) by {
                if i != e.index as int {
                    assert(self.components@[i] == pre.components@[i]);
                } else {
                    assert(self.components@[i]@[u] == pre.components@[i]@[u]);
                }
            }
        }
        Ok(())
    }

    /// Registers an observer scoped to one entity. Observers registered
    /// earlier are notified earlier.
    pub fn add_observer(&mut self, watched: Entity, name: u64)
        requires
            old(self).inv(),
        ensures
            final(self).inv(),
            final(self).observers@ == old(self).observers@.push(
                Observer { watched, name }),
            final(self).registry == old(self).registry,
            final(self).slots == old(self).slots,
            final(self).components == old(self).components,
            final(self).free == old(self).free,
            final(self).total == old(self).total,
            final(self).hook_log == old(self).hook_log,
            final(self).observer_log == old(self).observer_log,
            final(self).pending == old(self).pending,
            final(self).dispatch == old(self).dispatch,
    {
        let ghost pre = *self;
        self.observers.push(Observer { watched, name });
        proof {
            self.lemma_inv_frame(pre);
        }
    }

    /// Whether slot `i` matches the query: live, holding `with`, and,
    /// when a filter is given, lacking `without`.
    pub open spec fn query_matches(self, i: int, with: usize, without: Option<usize>) -> bool {
        &&& self.live_at(i)
        &&& self.sval(i, with as int) is Some
        &&& match without {
            Some(w) => self.sval(i, w as int) is None,
            None => true,
        }
    }

    /// The matching entities among slots below `upto`, in slot order.
    pub open spec fn query_seq(self, with: usize, without: Option<usize>, upto: int)
        -> Seq<Entity>
        decreases upto,
    {
        if upto <= 0 {
            Seq::empty()
        } else if self.query_matches(upto - 1, with, without) {
            self.query_seq(with, without, upto - 1).push(self.entity_at(upto - 1))
        } else {
            self.query_seq(with, without, upto - 1)
        }
    }

    /// The live entities currently holding type `with` and, when a filter
    /// is given, not holding `without`: exactly the matching slots, in
    /// slot order, each once. The result reflects only settled state: it
    /// is computed between command batches.
    pub fn query(&self, with: usize, without: Option<usize>) -> (r: Vec<Entity>)
        requires
            self.inv(),
            (with as int) < self.n_types(),
            match without {
                Some(w) => (w as int) < self.n_types(),
                None => true,
            },
        ensures
            r@ == self.query_seq(with, without, self.n_slots()),
            forall|k: int| 0 <= k < r@.len() ==> {
                &&& self.live(#[trigger] r@[k])
                &&& self.sval(r@[k].index as int, with as int) is Some
                &&& match without {
                    Some(w) => self.sval(r@[k].index as int, w as int) is None,
                    None => true,
                }
            },
    {
        let mut out: Vec<Entity> = Vec::new();
        let mut i: usize = 0;
        let n = self.slots.len();
        while i < n
            invariant
                self.inv(),
                n == self.n_slots(),
                (with as int) < self.n_types(),
                match without {
                    Some(w) => (w as int) < self.n_types(),
                    None => true,
                },
                i <= n,
                out@ == self.query_seq(with, without, i as int),
                forall|k: int| 0 <= k < out@.len() ==> {
                    &&& self.live(#[trigger] out@[k])
                    &&& self.sval(out@[k].index as int, with as int) is Some
                    &&& match without {
                        Some(w) => self.sval(out@[k].index as int, w as int) is None,
                        None => true,
                    }
                },
            decreases n - i,
        {
            if self.slots[i].live && self.components[i][with].is_some() {
                let excluded = match without {
                    Some(w) => self.components[i][w].is_some(),
                    None => false,
                };
                if !excluded {
                    let ent = Entity { index: i, generation: self.slots[i].generation };
                    proof {
                        assert(ent == self.entity_at(i as int));
                        assert(self.live(ent));
                        assert(self.query_matches(i as int, with, without));
                    }
                    out.push(ent);
                } else {
                    proof {
                        assert(!self.query_matches(i as int, with, without));
                    }
                }
            } else {
                proof {
                    assert(!self.query_matches(i as int, with, without));
                }
            }
            i = i + 1;
        }
        out
    }

    /// The single entity matching the query. `Ok(e)` exactly when one
    /// live entity matches and `e` is it; `NoMatch` exactly when none
    /// does; `MultipleMatches` exactly when several do.
    pub fn query_single(&self, with: usize, without: Option<usize>) -> (r: Result<Entity, EcsError>)
        requires
            self.inv(),
            (with as int) < self.n_types(),
            match without {
                Some(w) => (w as int) < self.n_types(),
                None => true,
            },
        ensures
            match r {
                Ok(e) => {
                    &&& self.query_seq(with, without, self.n_slots()).len() == 1
                    &&& e == self.query_seq(with, without, self.n_slots())[0]
                    &&& self.live(e)
                    &&& self.sval(e.index as int, with as int) is Some
                    &&& match without {
                        Some(w) => self.sval(e.index as int, w as int) is None,
                        None => true,
                    }
                },
                Err(er) => if er == EcsError::NoMatch {
                    self.query_seq(with, without, self.n_slots()).len() == 0
                } else {
                    er == EcsError::MultipleMatches
                        && self.query_seq(with, without, self.n_slots()).len() > 1
                },
            },
    {
        let found = self.query(with, without);
        if found.len() == 0 {
            Err(EcsError::NoMatch)
        } else if found.len() > 1 {
            Err(EcsError::MultipleMatches)
        } else {
            Ok(found[0])
        }
    }

    /// Whether `e` names a live entity.
    pub fn is_live(&self, e: Entity) -> (r: bool)
        ensures
            r == self.live(e),
    {
        e.index < self.slots.len() && self.slots[e.index].live
            && self.slots[e.index].generation == e.generation
    }
}

/// A live entity's collection characterises its owners exactly: every
/// member owns it and occurs once, every live owner is a member, and with
/// no collection there are no owners. Together with the contract of
/// `despawn`, which clears exactly the owning cells that name the
/// despawned entity, despawning a target with N members removes exactly
/// N owning components and leaves no dangling reference.
pub proof fn lemma_collection_characterises_owners(w: World, e: Entity, p: int)
    requires
        w.inv(),
        w.live(e),
        0 <= p < w.registry.n_pairs(),
    ensures
        match w.sval(e.index as int, w.registry.pairs@[p].collection as int) {
            Some(SValue::SMembers(m)) => {
                &&& (forall|k: int| 0 <= k < m.len() ==> {
                    &&& w.sval((#[trigger] m[k]).index as int,
                        w.registry.pairs@[p].owning as int) == Some(SValue::STarget(e))
                    &&& count_in(m, m[k]) == 1
                })
                &&& (forall|i: int| #![trigger w.slots@[i]]
                    w.live_at(i)
                        && w.sval(i, w.registry.pairs@[p].owning as int)
                            == Some(SValue::STarget(e))
                        ==> count_in(m, w.entity_at(i)) == 1)
            },
            None => forall|i: int| #![trigger w.slots@[i]]
                w.live_at(i)
                    ==> w.sval(i, w.registry.pairs@[p].owning as int)
                        != Some(SValue::STarget(e)),
            _ => false,
        },
{
    let o = w.registry.pairs@[p].owning as int;
    let c = w.registry.pairs@[p].collection as int;
    assert(w.registry.pair_wf(p));
    w.lemma_entity_at(e.index as int);
    assert(w.entity_at(e.index as int) == e);
    assert(w.live_at(e.index as int));
    assert(w.collection_ok(p, e.index as int));
    assert(w.cell_typed(e.index as int, c));
    match w.sval(e.index as int, c) {
        Some(SValue::SMembers(m)) => {
            assert forall|k: int| 0 <= k < m.len() implies {
                &&& w.sval((#[trigger] m[k]).index as int, o) == Some(SValue::STarget(e))
                &&& count_in(m, m[k]) == 1
            } by {}
            assert forall|i: int| #![trigger w.slots@[i]]
                w.live_at(i) && w.sval(i, o) == Some(SValue::STarget(e))
                    implies count_in(m, w.entity_at(i)) == 1 by {
                assert(w.owning_ok(p, i));
            }
        },
        None => {
            assert forall|i: int| #![trigger w.slots@[i]]
                w.live_at(i)
                    implies w.sval(i, o) != Some(SValue::STarget(e)) by {
                if w.sval(i, o) == Some(SValue::STarget(e)) {
                    assert(w.owning_ok(p, i));
                }
            }
        },
        Some(SValue::SInt(_)) => {
            assert(w.registry.plain_type(c));
            assert(false);
        },
        Some(SValue::STarget(_)) => {
            assert(w.registry.owning_type(c));
            let q = choose|q: int| #![trigger w.registry.pairs@[q]]
                0 <= q < w.registry.n_pairs() && w.registry.pairs@[q].owning == w.registry.pairs@[p].collection;
            assert(w.registry.pairs_disjoint());
            assert(w.registry.pairs@[q].owning != w.registry.pairs@[p].collection);
            assert(false);
        },
    }
}

/// Replacing an immutable value whose hooks maintain a running total
/// delivers one removal event for the old value and then one insertion
/// event for the new value, and the total moves by exactly the
/// difference, whenever the sums stay representable.
pub proof fn lemma_replace_adjusts_total(
    w: World, e: Entity, t: usize, a: i64, b: i64, post: World,
)
    requires
        w.actions_of(t as int, HookEvent::OnRemove) =~= seq![HookAction::SubFromTotal],
        w.actions_of(t as int, HookEvent::OnInsert) =~= seq![HookAction::AddToTotal],
        w.replace_side_effects(e, t, Some(SValue::SInt(a)), SValue::SInt(b), post),
        i64::MIN <= w.total as int - a <= i64::MAX,
        i64::MIN <= w.total as int - a + b <= i64::MAX,
    ensures
        post.total as int == w.total as int - a + b,
        post.hook_log@.len() == w.hook_log@.len() + 2,
        post.hook_log@[w.hook_log@.len() as int].event == HookEvent::OnRemove,
        post.hook_log@[w.hook_log@.len() as int].value@ == SValue::SInt(a),
        post.hook_log@[w.hook_log@.len() as int + 1].event == HookEvent::OnInsert,
        post.hook_log@[w.hook_log@.len() as int + 1].value@ == SValue::SInt(b),
{
    let rem = w.actions_of(t as int, HookEvent::OnRemove);
    let ins = w.actions_of(t as int, HookEvent::OnInsert);
    assert(rem.len() == 1);
    assert(rem[0] == HookAction::SubFromTotal);
    assert(rem.drop_first() =~= Seq::<HookAction>::empty());
    assert(total_step(w.total as int, rem[0], SValue::SInt(a)) == w.total as int - a);
    assert(total_fold(w.total as int, rem, SValue::SInt(a))
        == total_fold(w.total as int - a, rem.drop_first(), SValue::SInt(a)));
    assert(total_fold(w.total as int - a, rem.drop_first(), SValue::SInt(a))
        == w.total as int - a);
    assert(ins.len() == 1);
    assert(ins[0] == HookAction::AddToTotal);
    assert(ins.drop_first() =~= Seq::<HookAction>::empty());
    assert(total_step(w.total as int - a, ins[0], SValue::SInt(b))
        == w.total as int - a + b);
    assert(total_fold(w.total as int - a, ins, SValue::SInt(b))
        == total_fold(w.total as int - a + b, ins.drop_first(), SValue::SInt(b)));
    assert(total_fold(w.total as int - a + b, ins.drop_first(), SValue::SInt(b))
        == w.total as int - a + b);
}

} // verus!
