use vstd::prelude::*;
use crate::entity::Entity;
use crate::errors::EcsError;
use crate::registry::HookEvent;
use crate::value::{SValue, Value};
use crate::world::{watchers_dup, Observer, World};

verus! {

/// The policy governing one clone operation.
#[derive(Debug)]
pub struct CloneConfig {
    /// The default mode: `true` is allow-all, `false` is deny-all.
    pub allow_all: bool,
    /// The per-type exceptions to the default mode: denied types under
    /// allow-all, allowed types under deny-all.
    pub overrides: Vec<usize>,
    /// Recurse into relationship-owned children, re-linking the cloned
    /// children to the destination.
    pub linked_cloning: bool,
    /// Remove each copied component from the source after the copy.
    pub move_components: bool,
    /// Duplicate entity-scoped observers of the source onto the clone.
    pub add_observers: bool,
    /// Whether a component already on a clone target may be overwritten;
    /// overwriting is the default.
    pub overwrite: bool,
}

impl CloneConfig {
    /// Whether the filter lets component type `t` through: under deny-all
    /// only listed types pass, under allow-all only listed types are
    /// excluded.
    pub open spec fn passes(self, t: int) -> bool {
        if self.allow_all {
            !(exists|k: int| 0 <= k < self.overrides@.len()
                && #[trigger] self.overrides@[k] == t)
        } else {
            exists|k: int| 0 <= k < self.overrides@.len()
                && #[trigger] self.overrides@[k] == t
        }
    }

    /// The deny-all starting point for building a policy.
    pub fn deny_all() -> (r: CloneConfig)
        ensures
            !r.allow_all,
            r.overrides@.len() == 0,
            !r.linked_cloning,
            !r.move_components,
            !r.add_observers,
            r.overwrite,
            forall|t: int| !r.passes(t),
    {
        CloneConfig {
            allow_all: false,
            overrides: Vec::new(),
            linked_cloning: false,
            move_components: false,
            add_observers: false,
            overwrite: true,
        }
    }

    /// The allow-all starting point for building a policy.
    pub fn allow_all() -> (r: CloneConfig)
        ensures
            r.allow_all,
            r.overrides@.len() == 0,
            !r.linked_cloning,
            !r.move_components,
            !r.add_observers,
            r.overwrite,
            forall|t: int| r.passes(t),
    {
        CloneConfig {
            allow_all: true,
            overrides: Vec::new(),
            linked_cloning: false,
            move_components: false,
            add_observers: false,
            overwrite: true,
        }
    }

    /// Adds one type to the exception list: an allowance under deny-all, a
    /// denial under allow-all.
    pub fn with_override(&mut self, t: usize)
        ensures
            final(self).allow_all == old(self).allow_all,
            final(self).linked_cloning == old(self).linked_cloning,
            final(self).move_components == old(self).move_components,
            final(self).add_observers == old(self).add_observers,
            final(self).overwrite == old(self).overwrite,
            final(self).overrides@ == old(self).overrides@.push(t),
            forall|u: int| final(self).passes(u)
                == if u == t as int { !final(self).allow_all } else { old(self).passes(u) },
    {
        self.overrides.push(t);
        proof {
            assert forall|u: int| self.passes(u)
                == if u == t as int { !self.allow_all } else { old(self).passes(u) } by {
                if u == t as int {
                    assert(self.overrides@[self.overrides@.len() - 1] == t);
                } else {
                    if exists|k: int| 0 <= k < old(self).overrides@.len()
                        && #[trigger] old(self).overrides@[k] == u {
                        let k = choose|k: int| 0 <= k < old(self).overrides@.len()
                            && #[trigger] old(self).overrides@[k] == u;
                        assert(self.overrides@[k] == u);
                    } else {
                        if exists|k: int| 0 <= k < self.overrides@.len()
                            && #[trigger] self.overrides@[k] == u {
                            let k = choose|k: int| 0 <= k < self.overrides@.len()
                                && #[trigger] self.overrides@[k] == u;
                            assert(k < old(self).overrides@.len());
                        }
                    }
                }
            }
        }
    }

    /// Whether the filter lets `t` through, decided by scanning the
    /// exception list.
    pub fn passes_exec(&self, t: usize) -> (r: bool)
        ensures
            r == self.passes(t as int),
    {
        let n = self.overrides.len();
        let mut k: usize = 0;
        let mut found: bool = false;
        while k < n
            invariant
                n == self.overrides@.len(),
                k <= n,
                found == exists|i: int| 0 <= i < k && #[trigger] self.overrides@[i] == t as int,
            decreases n - k,
        {
            if self.overrides[k] == t {
                found = true;
            }
            k = k + 1;
        }
        if self.allow_all {
            !found
        } else {
            found
        }
    }
}

impl World {
    /// Whether a move of the listed types takes the component at
    /// `(src, u)`: the deny-all filter of `move_components` selects
    /// exactly the listed, cloneable, present types.
    pub open spec fn move_selects(self, src: Entity, dst: Entity, types: Seq<usize>, u: int)
        -> bool {
        &&& self.registry.types@[u].cloneable
        &&& (exists|j: int| 0 <= j < types.len() && #[trigger] types[j] == u)
        &&& match self.sval(src.index as int, u) {
            Some(SValue::SInt(_)) => true,
            Some(SValue::STarget(tgt)) => tgt.index != dst.index,
            _ => false,
        }
    }

    /// Whether the clone engine copies the component at `(src, t)`: the
    /// value must exist, its type must have a copy capability and pass the
    /// filter, and a collection is never copied directly, since only the
    /// relationship index maintains member lists. An owning component is
    /// copied only when its target is not the destination itself.
    pub open spec fn clone_selects(self, src: Entity, dst: Entity, cfg: CloneConfig, t: int)
        -> bool {
        &&& self.registry.types@[t].cloneable
        &&& cfg.passes(t)
        &&& match self.sval(src.index as int, t) {
            Some(SValue::SInt(_)) => true,
            Some(SValue::STarget(tgt)) => tgt.index != dst.index,
            _ => false,
        }
    }

    /// Whether the clone is refused with `DestinationConflict`: the
    /// source and destination coincide, or overwriting is off and a
    /// selected component already stands on the destination.
    pub open spec fn clone_conflict(self, src: Entity, dst: Entity, cfg: CloneConfig) -> bool {
        ||| src.index == dst.index
        ||| (!cfg.overwrite && exists|u: int|
            0 <= u < self.n_types()
                && #[trigger] self.clone_selects(src, dst, cfg, u)
                && self.sval(dst.index as int, u) is Some)
    }

    /// Copies the components of `src` selected by `cfg` onto `dst`;
    /// types without a copy capability are silently skipped, and required
    /// companions are not added behind the filter's back: the destination
    /// receives exactly the selected set. With `move_components` each
    /// selected component is removed from the source first, so its removal
    /// event on the source fires strictly before its insertion event on
    /// the destination. With `overwrite` off, a selected component already
    /// on the destination refuses with `DestinationConflict` before
    /// anything changes; overwriting is the default. With `add_observers`,
    /// every observer scoped to the source is duplicated to watch the
    /// destination as well. Succeeds exactly on a live source, a live
    /// destination, and no conflict.
    pub fn clone_into(&mut self, src: Entity, dst: Entity, cfg: &CloneConfig)
        -> (r: Result<(), EcsError>)
        requires
            old(self).inv(),
        ensures
            final(self).inv(),
            old(self).same_store_frame(*final(self)),
            old(self).log_extended(*final(self)),
            (r == Err::<(), EcsError>(EcsError::SourceNotFound)) == !old(self).live(src),
            (r == Err::<(), EcsError>(EcsError::DeadEntity))
                == (old(self).live(src) && !old(self).live(dst)),
            (r == Err::<(), EcsError>(EcsError::DestinationConflict))
                == (old(self).live(src) && old(self).live(dst)
                    && old(self).clone_conflict(src, dst, *cfg)),
            (r is Ok) == (old(self).live(src) && old(self).live(dst)
                && !old(self).clone_conflict(src, dst, *cfg)),
            r is Err ==> *final(self) == *old(self),
            r is Ok ==> {
                // the destination's plain and owning cells become the
                // source's exactly for the selected types
                &&& (forall|u: int| #![trigger final(self).sval(dst.index as int, u)]
                    0 <= u < old(self).n_types() && !old(self).registry.collection_type(u)
                        ==> final(self).sval(dst.index as int, u)
                            == if old(self).clone_selects(src, dst, *cfg, u) {
                                old(self).sval(src.index as int, u)
                            } else {
                                old(self).sval(dst.index as int, u)
                            })
                // its member lists are never written directly
                &&& (forall|u: int| #![trigger final(self).sval(dst.index as int, u)]
                    0 <= u < old(self).n_types() && old(self).registry.collection_type(u)
                        ==> final(self).sval(dst.index as int, u)
                            == old(self).sval(dst.index as int, u))
                // moved components leave the source; nothing else does
                &&& (forall|u: int| #![trigger final(self).sval(src.index as int, u)]
                    0 <= u < old(self).n_types() && !old(self).registry.collection_type(u)
                        ==> final(self).sval(src.index as int, u)
                            == if cfg.move_components
                                && old(self).clone_selects(src, dst, *cfg, u) {
                                None::<SValue>
                            } else {
                                old(self).sval(src.index as int, u)
                            })
                // every other entity keeps its plain and owning cells
                &&& (forall|i: int, u: int| #![trigger final(self).sval(i, u)]
                    0 <= i < old(self).n_slots() && i != src.index as int
                        && i != dst.index as int && 0 <= u < old(self).n_types()
                        && !old(self).registry.collection_type(u)
                        ==> final(self).sval(i, u) == old(self).sval(i, u))
                // observers duplicated exactly when asked
                &&& final(self).observers@ == (if cfg.add_observers {
                    old(self).observers@ + watchers_dup(old(self).observers@, src, dst)
                } else {
                    old(self).observers@
                })
                // one selected, plain, moved component landing on an empty
                // destination slot yields exactly its removal event on the
                // source strictly before its insertion event on the
                // destination
                &&& (forall|t0: int|
                    #![trigger old(self).clone_selects(src, dst, *cfg, t0)]
                    0 <= t0 < old(self).n_types()
                        && old(self).clone_selects(src, dst, *cfg, t0)
                        && (forall|u: int| 0 <= u < old(self).n_types() && u != t0
                            ==> !old(self).clone_selects(src, dst, *cfg, u))
                        && old(self).registry.plain_type(t0)
                        && cfg.move_components
                        && old(self).sval(dst.index as int, t0) is None
                        ==> {
                        let n0 = old(self).hook_log@.len() as int;
                        &&& final(self).hook_log@.len() == n0 + 2
                        &&& final(self).hook_log@[n0].event == HookEvent::OnRemove
                        &&& final(self).hook_log@[n0].type_id as int == t0
                        &&& final(self).hook_log@[n0].entity == src
                        &&& Some(final(self).hook_log@[n0].value@)
                            == old(self).sval(src.index as int, t0)
                        &&& final(self).hook_log@[n0 + 1].event == HookEvent::OnInsert
                        &&& final(self).hook_log@[n0 + 1].type_id as int == t0
                        &&& final(self).hook_log@[n0 + 1].entity == dst
                        &&& Some(final(self).hook_log@[n0 + 1].value@)
                            == old(self).sval(src.index as int, t0)
                    })
                // and whatever else is selected, every moved component's
                // removal event on the source strictly precedes its
                // insertion event on the destination
                &&& (cfg.move_components ==> forall|t0: int|
                    #![trigger old(self).clone_selects(src, dst, *cfg, t0)]
                    0 <= t0 < old(self).n_types()
                        && old(self).clone_selects(src, dst, *cfg, t0)
                        ==> exists|j1: int, j2: int|
                            #![trigger final(self).hook_log@[j1], final(self).hook_log@[j2]]
                            {
                            &&& old(self).hook_log@.len() <= j1 < j2
                                < final(self).hook_log@.len()
                            &&& final(self).hook_log@[j1].event == HookEvent::OnRemove
                            &&& final(self).hook_log@[j1].type_id as int == t0
                            &&& final(self).hook_log@[j1].entity == src
                            &&& Some(final(self).hook_log@[j1].value@)
                                == old(self).sval(src.index as int, t0)
                            &&& final(self).hook_log@[j2].event == HookEvent::OnInsert
                            &&& final(self).hook_log@[j2].type_id as int == t0
                            &&& final(self).hook_log@[j2].entity == dst
                            &&& Some(final(self).hook_log@[j2].value@)
                                == old(self).sval(src.index as int, t0)
                        })
            },
    {
        if !self.is_live(src) {
            return Err(EcsError::SourceNotFound);
        }
        if !self.is_live(dst) {
            return Err(EcsError::DeadEntity);
        }
        if src.index == dst.index {
            return Err(EcsError::DestinationConflict);
        }
        let ghost w0 = *self;
        let n = self.registry.types.len();
        if !cfg.overwrite {
            let mut t: usize = 0;
            while t < n
                invariant
                    self.inv(),
                    *self == w0,
                    !cfg.overwrite,
                    n == self.n_types(),
                    t <= n,
                    self.live(src),
                    self.live(dst),
                    src.index != dst.index,
                    forall|u: int| 0 <= u < t
                        ==> !(#[trigger] w0.clone_selects(src, dst, *cfg, u)
                            && w0.sval(dst.index as int, u) is Some),
                decreases n - t,
            {
                if self.selects_exec(src, dst, cfg, t)
                    && self.components[dst.index][t].is_some() {
                    proof {
                        assert(w0.clone_selects(src, dst, *cfg, t as int));
                        assert(self.sval(dst.index as int, t as int) is Some);
                        assert(self.sval(dst.index as int, t as int)
                            == w0.sval(dst.index as int, t as int));
                        assert(0 <= t as int && (t as int) < w0.n_types());
                        assert(exists|u: int| 0 <= u < w0.n_types()
                            && #[trigger] w0.clone_selects(src, dst, *cfg, u)
                            && w0.sval(dst.index as int, u) is Some);
                        assert(w0.clone_conflict(src, dst, *cfg));
                    }
                    return Err(EcsError::DestinationConflict);
                }
                t = t + 1;
            }
        }
        proof {
            assert(!w0.clone_conflict(src, dst, *cfg));
        }
        let mut t: usize = 0;
        while t < n
            invariant
                self.inv(),
                w0.inv(),
                n == w0.n_types(),
                t <= n,
                w0.live(src),
                w0.live(dst),
                self.live(src),
                self.live(dst),
                src.index != dst.index,
                w0.same_store_frame(*self),
                self.observers == w0.observers,
                w0.log_extended(*self),
                forall|u: int| #![trigger self.sval(dst.index as int, u)]
                    0 <= u < n && !w0.registry.collection_type(u)
                        ==> self.sval(dst.index as int, u)
                            == if u < t && w0.clone_selects(src, dst, *cfg, u) {
                                w0.sval(src.index as int, u)
                            } else {
                                w0.sval(dst.index as int, u)
                            },
                forall|u: int| #![trigger self.sval(dst.index as int, u)]
                    0 <= u < n && w0.registry.collection_type(u)
                        ==> self.sval(dst.index as int, u)
                            == w0.sval(dst.index as int, u),
                forall|u: int| #![trigger self.sval(src.index as int, u)]
                    0 <= u < n && !w0.registry.collection_type(u)
                        ==> self.sval(src.index as int, u)
                            == if u < t && cfg.move_components
                                && w0.clone_selects(src, dst, *cfg, u) {
                                None::<SValue>
                            } else {
                                w0.sval(src.index as int, u)
                            },
                forall|i: int, u: int| #![trigger self.sval(i, u)]
                    0 <= i < w0.n_slots() && i != src.index as int
                        && i != dst.index as int && 0 <= u < n
                        && !w0.registry.collection_type(u)
                        ==> self.sval(i, u) == w0.sval(i, u),
                cfg.move_components ==> forall|t0: int|
                    #![trigger w0.clone_selects(src, dst, *cfg, t0)]
                    0 <= t0 < t as int && w0.clone_selects(src, dst, *cfg, t0)
                        ==> exists|j1: int, j2: int|
                            #![trigger self.hook_log@[j1], self.hook_log@[j2]]
                            {
                            &&& w0.hook_log@.len() <= j1 < j2 < self.hook_log@.len()
                            &&& self.hook_log@[j1].event == HookEvent::OnRemove
                            &&& self.hook_log@[j1].type_id as int == t0
                            &&& self.hook_log@[j1].entity == src
                            &&& Some(self.hook_log@[j1].value@)
                                == w0.sval(src.index as int, t0)
                            &&& self.hook_log@[j2].event == HookEvent::OnInsert
                            &&& self.hook_log@[j2].type_id as int == t0
                            &&& self.hook_log@[j2].entity == dst
                            &&& Some(self.hook_log@[j2].value@)
                                == w0.sval(src.index as int, t0)
                        },
                forall|t0: int|
                    #![trigger w0.clone_selects(src, dst, *cfg, t0)]
                    0 <= t0 < n
                        && w0.clone_selects(src, dst, *cfg, t0)
                        && (forall|u: int| 0 <= u < n && u != t0
                            ==> !w0.clone_selects(src, dst, *cfg, u))
                        && w0.registry.plain_type(t0)
                        && cfg.move_components
                        && w0.sval(dst.index as int, t0) is None
                        ==> if t0 < t {
                            let n0 = w0.hook_log@.len() as int;
                            &&& self.hook_log@.len() == n0 + 2
                            &&& self.hook_log@[n0].event == HookEvent::OnRemove
                            &&& self.hook_log@[n0].type_id as int == t0
                            &&& self.hook_log@[n0].entity == src
                            &&& Some(self.hook_log@[n0].value@)
                                == w0.sval(src.index as int, t0)
                            &&& self.hook_log@[n0 + 1].event == HookEvent::OnInsert
                            &&& self.hook_log@[n0 + 1].type_id as int == t0
                            &&& self.hook_log@[n0 + 1].entity == dst
                            &&& Some(self.hook_log@[n0 + 1].value@)
                                == w0.sval(src.index as int, t0)
                        } else {
                            self.hook_log == w0.hook_log
                        },
            decreases n - t,
        {
            let ghost pre = *self;
            proof {
                if !w0.registry.collection_type(t as int) {
                    assert(self.sval(src.index as int, t as int)
                        == w0.sval(src.index as int, t as int));
                } else {
                    assert(self.cell_typed(src.index as int, t as int));
                    assert(w0.cell_typed(src.index as int, t as int));
                    match self.sval(src.index as int, t as int) {
                        Some(SValue::SInt(_)) => {
                            let q1 = choose|q: int| #![trigger self.registry.pairs@[q]]
                                0 <= q < self.registry.n_pairs()
                                    && self.registry.pairs@[q].collection == t;
                            assert(!self.registry.plain_type(t as int));
                            assert(false);
                        },
                        Some(SValue::STarget(_)) => {
                            let q1 = choose|q: int| #![trigger self.registry.pairs@[q]]
                                0 <= q < self.registry.n_pairs()
                                    && self.registry.pairs@[q].collection == t;
                            let q2 = choose|q: int| #![trigger self.registry.pairs@[q]]
                                0 <= q < self.registry.n_pairs()
                                    && self.registry.pairs@[q].owning == t;
                            assert(self.registry.pairs_disjoint());
                            assert(self.registry.pairs@[q2].owning
                                != self.registry.pairs@[q1].collection);
                            assert(false);
                        },
                        _ => {},
                    }
                    match w0.sval(src.index as int, t as int) {
                        Some(SValue::SInt(_)) => {
                            assert(false);
                        },
                        Some(SValue::STarget(_)) => {
                            let q1 = choose|q: int| #![trigger w0.registry.pairs@[q]]
                                0 <= q < w0.registry.n_pairs()
                                    && w0.registry.pairs@[q].collection == t;
                            let q2 = choose|q: int| #![trigger w0.registry.pairs@[q]]
                                0 <= q < w0.registry.n_pairs()
                                    && w0.registry.pairs@[q].owning == t;
                            assert(w0.registry.pairs_disjoint());
                            assert(w0.registry.pairs@[q2].owning
                                != w0.registry.pairs@[q1].collection);
                            assert(false);
                        },
                        _ => {},
                    }
                    assert(self.clone_selects(src, dst, *cfg, t as int) == false);
                    assert(w0.clone_selects(src, dst, *cfg, t as int) == false);
                }
                assert(self.clone_selects(src, dst, *cfg, t as int)
                    == w0.clone_selects(src, dst, *cfg, t as int));
            }
            let sel = self.selects_exec(src, dst, cfg, t);
            if sel {
                let val = match &self.components[src.index][t] {
                    Some(x) => x.duplicate(),
                    None => {
                        proof {
                            assert(false);
                        }
                        Value::Int(0)
                    },
                };
                proof {
                    assert(self.cell_typed(src.index as int, t as int));
                    assert(!self.registry.collection_type(t as int));
                    assert(!w0.registry.collection_type(t as int));
                }
                if cfg.move_components {
                    let res = self.remove(src, t);
                    proof {
                        match res {
                            Ok(Some(_)) => {},
                            _ => {
                                assert(false);
                            },
                        }
                    }
                }
                let ghost mid = *self;
                match val {
                    Value::Int(x) => {
                        proof {
                            assert(mid.registry.plain_type(t as int)) by {
                                assert(w0.cell_typed(src.index as int, t as int));
                            }
                        }
                        self.insert_plain_direct(dst, t, x);
                    },
                    Value::Target(tgt) => {
                        proof {
                            assert(w0.sval(src.index as int, t as int)
                                == Some(SValue::STarget(tgt)));
                            assert(w0.cell_typed(src.index as int, t as int));
                            assert(w0.registry.owning_type(t as int));
                            let q = choose|q: int| #![trigger w0.registry.pairs@[q]]
                                0 <= q < w0.registry.n_pairs()
                                    && w0.registry.pairs@[q].owning == t;
                            assert(w0.live_at(src.index as int));
                            assert(w0.owning_ok(q, src.index as int));
                            assert(w0.live(tgt));
                            assert(mid.live(tgt));
                        }
                        let res = self.link(dst, t, tgt);
                        proof {
                            match res {
                                Ok(_) => {},
                                Err(_) => {
                                    assert(false);
                                },
                            }
                        }
                    },
                    Value::Members(_) => {
                        proof {
                            assert(false);
                        }
                    },
                }
                proof {
                    // shared facts for the frame chaining below
                    if !w0.registry.plain_type(t as int) {
                        let q = choose|q: int| #![trigger w0.registry.pairs@[q]]
                            0 <= q < w0.registry.n_pairs()
                                && w0.registry.pairs@[q].owning == t;
                        assert(w0.registry.pair_wf(q));
                        assert(w0.registry.collection_type(
                            w0.registry.pairs@[q].collection as int));
                        assert forall|p2: int| #![trigger w0.registry.pairs@[p2]]
                            0 <= p2 < w0.registry.n_pairs()
                                && w0.registry.pairs@[p2].owning == t
                                implies p2 == q by {
                            if p2 != q {
                                assert(w0.registry.pairs_disjoint());
                            }
                        }
                        match val@ {
                            SValue::STarget(tgt) => {
                                assert(tgt.index != dst.index);
                                match mid.sval(dst.index as int, t as int) {
                                    Some(SValue::STarget(old_t)) => {
                                        assert(mid.owning_ok(q, dst.index as int));
                                        assert(old_t.index as int != dst.index as int);
                                    },
                                    _ => {},
                                }
                            },
                            _ => {
                                assert(false);
                            },
                        }
                    }
                    if cfg.move_components && !w0.registry.plain_type(t as int) {
                        match val@ {
                            SValue::STarget(tgt) => {
                                assert(tgt.index != dst.index);
                            },
                            _ => {},
                        }
                    }
                    // this iteration touched (src, t), (dst, t) and, through
                    // relationship maintenance, only collection cells off
                    // the destination's row
                    assert forall|i: int, u: int| #![trigger self.sval(i, u)]
                        0 <= i < w0.n_slots() && 0 <= u < n as int
                            && !(i == src.index as int && u == t as int)
                            && !(i == dst.index as int && u == t as int)
                            && !w0.registry.collection_type(u)
                            implies self.sval(i, u) == pre.sval(i, u) by {
                        assert(self.sval(i, u) == mid.sval(i, u));
                        assert(mid.sval(i, u) == pre.sval(i, u));
                    }
                    assert forall|u: int| #![trigger self.sval(dst.index as int, u)]
                        0 <= u < n as int && w0.registry.collection_type(u)
                            implies self.sval(dst.index as int, u)
                                == pre.sval(dst.index as int, u) by {
                        assert(self.sval(dst.index as int, u)
                            == mid.sval(dst.index as int, u));
                        assert(mid.sval(dst.index as int, u)
                            == pre.sval(dst.index as int, u));
                    }
                    assert(self.sval(dst.index as int, t as int)
                        == w0.sval(src.index as int, t as int));
                    if cfg.move_components {
                        assert(self.sval(src.index as int, t as int) is None);
                        // this iteration's removal and insertion records,
                        // in order, for the moved type
                        let j1 = pre.hook_log@.len() as int;
                        let j2 = self.hook_log@.len() as int - 1;
                        assert(self.hook_log@[j1] == mid.hook_log@[j1]);
                        assert(self.hook_log@[j1].event == HookEvent::OnRemove);
                        assert(self.hook_log@[j1].type_id as int == t as int);
                        assert(self.hook_log@[j1].entity == src);
                        assert(Some(self.hook_log@[j1].value@)
                            == w0.sval(src.index as int, t as int));
                        assert(j1 < j2);
                        assert(self.hook_log@[j2].event == HookEvent::OnInsert);
                        assert(self.hook_log@[j2].type_id as int == t as int);
                        assert(self.hook_log@[j2].entity == dst);
                        assert(Some(self.hook_log@[j2].value@)
                            == w0.sval(src.index as int, t as int));
                        // records of earlier moved types are kept in place
                        assert forall|t0: int|
                            #![trigger w0.clone_selects(src, dst, *cfg, t0)]
                            0 <= t0 < t as int && w0.clone_selects(src, dst, *cfg, t0)
                                implies exists|j3: int, j4: int|
                                    #![trigger self.hook_log@[j3], self.hook_log@[j4]]
                                    {
                                    &&& w0.hook_log@.len() <= j3 < j4
                                        < self.hook_log@.len()
                                    &&& self.hook_log@[j3].event == HookEvent::OnRemove
                                    &&& self.hook_log@[j3].type_id as int == t0
                                    &&& self.hook_log@[j3].entity == src
                                    &&& Some(self.hook_log@[j3].value@)
                                        == w0.sval(src.index as int, t0)
                                    &&& self.hook_log@[j4].event == HookEvent::OnInsert
                                    &&& self.hook_log@[j4].type_id as int == t0
                                    &&& self.hook_log@[j4].entity == dst
                                    &&& Some(self.hook_log@[j4].value@)
                                        == w0.sval(src.index as int, t0)
                                } by {
                            let (j3, j4) = choose|j3: int, j4: int|
                                #![trigger pre.hook_log@[j3], pre.hook_log@[j4]]
                                {
                                &&& w0.hook_log@.len() <= j3 < j4 < pre.hook_log@.len()
                                &&& pre.hook_log@[j3].event == HookEvent::OnRemove
                                &&& pre.hook_log@[j3].type_id as int == t0
                                &&& pre.hook_log@[j3].entity == src
                                &&& Some(pre.hook_log@[j3].value@)
                                    == w0.sval(src.index as int, t0)
                                &&& pre.hook_log@[j4].event == HookEvent::OnInsert
                                &&& pre.hook_log@[j4].type_id as int == t0
                                &&& pre.hook_log@[j4].entity == dst
                                &&& Some(pre.hook_log@[j4].value@)
                                    == w0.sval(src.index as int, t0)
                            };
                            assert(mid.hook_log@[j3] == pre.hook_log@[j3]);
                            assert(mid.hook_log@[j4] == pre.hook_log@[j4]);
                            assert(self.hook_log@[j3] == mid.hook_log@[j3]);
                            assert(self.hook_log@[j4] == mid.hook_log@[j4]);
                        }
                    } else {
                        assert(self.sval(src.index as int, t as int)
                            == pre.sval(src.index as int, t as int));
                    }
                }
            } else {
                proof {
                    assert(!w0.clone_selects(src, dst, *cfg, t as int));
                }
            }
            t = t + 1;
        }
        let ghost w1 = *self;
        if cfg.add_observers {
            let orig_len = self.observers.len();
            let mut k: usize = 0;
            proof {
                assert(w0.observers@.take(0) =~= Seq::<Observer>::empty());
            }
            while k < orig_len
                invariant
                    self.inv(),
                    w1.inv(),
                    orig_len == w0.observers@.len(),
                    k <= orig_len,
                    self.registry == w1.registry,
                    self.slots == w1.slots,
                    self.components == w1.components,
                    self.free == w1.free,
                    self.total == w1.total,
                    self.hook_log == w1.hook_log,
                    self.observer_log == w1.observer_log,
                    self.pending == w1.pending,
                    self.dispatch == w1.dispatch,
                    w1.observers == w0.observers,
                    self.observers@ == w0.observers@
                        + watchers_dup(w0.observers@.take(k as int), src, dst),
                decreases orig_len - k,
            {
                proof {
                    assert(w0.observers@.take(k as int + 1).drop_last()
                        =~= w0.observers@.take(k as int));
                    assert(w0.observers@.take(k as int + 1).last()
                        == w0.observers@[k as int]);
                    assert(self.observers@[k as int] == w0.observers@[k as int]);
                }
                let ob = self.observers[k];
                if ob.watched.index == src.index && ob.watched.generation == src.generation {
                    proof {
                        assert(ob.watched == src);
                    }
                    self.add_observer(dst, ob.name);
                } else {
                    proof {
                        assert(ob.watched != src);
                    }
                }
                k = k + 1;
            }
            proof {
                assert(w0.observers@.take(orig_len as int) =~= w0.observers@);
            }
        }
        proof {
            // the observer phase leaves the grid and the log untouched
            assert(self.components == w1.components);
            assert(self.hook_log == w1.hook_log);
            assert forall|i: int, u: int| #![trigger self.sval(i, u)]
                0 <= i < w0.n_slots() && 0 <= u < n as int
                    implies self.sval(i, u) == w1.sval(i, u) by {}
        }
        Ok(())
    }

    /// Clones `src` onto a freshly spawned entity and returns it, which
    /// succeeds exactly when the source is live: a fresh destination can
    /// never conflict. The destination receives exactly the selected
    /// components of the source with equal values and nothing else, and
    /// the source's plain and owning cells are untouched (the policy
    /// built by `clone_and_spawn`'s callers never moves). With
    /// `add_observers`, every observer scoped to the source also watches
    /// the clone. With `linked_cloning`, each member of one of the
    /// source's collections is cloned recursively and linked to the new
    /// destination in the same relative order; the per-level tree shape
    /// is checked by the crate's tests, not stated here.
    pub fn clone_and_spawn(&mut self, src: Entity, cfg: &CloneConfig)
        -> (r: Result<Entity, EcsError>)
        requires
            old(self).inv(),
        ensures
            final(self).inv(),
            final(self).registry == old(self).registry,
            final(self).dispatch.handler == old(self).dispatch.handler,
            old(self).log_extended(*final(self)),
            final(self).n_slots() >= old(self).n_slots(),
            final(self).observers@.len() >= old(self).observers@.len(),
            forall|x: Entity| old(self).live(x) ==> final(self).live(x),
            forall|k: int| 0 <= k < old(self).observers@.len()
                ==> #[trigger] final(self).observers@[k] == old(self).observers@[k],
            (r is Ok) == old(self).live(src),
            r is Err ==> *final(self) == *old(self),
            match r {
                Ok(dst) => {
                    &&& final(self).live(dst)
                    &&& !old(self).live(dst)
                    &&& (forall|u: int| #![trigger final(self).sval(dst.index as int, u)]
                        0 <= u < old(self).n_types()
                            && !old(self).registry.collection_type(u)
                            ==> final(self).sval(dst.index as int, u)
                                == if old(self).clone_selects(src, dst, *cfg, u) {
                                    old(self).sval(src.index as int, u)
                                } else {
                                    None::<SValue>
                                })
                    &&& (!cfg.move_components ==> forall|i: int, u: int|
                        #![trigger final(self).sval(i, u)]
                        0 <= i < old(self).n_slots() && old(self).live_at(i)
                            && 0 <= u < old(self).n_types()
                            && !old(self).registry.collection_type(u)
                            ==> final(self).sval(i, u) == old(self).sval(i, u))
                    &&& (!cfg.linked_cloning ==> forall|u: int|
                        #![trigger final(self).sval(dst.index as int, u)]
                        0 <= u < old(self).n_types()
                            && old(self).registry.collection_type(u)
                            ==> final(self).sval(dst.index as int, u) is None)
                    &&& (!cfg.linked_cloning ==> final(self).observers@
                        == (if cfg.add_observers {
                            old(self).observers@
                                + watchers_dup(old(self).observers@, src, dst)
                        } else {
                            old(self).observers@
                        }))
                },
                Err(er) => er == EcsError::SourceNotFound && !old(self).live(src),
            },
    {
        let fuel = self.slots.len();
        proof {
            if old(self).live(src) {
                assert(fuel >= 1);
            }
        }
        let r = self.clone_spawn_rec(src, cfg, fuel);
        proof {
            match r {
                Ok(dst) => {
                    assert(old(self).live(src));
                },
                Err(er) => {
                    if old(self).live(src) {
                        assert(r is Ok);
                        assert(false);
                    }
                    assert(er == EcsError::SourceNotFound);
                },
            }
        }
        r
    }

    /// The recursive worker behind `clone_and_spawn`. The fuel falls on
    /// every nested clone; a relationship graph that reaches an entity
    /// twice runs out and fails with `CloneDepthExceeded` instead of
    /// looping.
    fn clone_spawn_rec(&mut self, src: Entity, cfg: &CloneConfig, fuel: usize)
        -> (r: Result<Entity, EcsError>)
        requires
            old(self).inv(),
        ensures
            final(self).inv(),
            final(self).registry == old(self).registry,
            final(self).dispatch.handler == old(self).dispatch.handler,
            old(self).log_extended(*final(self)),
            final(self).n_slots() >= old(self).n_slots(),
            final(self).observers@.len() >= old(self).observers@.len(),
            forall|x: Entity| old(self).live(x) ==> final(self).live(x),
            forall|k: int| 0 <= k < old(self).observers@.len()
                ==> #[trigger] final(self).observers@[k] == old(self).observers@[k],
            (r is Ok) == (old(self).live(src)
                && (fuel > 0 || !cfg.linked_cloning)),
            r is Err ==> *final(self) == *old(self),
            match r {
                Ok(dst) => {
                    &&& final(self).live(dst)
                    &&& !old(self).live(dst)
                    &&& (forall|u: int| #![trigger final(self).sval(dst.index as int, u)]
                        0 <= u < old(self).n_types()
                            && !old(self).registry.collection_type(u)
                            ==> final(self).sval(dst.index as int, u)
                                == if old(self).clone_selects(src, dst, *cfg, u) {
                                    old(self).sval(src.index as int, u)
                                } else {
                                    None::<SValue>
                                })
                    &&& (!cfg.move_components ==> forall|i: int, u: int|
                        #![trigger final(self).sval(i, u)]
                        0 <= i < old(self).n_slots() && old(self).live_at(i)
                            && 0 <= u < old(self).n_types()
                            && !old(self).registry.collection_type(u)
                            ==> final(self).sval(i, u) == old(self).sval(i, u))
                    &&& (!cfg.linked_cloning ==> forall|u: int|
                        #![trigger final(self).sval(dst.index as int, u)]
                        0 <= u < old(self).n_types()
                            && old(self).registry.collection_type(u)
                            ==> final(self).sval(dst.index as int, u) is None)
                    &&& (!cfg.linked_cloning ==> final(self).observers@
                        == (if cfg.add_observers {
                            old(self).observers@
                                + watchers_dup(old(self).observers@, src, dst)
                        } else {
                            old(self).observers@
                        }))
                },
                Err(er) => if !old(self).live(src) {
                    er == EcsError::SourceNotFound
                } else {
                    er == EcsError::CloneDepthExceeded && fuel == 0 && cfg.linked_cloning
                },
            },
        decreases fuel,
    {
        if !self.is_live(src) {
            return Err(EcsError::SourceNotFound);
        }
        if cfg.linked_cloning && fuel == 0 {
            return Err(EcsError::CloneDepthExceeded);
        }
        let ghost w0 = *self;
        let dst = self.spawn_empty();
        let ghost s1 = *self;
        let res = self.clone_into(src, dst, cfg);
        proof {
            assert(s1.live(src));
            assert(s1.live(dst));
            assert(!s1.clone_conflict(src, dst, *cfg)) by {
                if s1.clone_conflict(src, dst, *cfg) {
                    assert(src.index != dst.index);
                    let u = choose|u: int| 0 <= u < s1.n_types()
                        && #[trigger] s1.clone_selects(src, dst, *cfg, u)
                        && s1.sval(dst.index as int, u) is Some;
                    assert(s1.sval(dst.index as int, u) is None);
                }
            }
            match res {
                Ok(_) => {},
                Err(_) => {
                    assert(false);
                },
            }
            // selection is the same before and after the spawn: the
            // source's cells and the registry are untouched
            assert forall|u: int| 0 <= u < w0.n_types()
                implies #[trigger] s1.clone_selects(src, dst, *cfg, u)
                    == w0.clone_selects(src, dst, *cfg, u) by {
                assert(s1.sval(src.index as int, u) == w0.sval(src.index as int, u));
            }
            assert forall|u: int| 0 <= u < w0.n_types()
                implies #[trigger] s1.sval(dst.index as int, u) is None by {}
        }
        let ghost s2 = *self;
        if cfg.linked_cloning {
            let np = self.registry.pairs.len();
            let mut p: usize = 0;
            while p < np
                invariant
                    self.inv(),
                    s2.inv(),
                    self.registry == old(self).registry,
                    self.dispatch.handler == old(self).dispatch.handler,
                    old(self).log_extended(*self),
                    forall|x: Entity| s2.live(x) ==> self.live(x),
                    self.observers@.len() >= s2.observers@.len(),
                    forall|k: int| 0 <= k < s2.observers@.len()
                        ==> #[trigger] self.observers@[k] == s2.observers@[k],
                    self.live(dst),
                    s2.live(dst),
                    s2.live(src),
                    np == self.registry.n_pairs(),
                    p <= np,
                    fuel > 0,
                    self.registry == s2.registry,
                    self.n_slots() >= s2.n_slots(),
                    s2.n_types() == self.n_types(),
                    forall|u: int| #![trigger self.sval(dst.index as int, u)]
                        0 <= u < s2.n_types() && !s2.registry.collection_type(u)
                            ==> self.sval(dst.index as int, u)
                                == s2.sval(dst.index as int, u),
                    !cfg.move_components ==> forall|i: int, u: int|
                        #![trigger self.sval(i, u)]
                        0 <= i < s2.n_slots() && s2.live_at(i) && i != dst.index as int
                            && 0 <= u < s2.n_types() && !s2.registry.collection_type(u)
                            ==> self.sval(i, u) == s2.sval(i, u),
                decreases np - p,
            {
                proof {
                    assert(self.registry.pair_wf(p as int));
                }
                let ct = self.registry.pairs[p].collection;
                let ot = self.registry.pairs[p].owning;
                // collect the members to clone before mutating anything
                let members = match self.get_value(src, ct) {
                    Some(Value::Members(mv)) => mv,
                    _ => Vec::new(),
                };
                let mut k: usize = 0;
                let mlen = members.len();
                while k < mlen
                    invariant
                        self.inv(),
                        s2.inv(),
                        self.registry == old(self).registry,
                        self.dispatch.handler == old(self).dispatch.handler,
                        old(self).log_extended(*self),
                        forall|x: Entity| s2.live(x) ==> self.live(x),
                        self.observers@.len() >= s2.observers@.len(),
                        forall|k2: int| 0 <= k2 < s2.observers@.len()
                            ==> #[trigger] self.observers@[k2] == s2.observers@[k2],
                        self.live(dst),
                        s2.live(dst),
                        s2.live(src),
                        (p as int) < s2.registry.n_pairs(),
                        ot == s2.registry.pairs@[p as int].owning,
                        (ot as int) < self.n_types(),
                        k <= mlen,
                        mlen == members@.len(),
                        fuel > 0,
                        self.registry == s2.registry,
                        self.n_slots() >= s2.n_slots(),
                        s2.n_types() == self.n_types(),
                        forall|u: int| #![trigger self.sval(dst.index as int, u)]
                            0 <= u < s2.n_types() && !s2.registry.collection_type(u)
                                ==> self.sval(dst.index as int, u)
                                    == s2.sval(dst.index as int, u),
                        !cfg.move_components ==> forall|i: int, u: int|
                            #![trigger self.sval(i, u)]
                            0 <= i < s2.n_slots() && s2.live_at(i)
                                && i != dst.index as int
                                && 0 <= u < s2.n_types() && !s2.registry.collection_type(u)
                                ==> self.sval(i, u) == s2.sval(i, u),
                    decreases mlen - k,
                {
                    let child = members[k];
                    let ghost before_sub = *self;
                    if self.is_live(child) {
                        // a member despawned since traversal is skipped
                        let sub = self.clone_spawn_rec(child, &CloneConfig {
                            allow_all: cfg.allow_all,
                            overrides: copy_overrides(&cfg.overrides),
                            linked_cloning: cfg.linked_cloning,
                            move_components: false,
                            add_observers: cfg.add_observers,
                            overwrite: cfg.overwrite,
                        }, fuel - 1);
                        proof {
                            assert(before_sub.live(dst));
                        }
                        match sub {
                            Ok(child_clone) => {
                                let ghost before_link = *self;
                                proof {
                                    assert(!before_sub.live(child_clone));
                                }
                                // re-link the clone to the new destination
                                let link_res = self.link(child_clone, ot, dst);
                                proof {
                                    // a fresh clone occupies no slot that
                                    // was live when this level started
                                    assert forall|i: int|
                                        0 <= i < s2.n_slots() && #[trigger] s2.live_at(i)
                                            implies i != child_clone.index as int by {
                                        if i == child_clone.index as int {
                                            s2.lemma_entity_at(i);
                                            let e_i = s2.entity_at(i);
                                            assert(e_i.index as int == i);
                                            assert(s2.live(e_i));
                                            assert(before_sub.live(e_i));
                                            assert(before_link.live(e_i));
                                            assert(before_link.live(child_clone));
                                            assert(e_i.generation
                                                == before_link.slots@[i].generation);
                                            assert(child_clone.generation
                                                == before_link.slots@[i].generation);
                                            assert(e_i == child_clone);
                                            assert(false);
                                        }
                                    }
                                    assert forall|i: int, u: int|
                                        #![trigger self.sval(i, u)]
                                        0 <= i < s2.n_slots() && s2.live_at(i)
                                            && 0 <= u < s2.n_types()
                                            && !s2.registry.collection_type(u)
                                            implies self.sval(i, u)
                                                == before_sub.sval(i, u) by {
                                        assert(before_sub.registry == s2.registry);
                                        assert(before_link.registry == s2.registry);
                                        assert(before_sub.live_at(i)) by {
                                            s2.lemma_entity_at(i);
                                            assert(s2.live(s2.entity_at(i)));
                                            assert(before_sub.live(s2.entity_at(i)));
                                        }
                                        assert(i < before_sub.n_slots());
                                        assert(!before_sub.registry.collection_type(u));
                                        assert(before_link.sval(i, u)
                                            == before_sub.sval(i, u));
                                        assert(i != child_clone.index as int);
                                        match link_res {
                                            Ok(_) => {
                                                assert(before_link.registry
                                                    .pairs@[p as int].owning == ot);
                                                assert(before_link.registry
                                                    .owning_type(ot as int));
                                                let q = choose|q: int|
                                                    #![trigger before_link.registry.pairs@[q]]
                                                    0 <= q < before_link.registry.n_pairs()
                                                        && before_link.registry.pairs@[q]
                                                            .owning == ot;
                                                assert(before_link.registry.pair_wf(q));
                                                assert(before_link.registry.collection_type(
                                                    before_link.registry.pairs@[q]
                                                        .collection as int));
                                                assert(u != before_link.registry.pairs@[q]
                                                    .collection as int);
                                                assert(self.sval(i, u)
                                                    == before_link.sval(i, u));
                                            },
                                            Err(_) => {},
                                        }
                                    }
                                }
                            },
                            Err(_) => {},
                        }
                    }
                    k = k + 1;
                }
                p = p + 1;
            }
        }
        proof {
            assert forall|x: Entity| old(self).live(x) implies self.live(x) by {
                assert(s1.live(x));
                assert(s2.live(x));
            }
            assert forall|k: int| 0 <= k < old(self).observers@.len()
                implies #[trigger] self.observers@[k] == old(self).observers@[k] by {
                assert(s2.observers@[k] == s1.observers@[k]);
            }
            assert forall|u: int| #![trigger self.sval(dst.index as int, u)]
                0 <= u < old(self).n_types()
                    && !old(self).registry.collection_type(u)
                    implies self.sval(dst.index as int, u)
                        == if old(self).clone_selects(src, dst, *cfg, u) {
                            old(self).sval(src.index as int, u)
                        } else {
                            None::<SValue>
                        } by {
                assert(self.sval(dst.index as int, u) == s2.sval(dst.index as int, u));
                assert(s1.sval(src.index as int, u) == w0.sval(src.index as int, u));
            }
            if !cfg.move_components {
                assert forall|i: int, u: int| #![trigger self.sval(i, u)]
                    0 <= i < old(self).n_slots() && old(self).live_at(i)
                        && 0 <= u < old(self).n_types()
                        && !old(self).registry.collection_type(u)
                        implies self.sval(i, u) == old(self).sval(i, u) by {
                    assert(i != dst.index as int) by {
                        if i == dst.index as int {
                            w0.lemma_entity_at(i);
                            assert(w0.live(w0.entity_at(i)));
                            assert(!w0.live(dst));
                            assert(s1.live(dst));
                            assert(w0.entity_at(i).index == dst.index);
                            assert(s1.live(w0.entity_at(i)));
                            assert(w0.entity_at(i) == dst);
                        }
                    }
                    assert(s2.live_at(i));
                    assert(self.sval(i, u) == s2.sval(i, u));
                    assert(s2.sval(i, u) == s1.sval(i, u));
                    assert(s1.sval(i, u) == w0.sval(i, u));
                }
            }
        }
        Ok(dst)
    }

    /// Moves the listed component types from `src` onto `dst`: the clone
    /// filter is deny-all with exactly those types allowed, and each moved
    /// component leaves the source, its removal event on the source firing
    /// strictly before its insertion event on the destination.
    pub fn move_components(&mut self, src: Entity, dst: Entity, types: &Vec<usize>)
        -> (r: Result<(), EcsError>)
        requires
            old(self).inv(),
        ensures
            final(self).inv(),
            old(self).same_store_frame(*final(self)),
            final(self).observers@ == old(self).observers@,
            old(self).log_extended(*final(self)),
            (r == Err::<(), EcsError>(EcsError::SourceNotFound)) == !old(self).live(src),
            (r == Err::<(), EcsError>(EcsError::DeadEntity))
                == (old(self).live(src) && !old(self).live(dst)),
            (r == Err::<(), EcsError>(EcsError::DestinationConflict))
                == (old(self).live(src) && old(self).live(dst) && src.index == dst.index),
            (r is Ok) == (old(self).live(src) && old(self).live(dst)
                && src.index != dst.index),
            r is Err ==> *final(self) == *old(self),
            r is Ok ==> {
                // moved components leave the source; nothing else does
                &&& (forall|u: int| #![trigger final(self).sval(src.index as int, u)]
                    0 <= u < old(self).n_types() && !old(self).registry.collection_type(u)
                        ==> final(self).sval(src.index as int, u)
                            == if old(self).move_selects(src, dst, types@, u) {
                                None::<SValue>
                            } else {
                                old(self).sval(src.index as int, u)
                            })
                // and arrive on the destination with equal values
                &&& (forall|u: int| #![trigger final(self).sval(dst.index as int, u)]
                    0 <= u < old(self).n_types() && !old(self).registry.collection_type(u)
                        ==> final(self).sval(dst.index as int, u)
                            == if old(self).move_selects(src, dst, types@, u) {
                                old(self).sval(src.index as int, u)
                            } else {
                                old(self).sval(dst.index as int, u)
                            })
                // moving a single plain type onto an empty destination
                // slot fires its removal event on the source strictly
                // before its insertion event on the destination
                &&& (forall|t0: int|
                    #![trigger old(self).move_selects(src, dst, types@, t0)]
                    0 <= t0 < old(self).n_types()
                        && old(self).move_selects(src, dst, types@, t0)
                        && (forall|u: int| 0 <= u < old(self).n_types() && u != t0
                            ==> !old(self).move_selects(src, dst, types@, u))
                        && old(self).registry.plain_type(t0)
                        && old(self).sval(dst.index as int, t0) is None
                        ==> {
                        let n0 = old(self).hook_log@.len() as int;
                        &&& final(self).hook_log@.len() == n0 + 2
                        &&& final(self).hook_log@[n0].event == HookEvent::OnRemove
                        &&& final(self).hook_log@[n0].type_id as int == t0
                        &&& final(self).hook_log@[n0].entity == src
                        &&& Some(final(self).hook_log@[n0].value@)
                            == old(self).sval(src.index as int, t0)
                        &&& final(self).hook_log@[n0 + 1].event == HookEvent::OnInsert
                        &&& final(self).hook_log@[n0 + 1].type_id as int == t0
                        &&& final(self).hook_log@[n0 + 1].entity == dst
                        &&& Some(final(self).hook_log@[n0 + 1].value@)
                            == old(self).sval(src.index as int, t0)
                    })
                // every moved component's removal event on the source
                // strictly precedes its insertion event on the destination
                &&& (forall|t0: int|
                    #![trigger old(self).move_selects(src, dst, types@, t0)]
                    0 <= t0 < old(self).n_types()
                        && old(self).move_selects(src, dst, types@, t0)
                        ==> exists|j1: int, j2: int|
                            #![trigger final(self).hook_log@[j1], final(self).hook_log@[j2]]
                            {
                            &&& old(self).hook_log@.len() <= j1 < j2
                                < final(self).hook_log@.len()
                            &&& final(self).hook_log@[j1].event == HookEvent::OnRemove
                            &&& final(self).hook_log@[j1].type_id as int == t0
                            &&& final(self).hook_log@[j1].entity == src
                            &&& Some(final(self).hook_log@[j1].value@)
                                == old(self).sval(src.index as int, t0)
                            &&& final(self).hook_log@[j2].event == HookEvent::OnInsert
                            &&& final(self).hook_log@[j2].type_id as int == t0
                            &&& final(self).hook_log@[j2].entity == dst
                            &&& Some(final(self).hook_log@[j2].value@)
                                == old(self).sval(src.index as int, t0)
                        })
            },
    {
        let mut cfg = CloneConfig::deny_all();
        cfg.move_components = true;
        let n = types.len();
        let mut k: usize = 0;
        while k < n
            invariant
                n == types@.len(),
                k <= n,
                !cfg.allow_all,
                cfg.move_components,
                cfg.overwrite,
                !cfg.add_observers,
                !cfg.linked_cloning,
                forall|u: int| #[trigger] cfg.passes(u)
                    == exists|j: int| 0 <= j < k && #[trigger] types@[j] == u,
            decreases n - k,
        {
            let t = types[k];
            cfg.with_override(t);
            proof {
                assert forall|u: int| #[trigger] cfg.passes(u)
                    == exists|j: int| 0 <= j < k + 1 && #[trigger] types@[j] == u by {
                    if u == t as int {
                        assert(types@[k as int] == u);
                    } else {
                        if exists|j: int| 0 <= j < k && #[trigger] types@[j] == u {
                        } else {
                            if exists|j: int| 0 <= j < k + 1 && #[trigger] types@[j] == u {
                                let j = choose|j: int| 0 <= j < k + 1
                                    && #[trigger] types@[j] == u;
                                assert(j == k as int);
                            }
                        }
                    }
                }
            }
            k = k + 1;
        }
        proof {
            assert forall|u: int| 0 <= u < old(self).n_types()
                implies #[trigger] old(self).clone_selects(src, dst, cfg, u)
                    == old(self).move_selects(src, dst, types@, u) by {}
            assert(old(self).clone_conflict(src, dst, cfg) == (src.index == dst.index));
        }
        let r = self.clone_into(src, dst, &cfg);
        proof {
            match r {
                Ok(_) => {
                    assert(self.observers@ == old(self).observers@);
                    assert forall|t0: int|
                        #![trigger old(self).move_selects(src, dst, types@, t0)]
                        0 <= t0 < old(self).n_types()
                            && old(self).move_selects(src, dst, types@, t0)
                            && (forall|u: int| 0 <= u < old(self).n_types() && u != t0
                                ==> !old(self).move_selects(src, dst, types@, u))
                            && old(self).registry.plain_type(t0)
                            && old(self).sval(dst.index as int, t0) is None
                            implies {
                            let n0 = old(self).hook_log@.len() as int;
                            &&& self.hook_log@.len() == n0 + 2
                            &&& self.hook_log@[n0].event == HookEvent::OnRemove
                            &&& self.hook_log@[n0].type_id as int == t0
                            &&& self.hook_log@[n0].entity == src
                            &&& Some(self.hook_log@[n0].value@)
                                == old(self).sval(src.index as int, t0)
                            &&& self.hook_log@[n0 + 1].event == HookEvent::OnInsert
                            &&& self.hook_log@[n0 + 1].type_id as int == t0
                            &&& self.hook_log@[n0 + 1].entity == dst
                            &&& Some(self.hook_log@[n0 + 1].value@)
                                == old(self).sval(src.index as int, t0)
                        } by {
                        assert(old(self).clone_selects(src, dst, cfg, t0));
                        assert forall|u: int| 0 <= u < old(self).n_types() && u != t0
                            implies !old(self).clone_selects(src, dst, cfg, u) by {}
                        assert(cfg.move_components);
                    }
                    assert forall|t0: int|
                        #![trigger old(self).move_selects(src, dst, types@, t0)]
                        0 <= t0 < old(self).n_types()
                            && old(self).move_selects(src, dst, types@, t0)
                            implies exists|j1: int, j2: int|
                                #![trigger self.hook_log@[j1], self.hook_log@[j2]]
                                {
                                &&& old(self).hook_log@.len() <= j1 < j2
                                    < self.hook_log@.len()
                                &&& self.hook_log@[j1].event == HookEvent::OnRemove
                                &&& self.hook_log@[j1].type_id as int == t0
                                &&& self.hook_log@[j1].entity == src
                                &&& Some(self.hook_log@[j1].value@)
                                    == old(self).sval(src.index as int, t0)
                                &&& self.hook_log@[j2].event == HookEvent::OnInsert
                                &&& self.hook_log@[j2].type_id as int == t0
                                &&& self.hook_log@[j2].entity == dst
                                &&& Some(self.hook_log@[j2].value@)
                                    == old(self).sval(src.index as int, t0)
                            } by {
                        assert(old(self).clone_selects(src, dst, cfg, t0));
                        let (j1, j2) = choose|j1: int, j2: int|
                            #![trigger self.hook_log@[j1], self.hook_log@[j2]]
                            {
                            &&& old(self).hook_log@.len() <= j1 < j2
                                < self.hook_log@.len()
                            &&& self.hook_log@[j1].event == HookEvent::OnRemove
                            &&& self.hook_log@[j1].type_id as int == t0
                            &&& self.hook_log@[j1].entity == src
                            &&& Some(self.hook_log@[j1].value@)
                                == old(self).sval(src.index as int, t0)
                            &&& self.hook_log@[j2].event == HookEvent::OnInsert
                            &&& self.hook_log@[j2].type_id as int == t0
                            &&& self.hook_log@[j2].entity == dst
                            &&& Some(self.hook_log@[j2].value@)
                                == old(self).sval(src.index as int, t0)
                        };
                        assert(self.hook_log@[j1].event == HookEvent::OnRemove);
                    }
                },
                Err(_) => {},
            }
        }
        r
    }

    /// Whether the clone filter selects `(src, t)`, decided at run time.
    fn selects_exec(&self, src: Entity, dst: Entity, cfg: &CloneConfig, t: usize) -> (r: bool)
        requires
            self.inv(),
            self.live(src),
            (t as int) < self.n_types(),
        ensures
            r == self.clone_selects(src, dst, *cfg, t as int),
    {
        if !self.registry.types[t].cloneable {
            return false;
        }
        if !cfg.passes_exec(t) {
            return false;
        }
        match &self.components[src.index][t] {
            Some(Value::Int(_)) => true,
            Some(Value::Target(tgt)) => tgt.index != dst.index,
            _ => false,
        }
    }
}

/// Copies a filter's exception list.
pub fn copy_overrides(src: &Vec<usize>) -> (r: Vec<usize>)
    ensures
        r@ == src@,
{
    let mut out: Vec<usize> = Vec::new();
    let mut i: usize = 0;
    while i < src.len()
        invariant
            i <= src@.len(),
            out@ == src@.take(i as int),
        decreases src@.len() - i,
    {
        proof {
            assert(src@.take(i as int + 1) =~= src@.take(i as int).push(src@[i as int]));
        }
        out.push(src[i]);
        i = i + 1;
    }
    proof {
        assert(src@.take(src@.len() as int) =~= src@);
    }
    out
}

} // verus!
