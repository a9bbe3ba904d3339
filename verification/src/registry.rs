use vstd::prelude::*;

verus! {

/// Whether callers may overwrite a component in place. An immutable kind
/// accepts only insert (a logical replace) and remove, so the insert and
/// remove hooks are the single source of truth for value changes.
#[derive(Clone, Copy, PartialEq, Eq, Structural, Debug)]
pub enum Mutability {
    Mutable,
    Immutable,
}

/// A lifecycle event a hook can be bound to.
#[derive(Clone, Copy, PartialEq, Eq, Structural, Debug)]
pub enum HookEvent {
    OnInsert,
    OnRemove,
}

/// One step a registered hook performs when its event fires. Hooks hold a
/// deferred capability: they may fold the triggering integer value into
/// the world's accumulator or enqueue further structural commands on the
/// triggering entity; synchronous structural writes are excluded by
/// construction.
#[derive(Clone, Copy, PartialEq, Eq, Structural, Debug)]
pub enum HookAction {
    /// Add the triggering integer value to the world accumulator.
    AddToTotal,
    /// Subtract the triggering integer value from the world accumulator.
    SubFromTotal,
    /// Enqueue an insert of the given plain value on the triggering entity.
    EnqueueInsert(usize, i64),
    /// Enqueue a removal of the given type from the triggering entity.
    EnqueueRemove(usize),
}

/// One auto-inserted dependency: whenever the declaring type is inserted
/// on an entity lacking `type_id`, that type is inserted first with
/// `default_value`.
#[derive(Clone, Copy, PartialEq, Eq, Structural, Debug)]
pub struct RequiredEntry {
    pub type_id: usize,
    pub default_value: i64,
}

/// Everything declared about one component type.
#[derive(Debug)]
pub struct TypeInfo {
    pub mutability: Mutability,
    /// Whether a copy capability is registered for the type; without one
    /// the clone engine silently skips it.
    pub cloneable: bool,
    pub required: Vec<RequiredEntry>,
    pub on_insert: Vec<HookAction>,
    pub on_remove: Vec<HookAction>,
}

/// One declared relationship pair: `owning` lives on the source entity and
/// names a target; `collection` lives on the target and lists the sources.
#[derive(Clone, Copy, PartialEq, Eq, Structural, Debug)]
pub struct RelPair {
    pub owning: usize,
    pub collection: usize,
    /// Whether a collection emptied by member removal is removed itself
    /// rather than kept empty.
    pub remove_empty_collection: bool,
}

/// The process-wide configuration: component types, their hooks and
/// required components, and the declared relationship pairs. It is fixed
/// when a world is created and immutable thereafter.
#[derive(Debug)]
pub struct Registry {
    pub types: Vec<TypeInfo>,
    pub pairs: Vec<RelPair>,
}

impl Registry {
    pub open spec fn n_types(self) -> int {
        self.types@.len() as int
    }

    pub open spec fn n_pairs(self) -> int {
        self.pairs@.len() as int
    }

    pub open spec fn valid_type(self, t: int) -> bool {
        0 <= t < self.n_types()
    }

    /// `t` is the owning side of some pair.
    pub open spec fn owning_type(self, t: int) -> bool {
        exists|p: int| #![trigger self.pairs@[p]]
            0 <= p < self.n_pairs() && self.pairs@[p].owning == t
    }

    /// `t` is the collection side of some pair.
    pub open spec fn collection_type(self, t: int) -> bool {
        exists|p: int| #![trigger self.pairs@[p]]
            0 <= p < self.n_pairs() && self.pairs@[p].collection == t
    }

    /// `t` plays no relationship role.
    pub open spec fn plain_type(self, t: int) -> bool {
        forall|p: int| #![trigger self.pairs@[p]]
            0 <= p < self.n_pairs()
                ==> self.pairs@[p].owning != t && self.pairs@[p].collection != t
    }

    pub open spec fn pair_wf(self, p: int) -> bool {
        let pr = self.pairs@[p];
        &&& self.valid_type(pr.owning as int)
        &&& self.valid_type(pr.collection as int)
        &&& pr.owning != pr.collection
        &&& self.types@[pr.owning as int].mutability is Immutable
        &&& self.types@[pr.owning as int].required@.len() == 0
        &&& self.types@[pr.collection as int].required@.len() == 0
        &&& self.types@[pr.collection as int].on_insert@.len() == 0
        &&& self.types@[pr.collection as int].on_remove@.len() == 0
    }

    /// No type plays two roles: owning and collection types are distinct
    /// across all pairs.
    pub open spec fn pairs_disjoint(self) -> bool {
        forall|p: int, q: int| #![trigger self.pairs@[p], self.pairs@[q]]
            0 <= p < self.n_pairs() && 0 <= q < self.n_pairs() ==> {
                &&& (p != q ==> self.pairs@[p].owning != self.pairs@[q].owning)
                &&& (p != q ==> self.pairs@[p].collection != self.pairs@[q].collection)
                &&& self.pairs@[p].owning != self.pairs@[q].collection
            }
    }

    /// Whether type `t` declares `ty` among its required types.
    pub open spec fn names_required(self, t: int, ty: usize) -> bool {
        exists|k2: int| #![trigger self.types@[t].required@[k2]]
            0 <= k2 < self.types@[t].required@.len()
                && self.types@[t].required@[k2].type_id == ty
    }

    /// One required-component entry is well formed: it names a distinct,
    /// registered, plain type, and the declaring type's list is closed
    /// under the named type's own requirements, so single-step expansion
    /// is already transitive. A cyclic declaration cannot satisfy this
    /// closure together with irreflexivity, so cycles are rejected at
    /// registration.
    pub open spec fn required_entry_wf(self, t: int, k: int) -> bool {
        let r = self.types@[t].required@[k];
        &&& self.valid_type(r.type_id as int)
        &&& r.type_id as int != t
        &&& self.plain_type(r.type_id as int)
        &&& (forall|k2: int| #![trigger self.types@[t].required@[k2]]
            0 <= k2 < self.types@[t].required@.len() && k2 != k
                ==> self.types@[t].required@[k2].type_id != r.type_id)
        &&& forall|j: int| #![trigger self.types@[r.type_id as int].required@[j]]
            0 <= j < self.types@[r.type_id as int].required@.len()
                ==> self.names_required(
                    t, self.types@[r.type_id as int].required@[j].type_id)
    }

    pub open spec fn required_wf(self) -> bool {
        forall|t: int, k: int|
            0 <= t < self.n_types() && 0 <= k < self.types@[t].required@.len()
                ==> #[trigger] self.required_entry_wf(t, k)
    }

    pub open spec fn pairs_wf(self) -> bool {
        &&& (forall|p: int| 0 <= p < self.n_pairs() ==> #[trigger] self.pair_wf(p))
        &&& self.pairs_disjoint()
    }

    pub open spec fn wf(self) -> bool {
        &&& self.pairs_wf()
        &&& self.required_wf()
    }

    /// Checks every relationship-pair declaration.
    pub fn check_pairs(&self) -> (r: bool)
        ensures
            r == self.pairs_wf(),
    {
        let n = self.pairs.len();
        let mut p: usize = 0;
        while p < n
            invariant
                n == self.n_pairs(),
                p <= n,
                forall|i: int| 0 <= i < p ==> #[trigger] self.pair_wf(i),
                forall|i: int, q: int| #![trigger self.pairs@[i], self.pairs@[q]]
                    0 <= i < p && 0 <= q < self.n_pairs() ==> {
                        &&& (i != q ==> self.pairs@[i].owning != self.pairs@[q].owning)
                        &&& (i != q ==> self.pairs@[i].collection != self.pairs@[q].collection)
                        &&& self.pairs@[i].owning != self.pairs@[q].collection
                        &&& self.pairs@[q].owning != self.pairs@[i].collection
                    },
            decreases n - p,
        {
            let pr = self.pairs[p];
            if !(pr.owning < self.types.len() && pr.collection < self.types.len()
                && pr.owning != pr.collection) {
                proof {
                    assert(!self.pair_wf(p as int));
                }
                return false;
            }
            if !(matches!(self.types[pr.owning].mutability, Mutability::Immutable)
                && self.types[pr.owning].required.len() == 0
                && self.types[pr.collection].required.len() == 0
                && self.types[pr.collection].on_insert.len() == 0
                && self.types[pr.collection].on_remove.len() == 0) {
                proof {
                    assert(!self.pair_wf(p as int));
                }
                return false;
            }
            let mut q: usize = 0;
            while q < n
                invariant
                    n == self.n_pairs(),
                    p < n,
                    q <= n,
                    pr == self.pairs@[p as int],
                    forall|j: int| #![trigger self.pairs@[j]]
                        0 <= j < q ==> {
                            &&& (p as int != j ==> pr.owning != self.pairs@[j].owning)
                            &&& (p as int != j ==> pr.collection != self.pairs@[j].collection)
                            &&& pr.owning != self.pairs@[j].collection
                            &&& self.pairs@[j].owning != pr.collection
                        },
                decreases n - q,
            {
                let other = self.pairs[q];
                if q != p {
                    if pr.owning == other.owning || pr.collection == other.collection {
                        proof {
                            assert(!self.pairs_disjoint());
                        }
                        return false;
                    }
                }
                if pr.owning == other.collection || other.owning == pr.collection {
                    proof {
                        assert(self.pairs@[p as int].owning == self.pairs@[q as int].collection
                            || self.pairs@[q as int].owning == self.pairs@[p as int].collection);
                        assert(!self.pairs_disjoint());
                    }
                    return false;
                }
                q = q + 1;
            }
            p = p + 1;
        }
        true
    }

    /// Checks every required-component declaration: targets are distinct,
    /// registered, plain types, and each list is transitively closed.
    pub fn check_required(&self) -> (r: bool)
        ensures
            r == self.required_wf(),
    {
        let n = self.types.len();
        let mut t: usize = 0;
        while t < n
            invariant
                n == self.n_types(),
                t <= n,
                forall|i: int, k: int|
                    0 <= i < t && 0 <= k < self.types@[i].required@.len()
                        ==> #[trigger] self.required_entry_wf(i, k),
            decreases n - t,
        {
            let m = self.types[t].required.len();
            let mut k: usize = 0;
            while k < m
                invariant
                    n == self.n_types(),
                    t < n,
                    m == self.types@[t as int].required@.len(),
                    k <= m,
                    forall|k0: int| 0 <= k0 < k ==> #[trigger] self.required_entry_wf(t as int, k0),
                decreases m - k,
            {
                let entry = self.types[t].required[k];
                if !(entry.type_id < n && entry.type_id != t) {
                    proof {
                        assert(!self.required_entry_wf(t as int, k as int));
                    }
                    return false;
                }
                if !self.is_plain(entry.type_id) {
                    proof {
                        assert(!self.required_entry_wf(t as int, k as int));
                    }
                    return false;
                }
                let mut k2: usize = 0;
                while k2 < m
                    invariant
                        n == self.n_types(),
                        t < n,
                        k < m,
                        m == self.types@[t as int].required@.len(),
                        entry == self.types@[t as int].required@[k as int],
                        k2 <= m,
                        forall|k0: int| #![trigger self.types@[t as int].required@[k0]]
                            0 <= k0 < k2 && k0 != k as int
                                ==> self.types@[t as int].required@[k0].type_id != entry.type_id,
                    decreases m - k2,
                {
                    if k2 != k && self.types[t].required[k2].type_id == entry.type_id {
                        proof {
                            assert(!self.required_entry_wf(t as int, k as int));
                        }
                        return false;
                    }
                    k2 = k2 + 1;
                }
                let im = self.types[entry.type_id].required.len();
                let mut j: usize = 0;
                while j < im
                    invariant
                        n == self.n_types(),
                        t < n,
                        entry.type_id < n,
                        entry == self.types@[t as int].required@[k as int],
                        k < m,
                        m == self.types@[t as int].required@.len(),
                        im == self.types@[entry.type_id as int].required@.len(),
                        j <= im,
                        forall|j0: int| #![trigger self.types@[entry.type_id as int].required@[j0]]
                            0 <= j0 < j
                                ==> self.names_required(
                                    t as int,
                                    self.types@[entry.type_id as int].required@[j0].type_id),
                    decreases im - j,
                {
                    let needed = self.types[entry.type_id].required[j].type_id;
                    let found = contains_required(&self.types[t].required, needed);
                    proof {
                        assert(found == self.names_required(t as int, needed));
                    }
                    if !found {
                        proof {
                            assert(!self.required_entry_wf(t as int, k as int));
                        }
                        return false;
                    }
                    j = j + 1;
                }
                proof {
                    assert(self.required_entry_wf(t as int, k as int));
                }
                k = k + 1;
            }
            t = t + 1;
        }
        true
    }

    /// Whether `t` plays no relationship role, decided by scanning the
    /// declared pairs.
    pub fn is_plain(&self, t: usize) -> (r: bool)
        ensures
            r == self.plain_type(t as int),
    {
        let n = self.pairs.len();
        let mut p: usize = 0;
        while p < n
            invariant
                n == self.n_pairs(),
                p <= n,
                forall|i: int| #![trigger self.pairs@[i]]
                    0 <= i < p
                        ==> self.pairs@[i].owning != t && self.pairs@[i].collection != t,
            decreases n - p,
        {
            let pr = self.pairs[p];
            if pr.owning == t || pr.collection == t {
                return false;
            }
            p = p + 1;
        }
        true
    }

    /// The pair whose owning side is `t`, if any.
    pub fn owning_pair(&self, t: usize) -> (r: Option<usize>)
        ensures
            match r {
                Some(p) => p < self.n_pairs() && self.pairs@[p as int].owning == t,
                None => !self.owning_type(t as int),
            },
    {
        let n = self.pairs.len();
        let mut p: usize = 0;
        while p < n
            invariant
                n == self.n_pairs(),
                p <= n,
                forall|i: int| #![trigger self.pairs@[i]]
                    0 <= i < p ==> self.pairs@[i].owning != t,
            decreases n - p,
        {
            if self.pairs[p].owning == t {
                return Some(p);
            }
            p = p + 1;
        }
        None
    }

    /// The pair whose collection side is `t`, if any.
    pub fn collection_pair(&self, t: usize) -> (r: Option<usize>)
        ensures
            match r {
                Some(p) => p < self.n_pairs() && self.pairs@[p as int].collection == t,
                None => !self.collection_type(t as int),
            },
    {
        let n = self.pairs.len();
        let mut p: usize = 0;
        while p < n
            invariant
                n == self.n_pairs(),
                p <= n,
                forall|i: int| #![trigger self.pairs@[i]]
                    0 <= i < p ==> self.pairs@[i].collection != t,
            decreases n - p,
        {
            if self.pairs[p].collection == t {
                return Some(p);
            }
            p = p + 1;
        }
        None
    }
}

/// Whether `list` names `t` among its required types.
pub fn contains_required(list: &Vec<RequiredEntry>, t: usize) -> (r: bool)
    ensures
        r == exists|k: int| #![trigger list@[k]]
            0 <= k < list@.len() && list@[k].type_id == t,
{
    let n = list.len();
    let mut k: usize = 0;
    while k < n
        invariant
            n == list@.len(),
            k <= n,
            forall|i: int| #![trigger list@[i]]
                0 <= i < k ==> list@[i].type_id != t,
        decreases n - k,
    {
        if list[k].type_id == t {
            return true;
        }
        k = k + 1;
    }
    false
}

} // verus!
