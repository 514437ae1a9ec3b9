use vstd::prelude::*;

verus! {

/// The resource store: a table of values, each with a change tick that
/// advances on every write.
pub struct ResourceStore<T> {
    pub entries: Vec<(T, u64)>,
}

impl<T> ResourceStore<T> {
    /// The change tick of each resource, by id.
    pub open spec fn ticks(&self) -> Seq<u64> {
        self.entries@.map_values(|en: (T, u64)| en.1)
    }

    /// The value of each resource, by id.
    pub open spec fn values(&self) -> Seq<T> {
        self.entries@.map_values(|en: (T, u64)| en.0)
    }

    pub fn new() -> (r: ResourceStore<T>)
        ensures
            r.entries@.len() == 0,
    {
        ResourceStore { entries: Vec::new() }
    }

    /// Registers a resource; its tick starts at zero.
    pub fn insert(&mut self, value: T) -> (id: usize)
        ensures
            id == old(self).entries@.len(),
            final(self).entries@ == old(self).entries@.push((value, 0u64)),
    {
        let id = self.entries.len();
        self.entries.push((value, 0));
        id
    }

    pub fn len(&self) -> (r: usize)
        ensures
            r == self.entries@.len(),
    {
        self.entries.len()
    }

    /// The current value of resource `id`.
    pub fn get(&self, id: usize) -> (r: &T)
        requires
            id < self.entries@.len(),
        ensures
            *r == self.values()[id as int],
    {
        &self.entries[id].0
    }

    /// The change tick of resource `id`.
    pub fn tick(&self, id: usize) -> (r: u64)
        requires
            id < self.entries@.len(),
        ensures
            r == self.ticks()[id as int],
    {
        self.entries[id].1
    }

    /// Writes resource `id`, advancing its change tick.
    pub fn set(&mut self, id: usize, value: T)
        requires
            id < old(self).entries@.len(),
            old(self).ticks()[id as int] < u64::MAX,
        ensures
            final(self).entries@ == old(self).entries@.update(
                id as int,
                (value, (old(self).ticks()[id as int] + 1) as u64),
            ),
            final(self).ticks() == old(self).ticks().update(
                id as int,
                (old(self).ticks()[id as int] + 1) as u64,
            ),
    {
        let t = self.entries[id].1;
        self.entries.set(id, (value, t + 1));
        assert(self.ticks() =~= old(self).ticks().update(id as int, (t + 1) as u64));
    }
}

/// Change ticks of components on host entities: `ticks[entity][kind]`.
/// Component kinds are registered up front; an absent entry reads as zero.
pub struct ComponentStore {
    pub kinds: usize,
    pub ticks: Vec<Vec<u64>>,
}

/// The change tick of component `kind` on `entity`.
pub open spec fn component_tick(store: ComponentStore, entity: int, kind: int) -> u64 {
    if 0 <= entity < store.ticks@.len() && 0 <= kind < store.ticks@[entity]@.len() {
        store.ticks@[entity]@[kind]
    } else {
        0
    }
}

impl ComponentStore {
    /// A store with `kinds` registered component kinds and no ticks yet.
    pub fn new(kinds: usize) -> (r: ComponentStore)
        ensures
            r.kinds == kinds,
            forall|e: int, k: int| component_tick(r, e, k) == 0,
    {
        ComponentStore { kinds, ticks: Vec::new() }
    }

    /// The change tick of component `kind` on `entity`.
    pub fn tick(&self, entity: usize, kind: usize) -> (r: u64)
        ensures
            r == component_tick(*self, entity as int, kind as int),
    {
        if entity < self.ticks.len() && kind < self.ticks[entity].len() {
            self.ticks[entity][kind]
        } else {
            0
        }
    }

    /// Adds tick storage for the next entity, all kinds at zero.
    pub fn add_entity(&mut self) -> (e: usize)
        ensures
            e == old(self).ticks@.len(),
            final(self).kinds == old(self).kinds,
            final(self).ticks@.len() == old(self).ticks@.len() + 1,
            final(self).ticks@[e as int]@.len() == old(self).kinds,
            forall|x: int, k: int| #[trigger] component_tick(*final(self), x, k) == component_tick(*old(self), x, k),
    {
        let e = self.ticks.len();
        self.ticks.push(vec![0u64; self.kinds]);
        proof {
            assert forall|x: int, k: int| #[trigger] component_tick(*self, x, k) == component_tick(*old(self), x, k) by {
                if x == e && 0 <= k < self.ticks@[x]@.len() {
                    assert(self.ticks@[x]@[k] == 0);
                }
            }
        }
        e
    }

    /// Records a change of component `kind` on `entity`.
    pub fn mark_changed(&mut self, entity: usize, kind: usize)
        requires
            entity < old(self).ticks@.len(),
            kind < old(self).ticks@[entity as int]@.len(),
            component_tick(*old(self), entity as int, kind as int) < u64::MAX,
        ensures
            final(self).kinds == old(self).kinds,
            component_tick(*final(self), entity as int, kind as int) == component_tick(
                *old(self),
                entity as int,
                kind as int,
            ) + 1,
            forall|e: int, k: int|
                (e, k) != (entity as int, kind as int) ==> #[trigger] component_tick(*final(self), e, k)
                    == component_tick(*old(self), e, k),
    {
        let mut row: Vec<u64> = Vec::new();
        std::mem::swap(&mut self.ticks[entity], &mut row);
        let t = row[kind];
        row.set(kind, t + 1);
        std::mem::swap(&mut self.ticks[entity], &mut row);
        proof {
            assert(self.ticks@ == old(self).ticks@.update(entity as int, self.ticks@[entity as int]));
        }
    }
}

/// Some read in `reads` saw a tick of its resource older than the current one.
pub open spec fn is_stale(reads: Seq<(usize, u64)>, ticks: Seq<u64>) -> bool {
    exists|k: int|
        0 <= k < reads.len() && (#[trigger] reads[k]).0 < ticks.len() && ticks[reads[k].0 as int]
            > reads[k].1
}

/// Every read in `reads` saw the current tick of its resource.
pub open spec fn is_fresh(reads: Seq<(usize, u64)>, ticks: Seq<u64>) -> bool {
    forall|k: int|
        0 <= k < reads.len() ==> (#[trigger] reads[k]).0 < ticks.len() && ticks[reads[k].0 as int]
            == reads[k].1
}

/// The resources one presenter invocation read, each with the change tick
/// it saw.
pub struct DependencyRecord {
    pub reads: Vec<(usize, u64)>,
    /// Components read: (entity, kind, tick seen).
    pub components: Vec<(usize, usize, u64)>,
}

/// Some component read in `reads` saw a tick older than the current one.
pub open spec fn components_stale(reads: Seq<(usize, usize, u64)>, store: ComponentStore) -> bool {
    exists|k: int|
        0 <= k < reads.len() && component_tick(store, (#[trigger] reads[k]).0 as int, reads[k].1 as int)
            > reads[k].2
}

impl DependencyRecord {
    /// A record of no reads.
    pub fn new() -> (r: DependencyRecord)
        ensures
            r.reads@.len() == 0,
            r.components@.len() == 0,
    {
        DependencyRecord { reads: Vec::new(), components: Vec::new() }
    }

    /// Records that component `kind` of `entity` was read at its current
    /// tick. Only registered kinds can be tracked.
    pub fn track_component(&mut self, store: &ComponentStore, entity: usize, kind: usize)
        requires
            kind < store.kinds,
        ensures
            final(self).components@ == old(self).components@.push(
                (entity, kind, component_tick(*store, entity as int, kind as int)),
            ),
            final(self).reads == old(self).reads,
    {
        let t = store.tick(entity, kind);
        self.components.push((entity, kind, t));
    }

    /// Whether a component read by this record has changed since.
    pub fn components_stale(&self, store: &ComponentStore) -> (r: bool)
        ensures
            r == components_stale(self.components@, *store),
    {
        let mut i: usize = 0;
        while i < self.components.len()
            invariant
                0 <= i <= self.components@.len(),
                forall|k: int|
                    0 <= k < i ==> !(component_tick(
                        *store,
                        (#[trigger] self.components@[k]).0 as int,
                        self.components@[k].1 as int,
                    ) > self.components@[k].2),
            decreases self.components@.len() - i,
        {
            let (entity, kind, seen) = self.components[i];
            if store.tick(entity, kind) > seen {
                return true;
            }
            i = i + 1;
        }
        false
    }

    /// Records that resource `id` was read at its current tick.
    pub fn track<T>(&mut self, store: &ResourceStore<T>, id: usize)
        requires
            id < store.entries@.len(),
        ensures
            final(self).reads@ == old(self).reads@.push((id, store.ticks()[id as int])),
            final(self).components == old(self).components,
    {
        let t = store.tick(id);
        self.reads.push((id, t));
    }

    /// Whether a resource read by this record has changed since.
    pub fn is_stale<T>(&self, store: &ResourceStore<T>) -> (r: bool)
        ensures
            r == is_stale(self.reads@, store.ticks()),
    {
        let mut i: usize = 0;
        while i < self.reads.len()
            invariant
                0 <= i <= self.reads@.len(),
                forall|k: int|
                    0 <= k < i ==> !((#[trigger] self.reads@[k]).0 < store.ticks().len()
                        && store.ticks()[self.reads@[k].0 as int] > self.reads@[k].1),
            decreases self.reads@.len() - i,
        {
            let (id, seen) = self.reads[i];
            if id < store.len() && store.tick(id) > seen {
                return true;
            }
            i = i + 1;
        }
        false
    }
}

/// Dependency gating is precise: after an invocation that read resource `r`
/// and not resource `q`, a write to `r` makes the record stale and a write to
/// `q` alone does not.
pub proof fn lemma_gating_precise(reads: Seq<(usize, u64)>, ticks: Seq<u64>, r: usize, q: usize)
    requires
        is_fresh(reads, ticks),
        exists|k: int| 0 <= k < reads.len() && (#[trigger] reads[k]).0 == r,
        forall|k: int| 0 <= k < reads.len() ==> (#[trigger] reads[k]).0 != q,
        r < ticks.len(),
        q < ticks.len(),
        ticks[r as int] < u64::MAX,
        ticks[q as int] < u64::MAX,
    ensures
        is_stale(reads, ticks.update(r as int, (ticks[r as int] + 1) as u64)),
        !is_stale(reads, ticks.update(q as int, (ticks[q as int] + 1) as u64)),
{
    let k = choose|k: int| 0 <= k < reads.len() && (#[trigger] reads[k]).0 == r;
    let bumped = ticks.update(r as int, (ticks[r as int] + 1) as u64);
    assert(bumped[reads[k].0 as int] > reads[k].1);
}

/// A record whose reads all saw the current ticks is not stale: with no
/// further write, the scheduler does not re-invoke its presenter.
pub proof fn lemma_fresh_not_stale(reads: Seq<(usize, u64)>, ticks: Seq<u64>)
    requires
        is_fresh(reads, ticks),
    ensures
        !is_stale(reads, ticks),
{
}

} // verus!
