use vstd::prelude::*;
use crate::tracking::{ComponentStore, DependencyRecord, ResourceStore, component_tick};

verus! {

/// The persistent local variables of one presenter, one slot per
/// `use_local` call, in call order.
pub struct LocalSlots<T> {
    pub slots: Vec<T>,
}

impl<T: Copy> LocalSlots<T> {
    pub fn new() -> (r: LocalSlots<T>)
        ensures
            r.slots@.len() == 0,
    {
        LocalSlots { slots: Vec::new() }
    }

    /// The value in slot `index`.
    pub fn get(&self, index: usize) -> (r: T)
        requires
            index < self.slots@.len(),
        ensures
            r == self.slots@[index as int],
    {
        self.slots[index]
    }

    /// Replaces the value in slot `index`.
    pub fn set(&mut self, index: usize, value: T)
        requires
            index < old(self).slots@.len(),
        ensures
            final(self).slots@ == old(self).slots@.update(index as int, value),
    {
        self.slots.set(index, value);
    }
}

/// The context handed to a presenter for one invocation: its props, its
/// entity, the resources it reads and the position of its next local slot.
pub struct Cx {
    pub props: u64,
    pub entity: usize,
    /// The slot that the next `use_local` call addresses.
    pub local_index: usize,
    pub deps: DependencyRecord,
}

impl Cx {
    /// A context for a fresh invocation: no reads yet, first local slot next.
    pub fn new(props: u64, entity: usize) -> (r: Cx)
        ensures
            r.props == props,
            r.entity == entity,
            r.local_index == 0,
            r.deps.reads@.len() == 0,
            r.deps.components@.len() == 0,
    {
        Cx { props, entity, local_index: 0, deps: DependencyRecord::new() }
    }

    /// Returns resource `id`, recording it as read by this invocation.
    pub fn use_resource<'a, T>(&mut self, store: &'a ResourceStore<T>, id: usize) -> (r: &'a T)
        requires
            id < store.entries@.len(),
        ensures
            *r == store.values()[id as int],
            final(self).deps.reads@ == old(self).deps.reads@.push((id, store.ticks()[id as int])),
            final(self).deps.components == old(self).deps.components,
            final(self).props == old(self).props,
            final(self).entity == old(self).entity,
            final(self).local_index == old(self).local_index,
    {
        self.deps.track(store, id);
        store.get(id)
    }

    /// Writes resource `id`, recording it as read by this invocation at the
    /// tick before the write, so that the write itself advances the tick.
    pub fn use_resource_mut<T>(&mut self, store: &mut ResourceStore<T>, id: usize, value: T)
        requires
            id < old(store).entries@.len(),
            old(store).ticks()[id as int] < u64::MAX,
        ensures
            final(self).deps.reads@ == old(self).deps.reads@.push((id, old(store).ticks()[id as int])),
            final(self).deps.components == old(self).deps.components,
            final(store).ticks() == old(store).ticks().update(
                id as int,
                (old(store).ticks()[id as int] + 1) as u64,
            ),
            final(store).values() == old(store).values().update(id as int, value),
            final(self).props == old(self).props,
            final(self).entity == old(self).entity,
            final(self).local_index == old(self).local_index,
    {
        self.deps.track(store, id);
        store.set(id, value);
        assert(store.values() =~= old(store).values().update(id as int, value));
    }

    /// Records component `kind` of `entity` as read by this invocation. Only
    /// registered kinds can be tracked.
    pub fn track_component(&mut self, store: &ComponentStore, entity: usize, kind: usize)
        requires
            kind < store.kinds,
        ensures
            final(self).deps.components@ == old(self).deps.components@.push(
                (entity, kind, component_tick(*store, entity as int, kind as int)),
            ),
            final(self).deps.reads == old(self).deps.reads,
            final(self).props == old(self).props,
            final(self).entity == old(self).entity,
            final(self).local_index == old(self).local_index,
    {
        self.deps.track_component(store, entity, kind);
    }

    /// The local variable of the current slot, set to `init` if the slot is
    /// new. Presenters must make these calls in the same order on every
    /// invocation for a slot to keep its identity.
    pub fn use_local<T: Copy>(&mut self, slots: &mut LocalSlots<T>, init: T) -> (r: T)
        requires
            old(self).local_index < usize::MAX,
            old(self).local_index <= old(slots).slots@.len(),
        ensures
            final(self).local_index == old(self).local_index + 1,
            final(self).props == old(self).props,
            final(self).entity == old(self).entity,
            final(self).deps == old(self).deps,
            old(self).local_index < old(slots).slots@.len() ==> r == old(slots).slots@[old(self).local_index as int] && final(slots).slots@ == old(slots).slots@,
            old(self).local_index == old(slots).slots@.len() ==> r == init && final(slots).slots@
                == old(slots).slots@.push(init),
    {
        let index = self.local_index;
        self.local_index = index + 1;
        if index < slots.slots.len() {
            slots.get(index)
        } else {
            slots.slots.push(init);
            init
        }
    }
}

} // verus!
