use vstd::prelude::*;
use vstd::view::View as _;
use crate::cx::Cx;
use crate::host::{HostGraph, NodeKind, ViewContext};
use crate::tracking::{ComponentStore, DependencyRecord, ResourceStore, components_stale, is_stale};
use crate::view::{View, ViewState, in_sync};

verus! {

/// The lifecycle record of one presenter instance, owned by its entity.
pub struct PresenterState {
    pub entity: usize,
    /// What the last invocation read.
    pub deps: DependencyRecord,
    /// The view the last invocation returned, and what building it left.
    pub view: Option<View>,
    pub state: Option<ViewState>,
    pub razed: bool,
}

/// The application's presenters: runs presenter `presenter` for one
/// invocation, with the context and the resource store.
pub trait Presenters<T> {
    fn present(&self, presenter: u64, cx: &mut Cx, store: &mut ResourceStore<T>) -> View;
}

impl PresenterState {
    /// The retained state owns disjoint nodes, all with handles below `n`,
    /// and not the presenter's own entity.
    pub open spec fn wf(&self, n: nat) -> bool {
        self.state is Some ==> self.state->Some_0.disjoint() && self.state->Some_0.bounded(n)
            && !self.state->Some_0.owns(self.entity)
    }

    /// The record of a presenter whose entity was just spawned: not yet
    /// invoked, nothing read.
    pub fn new(entity: usize) -> (r: PresenterState)
        ensures
            r.entity == entity,
            r.deps.reads@.len() == 0,
            r.deps.components@.len() == 0,
            r.view is None,
            r.state is None,
            !r.razed,
    {
        PresenterState { entity, deps: DependencyRecord::new(), view: None, state: None, razed: false }
    }

    /// Marks the entity dirty when a resource or component that the last
    /// invocation read has changed since. A razed record is never dirtied.
    pub fn refresh<T>(&self, host: &mut HostGraph, store: &ResourceStore<T>, components: &ComponentStore)
        ensures
            (!self.razed && self.entity < old(host).nodes@.len() && (is_stale(self.deps.reads@, store.ticks())
                || components_stale(self.deps.components@, *components))) ==> final(host).nodes@
                == old(host).nodes@.update(
                self.entity as int,
                crate::host::HostNode { dirty: true, ..old(host).nodes@[self.entity as int] },
            ),
            !(!self.razed && self.entity < old(host).nodes@.len() && (is_stale(self.deps.reads@, store.ticks())
                || components_stale(self.deps.components@, *components))) ==> *final(host) == *old(host),
    {
        if !self.razed && self.entity < host.nodes.len() && (self.deps.is_stale(store)
            || self.deps.components_stale(components)) {
            host.set_dirty(self.entity, true);
        }
    }

    /// Whether the presenter is due for an invocation.
    pub fn needs_run(&self, host: &HostGraph) -> (r: bool)
        ensures
            r == (!self.razed && host.is_alive(self.entity as int) && host.nodes@[self.entity as int].dirty
                && host.nodes@[self.entity as int].kind is Presenter),
    {
        if self.razed || self.entity >= host.nodes.len() {
            return false;
        }
        let node = &host.nodes[self.entity];
        match &node.kind {
            NodeKind::Presenter { .. } => node.alive && node.dirty,
            _ => false,
        }
    }

    /// The context for a new invocation: the entity's current props, no
    /// reads, first local slot next.
    pub fn begin(&self, host: &HostGraph) -> (cx: Cx)
        requires
            self.entity < host.nodes@.len(),
            host.nodes@[self.entity as int].kind is Presenter,
        ensures
            cx.props == host.nodes@[self.entity as int].kind->props,
            cx.entity == self.entity,
            cx.local_index == 0,
            cx.deps.reads@.len() == 0,
            cx.deps.components@.len() == 0,
    {
        let props = match &host.nodes[self.entity].kind {
            NodeKind::Presenter { props, .. } => *props,
            _ => 0,
        };
        Cx::new(props, self.entity)
    }

    /// Completes an invocation with the view it returned: builds it the first
    /// time (a change of shape), else updates the retained state; keeps what was read, records
    /// the output handles on the entity and clears its dirty flag.
    pub fn finish(&mut self, vc: &mut ViewContext, cx: Cx, view: View)
        requires
            old(vc).entity == old(self).entity,
            old(self).entity < old(vc).host.nodes@.len(),
            old(vc).host.nodes@[old(vc).entity as int].kind is Presenter,
            old(self).wf(old(vc).host.nodes@.len()),
        ensures
            final(self).wf(final(vc).host.nodes@.len()),
            in_sync(view, final(self).state->Some_0, final(vc).host),
            final(vc).host.nodes@[old(self).entity as int].kind is Presenter,
            final(vc).host.nodes@[old(self).entity as int].kind->output@
                == final(self).state->Some_0.handles(final(vc).host),
            final(self).entity == old(self).entity,
            final(self).razed == old(self).razed,
            final(self).deps == cx.deps,
            final(self).view == Some(view),
            final(self).state is Some,
            final(vc).entity == old(vc).entity,
            final(vc).host.nodes@.len() >= old(vc).host.nodes@.len(),
            !final(vc).host.nodes@[old(self).entity as int].dirty,
    {
        let e = self.entity;
        let st = match self.state.take() {
            Some(prev) => {
                let mut s = prev;
                view.update(vc, &mut s);
                s
            },
            None => {
                let s = view.build(vc);
                let ghost built = vc.host;
                vc.mark_changed_shape();
                proof {
                    assert forall|x: usize| #[trigger] s.owns(x) implies crate::view::alike(
                        built.nodes@[x as int],
                        vc.host.nodes@[x as int],
                    ) by {}
                    crate::view::lemma_sync_frame(view, s, built, vc.host);
                }
                s
            },
        };
        let ghost synced = vc.host;
        let out = st.nodes(vc).flatten();
        if e < vc.host.nodes.len() {
            let is_presenter = match &vc.host.nodes[e].kind {
                NodeKind::Presenter { .. } => true,
                _ => false,
            };
            if is_presenter {
                vc.host.set_output(e, out);
            }
            vc.host.set_dirty(e, false);
        }
        proof {
            assert forall|x: usize| #[trigger] st.owns(x) implies crate::view::alike(
                synced.nodes@[x as int],
                vc.host.nodes@[x as int],
            ) by {}
            crate::view::lemma_sync_frame(view, st, synced, vc.host);
            assert forall|x: usize| #[trigger] st.owns(x) implies crate::view::presenter_output(synced, x)
                == crate::view::presenter_output(vc.host, x) by {}
            crate::view::lemma_handles_frame(st, synced, vc.host);
        }
        self.deps = cx.deps;
        self.view = Some(view);
        self.state = Some(st);
    }

    /// Tears the presenter down: razes its retained state, despawns its
    /// entity and marks the record razed. Nothing happens to a record that
    /// is already razed.
    pub fn raze(&mut self, vc: &mut ViewContext)
        ensures
            final(self).razed,
            final(self).entity == old(self).entity,
            final(vc).entity == old(vc).entity,
            final(vc).host.nodes@.len() == old(vc).host.nodes@.len(),
            old(self).razed ==> final(vc).host == old(vc).host,
            final(self).state == old(self).state,
            forall|y: int|
                0 <= y < old(vc).host.nodes@.len() && !(#[trigger] old(vc).host.nodes@[y]).alive
                    ==> !final(vc).host.nodes@[y].alive,
            !old(self).razed && (old(self).entity as int) < old(vc).host.nodes@.len()
                ==> !final(vc).host.nodes@[old(self).entity as int].alive,
            !old(self).razed && old(self).state is Some ==> forall|e: usize|
                #[trigger] old(self).state->Some_0.owns(e) && (e as int) < old(vc).host.nodes@.len()
                    ==> !final(vc).host.nodes@[e as int].alive,
    {
        if self.razed {
            return;
        }
        let n0 = vc.host.nodes.len();
        let ghost h0 = vc.host;
        match &self.state {
            Some(st) => {
                st.raze(vc);
                proof {
                    assert forall|y: int|
                        0 <= y < h0.nodes@.len() && !(#[trigger] h0.nodes@[y]).alive
                            implies !vc.host.nodes@[y].alive by {
                        assert(y < n0);
                        let u = y as usize;
                        if st.owns(u) {
                            assert(!vc.host.nodes@[u as int].alive);
                        } else {
                            assert(vc.host.nodes@[(y as usize) as int] == h0.nodes@[(y as usize) as int]);
                        }
                    }
                }
            },
            None => {},
        }
        if self.entity < vc.host.nodes.len() {
            vc.host.despawn(self.entity);
        }
        self.razed = true;
    }
}

/// The record holds a presenter that has not been razed.
pub open spec fn is_live(o: Option<PresenterState>) -> bool {
    o is Some && !o->Some_0.razed
}

/// The number of records whose presenter has not been razed.
pub open spec fn live_records(r: Seq<Option<PresenterState>>) -> nat
    decreases r.len(),
{
    if r.len() == 0 {
        0
    } else {
        live_records(r.drop_last()) + if is_live(r.last()) {
            1nat
        } else {
            0nat
        }
    }
}

proof fn lemma_live_update(r: Seq<Option<PresenterState>>, i: int, v: Option<PresenterState>)
    requires
        0 <= i < r.len(),
    ensures
        live_records(r.update(i, v)) + (if is_live(r[i]) {
            1nat
        } else {
            0nat
        }) == live_records(r) + (if is_live(v) {
            1nat
        } else {
            0nat
        }),
    decreases r.len(),
{
    if i == r.len() - 1 {
        assert(r.update(i, v).drop_last() =~= r.drop_last());
    } else {
        lemma_live_update(r.drop_last(), i, v);
        assert(r.update(i, v).drop_last() =~= r.drop_last().update(i, v));
    }
}

/// Tears down the presenter of entity `e` at once, and with it, in the same
/// call, every nested presenter that its retained state owns: each one's
/// nodes are despawned and its record razed.
pub fn raze_presenter(records: &mut Vec<Option<PresenterState>>, vc: &mut ViewContext, e: usize)
    requires
        forall|y: int|
            0 <= y < old(records)@.len() && #[trigger] old(records)@[y] is Some ==> old(records)@[y]->Some_0.entity
                == y,
    ensures
        final(records)@.len() == old(records)@.len(),
        live_records(final(records)@) <= live_records(old(records)@),
        forall|y: int|
            0 <= y < final(records)@.len() && #[trigger] final(records)@[y] is Some
                ==> final(records)@[y]->Some_0.entity == y,
        final(vc).entity == old(vc).entity,
        final(vc).host.nodes@.len() == old(vc).host.nodes@.len(),
        forall|y: int|
            0 <= y < old(records)@.len() && #[trigger] old(records)@[y] is Some ==> final(records)@[y] is Some
                && final(records)@[y]->Some_0.entity == old(records)@[y]->Some_0.entity
                && (old(records)@[y]->Some_0.razed ==> final(records)@[y]->Some_0.razed),
        forall|y: int|
            0 <= y < old(vc).host.nodes@.len() && !(#[trigger] old(vc).host.nodes@[y]).alive
                ==> !final(vc).host.nodes@[y].alive,
        (e as int) < old(records)@.len() && old(records)@[e as int] is Some ==> final(records)@[e as int]->Some_0.razed,
        (e as int) < old(records)@.len() && is_live(old(records)@[e as int]) && (old(
            vc,
        ).host.nodes@.len() > e as int) ==> !final(vc).host.nodes@[e as int].alive,
        (e as int) < old(records)@.len() && is_live(old(records)@[e as int])
            && old(records)@[e as int]->Some_0.state is Some ==> forall|y: usize|
            #[trigger] old(records)@[e as int]->Some_0.state->Some_0.owns(y) ==> ((y as int)
                < old(vc).host.nodes@.len() ==> !final(vc).host.nodes@[y as int].alive) && ((y as int)
                < old(records)@.len() && old(records)@[y as int] is Some
                ==> final(records)@[y as int]->Some_0.razed),
    decreases live_records(old(records)@),
{
    if e >= records.len() {
        return;
    }
    let mut slot: Option<PresenterState> = None;
    std::mem::swap(&mut records[e], &mut slot);
    match slot {
        Some(mut ps) => {
            if ps.razed {
                records.set(e, Some(ps));
                proof {
                    assert(records@ =~= old(records)@);
                }
                return;
            }
            ps.raze(vc);
            let st = ps.state.take();
            let ghost razed_host = vc.host;
            records.set(e, Some(ps));
            proof {
                lemma_live_update(old(records)@, e as int, records@[e as int]);
                assert(records@ =~= old(records)@.update(e as int, records@[e as int]));
            }
            match st {
                Some(s) => {
                    let mut x: usize = 0;
                    while x < records.len()
                        invariant
                            0 <= x <= records@.len(),
                            records@.len() == old(records)@.len(),
                            forall|y: int|
                                0 <= y < records@.len() && #[trigger] records@[y] is Some ==> records@[y]->Some_0.entity
                                    == y,
                            (e as int) < records@.len(),
                            live_records(records@) < live_records(old(records)@),
                            vc.entity == old(vc).entity,
                            vc.host.nodes@.len() == old(vc).host.nodes@.len(),
                            old(records)@[e as int] is Some,
                            s == old(records)@[e as int]->Some_0.state->Some_0,
                            forall|y: int|
                                0 <= y < old(records)@.len() && #[trigger] old(records)@[y] is Some
                                    ==> records@[y] is Some && records@[y]->Some_0.entity
                                    == old(records)@[y]->Some_0.entity && (old(records)@[y]->Some_0.razed
                                    ==> records@[y]->Some_0.razed),
                            records@[e as int]->Some_0.razed,
                            forall|y: int|
                                0 <= y < old(vc).host.nodes@.len() && !(#[trigger] old(vc).host.nodes@[y]).alive
                                    ==> !vc.host.nodes@[y].alive,
                            (old(vc).host.nodes@.len() > e as int) ==> !vc.host.nodes@[e as int].alive,
                            forall|y: usize|
                                #[trigger] s.owns(y) && (y as int) < old(vc).host.nodes@.len()
                                    ==> !vc.host.nodes@[y as int].alive,
                            forall|y: usize|
                                #[trigger] s.owns(y) && (y as int) < x && old(records)@[y as int] is Some
                                    ==> records@[y as int]->Some_0.razed,
                        decreases records@.len() - x,
                    {
                        let live = match &records[x] {
                            Some(r) => !r.razed,
                            None => false,
                        };
                        if live && s.owns_handle(x) {
                            let ghost before = records@;
                            let ghost hb = vc.host;
                            raze_presenter(records, vc, x);
                            proof {
                                assert forall|y: usize|
                                    #[trigger] s.owns(y) && (y as int) < old(vc).host.nodes@.len()
                                        implies !vc.host.nodes@[y as int].alive by {
                                    assert(!hb.nodes@[y as int].alive);
                                }
                                assert forall|y: usize|
                                    #[trigger] s.owns(y) && (y as int) < x + 1 && old(records)@[y as int] is Some
                                        implies records@[y as int]->Some_0.razed by {
                                    assert(before[y as int] is Some);
                                }
                            }
                        }
                        x = x + 1;
                    }
                },
                None => {},
            }
        },
        None => {
            records.set(e, None);
            proof {
                assert(records@ =~= old(records)@);
            }
        },
    }
}

/// Razes `state` together with every presenter it owns, synchronously: the
/// state's nodes are despawned, and each owned presenter's record is razed
/// along with the presenters nested in it (see `raze_presenter`).
pub fn raze_tree(state: &ViewState, records: &mut Vec<Option<PresenterState>>, vc: &mut ViewContext)
    requires
        forall|y: int|
            0 <= y < old(records)@.len() && #[trigger] old(records)@[y] is Some ==> old(records)@[y]->Some_0.entity
                == y,
    ensures
        final(vc).entity == old(vc).entity,
        final(vc).host.nodes@.len() == old(vc).host.nodes@.len(),
        final(records)@.len() == old(records)@.len(),
        forall|y: usize|
            #[trigger] state.owns(y) && (y as int) < old(vc).host.nodes@.len()
                ==> !final(vc).host.nodes@[y as int].alive,
        forall|y: usize|
            #[trigger] state.owns(y) && (y as int) < old(records)@.len() && old(records)@[y as int] is Some
                ==> final(records)@[y as int]->Some_0.razed,
        forall|y: int|
            0 <= y < final(records)@.len() && #[trigger] final(records)@[y] is Some
                ==> final(records)@[y]->Some_0.entity == y,
{
    state.raze(vc);
    let mut x: usize = 0;
    while x < records.len()
        invariant
            0 <= x <= records@.len(),
            records@.len() == old(records)@.len(),
            vc.entity == old(vc).entity,
            vc.host.nodes@.len() == old(vc).host.nodes@.len(),
            forall|y: int|
                0 <= y < records@.len() && #[trigger] records@[y] is Some ==> records@[y]->Some_0.entity == y,
            forall|y: int|
                0 <= y < old(records)@.len() && #[trigger] old(records)@[y] is Some ==> records@[y] is Some,
            forall|y: usize|
                #[trigger] state.owns(y) && (y as int) < old(vc).host.nodes@.len()
                    ==> !vc.host.nodes@[y as int].alive,
            forall|y: usize|
                #[trigger] state.owns(y) && (y as int) < x && old(records)@[y as int] is Some
                    ==> records@[y as int]->Some_0.razed,
        decreases records@.len() - x,
    {
        let is_some = match &records[x] {
            Some(_) => true,
            None => false,
        };
        if is_some && state.owns_handle(x) {
            let ghost before = records@;
            let ghost hb = vc.host;
            raze_presenter(records, vc, x);
            proof {
                assert forall|y: usize|
                    #[trigger] state.owns(y) && (y as int) < old(vc).host.nodes@.len()
                        implies !vc.host.nodes@[y as int].alive by {
                    assert(!hb.nodes@[y as int].alive);
                }
                assert forall|y: usize|
                    #[trigger] state.owns(y) && (y as int) < x + 1 && old(records)@[y as int] is Some
                        implies records@[y as int]->Some_0.razed by {
                    assert(before[y as int] is Some);
                }
            }
        }
        x = x + 1;
    }
}

/// The presenter entity `e` is due for an invocation: alive, with a record
/// that is not razed, and dirty, or having read a resource or component that
/// changed since. A new entity gets its record, which has read nothing.
pub open spec fn is_due<T>(
    slot: Option<PresenterState>,
    e: usize,
    host: HostGraph,
    store: ResourceStore<T>,
    components: ComponentStore,
) -> bool {
    let node = host.nodes@[e as int];
    &&& node.alive
    &&& node.kind is Presenter
    &&& !(slot is Some && slot->Some_0.razed)
    &&& (node.dirty || (slot is Some && (is_stale(slot->Some_0.deps.reads@, store.ticks())
        || components_stale(slot->Some_0.deps.components@, components))))
}

/// One step of the reconciliation pass, on entity `e` and its record `slot`:
/// a record whose entity is dead is razed; a live presenter entity without a
/// record gets one; a presenter that is due is invoked once and its output
/// built or updated. Returns whether it was invoked.
pub fn visit<T, P: Presenters<T>>(
    presenters: &P,
    slot: &mut Option<PresenterState>,
    e: usize,
    vc: &mut ViewContext,
    store: &mut ResourceStore<T>,
    components: &ComponentStore,
) -> (invoked: bool)
    requires
        e < old(vc).host.nodes@.len(),
        (*old(slot)) is Some ==> (*old(slot))->Some_0.entity == e && (*old(slot))->Some_0.wf(
            old(vc).host.nodes@.len(),
        ),
    ensures
        invoked == is_due(*old(slot), e, old(vc).host, *old(store), *components),
        final(vc).host.nodes@.len() >= old(vc).host.nodes@.len(),
        (*final(slot)) is Some <==> ((*old(slot)) is Some || (old(vc).host.nodes@[e as int].alive
            && old(vc).host.nodes@[e as int].kind is Presenter)),
        (*final(slot)) is Some ==> (*final(slot))->Some_0.entity == e && (*final(slot))->Some_0.wf(
            final(vc).host.nodes@.len(),
        ),
        (*old(slot)) is Some && !old(vc).host.nodes@[e as int].alive ==> (*final(slot))->Some_0.razed,
        invoked ==> {
            let ps = (*final(slot))->Some_0;
            let node = final(vc).host.nodes@[e as int];
            &&& ps.view is Some && ps.state is Some
            &&& in_sync(ps.view->Some_0, ps.state->Some_0, final(vc).host)
            &&& !node.dirty
            &&& node.kind is Presenter
            &&& node.kind->output@ == ps.state->Some_0.handles(final(vc).host)
        },
        !invoked && old(vc).host.nodes@[e as int].alive ==> final(vc).host == old(vc).host && ((*old(slot)) is Some ==> *final(slot) == *old(slot)),
{
    let (is_presenter, pid) = match &vc.host.nodes[e].kind {
        NodeKind::Presenter { presenter, .. } => (true, *presenter),
        _ => (false, 0),
    };
    let alive = vc.host.nodes[e].alive;
    if slot.is_none() && alive && is_presenter {
        *slot = Some(PresenterState::new(e));
    }
    let mut invoked = false;
    match slot {
        Some(ps) => {
            if !alive {
                ps.raze(vc);
            } else if is_presenter {
                let ghost before = vc.host;
                ps.refresh(&mut vc.host, store, components);
                if ps.needs_run(&vc.host) {
                    let mut cx = ps.begin(&vc.host);
                    let view = presenters.present(pid, &mut cx, store);
                    vc.entity = e;
                    ps.finish(vc, cx, view);
                    invoked = true;
                }
            }
        },
        None => {},
    }
    invoked
}

/// What assembling entity `e` does, from host `h0` to host `h1`: when its
/// record holds a state and its node is alive and signals a change of shape,
/// the output becomes the state's handles, the signal is cleared and raised
/// on a parent with a smaller handle; otherwise nothing changes.
pub open spec fn assembled(records: Seq<Option<PresenterState>>, e: int, h0: HostGraph, h1: HostGraph) -> bool {
    let old_node = h0.nodes@[e];
    let due = records[e] is Some && records[e]->Some_0.state is Some && old_node.alive
        && old_node.shape_changed;
    &&& h1.nodes@.len() == h0.nodes@.len()
    &&& due ==> !h1.nodes@[e].shape_changed
    &&& (due && old_node.kind is Presenter) ==> h1.nodes@[e].kind is Presenter && h1.nodes@[e].kind->output@
        == records[e]->Some_0.state->Some_0.handles(h1)
    &&& (due && old_node.parent is Some && (old_node.parent->Some_0 as int) < e)
        ==> h1.nodes@[old_node.parent->Some_0 as int].shape_changed
    &&& !due ==> h1 == h0
}

/// Assembles entity `e` if its record holds a state, its node is alive and
/// signals a change of shape: records the state's handles as its output,
/// clears the signal and raises it on the parent presenter (when the parent
/// has the smaller handle, as a parent that spawned it does).
pub fn assemble_entity(records: &Vec<Option<PresenterState>>, vc: &mut ViewContext, e: usize)
    requires
        e < records@.len(),
        e < old(vc).host.nodes@.len(),
        records@[e as int] is Some ==> records@[e as int]->Some_0.entity == e
            && records@[e as int]->Some_0.wf(old(vc).host.nodes@.len()),
    ensures
        final(vc).entity == old(vc).entity,
        final(vc).host.nodes@.len() == old(vc).host.nodes@.len(),
        assembled(records@, e as int, old(vc).host, final(vc).host),
        ({
            let old_node = old(vc).host.nodes@[e as int];
            let due = records@[e as int] is Some && records@[e as int]->Some_0.state is Some
                && old_node.alive && old_node.shape_changed;
            &&& due ==> !final(vc).host.nodes@[e as int].shape_changed
            &&& (due && old_node.kind is Presenter) ==> final(vc).host.nodes@[e as int].kind is Presenter
                && final(vc).host.nodes@[e as int].kind->output@
                == records@[e as int]->Some_0.state->Some_0.handles(final(vc).host)
            &&& (due && old_node.parent is Some && (old_node.parent->Some_0 as int) < e)
                ==> final(vc).host.nodes@[old_node.parent->Some_0 as int].shape_changed
            &&& !due ==> final(vc).host == old(vc).host
            &&& forall|y: int|
                0 <= y < old(vc).host.nodes@.len() && y != e && (!(old_node.parent is Some
                    && (old_node.parent->Some_0 as int) < e) || y != old_node.parent->Some_0 as int)
                    ==> #[trigger] final(vc).host.nodes@[y]
                    == old(vc).host.nodes@[y]
            &&& forall|y: int|
                0 <= y < old(vc).host.nodes@.len() ==> #[trigger] final(vc).host.nodes@[y].alive
                    == old(vc).host.nodes@[y].alive
        }),
{
    if vc.host.nodes[e].alive && vc.host.nodes[e].shape_changed {
        match &records[e] {
            Some(ps) => match &ps.state {
                Some(st) => {
                    let ghost h0 = vc.host;
                    let out = st.nodes(vc).flatten();
                    let is_presenter = match &vc.host.nodes[e].kind {
                        NodeKind::Presenter { .. } => true,
                        _ => false,
                    };
                    if is_presenter {
                        vc.host.set_output(e, out);
                    }
                    vc.host.set_shape_changed(e, false);
                    let parent = vc.host.nodes[e].parent;
                    match parent {
                        Some(p) => {
                            if p < e {
                                vc.host.set_shape_changed(p, true);
                            }
                        },
                        None => {},
                    }
                    proof {
                        assert forall|x: usize| #[trigger] st.owns(x) implies crate::view::presenter_output(h0, x)
                            == crate::view::presenter_output(vc.host, x) by {
                            assert(x != e);
                        }
                        crate::view::lemma_handles_frame(*st, h0, vc.host);
                    }
                },
                None => {},
            },
            None => {},
        }
    }
}

/// Re-derives the output of every live presenter whose node structure
/// changed, children before parents (a child entity is spawned after its
/// parent, so has the larger handle), clears its signal and passes it on to
/// the parent presenter.
pub fn assemble_pass(records: &Vec<Option<PresenterState>>, vc: &mut ViewContext) -> (steps: Ghost<
    Seq<(HostGraph, HostGraph)>,
>)
    requires
        forall|x: int|
            0 <= x < records@.len() && #[trigger] records@[x] is Some ==> records@[x]->Some_0.entity == x
                && records@[x]->Some_0.wf(old(vc).host.nodes@.len()),
    ensures
        steps@.len() == old(vc).host.nodes@.len(),
        forall|x: int|
            0 <= x < steps@.len() && x < records@.len() ==> assembled(
                records@,
                x,
                #[trigger] steps@[x].0,
                steps@[x].1,
            ),
        forall|x: int| 0 <= x < steps@.len() - 1 ==> (#[trigger] steps@[x]).0 == steps@[x + 1].1,
        steps@.len() > 0 ==> steps@[steps@.len() - 1].0 == old(vc).host && steps@[0].1 == final(vc).host,
        final(vc).entity == old(vc).entity,
        final(vc).host.nodes@.len() == old(vc).host.nodes@.len(),
        forall|x: int|
            0 <= x < final(vc).host.nodes@.len() ==> #[trigger] final(vc).host.nodes@[x].alive
                == old(vc).host.nodes@[x].alive,
        forall|x: int|
            0 <= x < records@.len() && x < final(vc).host.nodes@.len() && #[trigger] records@[x] is Some
                && records@[x]->Some_0.state is Some && final(vc).host.nodes@[x].alive
                ==> !final(vc).host.nodes@[x].shape_changed,
{
    let n = vc.host.nodes.len();
    let mut e: usize = n;
    let ghost mut steps: Seq<(HostGraph, HostGraph)> = Seq::new(n as nat, |i: int| (vc.host, vc.host));
    while e > 0
        invariant
            0 <= e <= n,
            steps.len() == n,
            forall|x: int|
                e <= x < n && x < records@.len() ==> assembled(records@, x, #[trigger] steps[x].0, steps[x].1),
            forall|x: int| e <= x < n - 1 ==> (#[trigger] steps[x]).0 == steps[x + 1].1,
            e < n ==> steps[n - 1].0 == old(vc).host,
            e < n ==> steps[e as int].1 == vc.host,
            e == n ==> vc.host == old(vc).host,
            n == vc.host.nodes@.len(),
            vc.entity == old(vc).entity,
            n == old(vc).host.nodes@.len(),
            forall|x: int| 0 <= x < n ==> #[trigger] vc.host.nodes@[x].alive == old(vc).host.nodes@[x].alive,
            forall|x: int|
                e <= x < records@.len() && x < n && #[trigger] records@[x] is Some
                    && records@[x]->Some_0.state is Some && vc.host.nodes@[x].alive
                    ==> !vc.host.nodes@[x].shape_changed,
            forall|x: int|
                0 <= x < records@.len() && #[trigger] records@[x] is Some ==> records@[x]->Some_0.entity == x
                    && records@[x]->Some_0.wf(n as nat),
        decreases e,
    {
        e = e - 1;
        let ghost before = vc.host;
        if e < records.len() {
            assemble_entity(records, vc, e);
            proof {
                assert forall|x: int|
                    e < x < records@.len() && x < n && #[trigger] records@[x] is Some
                        && records@[x]->Some_0.state is Some && vc.host.nodes@[x].alive
                        implies !vc.host.nodes@[x].shape_changed by {
                    assert(vc.host.nodes@[x] == before.nodes@[x]);
                }
            }
        }
        proof {
            steps = steps.update(e as int, (before, vc.host));
        }
    }
    Ghost(steps)
}

/// What one step of a reconciliation pass met: the record, the host graph
/// and the resource store just before entity's visit, and whether it invoked
/// the presenter.
pub struct PassStep<T> {
    pub slot: Option<PresenterState>,
    pub host: HostGraph,
    pub store: ResourceStore<T>,
    pub invoked: bool,
}

/// How many steps invoked their presenter.
pub open spec fn count_invoked<T>(steps: Seq<PassStep<T>>) -> nat
    decreases steps.len(),
{
    if steps.len() == 0 {
        0
    } else {
        count_invoked(steps.drop_last()) + if steps.last().invoked {
            1nat
        } else {
            0nat
        }
    }
}

/// One reconciliation pass over the presenter entities that exist when it
/// starts (`records` is indexed by entity): a new presenter entity gets its
/// record, a record whose entity was despawned is razed, and every presenter
/// that is dirty or read a resource or component that changed is invoked
/// once. Presenters
/// spawned during the pass wait for the next one. Changes of shape are then
/// assembled (see `assemble_pass`). Returns the number of invocations.
pub fn run_pass<T, P: Presenters<T>>(
    presenters: &P,
    records: &mut Vec<Option<PresenterState>>,
    vc: &mut ViewContext,
    store: &mut ResourceStore<T>,
    components: &ComponentStore,
) -> (r: (usize, Ghost<Seq<PassStep<T>>>))
    requires
        forall|x: int|
            0 <= x < old(records)@.len() && #[trigger] old(records)@[x] is Some
                ==> old(records)@[x]->Some_0.entity == x,
        forall|x: int|
            0 <= x < old(records)@.len() && #[trigger] old(records)@[x] is Some
                ==> old(records)@[x]->Some_0.wf(old(vc).host.nodes@.len()),
    ensures
        forall|x: int|
            0 <= x < final(records)@.len() && #[trigger] final(records)@[x] is Some
                ==> final(records)@[x]->Some_0.wf(final(vc).host.nodes@.len()),
        final(vc).host.nodes@.len() >= old(vc).host.nodes@.len(),
        final(records)@.len() >= old(vc).host.nodes@.len(),
        forall|e: int|
            0 <= e < final(records)@.len() && #[trigger] final(records)@[e] is Some
                ==> final(records)@[e]->Some_0.entity == e,
        r.1@.len() == old(vc).host.nodes@.len(),
        r.0 == count_invoked(r.1@),
        forall|x: int|
            0 <= x < r.1@.len() ==> (#[trigger] r.1@[x]).invoked == is_due(
                r.1@[x].slot,
                x as usize,
                r.1@[x].host,
                r.1@[x].store,
                *components,
            ),
        forall|x: int|
            0 <= x < r.1@.len() ==> (#[trigger] r.1@[x]).slot == if x < old(records)@.len() {
                old(records)@[x]
            } else {
                None
            },
        r.1@.len() > 0 ==> r.1@[0].host == old(vc).host && r.1@[0].store == *old(store),
        forall|x: int|
            0 <= x < r.1@.len() && (#[trigger] r.1@[x]).invoked ==> final(records)@[x] is Some
                && final(records)@[x]->Some_0.view is Some && final(records)@[x]->Some_0.state is Some,
        forall|x: int|
            0 <= x < r.1@.len() && (#[trigger] r.1@[x]).slot is Some && !r.1@[x].host.nodes@[x].alive
                ==> final(records)@[x] is Some && final(records)@[x]->Some_0.razed,
        forall|x: int|
            0 <= x < final(records)@.len() && x < final(vc).host.nodes@.len()
                && #[trigger] final(records)@[x] is Some && final(records)@[x]->Some_0.state is Some
                && final(vc).host.nodes@[x].alive ==> !final(vc).host.nodes@[x].shape_changed,
{
    let n = vc.host.nodes.len();
    let mut count: usize = 0;
    let mut e: usize = 0;
    let ghost mut steps: Seq<PassStep<T>> = Seq::empty();
    while e < n
        invariant
            0 <= e <= n,
            records@.len() >= old(records)@.len(),
            steps.len() == e,
            count == count_invoked(steps),
            forall|x: int|
                0 <= x < e ==> (#[trigger] steps[x]).invoked == is_due(
                    steps[x].slot,
                    x as usize,
                    steps[x].host,
                    steps[x].store,
                    *components,
                ),
            forall|x: int|
                0 <= x < e ==> (#[trigger] steps[x]).slot == if x < old(records)@.len() {
                    old(records)@[x]
                } else {
                    None
                },
            e > 0 ==> steps[0].host == old(vc).host && steps[0].store == *old(store),
            e == 0 ==> vc.host == old(vc).host && *store == *old(store),
            forall|x: int|
                0 <= x < e && (#[trigger] steps[x]).invoked ==> records@[x] is Some
                    && records@[x]->Some_0.view is Some && records@[x]->Some_0.state is Some,
            forall|x: int|
                0 <= x < e && (#[trigger] steps[x]).slot is Some && !steps[x].host.nodes@[x].alive
                    ==> records@[x] is Some && records@[x]->Some_0.razed,
            forall|x: int|
                e <= x < records@.len() ==> #[trigger] records@[x] == if x < old(records)@.len() {
                    old(records)@[x]
                } else {
                    None
                },
            n <= vc.host.nodes@.len(),
            n == old(vc).host.nodes@.len(),
            count <= e,
            records@.len() >= e,
            forall|x: int|
                0 <= x < records@.len() && #[trigger] records@[x] is Some ==> records@[x]->Some_0.entity == x,
            forall|x: int|
                0 <= x < records@.len() && #[trigger] records@[x] is Some ==> records@[x]->Some_0.wf(
                    vc.host.nodes@.len(),
                ),
        decreases n - e,
    {
        while records.len() <= e
            invariant
                records@.len() >= 0,
                forall|x: int|
                    0 <= x < records@.len() && #[trigger] records@[x] is Some ==> records@[x]->Some_0.entity
                        == x,
                forall|x: int|
                    0 <= x < records@.len() && #[trigger] records@[x] is Some ==> records@[x]->Some_0.wf(
                        vc.host.nodes@.len(),
                    ),
                forall|x: int|
                    e <= x < records@.len() ==> #[trigger] records@[x] == if x < old(records)@.len() {
                        old(records)@[x]
                    } else {
                        None
                    },
                records@.len() >= old(records)@.len(),
                records@.len() >= e,
                forall|x: int|
                    0 <= x < e && (#[trigger] steps[x]).invoked ==> records@[x] is Some
                        && records@[x]->Some_0.view is Some && records@[x]->Some_0.state is Some,
                forall|x: int|
                    0 <= x < e && (#[trigger] steps[x]).slot is Some && !steps[x].host.nodes@[x].alive
                        ==> records@[x] is Some && records@[x]->Some_0.razed,
            decreases e + 1 - records@.len(),
        {
            let ghost before = records@;
            records.push(None);
            proof {
                assert forall|x: int|
                    0 <= x < e && (#[trigger] steps[x]).invoked implies records@[x] is Some
                        && records@[x]->Some_0.view is Some && records@[x]->Some_0.state is Some by {
                    assert(records@[x] == before[x]);
                }
                assert forall|x: int|
                    0 <= x < e && (#[trigger] steps[x]).slot is Some && !steps[x].host.nodes@[x].alive
                        implies records@[x] is Some && records@[x]->Some_0.razed by {
                    assert(records@[x] == before[x]);
                }
                assert forall|x: int|
                    e <= x < records@.len() implies #[trigger] records@[x] == if x < old(records)@.len() {
                        old(records)@[x]
                    } else {
                        None
                    } by {
                    if x < before.len() {
                        assert(records@[x] == before[x]);
                    }
                }
            }
        }
        let mut slot: Option<PresenterState> = None;
        std::mem::swap(&mut records[e], &mut slot);
        let ghost len_before = vc.host.nodes@.len();
        let ghost step_host = vc.host;
        let ghost step_store = *store;
        let ghost step_slot = slot;
        let invoked = visit(presenters, &mut slot, e, vc, store, components);
        if invoked {
            count = count + 1;
        }
        proof {
            let step = PassStep { slot: step_slot, host: step_host, store: step_store, invoked };
            let before = steps;
            steps = steps.push(step);
            assert(steps.drop_last() =~= before);
        }
        proof {
            assert forall|x: int|
                0 <= x < records@.len() && #[trigger] records@[x] is Some implies records@[x]->Some_0.wf(
                    vc.host.nodes@.len(),
                ) by {
                if records@[x]->Some_0.state is Some {
                    let st = records@[x]->Some_0.state->Some_0;
                    assert forall|y: usize| #[trigger] st.owns(y) implies y < vc.host.nodes@.len() by {
                        assert(st.bounded(len_before as nat));
                    }
                }
            }
        }
        records.set(e, slot);
        e = e + 1;
    }
    let _assembled = assemble_pass(records, vc);
    (count, Ghost(steps))
}

} // verus!
