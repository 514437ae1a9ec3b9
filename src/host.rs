use vstd::prelude::*;

verus! {

/// What a host node carries.
#[derive(Clone, Debug, PartialEq, Eq)]
pub enum NodeKind {
    /// A text node showing the string.
    Text(String),
    /// The owning entity of a presenter, with the presenter's identity and
    /// its current props.
    /// The handles of the presenter's output are kept in `output`.
    Presenter { presenter: u64, props: u64, output: Vec<u64> },
    /// A node with no payload.
    Element,
}

/// One node of the host graph.
#[derive(Clone, Debug, PartialEq, Eq)]
pub struct HostNode {
    pub alive: bool,
    pub parent: Option<usize>,
    pub kind: NodeKind,
    /// The presenter owning this entity must be re-invoked.
    pub dirty: bool,
    /// The node structure below this entity changed: ancestors must assemble.
    pub shape_changed: bool,
}

/// The host scene graph: an arena of nodes addressed by handle (their index).
/// Despawned nodes stay in the arena, marked dead, so that handles are never
/// reused.
#[derive(Clone, Debug, PartialEq, Eq)]
pub struct HostGraph {
    pub nodes: Vec<HostNode>,
}

/// A node as it is spawned.
pub open spec fn fresh_node(kind: NodeKind, parent: Option<usize>, dirty: bool) -> HostNode {
    HostNode { alive: true, parent, kind, dirty, shape_changed: false }
}

impl HostGraph {
    pub open spec fn len(&self) -> nat {
        self.nodes@.len()
    }

    pub open spec fn is_alive(&self, e: int) -> bool {
        0 <= e < self.nodes@.len() && self.nodes@[e].alive
    }

    /// An empty graph.
    pub fn new() -> (r: HostGraph)
        ensures
            r.nodes@.len() == 0,
    {
        HostGraph { nodes: Vec::new() }
    }

    /// Spawns a node and returns its handle.
    pub fn spawn(&mut self, kind: NodeKind, parent: Option<usize>, dirty: bool) -> (e: usize)
        ensures
            e == old(self).nodes@.len(),
            final(self).nodes@ == old(self).nodes@.push(fresh_node(kind, parent, dirty)),
    {
        let e = self.nodes.len();
        self.nodes.push(HostNode { alive: true, parent, kind, dirty, shape_changed: false });
        e
    }

    /// Despawns node `e` and detaches it from its parent.
    pub fn despawn(&mut self, e: usize)
        requires
            e < old(self).nodes@.len(),
        ensures
            final(self).nodes@ == old(self).nodes@.update(
                e as int,
                HostNode { alive: false, parent: None, ..old(self).nodes@[e as int] },
            ),
    {
        self.nodes[e].alive = false;
        self.nodes[e].parent = None;
    }

    /// Attaches `child` under `parent`.
    pub fn set_parent(&mut self, child: usize, parent: usize)
        requires
            child < old(self).nodes@.len(),
        ensures
            final(self).nodes@ == old(self).nodes@.update(
                child as int,
                HostNode { parent: Some(parent), ..old(self).nodes@[child as int] },
            ),
    {
        self.nodes[child].parent = Some(parent);
    }

    /// Replaces the text of node `e`.
    pub fn set_text(&mut self, e: usize, text: String)
        requires
            e < old(self).nodes@.len(),
        ensures
            final(self).nodes@ == old(self).nodes@.update(
                e as int,
                HostNode { kind: NodeKind::Text(text), ..old(self).nodes@[e as int] },
            ),
    {
        self.nodes[e].kind = NodeKind::Text(text);
    }

    /// Gives the presenter entity `e` new props and marks it dirty.
    pub fn set_props(&mut self, e: usize, props: u64)
        requires
            e < old(self).nodes@.len(),
            old(self).nodes@[e as int].kind is Presenter,
        ensures
            final(self).nodes@.len() == old(self).nodes@.len(),
            forall|x: int|
                0 <= x < old(self).nodes@.len() && x != e ==> final(self).nodes@[x] == old(self).nodes@[x],
            final(self).nodes@[e as int].alive == old(self).nodes@[e as int].alive,
            final(self).nodes@[e as int].parent == old(self).nodes@[e as int].parent,
            final(self).nodes@[e as int].shape_changed == old(self).nodes@[e as int].shape_changed,
            final(self).nodes@[e as int].dirty,
            final(self).nodes@[e as int].kind is Presenter,
            final(self).nodes@[e as int].kind->presenter == old(self).nodes@[e as int].kind->presenter,
            final(self).nodes@[e as int].kind->props == props,
            final(self).nodes@[e as int].kind->output@ == old(self).nodes@[e as int].kind->output@,
    {
        let presenter = match &self.nodes[e].kind {
            NodeKind::Presenter { presenter, .. } => *presenter,
            _ => 0,
        };
        let output = match &self.nodes[e].kind {
            NodeKind::Presenter { output, .. } => output.clone(),
            _ => Vec::new(),
        };
        self.nodes[e].kind = NodeKind::Presenter { presenter, props, output };
        self.nodes[e].dirty = true;
    }

    /// Records the output handles of the presenter entity `e`.
    pub fn set_output(&mut self, e: usize, output: Vec<u64>)
        requires
            e < old(self).nodes@.len(),
            old(self).nodes@[e as int].kind is Presenter,
        ensures
            final(self).nodes@.len() == old(self).nodes@.len(),
            forall|x: int|
                0 <= x < old(self).nodes@.len() && x != e ==> final(self).nodes@[x] == old(self).nodes@[x],
            final(self).nodes@[e as int].alive == old(self).nodes@[e as int].alive,
            final(self).nodes@[e as int].parent == old(self).nodes@[e as int].parent,
            final(self).nodes@[e as int].shape_changed == old(self).nodes@[e as int].shape_changed,
            final(self).nodes@[e as int].dirty == old(self).nodes@[e as int].dirty,
            final(self).nodes@[e as int].kind is Presenter,
            final(self).nodes@[e as int].kind->presenter == old(self).nodes@[e as int].kind->presenter,
            final(self).nodes@[e as int].kind->props == old(self).nodes@[e as int].kind->props,
            final(self).nodes@[e as int].kind->output@ == output@,
    {
        let (presenter, props) = match &self.nodes[e].kind {
            NodeKind::Presenter { presenter, props, .. } => (*presenter, *props),
            _ => (0, 0),
        };
        self.nodes[e].kind = NodeKind::Presenter { presenter, props, output };
    }

    /// Sets or clears the dirty flag of entity `e`.
    pub fn set_dirty(&mut self, e: usize, dirty: bool)
        requires
            e < old(self).nodes@.len(),
        ensures
            final(self).nodes@ == old(self).nodes@.update(
                e as int,
                HostNode { dirty, ..old(self).nodes@[e as int] },
            ),
    {
        self.nodes[e].dirty = dirty;
    }

    /// Sets or clears the shape-changed flag of entity `e`.
    pub fn set_shape_changed(&mut self, e: usize, changed: bool)
        requires
            e < old(self).nodes@.len(),
        ensures
            final(self).nodes@ == old(self).nodes@.update(
                e as int,
                HostNode { shape_changed: changed, ..old(self).nodes@[e as int] },
            ),
    {
        self.nodes[e].shape_changed = changed;
    }

    /// Number of live nodes.
    pub fn live_count(&self) -> (r: usize)
        ensures
            r == count_alive(self.nodes@),
    {
        let mut n: usize = 0;
        let mut i: usize = 0;
        while i < self.nodes.len()
            invariant
                0 <= i <= self.nodes@.len(),
                n == count_alive(self.nodes@.subrange(0, i as int)),
                n <= i,
            decreases self.nodes@.len() - i,
        {
            assert(self.nodes@.subrange(0, i + 1).drop_last() =~= self.nodes@.subrange(0, i as int));
            if self.nodes[i].alive {
                n = n + 1;
            }
            i = i + 1;
        }
        assert(self.nodes@.subrange(0, self.nodes@.len() as int) =~= self.nodes@);
        n
    }
}

/// Number of live nodes in `s`.
pub open spec fn count_alive(s: Seq<HostNode>) -> nat
    decreases s.len(),
{
    if s.len() == 0 {
        0
    } else {
        count_alive(s.drop_last()) + if s.last().alive {
            1nat
        } else {
            0nat
        }
    }
}

/// Passed to the view operations: the host graph, and the entity of the
/// presenter on whose behalf they run.
pub struct ViewContext {
    pub host: HostGraph,
    pub entity: usize,
}

impl ViewContext {
    pub fn new(host: HostGraph, entity: usize) -> (r: ViewContext)
        ensures
            r.host == host,
            r.entity == entity,
    {
        ViewContext { host, entity }
    }

    /// Signals that the shape of the node graph below this context's entity
    /// changed.
    pub fn mark_changed_shape(&mut self)
        requires
            old(self).entity < old(self).host.nodes@.len(),
        ensures
            final(self).entity == old(self).entity,
            final(self).host.nodes@ == old(self).host.nodes@.update(
                old(self).entity as int,
                HostNode { shape_changed: true, ..old(self).host.nodes@[old(self).entity as int] },
            ),
    {
        let e = self.entity;
        self.host.set_shape_changed(e, true);
    }
}

} // verus!
