use vstd::prelude::*;
use vstd::view::View as _;
use crate::host::{HostGraph, HostNode, NodeKind, ViewContext, fresh_node};
use crate::node_span::{NodeSpan, flat_all};

verus! {

/// An immutable description of a subtree of host nodes.
#[derive(Debug, PartialEq, Eq)]
pub enum View {
    /// Renders nothing.
    Empty,
    /// One text node.
    Text(String),
    /// A sequence of views; position is each child's identity, so a change of
    /// length razes trailing children or builds new ones.
    Fragment(Vec<View>),
    /// Shows the first view when the condition holds, else the second.
    If(bool, Box<View>, Box<View>),
    /// A presenter bound to props: its own entity, invoked by the scheduler.
    Bind(Bind),
    /// A list of children identified by key: on update, children whose key
    /// lies on a longest common subsequence of old and new keys keep their
    /// state; the others are razed or built.
    Keyed(Vec<(u64, View)>),
}

/// A presenter, by identity, bound to a props value.
#[derive(Clone, Debug, PartialEq, Eq)]
pub struct Bind {
    pub presenter: u64,
    pub props: u64,
}

impl Bind {
    pub fn new(presenter: u64, props: u64) -> (r: Bind)
        ensures
            r.presenter == presenter,
            r.props == props,
    {
        Bind { presenter, props }
    }
}

/// Binding a presenter to props, as a view of it.
pub trait PresenterFn {
    fn bind(self, props: u64) -> Bind;
}

/// A presenter's identity.
pub struct PresenterId(pub u64);

impl PresenterFn for PresenterId {
    fn bind(self, props: u64) -> (r: Bind)
        ensures
            r.presenter == self.0,
            r.props == props,
    {
        Bind::new(self.0, props)
    }
}

/// What building a view leaves behind: the handles of the host nodes it owns.
#[derive(Debug, PartialEq, Eq)]
pub enum ViewState {
    Empty,
    Text(usize),
    Fragment(Vec<ViewState>),
    /// The condition that was built, and the state of that branch only.
    If(bool, Box<ViewState>),
    /// The entity that owns the presenter.
    Presenter(usize),
    Keyed(Vec<(u64, ViewState)>),
}

/// The node handles given by a presenter entity: its recorded output.
pub open spec fn presenter_output(host: HostGraph, e: usize) -> Seq<u64> {
    if (e as int) < host.nodes@.len() && host.nodes@[e as int].kind is Presenter {
        host.nodes@[e as int].kind->output@
    } else {
        Seq::empty()
    }
}

impl ViewState {
    /// The host node `e` belongs to this state.
    pub open spec fn owns(self, e: usize) -> bool
        decreases self,
    {
        match self {
            ViewState::Empty => false,
            ViewState::Text(x) => x == e,
            ViewState::Fragment(v) => exists|k: int| 0 <= k < v@.len() && (#[trigger] v@[k]).owns(e),
            ViewState::If(_, s) => s.owns(e),
            ViewState::Presenter(x) => x == e,
            ViewState::Keyed(v) => exists|k: int| 0 <= k < v@.len() && (#[trigger] v@[k]).1.owns(e),
        }
    }

    /// No node is owned by two siblings, at any depth.
    pub open spec fn disjoint(self) -> bool
        decreases self,
    {
        match self {
            ViewState::Fragment(v) => (forall|k: int, l: int, e: usize|
                0 <= k < l < v@.len() && #[trigger] v@[k].owns(e) ==> !#[trigger] v@[l].owns(e))
                && forall|k: int| 0 <= k < v@.len() ==> (#[trigger] v@[k]).disjoint(),
            ViewState::Keyed(v) => (forall|k: int, l: int, e: usize|
                0 <= k < l < v@.len() && #[trigger] v@[k].1.owns(e) ==> !#[trigger] v@[l].1.owns(e))
                && forall|k: int| 0 <= k < v@.len() ==> (#[trigger] v@[k]).1.disjoint(),
            ViewState::If(_, s) => s.disjoint(),
            _ => true,
        }
    }

    /// Every node this state owns has a handle below `n`.
    pub open spec fn bounded(self, n: nat) -> bool {
        forall|e: usize| #[trigger] self.owns(e) ==> e < n
    }

    /// The leaf handles that this state contributes, in order.
    pub open spec fn handles(self, host: HostGraph) -> Seq<u64>
        decreases self,
    {
        match self {
            ViewState::Empty => Seq::empty(),
            ViewState::Text(x) => seq![x as u64],
            ViewState::Fragment(v) => handles_all(v@, host),
            ViewState::If(_, s) => s.handles(host),
            ViewState::Presenter(x) => presenter_output(host, x),
            ViewState::Keyed(v) => handles_keyed(v@, host),
        }
    }
}

/// The concatenation, in order, of the handles of each keyed state in `s`.
pub open spec fn handles_keyed(s: Seq<(u64, ViewState)>, host: HostGraph) -> Seq<u64>
    decreases s,
{
    if s.len() == 0 {
        Seq::empty()
    } else {
        handles_keyed(s.drop_last(), host) + s.last().1.handles(host)
    }
}

/// The concatenation, in order, of the handles of each state in `s`.
pub open spec fn handles_all(s: Seq<ViewState>, host: HostGraph) -> Seq<u64>
    decreases s,
{
    if s.len() == 0 {
        Seq::empty()
    } else {
        handles_all(s.drop_last(), host) + s.last().handles(host)
    }
}

/// Node `b` is node `a` but for, possibly, its shape-changed flag.
pub open spec fn untouched(a: HostNode, b: HostNode) -> bool {
    b == HostNode { shape_changed: b.shape_changed, ..a }
}

/// `a` and `b` are the same state: the same handles in the same structure.
pub open spec fn same_state(a: ViewState, b: ViewState) -> bool
    decreases a,
{
    match (a, b) {
        (ViewState::Fragment(x), ViewState::Fragment(y)) => x@.len() == y@.len() && forall|k: int|
            0 <= k < x@.len() ==> same_state(#[trigger] x@[k], y@[k]),
        (ViewState::If(c, x), ViewState::If(d, y)) => c == d && same_state(*x, *y),
        (ViewState::Keyed(x), ViewState::Keyed(y)) => x@.len() == y@.len() && forall|k: int|
            0 <= k < x@.len() ==> (#[trigger] x@[k]).0 == y@[k].0 && same_state(x@[k].1, y@[k].1),
        _ => a == b,
    }
}

/// The keys of keyed children, in order.
pub open spec fn state_keys(s: Seq<(u64, ViewState)>) -> Seq<u64> {
    s.map_values(|p: (u64, ViewState)| p.0)
}

/// The keys of keyed child views, in order.
pub open spec fn view_keys(s: Seq<(u64, View)>) -> Seq<u64> {
    s.map_values(|p: (u64, View)| p.0)
}

/// What `diff_keys` promises of its plan for keys `ok` to keys `nk`.
pub open spec fn plan_facts(pl: crate::lcs::KeyedDiff, ok: Seq<u64>, nk: Seq<u64>) -> bool {
    &&& crate::lcs::is_matching(ok, nk, pl.matched@, 0, 0)
    &&& pl.matched@.len() == crate::lcs::lcs_from(ok, nk, 0, 0)
    &&& pl.reuse@.len() == nk.len()
    &&& forall|p: int|
        0 <= p < pl.matched@.len() ==> pl.reuse@[(#[trigger] pl.matched@[p]).1 as int] == Some(
            pl.matched@[p].0,
        )
    &&& forall|j: int|
        0 <= j < nk.len() ==> (#[trigger] pl.reuse@[j] is None <==> forall|p: int|
            0 <= p < pl.matched@.len() ==> #[trigger] pl.matched@[p].1 != j)
    &&& forall|j: int| 0 <= j < nk.len() && (#[trigger] pl.reuse@[j]) is Some ==> pl.reuse@[j]->Some_0 < ok.len()
    &&& forall|j1: int, j2: int|
        0 <= j1 < nk.len() && 0 <= j2 < nk.len() && j1 != j2 && (#[trigger] pl.reuse@[j1]) is Some
            ==> pl.reuse@[j1] != #[trigger] pl.reuse@[j2]
}

/// A keyed update from `olds` to `news` followed the matching `m`, a longest
/// common subsequence of the old and new keys: each matched new child kept
/// the matched old child's nodes (owning no others but new ones), every
/// unmatched old child's nodes are despawned, and every unmatched new child
/// owns new nodes only.
pub open spec fn kept_on_lcs(
    m: Seq<(usize, usize)>,
    vs: Seq<(u64, View)>,
    olds: Seq<(u64, ViewState)>,
    news: Seq<(u64, ViewState)>,
    h0: HostGraph,
    h1: HostGraph,
) -> bool {
    &&& crate::lcs::is_matching(state_keys(olds), view_keys(vs), m, 0, 0)
    &&& m.len() == crate::lcs::lcs_from(state_keys(olds), view_keys(vs), 0, 0)
    &&& forall|p: int, e: usize|
        0 <= p < m.len() && #[trigger] news[m[p].1 as int].1.owns(e) ==> olds[m[p].0 as int].1.owns(e)
            || h0.nodes@.len() <= e
    &&& forall|i: int, e: usize|
        0 <= i < olds.len() && (forall|p: int| 0 <= p < m.len() ==> #[trigger] m[p].0 != i)
            && #[trigger] olds[i].1.owns(e) && (e as int) < h0.nodes@.len()
            ==> !h1.nodes@[e as int].alive
    &&& forall|j: int, e: usize|
        0 <= j < news.len() && (forall|p: int| 0 <= p < m.len() ==> #[trigger] m[p].1 != j)
            && #[trigger] news[j].1.owns(e) ==> h0.nodes@.len() <= e
}

/// The keyed children of `vs` and `ss` carry the same keys, in order.
pub open spec fn same_keys(vs: Seq<(u64, View)>, ss: Seq<(u64, ViewState)>) -> bool {
    vs.len() == ss.len() && forall|k: int| 0 <= k < vs.len() ==> (#[trigger] vs[k]).0 == ss[k].0
}

/// `update` keeps `state` in place for `view`: the same variant, a live
/// node of the expected kind, the same condition, the same presenter.
/// Otherwise it rebuilds.
pub open spec fn keeps_shape(view: View, state: ViewState, host: HostGraph) -> bool {
    match (view, state) {
        (View::Empty, ViewState::Empty) => true,
        (View::Text(_), ViewState::Text(e)) => host.is_alive(e as int) && host.nodes@[e as int].kind is Text,
        (View::Fragment(_), ViewState::Fragment(_)) => true,
        (View::Keyed(_), ViewState::Keyed(_)) => true,
        (View::If(c, _, _), ViewState::If(c2, _)) => c == c2,
        (View::Bind(bd), ViewState::Presenter(e)) => host.is_alive(e as int)
            && host.nodes@[e as int].kind is Presenter && host.nodes@[e as int].kind->presenter
            == bd.presenter,
        _ => false,
    }
}

/// `view` binds the presenter that `state`'s live entity runs, to props
/// other than the entity holds.
pub open spec fn props_changed(view: View, state: ViewState, host: HostGraph) -> bool {
    &&& view is Bind
    &&& state is Presenter
    &&& host.is_alive(state->Presenter_0 as int)
    &&& host.nodes@[state->Presenter_0 as int].kind is Presenter
    &&& host.nodes@[state->Presenter_0 as int].kind->presenter == view->Bind_0.presenter
    &&& host.nodes@[state->Presenter_0 as int].kind->props != view->Bind_0.props
}

/// Host nodes `a` and `b` are alike for the views that own them.
pub open spec fn alike(a: HostNode, b: HostNode) -> bool {
    a.alive == b.alive && a.kind == b.kind
}

/// `state` and the host graph reflect `view` exactly: every owned node is
/// alive and carries what the view describes.
pub open spec fn in_sync(view: View, state: ViewState, host: HostGraph) -> bool
    decreases view,
{
    match (view, state) {
        (View::Empty, ViewState::Empty) => true,
        (View::Text(s), ViewState::Text(e)) => host.is_alive(e as int) && host.nodes@[e as int].kind is Text
            && host.nodes@[e as int].kind->Text_0@ == s@,
        (View::Fragment(vs), ViewState::Fragment(ss)) => vs@.len() == ss@.len() && forall|k: int|
            0 <= k < vs@.len() ==> in_sync(#[trigger] vs@[k], ss@[k], host),
        (View::If(c, a, b), ViewState::If(c2, s)) => c == c2 && if c {
            in_sync(*a, *s, host)
        } else {
            in_sync(*b, *s, host)
        },
        (View::Keyed(vs), ViewState::Keyed(ss)) => vs@.len() == ss@.len() && forall|k: int|
            0 <= k < vs@.len() ==> (#[trigger] vs@[k]).0 == ss@[k].0 && in_sync(vs@[k].1, ss@[k].1, host),
        (View::Bind(bd), ViewState::Presenter(e)) => host.is_alive(e as int)
            && host.nodes@[e as int].kind is Presenter && host.nodes@[e as int].kind->presenter
            == bd.presenter && host.nodes@[e as int].kind->props == bd.props,
        _ => false,
    }
}

/// The handles of a state depend only on the owned presenter entities'
/// recorded outputs.
pub proof fn lemma_handles_frame(s: ViewState, h1: HostGraph, h2: HostGraph)
    requires
        forall|x: usize| #[trigger] s.owns(x) ==> presenter_output(h1, x) == presenter_output(h2, x),
    ensures
        s.handles(h1) == s.handles(h2),
    decreases s,
{
    match s {
        ViewState::Fragment(v) => {
            assert forall|k: int| 0 <= k < v@.len() implies (#[trigger] v@[k]).handles(h1) == v@[k].handles(h2) by {
                assert forall|x: usize| #[trigger] v@[k].owns(x) implies presenter_output(h1, x)
                    == presenter_output(h2, x) by {
                    assert(s.owns(x));
                }
                vstd::std_specs::vec::axiom_vec_index_decreases(v, k);
                assert(decreases_to!(s => v));
                lemma_handles_frame(v@[k], h1, h2);
            }
            lemma_handles_all_frame(v@, h1, h2);
        },
        ViewState::Keyed(v) => {
            assert forall|k: int| 0 <= k < v@.len() implies (#[trigger] v@[k]).1.handles(h1) == v@[k].1.handles(h2) by {
                assert forall|x: usize| #[trigger] v@[k].1.owns(x) implies presenter_output(h1, x)
                    == presenter_output(h2, x) by {
                    assert(s.owns(x));
                }
                vstd::std_specs::vec::axiom_vec_index_decreases(v, k);
                assert(decreases_to!(s => v));
                lemma_handles_frame(v@[k].1, h1, h2);
            }
            lemma_handles_keyed_frame(v@, h1, h2);
        },
        ViewState::If(_, inner) => {
            assert forall|x: usize| #[trigger] inner.owns(x) implies presenter_output(h1, x)
                == presenter_output(h2, x) by {
                assert(s.owns(x));
            }
            lemma_handles_frame(*inner, h1, h2);
        },
        ViewState::Presenter(x) => {
            assert(s.owns(x));
        },
        _ => {},
    }
}

proof fn lemma_handles_all_frame(v: Seq<ViewState>, h1: HostGraph, h2: HostGraph)
    requires
        forall|k: int| 0 <= k < v.len() ==> (#[trigger] v[k]).handles(h1) == v[k].handles(h2),
    ensures
        handles_all(v, h1) == handles_all(v, h2),
    decreases v.len(),
{
    if v.len() > 0 {
        lemma_handles_all_frame(v.drop_last(), h1, h2);
        assert(v.last() == v[v.len() - 1]);
    }
}

proof fn lemma_handles_keyed_frame(v: Seq<(u64, ViewState)>, h1: HostGraph, h2: HostGraph)
    requires
        forall|k: int| 0 <= k < v.len() ==> (#[trigger] v[k]).1.handles(h1) == v[k].1.handles(h2),
    ensures
        handles_keyed(v, h1) == handles_keyed(v, h2),
    decreases v.len(),
{
    if v.len() > 0 {
        lemma_handles_keyed_frame(v.drop_last(), h1, h2);
        assert(v.last() == v[v.len() - 1]);
    }
}

/// Whether `in_sync` holds depends only on the owned nodes.
pub proof fn lemma_sync_frame(view: View, state: ViewState, h1: HostGraph, h2: HostGraph)
    requires
        in_sync(view, state, h1),
        h1.nodes@.len() <= h2.nodes@.len(),
        forall|e: usize| #[trigger] state.owns(e) ==> alike(h1.nodes@[e as int], h2.nodes@[e as int]),
    ensures
        in_sync(view, state, h2),
    decreases view,
{
    match (view, state) {
        (View::Fragment(vs), ViewState::Fragment(ss)) => {
            assert forall|k: int| 0 <= k < vs@.len() implies in_sync(#[trigger] vs@[k], ss@[k], h2) by {
                assert forall|e: usize| #[trigger] ss@[k].owns(e) implies alike(
                    h1.nodes@[e as int],
                    h2.nodes@[e as int],
                ) by {
                    assert(state.owns(e));
                }
                vstd::std_specs::vec::axiom_vec_index_decreases(vs, k);
                assert(decreases_to!(view => vs));
                lemma_sync_frame(vs@[k], ss@[k], h1, h2);
            }
        },
        (View::Keyed(vs), ViewState::Keyed(ss)) => {
            assert forall|k: int| 0 <= k < vs@.len() implies (#[trigger] vs@[k]).0 == ss@[k].0 && in_sync(
                vs@[k].1,
                ss@[k].1,
                h2,
            ) by {
                assert forall|e: usize| #[trigger] ss@[k].1.owns(e) implies alike(
                    h1.nodes@[e as int],
                    h2.nodes@[e as int],
                ) by {
                    assert(state.owns(e));
                }
                vstd::std_specs::vec::axiom_vec_index_decreases(vs, k);
                assert(decreases_to!(view => vs));
                lemma_sync_frame(vs@[k].1, ss@[k].1, h1, h2);
            }
        },
        (View::If(c, a, b), ViewState::If(c2, s)) => {
            assert forall|e: usize| #[trigger] s.owns(e) implies alike(
                h1.nodes@[e as int],
                h2.nodes@[e as int],
            ) by {
                assert(state.owns(e));
            }
            if c {
                lemma_sync_frame(*a, *s, h1, h2);
            } else {
                lemma_sync_frame(*b, *s, h1, h2);
            }
        },
        (View::Text(_), ViewState::Text(x)) => {
            assert(state.owns(x));
        },
        (View::Bind(_), ViewState::Presenter(x)) => {
            assert(state.owns(x));
        },
        _ => {},
    }
}

/// `r` is the span that state `s` gives: nothing for an empty state, the
/// node itself for a text state, one span per child for a list, the chosen
/// branch's span for a condition, and one node per recorded output handle
/// for a presenter.
pub open spec fn is_span_of(r: NodeSpan, s: ViewState, host: HostGraph) -> bool
    decreases s,
{
    match s {
        ViewState::Empty => r == NodeSpan::Empty,
        ViewState::Text(e) => r == NodeSpan::Node(e as u64),
        ViewState::Fragment(v) => r is Fragment && r->Fragment_0@.len() == v@.len() && forall|k: int|
            0 <= k < v@.len() ==> is_span_of(#[trigger] r->Fragment_0@[k], v@[k], host),
        ViewState::Keyed(v) => r is Fragment && r->Fragment_0@.len() == v@.len() && forall|k: int|
            0 <= k < v@.len() ==> is_span_of(#[trigger] r->Fragment_0@[k], v@[k].1, host),
        ViewState::If(_, x) => is_span_of(r, *x, host),
        ViewState::Presenter(e) => if (e as int) < host.nodes@.len() && host.nodes@[e as int].kind is Presenter {
            let out = host.nodes@[e as int].kind->output@;
            r is Fragment && r->Fragment_0@.len() == out.len() && forall|k: int|
                0 <= k < out.len() ==> #[trigger] r->Fragment_0@[k] == NodeSpan::Node(out[k])
        } else {
            r == NodeSpan::Empty
        },
    }
}

/// A span of single nodes, one per handle.
fn span_of_handles(hs: &Vec<u64>) -> (r: NodeSpan)
    ensures
        r.flat() == hs@,
        r is Fragment,
        r->Fragment_0@.len() == hs@.len(),
        forall|k: int| 0 <= k < hs@.len() ==> #[trigger] r->Fragment_0@[k] == NodeSpan::Node(hs@[k]),
{
    let mut out: Vec<NodeSpan> = Vec::new();
    let mut i: usize = 0;
    while i < hs.len()
        invariant
            0 <= i <= hs@.len(),
            out@.len() == i,
            flat_all(out@) == hs@.subrange(0, i as int),
            forall|k: int| 0 <= k < i ==> #[trigger] out@[k] == NodeSpan::Node(hs@[k]),
        decreases hs@.len() - i,
    {
        let ghost before = out@;
        out.push(NodeSpan::Node(hs[i]));
        assert(out@.drop_last() == before);
        assert(out@.last() == NodeSpan::Node(hs@[i as int]));
        assert(out@.last().flat() == seq![hs@[i as int]]);
        assert(flat_all(out@) =~= hs@.subrange(0, i + 1));
        i = i + 1;
    }
    assert(hs@.subrange(0, hs@.len() as int) =~= hs@);
    NodeSpan::Fragment(out)
}

impl ViewState {
    /// The span of host nodes that this state contributes; does not change
    /// the host graph.
    pub fn nodes(&self, vc: &ViewContext) -> (r: NodeSpan)
        ensures
            r.flat() == self.handles(vc.host),
            is_span_of(r, *self, vc.host),
        decreases self,
    {
        match self {
            ViewState::Empty => NodeSpan::Empty,
            ViewState::Text(e) => NodeSpan::Node(*e as u64),
            ViewState::Fragment(v) => {
                let mut out: Vec<NodeSpan> = Vec::new();
                let mut i: usize = 0;
                while i < v.len()
                    invariant
                        *self == ViewState::Fragment(*v),
                        0 <= i <= v@.len(),
                        out@.len() == i,
                        flat_all(out@) == handles_all(v@.subrange(0, i as int), vc.host),
                        forall|k: int| 0 <= k < i ==> is_span_of(#[trigger] out@[k], v@[k], vc.host),
                    decreases v@.len() - i,
                {
                    proof {
                        vstd::std_specs::vec::axiom_vec_index_decreases(*v, i as int);
                        assert(decreases_to!(*self => self->Fragment_0));
                    }
                    let s = v[i].nodes(vc);
                    let ghost before = out@;
                    out.push(s);
                    assert(out@.drop_last() == before);
                    assert(v@.subrange(0, i + 1).drop_last() =~= v@.subrange(0, i as int));
                    i = i + 1;
                }
                assert(v@.subrange(0, v@.len() as int) =~= v@);
                NodeSpan::Fragment(out)
            },
            ViewState::If(_, s) => s.nodes(vc),
            ViewState::Keyed(v) => {
                let mut out: Vec<NodeSpan> = Vec::new();
                let mut i: usize = 0;
                while i < v.len()
                    invariant
                        *self == ViewState::Keyed(*v),
                        0 <= i <= v@.len(),
                        out@.len() == i,
                        flat_all(out@) == handles_keyed(v@.subrange(0, i as int), vc.host),
                        forall|k: int| 0 <= k < i ==> is_span_of(#[trigger] out@[k], v@[k].1, vc.host),
                    decreases v@.len() - i,
                {
                    proof {
                        vstd::std_specs::vec::axiom_vec_index_decreases(*v, i as int);
                        assert(decreases_to!(*self => self->Keyed_0));
                    }
                    let s = v[i].1.nodes(vc);
                    let ghost before = out@;
                    out.push(s);
                    assert(out@.drop_last() == before);
                    assert(v@.subrange(0, i + 1).drop_last() =~= v@.subrange(0, i as int));
                    i = i + 1;
                }
                assert(v@.subrange(0, v@.len() as int) =~= v@);
                NodeSpan::Fragment(out)
            },
            ViewState::Presenter(e) => {
                if *e < vc.host.nodes.len() {
                    match &vc.host.nodes[*e].kind {
                        NodeKind::Presenter { output, .. } => span_of_handles(output),
                        _ => NodeSpan::Empty,
                    }
                } else {
                    NodeSpan::Empty
                }
            },
        }
    }

    /// Despawns every host node that this state owns; no other node changes.
    /// A nested presenter owned here loses its entity; the nodes its own
    /// retained state holds are razed when its record is next visited by the
    /// reconciliation pass (`visit`), or at once through `raze_tree`.
    pub fn raze(&self, vc: &mut ViewContext)
        ensures
            final(vc).entity == old(vc).entity,
            final(vc).host.nodes@.len() == old(vc).host.nodes@.len(),
            forall|e: usize|
                #[trigger] self.owns(e) && (e as int) < old(vc).host.nodes@.len()
                    ==> !final(vc).host.nodes@[e as int].alive && final(vc).host.nodes@[e as int].parent is None,
            forall|e: usize|
                (e as int) < old(vc).host.nodes@.len() && !#[trigger] self.owns(e)
                    ==> final(vc).host.nodes@[e as int] == old(vc).host.nodes@[e as int],
        decreases self,
    {
        match self {
            ViewState::Empty => {
                assert forall|e: usize| !self.owns(e) by {}
            },
            ViewState::Text(e) => {
                if *e < vc.host.nodes.len() {
                    vc.host.despawn(*e);
                }
                assert forall|x: usize| self.owns(x) == (x == *e) by {}
            },
            ViewState::Fragment(v) => {
                let ghost start = vc.host.nodes@;
                let mut i: usize = 0;
                while i < v.len()
                    invariant
                        *self == ViewState::Fragment(*v),
                        0 <= i <= v@.len(),
                        vc.entity == old(vc).entity,
                        start == old(vc).host.nodes@,
                        vc.host.nodes@.len() == start.len(),
                        forall|e: usize, k: int|
                            0 <= k < i && #[trigger] v@[k].owns(e) && (e as int) < start.len()
                                ==> (!vc.host.nodes@[e as int].alive && vc.host.nodes@[e as int].parent is None),
                        forall|e: usize|
                            (e as int) < start.len() && (forall|k: int|
                                0 <= k < i ==> !#[trigger] v@[k].owns(e))
                                ==> vc.host.nodes@[e as int] == start[e as int],
                    decreases v@.len() - i,
                {
                    proof {
                        vstd::std_specs::vec::axiom_vec_index_decreases(*v, i as int);
                        assert(decreases_to!(*self => self->Fragment_0));
                    }
                    let ghost mid = vc.host.nodes@;
                    v[i].raze(vc);
                    proof {
                        assert forall|e: usize, k: int|
                            0 <= k < i + 1 && #[trigger] v@[k].owns(e) && (e as int) < start.len()
                                implies (!vc.host.nodes@[e as int].alive && vc.host.nodes@[e as int].parent is None) by {
                            if k < i && !v@[i as int].owns(e) {
                                assert(vc.host.nodes@[e as int] == mid[e as int]);
                            }
                        }
                        assert forall|e: usize|
                            (e as int) < start.len() && (forall|k: int|
                                0 <= k < i + 1 ==> !#[trigger] v@[k].owns(e))
                                implies vc.host.nodes@[e as int] == start[e as int] by {
                            assert(!v@[i as int].owns(e));
                        }
                    }
                    i = i + 1;
                }
                proof {
                    assert forall|e: usize|
                        (e as int) < start.len() && !#[trigger] self.owns(e)
                            implies vc.host.nodes@[e as int] == start[e as int] by {
                        assert forall|k: int| 0 <= k < v@.len() implies !#[trigger] v@[k].owns(e) by {}
                    }
                    assert forall|e: usize|
                        #[trigger] self.owns(e) && (e as int) < start.len()
                            implies (!vc.host.nodes@[e as int].alive && vc.host.nodes@[e as int].parent is None) by {
                        let k = choose|k: int| 0 <= k < v@.len() && (#[trigger] v@[k]).owns(e);
                    }
                }
            },
            ViewState::Keyed(v) => {
                let ghost start = vc.host.nodes@;
                let mut i: usize = 0;
                while i < v.len()
                    invariant
                        *self == ViewState::Keyed(*v),
                        0 <= i <= v@.len(),
                        vc.entity == old(vc).entity,
                        start == old(vc).host.nodes@,
                        vc.host.nodes@.len() == start.len(),
                        forall|e: usize, k: int|
                            0 <= k < i && #[trigger] v@[k].1.owns(e) && (e as int) < start.len()
                                ==> (!vc.host.nodes@[e as int].alive && vc.host.nodes@[e as int].parent is None),
                        forall|e: usize|
                            (e as int) < start.len() && (forall|k: int|
                                0 <= k < i ==> !#[trigger] v@[k].1.owns(e))
                                ==> vc.host.nodes@[e as int] == start[e as int],
                    decreases v@.len() - i,
                {
                    proof {
                        vstd::std_specs::vec::axiom_vec_index_decreases(*v, i as int);
                        assert(decreases_to!(*self => self->Keyed_0));
                    }
                    let ghost mid = vc.host.nodes@;
                    v[i].1.raze(vc);
                    proof {
                        assert forall|e: usize, k: int|
                            0 <= k < i + 1 && #[trigger] v@[k].1.owns(e) && (e as int) < start.len()
                                implies (!vc.host.nodes@[e as int].alive && vc.host.nodes@[e as int].parent is None) by {
                            if k < i && !v@[i as int].1.owns(e) {
                                assert(vc.host.nodes@[e as int] == mid[e as int]);
                            }
                        }
                        assert forall|e: usize|
                            (e as int) < start.len() && (forall|k: int|
                                0 <= k < i + 1 ==> !#[trigger] v@[k].1.owns(e))
                                implies vc.host.nodes@[e as int] == start[e as int] by {
                            assert(!v@[i as int].1.owns(e));
                        }
                    }
                    i = i + 1;
                }
                proof {
                    assert forall|e: usize|
                        (e as int) < start.len() && !#[trigger] self.owns(e)
                            implies vc.host.nodes@[e as int] == start[e as int] by {
                        assert forall|k: int| 0 <= k < v@.len() implies !#[trigger] v@[k].1.owns(e) by {}
                    }
                    assert forall|e: usize|
                        #[trigger] self.owns(e) && (e as int) < start.len()
                            implies (!vc.host.nodes@[e as int].alive && vc.host.nodes@[e as int].parent is None) by {
                        let k = choose|k: int| 0 <= k < v@.len() && (#[trigger] v@[k]).1.owns(e);
                    }
                }
            },
            ViewState::If(_, s) => {
                s.raze(vc);
                assert forall|e: usize| self.owns(e) == s.owns(e) by {}
            },
            ViewState::Presenter(e) => {
                if *e < vc.host.nodes.len() {
                    vc.host.despawn(*e);
                }
                assert forall|x: usize| self.owns(x) == (x == *e) by {}
            },
        }
    }
}

impl ViewState {
    /// Whether this state owns node `x`.
    pub fn owns_handle(&self, x: usize) -> (r: bool)
        ensures
            r == self.owns(x),
        decreases self,
    {
        match self {
            ViewState::Empty => false,
            ViewState::Text(e) => *e == x,
            ViewState::Presenter(e) => *e == x,
            ViewState::If(_, s) => s.owns_handle(x),
            ViewState::Fragment(v) => {
                let mut i: usize = 0;
                while i < v.len()
                    invariant
                        *self == ViewState::Fragment(*v),
                        0 <= i <= v@.len(),
                        forall|k: int| 0 <= k < i ==> !(#[trigger] v@[k]).owns(x),
                    decreases v@.len() - i,
                {
                    proof {
                        vstd::std_specs::vec::axiom_vec_index_decreases(*v, i as int);
                        assert(decreases_to!(*self => self->Fragment_0));
                    }
                    if v[i].owns_handle(x) {
                        return true;
                    }
                    i = i + 1;
                }
                false
            },
            ViewState::Keyed(v) => {
                let mut i: usize = 0;
                while i < v.len()
                    invariant
                        *self == ViewState::Keyed(*v),
                        0 <= i <= v@.len(),
                        forall|k: int| 0 <= k < i ==> !(#[trigger] v@[k]).1.owns(x),
                    decreases v@.len() - i,
                {
                    proof {
                        vstd::std_specs::vec::axiom_vec_index_decreases(*v, i as int);
                        assert(decreases_to!(*self => self->Keyed_0));
                    }
                    if v[i].1.owns_handle(x) {
                        return true;
                    }
                    i = i + 1;
                }
                false
            },
        }
    }
}

impl View {
    /// Razes `state` and builds this view afresh in its place, signalling a
    /// change of shape.
    pub fn rebuild(&self, vc: &mut ViewContext, state: &mut ViewState)
        requires
            old(vc).entity < old(vc).host.nodes@.len(),
        ensures
            final(vc).entity == old(vc).entity,
            final(vc).host.nodes@.len() >= old(vc).host.nodes@.len(),
            forall|e: usize|
                #[trigger] old(state).owns(e) && (e as int) < old(vc).host.nodes@.len()
                    ==> !final(vc).host.nodes@[e as int].alive,
            in_sync(*self, *final(state), final(vc).host),
            final(vc).host.nodes@[old(vc).entity as int].shape_changed,
            final(state).disjoint(),
            forall|e: usize|
                #[trigger] final(state).owns(e) ==> old(vc).host.nodes@.len() <= e
                    < final(vc).host.nodes@.len(),
            forall|e: usize|
                (e as int) < old(vc).host.nodes@.len() && !#[trigger] old(state).owns(e) ==> untouched(
                    old(vc).host.nodes@[e as int],
                    final(vc).host.nodes@[e as int],
                ),
    {
        state.raze(vc);
        let ghost razed = vc.host;
        let ns = self.build(vc);
        let ghost built = vc.host;
        *state = ns;
        vc.mark_changed_shape();
        proof {
            assert forall|e: usize| #[trigger] ns.owns(e) implies alike(
                built.nodes@[e as int],
                vc.host.nodes@[e as int],
            ) by {}
            lemma_sync_frame(*self, ns, built, vc.host);
            assert forall|e: usize|
                #[trigger] old(state).owns(e) && (e as int) < old(vc).host.nodes@.len()
                    implies !vc.host.nodes@[e as int].alive by {
                assert(built.nodes@.subrange(0, razed.nodes@.len() as int)[e as int]
                    == built.nodes@[e as int]);
            }
            assert forall|e: usize|
                (e as int) < old(vc).host.nodes@.len() && !#[trigger] old(state).owns(e) implies untouched(
                    old(vc).host.nodes@[e as int],
                    vc.host.nodes@[e as int],
                ) by {
                assert(built.nodes@.subrange(0, razed.nodes@.len() as int)[e as int]
                    == built.nodes@[e as int]);
            }
        }
    }

    /// Patches `state` and the host graph to match this view. Afterwards the
    /// state reflects the view, owns only nodes it owned before or new ones,
    /// and no node outside the old state changes. Nothing changes at all when
    /// they already matched; a switch of condition razes the old branch and
    /// builds the new one; new props re-mark the presenter dirty. A keyed
    /// list keeps the children on a longest common subsequence of keys. The
    /// retained state of a nested presenter that is razed here is torn down
    /// on its next visit (see `ViewState::raze`).
    pub fn update(&self, vc: &mut ViewContext, state: &mut ViewState)
        requires
            old(vc).entity < old(vc).host.nodes@.len(),
            old(state).disjoint(),
            old(state).bounded(old(vc).host.nodes@.len()),
        ensures
            final(vc).entity == old(vc).entity,
            final(vc).host.nodes@.len() >= old(vc).host.nodes@.len(),
            in_sync(*self, *final(state), final(vc).host),
            final(state).disjoint(),
            forall|e: usize|
                #[trigger] final(state).owns(e) ==> old(state).owns(e) || (old(vc).host.nodes@.len() <= e
                    < final(vc).host.nodes@.len()),
            forall|e: usize|
                (e as int) < old(vc).host.nodes@.len() && !#[trigger] old(state).owns(e) ==> untouched(
                    old(vc).host.nodes@[e as int],
                    final(vc).host.nodes@[e as int],
                ),
            in_sync(*self, *old(state), old(vc).host) ==> same_state(*final(state), *old(state))
                && final(vc).host == old(vc).host,
            (*self is If && *old(state) is If && self->If_0 != old(state)->If_0) ==> {
                &&& forall|e: usize|
                    #[trigger] old(state).owns(e) && (e as int) < old(vc).host.nodes@.len()
                        ==> !final(vc).host.nodes@[e as int].alive
                &&& in_sync(*self, *final(state), final(vc).host)
                &&& final(vc).host.nodes@[old(vc).entity as int].shape_changed
            },
            !keeps_shape(*self, *old(state), old(vc).host) ==> {
                &&& forall|e: usize|
                    #[trigger] old(state).owns(e) && (e as int) < old(vc).host.nodes@.len()
                        ==> !final(vc).host.nodes@[e as int].alive
                &&& forall|e: usize|
                    #[trigger] final(state).owns(e) ==> old(vc).host.nodes@.len() <= e
                &&& final(vc).host.nodes@[old(vc).entity as int].shape_changed
            },
            (*self is Text && keeps_shape(*self, *old(state), old(vc).host)) ==> {
                &&& *final(state) == *old(state)
                &&& (final(vc).host.nodes@ == old(vc).host.nodes@ || final(vc).host.nodes@
                    == old(vc).host.nodes@.update(
                    old(state)->Text_0 as int,
                    HostNode { kind: NodeKind::Text(self->Text_0), ..old(vc).host.nodes@[old(state)->Text_0 as int] },
                ))
            },
            (*self is Fragment && *old(state) is Fragment && self->Fragment_0@.len()
                != old(state)->Fragment_0@.len()) ==> final(vc).host.nodes@[old(vc).entity as int].shape_changed,
            (*self is Keyed && *old(state) is Keyed && !same_keys(self->Keyed_0@, old(state)->Keyed_0@))
                ==> final(vc).host.nodes@[old(vc).entity as int].shape_changed,
            (*self is Keyed && *old(state) is Keyed && !same_keys(self->Keyed_0@, old(state)->Keyed_0@)
                && old(state)->Keyed_0@.len() < usize::MAX && self->Keyed_0@.len() < usize::MAX) ==> exists|
                m: Seq<(usize, usize)>,
            |
                kept_on_lcs(
                    m,
                    self->Keyed_0@,
                    old(state)->Keyed_0@,
                    final(state)->Keyed_0@,
                    old(vc).host,
                    final(vc).host,
                ),
            props_changed(*self, *old(state), old(vc).host) ==> {
                let e = old(state)->Presenter_0 as int;
                &&& *final(state) == *old(state)
                &&& final(vc).host.nodes@.len() == old(vc).host.nodes@.len()
                &&& forall|x: int|
                    0 <= x < old(vc).host.nodes@.len() && x != e ==> final(vc).host.nodes@[x]
                        == old(vc).host.nodes@[x]
                &&& final(vc).host.nodes@[e].dirty
                &&& final(vc).host.nodes@[e].kind->props == self->Bind_0.props
                &&& in_sync(*self, *final(state), final(vc).host)
            },
        decreases self,
    {
        match self {
            View::Empty => {
                let is_empty = match &*state {
                    ViewState::Empty => true,
                    _ => false,
                };
                if !is_empty {
                    self.rebuild(vc, state);
                } else {
                    assert forall|e: usize| !state.owns(e) by {}
                }
            },
            View::Text(s) => {
                let mut target: usize = 0;
                let mut is_text = false;
                let mut same = false;
                match &*state {
                    ViewState::Text(e) => {
                        if *e < vc.host.nodes.len() && vc.host.nodes[*e].alive {
                            match &vc.host.nodes[*e].kind {
                                NodeKind::Text(t) => {
                                    target = *e;
                                    is_text = true;
                                    same = *t == *s;
                                },
                                _ => {},
                            }
                        }
                    },
                    _ => {},
                }
                if is_text {
                    if !same {
                        vc.host.set_text(target, s.clone());
                    }
                    assert forall|x: usize| state.owns(x) == (x == target) by {}
                } else {
                    self.rebuild(vc, state);
                }
            },
            View::Fragment(vs) => {
                let is_fragment = match &*state {
                    ViewState::Fragment(_) => true,
                    _ => false,
                };
                if !is_fragment {
                    self.rebuild(vc, state);
                } else {
                    let ghost sync0 = in_sync(*self, *old(state), old(vc).host);
                    let ghost ss0v = old(state)->Fragment_0;
                    let ghost big = old(vc).host.nodes@.len();
                    let ghost h0 = old(vc).host;
                    match state {
                        ViewState::Fragment(ss) => {
                            let ghost ss0 = ss@;
                            proof {
                                assert forall|k: int, e: usize|
                                    0 <= k < ss0.len() && #[trigger] ss0[k].owns(e) implies e < big by {
                                    assert(old(state).owns(e));
                                }
                            }
                            let n = if vs.len() < ss.len() {
                                vs.len()
                            } else {
                                ss.len()
                            };
                            let mut i: usize = 0;
                            while i < n
                                invariant
                                    *self == View::Fragment(*vs),
                                    0 <= i <= n,
                                    n <= vs@.len(),
                                    n == ss@.len() || n == vs@.len(),
                                    n <= ss@.len(),
                                    ss@.len() == ss0.len(),
                                    vc.entity == old(vc).entity,
                                    vc.entity < vc.host.nodes@.len(),
                                    vc.host.nodes@.len() >= big,
                                    big == old(vc).host.nodes@.len(),
                                    h0 == old(vc).host,
                                    *old(state) == ViewState::Fragment(ss0v),
                                    ss0 == ss0v@,
                                    forall|k: int| 0 <= k < ss0.len() ==> (#[trigger] ss0[k]).disjoint(),
                                    forall|k: int, l: int, e: usize|
                                        0 <= k < l < ss0.len() && #[trigger] ss0[k].owns(e) ==> !#[trigger] ss0[l].owns(e),
                                    forall|k: int, e: usize| 0 <= k < ss0.len() && #[trigger] ss0[k].owns(e) ==> e < big,
                                    forall|k: int, e: usize|
                                        0 <= k < i && #[trigger] ss@[k].owns(e) ==> ss0[k].owns(e) || (big <= e
                                            < vc.host.nodes@.len()),
                                    forall|k: int| i <= k < ss0.len() ==> #[trigger] ss@[k] == ss0[k],
                                    forall|k: int, l: int, e: usize|
                                        0 <= k < l < ss@.len() && #[trigger] ss@[k].owns(e) ==> !#[trigger] ss@[l].owns(e),
                                    forall|k: int| 0 <= k < i ==> in_sync(#[trigger] vs@[k], ss@[k], vc.host),
                                    forall|k: int| 0 <= k < i ==> (#[trigger] ss@[k]).disjoint(),
                                    forall|e: usize|
                                        (e as int) < big && (forall|k: int| 0 <= k < i ==> !#[trigger] ss0[k].owns(e))
                                            ==> untouched(h0.nodes@[e as int], #[trigger] vc.host.nodes@[e as int]),
                                    sync0 ==> vc.host == old(vc).host,
                                    sync0 ==> forall|k: int| 0 <= k < i ==> same_state(#[trigger] ss@[k], ss0[k]),
                                    sync0 ==> ss0.len() == vs@.len(),
                                    sync0 ==> forall|k: int| 0 <= k < ss0.len() ==> in_sync(#[trigger] vs@[k], ss0[k], old(vc).host),
                                decreases n - i,
                            {
                                proof {
                                    vstd::std_specs::vec::axiom_vec_index_decreases(*vs, i as int);
                                    assert(decreases_to!(*self => self->Fragment_0));
                                    assert(ss@[i as int] == ss0[i as int]);
                                }
                                let ghost before = ss@;
                                let ghost prev = vc.host;
                                vs[i].update(vc, &mut ss[i]);
                                proof {
                                    let ni = ss@[i as int];
                                    assert(ss@ == before.update(i as int, ni));
                                    assert forall|k: int, e: usize|
                                        0 <= k < i + 1 && #[trigger] ss@[k].owns(e) implies ss0[k].owns(e) || (big <= e
                                            < vc.host.nodes@.len()) by {
                                        if k < i {
                                            assert(ss@[k] == before[k]);
                                        }
                                    }
                                    assert forall|k: int| i + 1 <= k < ss0.len() implies #[trigger] ss@[k] == ss0[k] by {
                                        assert(ss@[k] == before[k]);
                                    }
                                    assert forall|k: int, l: int, e: usize|
                                        0 <= k < l < ss@.len() && #[trigger] ss@[k].owns(e) implies !#[trigger] ss@[l].owns(e) by {
                                        if k == i {
                                            assert(ss@[l] == ss0[l]);
                                            if ss@[l].owns(e) {
                                                assert(e < big);
                                                assert(ss0[i as int].owns(e));
                                            }
                                        } else if l == i {
                                            assert(ss@[k] == before[k]);
                                            if ss@[l].owns(e) {
                                                if ss0[k].owns(e) {
                                                    assert(e < big);
                                                    assert(ss0[i as int].owns(e));
                                                } else {
                                                    assert(e < prev.nodes@.len());
                                                    assert(ss0[i as int].owns(e));
                                                }
                                            }
                                        } else {
                                            assert(ss@[k] == before[k] && ss@[l] == before[l]);
                                        }
                                    }
                                    assert forall|k: int| 0 <= k < i + 1 implies in_sync(#[trigger] vs@[k], ss@[k], vc.host) by {
                                        if k < i {
                                            assert(ss@[k] == before[k]);
                                            assert forall|e: usize| #[trigger] ss@[k].owns(e) implies alike(
                                                prev.nodes@[e as int],
                                                vc.host.nodes@[e as int],
                                            ) by {
                                                if ss0[i as int].owns(e) {
                                                    if ss0[k].owns(e) {
                                                    } else {
                                                        assert(e < big);
                                                    }
                                                }
                                            }
                                            lemma_sync_frame(vs@[k], ss@[k], prev, vc.host);
                                        }
                                    }
                                    assert forall|k: int| 0 <= k < i + 1 implies (#[trigger] ss@[k]).disjoint() by {
                                        if k < i {
                                            assert(ss@[k] == before[k]);
                                        }
                                    }
                                    assert forall|e: usize|
                                        (e as int) < big && (forall|k: int| 0 <= k < i + 1 ==> !#[trigger] ss0[k].owns(e))
                                            implies untouched(h0.nodes@[e as int], #[trigger] vc.host.nodes@[e as int]) by {
                                        assert(!ss0[i as int].owns(e));
                                        assert(untouched(h0.nodes@[e as int], prev.nodes@[e as int]));
                                    }
                                    if sync0 {
                                        assert(ss@[i as int] == before.update(i as int, ss@[i as int])[i as int]);
                                        assert forall|k: int| 0 <= k < i + 1 implies same_state(#[trigger] ss@[k], ss0[k]) by {
                                            if k < i {
                                                assert(ss@[k] == before[k]);
                                            }
                                        }
                                    }
                                }
                                i = i + 1;
                            }
                            if vs.len() != ss.len() {
                                if ss.len() > vs.len() {
                                while ss.len() > vs.len()
                                    invariant
                                        *self == View::Fragment(*vs),
                                        vs@.len() <= ss@.len() <= ss0.len(),
                                        n == vs@.len(),
                                        vc.entity == old(vc).entity,
                                        vc.entity < vc.host.nodes@.len(),
                                        vc.host.nodes@.len() >= big,
                                        big == old(vc).host.nodes@.len(),
                                        h0 == old(vc).host,
                                        *old(state) == ViewState::Fragment(ss0v),
                                        ss0 == ss0v@,
                                        forall|k: int, e: usize| 0 <= k < ss0.len() && #[trigger] ss0[k].owns(e) ==> e < big,
                                        forall|k: int, l: int, e: usize|
                                            0 <= k < l < ss0.len() && #[trigger] ss0[k].owns(e) ==> !#[trigger] ss0[l].owns(e),
                                        forall|k: int, e: usize|
                                            0 <= k < n && #[trigger] ss@[k].owns(e) ==> ss0[k].owns(e) || (big <= e
                                                < vc.host.nodes@.len()),
                                        forall|k: int| n <= k < ss@.len() ==> #[trigger] ss@[k] == ss0[k],
                                        forall|k: int, l: int, e: usize|
                                            0 <= k < l < ss@.len() && #[trigger] ss@[k].owns(e) ==> !#[trigger] ss@[l].owns(e),
                                        forall|k: int| 0 <= k < n ==> in_sync(#[trigger] vs@[k], ss@[k], vc.host),
                                        forall|k: int| 0 <= k < n ==> (#[trigger] ss@[k]).disjoint(),
                                        forall|e: usize|
                                            (e as int) < big && (forall|k: int| 0 <= k < ss0.len() ==> !#[trigger] ss0[k].owns(e))
                                                ==> untouched(h0.nodes@[e as int], #[trigger] vc.host.nodes@[e as int]),
                                    decreases ss@.len(),
                                {
                                    let ghost before = ss@;
                                    let ghost prev = vc.host;
                                    let ghost m = (ss@.len() - 1) as int;
                                    match ss.pop() {
                                        Some(last) => last.raze(vc),
                                        None => {},
                                    }
                                    proof {
                                        assert(ss@ =~= before.drop_last());
                                        assert(before[m] == ss0[m]);
                                        assert forall|k: int| 0 <= k < n implies in_sync(#[trigger] vs@[k], ss@[k], vc.host) by {
                                            assert(ss@[k] == before[k]);
                                            assert forall|e: usize| #[trigger] ss@[k].owns(e) implies alike(
                                                prev.nodes@[e as int],
                                                vc.host.nodes@[e as int],
                                            ) by {
                                                assert(!before[m].owns(e));
                                                if ss0[k].owns(e) {
                                                    assert(e < big);
                                                }
                                            }
                                            lemma_sync_frame(vs@[k], ss@[k], prev, vc.host);
                                        }
                                        assert forall|e: usize|
                                            (e as int) < big && (forall|k: int| 0 <= k < ss0.len() ==> !#[trigger] ss0[k].owns(e))
                                                implies untouched(h0.nodes@[e as int], #[trigger] vc.host.nodes@[e as int]) by {
                                            assert(!ss0[m].owns(e));
                                            assert(untouched(h0.nodes@[e as int], prev.nodes@[e as int]));
                                        }
                                        assert forall|k: int, l: int, e: usize|
                                            0 <= k < l < ss@.len() && #[trigger] ss@[k].owns(e) implies !#[trigger] ss@[l].owns(e) by {
                                            assert(ss@[k] == before[k] && ss@[l] == before[l]);
                                        }
                                    }
                                }
                                } else {
                                while ss.len() < vs.len()
                                    invariant
                                        *self == View::Fragment(*vs),
                                        ss0.len() <= ss@.len() <= vs@.len(),
                                        n == ss0.len(),
                                        vc.entity == old(vc).entity,
                                        vc.entity < vc.host.nodes@.len(),
                                        vc.host.nodes@.len() >= big,
                                        big == old(vc).host.nodes@.len(),
                                        h0 == old(vc).host,
                                        *old(state) == ViewState::Fragment(ss0v),
                                        ss0 == ss0v@,
                                        forall|k: int, e: usize| 0 <= k < ss0.len() && #[trigger] ss0[k].owns(e) ==> e < big,
                                        forall|k: int, e: usize|
                                            0 <= k < ss@.len() && #[trigger] ss@[k].owns(e) ==> (k < n && ss0[k].owns(e)) || (big <= e
                                                < vc.host.nodes@.len()),
                                        forall|k: int, l: int, e: usize|
                                            0 <= k < l < ss@.len() && #[trigger] ss@[k].owns(e) ==> !#[trigger] ss@[l].owns(e),
                                        forall|k: int| 0 <= k < ss@.len() ==> in_sync(#[trigger] vs@[k], ss@[k], vc.host),
                                        forall|k: int| 0 <= k < ss@.len() ==> (#[trigger] ss@[k]).disjoint(),
                                        forall|e: usize|
                                            (e as int) < big && (forall|k: int| 0 <= k < ss0.len() ==> !#[trigger] ss0[k].owns(e))
                                                ==> untouched(h0.nodes@[e as int], #[trigger] vc.host.nodes@[e as int]),
                                    decreases vs@.len() - ss@.len(),
                                {
                                    proof {
                                        vstd::std_specs::vec::axiom_vec_index_decreases(*vs, ss@.len() as int);
                                        assert(decreases_to!(*self => self->Fragment_0));
                                    }
                                    let ghost before = ss@;
                                    let ghost prev = vc.host;
                                    let st = vs[ss.len()].build(vc);
                                    ss.push(st);
                                    proof {
                                        let m = before.len() as int;
                                        assert forall|k: int, e: usize|
                                            0 <= k < ss@.len() && #[trigger] ss@[k].owns(e) implies (k < n && ss0[k].owns(e)) || (big <= e
                                                < vc.host.nodes@.len()) by {
                                            if k < m {
                                                assert(ss@[k] == before[k]);
                                            }
                                        }
                                        assert forall|k: int, l: int, e: usize|
                                            0 <= k < l < ss@.len() && #[trigger] ss@[k].owns(e) implies !#[trigger] ss@[l].owns(e) by {
                                            assert(ss@[k] == before[k]);
                                            if l < m {
                                                assert(ss@[l] == before[l]);
                                            } else {
                                                if ss0[k].owns(e) && k < n {
                                                    assert(e < big);
                                                }
                                                assert(e < prev.nodes@.len());
                                            }
                                        }
                                        assert forall|k: int| 0 <= k < ss@.len() implies in_sync(#[trigger] vs@[k], ss@[k], vc.host) by {
                                            if k < m {
                                                assert(ss@[k] == before[k]);
                                                assert forall|e: usize| #[trigger] ss@[k].owns(e) implies alike(
                                                    prev.nodes@[e as int],
                                                    vc.host.nodes@[e as int],
                                                ) by {
                                                    if k < n && ss0[k].owns(e) {
                                                        assert(e < big);
                                                    }
                                                    assert(vc.host.nodes@.subrange(0, prev.nodes@.len() as int)[e as int]
                                                        == vc.host.nodes@[e as int]);
                                                }
                                                lemma_sync_frame(vs@[k], ss@[k], prev, vc.host);
                                            }
                                        }
                                        assert forall|k: int| 0 <= k < ss@.len() implies (#[trigger] ss@[k]).disjoint() by {
                                            if k < m {
                                                assert(ss@[k] == before[k]);
                                            }
                                        }
                                        assert forall|e: usize|
                                            (e as int) < big && (forall|k: int| 0 <= k < ss0.len() ==> !#[trigger] ss0[k].owns(e))
                                                implies untouched(h0.nodes@[e as int], #[trigger] vc.host.nodes@[e as int]) by {
                                            assert(untouched(h0.nodes@[e as int], prev.nodes@[e as int]));
                                            assert(vc.host.nodes@.subrange(0, prev.nodes@.len() as int)[e as int]
                                                == vc.host.nodes@[e as int]);
                                        }
                                    }
                                }
                                }
                                let ghost prev = vc.host;
                                vc.mark_changed_shape();
                                proof {
                                    assert forall|k: int| 0 <= k < ss@.len() implies in_sync(#[trigger] vs@[k], ss@[k], vc.host) by {
                                        assert forall|e: usize| #[trigger] ss@[k].owns(e) implies alike(
                                            prev.nodes@[e as int],
                                            vc.host.nodes@[e as int],
                                        ) by {}
                                        lemma_sync_frame(vs@[k], ss@[k], prev, vc.host);
                                    }
                                }
                            }
                            proof {
                                assert(ss@.len() == vs@.len());
                            }
                        },
                        _ => {},
                    }
                    proof {
                        assert(*state is Fragment);
                        let v = state->Fragment_0@;
                        assert forall|e: usize| #[trigger] state.owns(e) implies old(state).owns(e) || (big <= e
                            < vc.host.nodes@.len()) by {
                            let k = choose|k: int| 0 <= k < v.len() && (#[trigger] v[k]).owns(e);
                            if k < ss0v@.len() && ss0v@[k].owns(e) {
                                assert(old(state).owns(e));
                            }
                        }
                        assert forall|e: usize|
                            (e as int) < big && !#[trigger] old(state).owns(e) implies untouched(
                                h0.nodes@[e as int],
                                vc.host.nodes@[e as int],
                            ) by {
                            assert forall|k: int| 0 <= k < ss0v@.len() implies !#[trigger] ss0v@[k].owns(e) by {}
                        }
                    }
                }
            },
            View::Keyed(vs) => {
                let is_keyed = match &*state {
                    ViewState::Keyed(_) => true,
                    _ => false,
                };
                if !is_keyed {
                    self.rebuild(vc, state);
                } else {
                    let ghost sync0 = in_sync(*self, *old(state), old(vc).host);
                    let ghost ss0v = old(state)->Keyed_0;
                    let ghost big = old(vc).host.nodes@.len();
                    let ghost h0 = old(vc).host;
                    match state {
                        ViewState::Keyed(ss) => {
                            let ghost ss0 = ss@;
                            proof {
                                assert forall|k: int, e: usize|
                                    0 <= k < ss0.len() && #[trigger] ss0[k].1.owns(e) implies e < big by {
                                    assert(old(state).owns(e));
                                }
                            }
                            let mut same_keys = vs.len() == ss.len();
                            let mut i: usize = 0;
                            while same_keys && i < vs.len()
                                invariant
                                    0 <= i <= vs@.len(),
                                    ss@ == ss0,
                                    same_keys ==> vs@.len() == ss@.len(),
                                    same_keys ==> forall|k: int| 0 <= k < i ==> (#[trigger] vs@[k]).0 == ss@[k].0,
                                    sync0 ==> same_keys,
                                    sync0 ==> in_sync(*self, ViewState::Keyed(ss0v), old(vc).host),
                                    *self == View::Keyed(*vs),
                                    ss0 == ss0v@,
                                decreases vs@.len() - i,
                            {
                                if vs[i].0 != ss[i].0 {
                                    same_keys = false;
                                }
                                i = i + 1;
                            }
                            if same_keys {
                                let mut i: usize = 0;
                                while i < vs.len()
                                    invariant
                                        *self == View::Keyed(*vs),
                                        0 <= i <= vs@.len(),
                                        vs@.len() == ss@.len(),
                                        ss@.len() == ss0.len(),
                                        forall|k: int| 0 <= k < vs@.len() ==> (#[trigger] vs@[k]).0 == ss@[k].0,
                                        vc.entity == old(vc).entity,
                                        vc.entity < vc.host.nodes@.len(),
                                        vc.host.nodes@.len() >= big,
                                        big == old(vc).host.nodes@.len(),
                                        h0 == old(vc).host,
                                        *old(state) == ViewState::Keyed(ss0v),
                                        ss0 == ss0v@,
                                        forall|k: int| 0 <= k < ss0.len() ==> (#[trigger] ss0[k]).1.disjoint(),
                                        forall|k: int, l: int, e: usize|
                                            0 <= k < l < ss0.len() && #[trigger] ss0[k].1.owns(e) ==> !#[trigger] ss0[l].1.owns(e),
                                        forall|k: int, e: usize| 0 <= k < ss0.len() && #[trigger] ss0[k].1.owns(e) ==> e < big,
                                        forall|k: int, e: usize|
                                            0 <= k < i && #[trigger] ss@[k].1.owns(e) ==> ss0[k].1.owns(e) || (big <= e
                                                < vc.host.nodes@.len()),
                                        forall|k: int| i <= k < ss0.len() ==> #[trigger] ss@[k] == ss0[k],
                                        forall|k: int, l: int, e: usize|
                                            0 <= k < l < ss@.len() && #[trigger] ss@[k].1.owns(e) ==> !#[trigger] ss@[l].1.owns(e),
                                        forall|k: int| 0 <= k < i ==> in_sync(#[trigger] vs@[k].1, ss@[k].1, vc.host),
                                        forall|k: int| 0 <= k < i ==> (#[trigger] ss@[k]).1.disjoint(),
                                        forall|e: usize|
                                            (e as int) < big && (forall|k: int| 0 <= k < i ==> !#[trigger] ss0[k].1.owns(e))
                                                ==> untouched(h0.nodes@[e as int], #[trigger] vc.host.nodes@[e as int]),
                                        sync0 ==> vc.host == old(vc).host,
                                        sync0 ==> forall|k: int|
                                            0 <= k < i ==> (#[trigger] ss@[k]).0 == ss0[k].0 && same_state(
                                                ss@[k].1,
                                                ss0[k].1,
                                            ),
                                        sync0 ==> forall|k: int|
                                            0 <= k < ss0.len() ==> in_sync(#[trigger] vs@[k].1, ss0[k].1, old(vc).host),
                                    decreases vs@.len() - i,
                                {
                                    proof {
                                        vstd::std_specs::vec::axiom_vec_index_decreases(*vs, i as int);
                                        assert(decreases_to!(*self => self->Keyed_0));
                                        assert(ss@[i as int] == ss0[i as int]);
                                    }
                                    let ghost before = ss@;
                                    let ghost prev = vc.host;
                                    vs[i].1.update(vc, &mut ss[i].1);
                                    proof {
                                        let ni = ss@[i as int];
                                        assert(ss@ == before.update(i as int, ni));
                                        assert(ni.0 == before[i as int].0);
                                        assert forall|k: int| 0 <= k < vs@.len() implies (#[trigger] vs@[k]).0 == ss@[k].0 by {
                                            if k != i {
                                                assert(ss@[k] == before[k]);
                                            }
                                        }
                                        assert forall|k: int, e: usize|
                                            0 <= k < i + 1 && #[trigger] ss@[k].1.owns(e) implies ss0[k].1.owns(e) || (big <= e
                                                < vc.host.nodes@.len()) by {
                                            if k < i {
                                                assert(ss@[k] == before[k]);
                                            }
                                        }
                                        assert forall|k: int| i + 1 <= k < ss0.len() implies #[trigger] ss@[k] == ss0[k] by {
                                            assert(ss@[k] == before[k]);
                                        }
                                        assert forall|k: int, l: int, e: usize|
                                            0 <= k < l < ss@.len() && #[trigger] ss@[k].1.owns(e) implies !#[trigger] ss@[l].1.owns(
                                            e,
                                        ) by {
                                            if k == i {
                                                assert(ss@[l] == ss0[l]);
                                                if ss@[l].1.owns(e) {
                                                    assert(e < big);
                                                    assert(ss0[i as int].1.owns(e));
                                                }
                                            } else if l == i {
                                                assert(ss@[k] == before[k]);
                                                if ss@[l].1.owns(e) {
                                                    if ss0[k].1.owns(e) {
                                                        assert(e < big);
                                                        assert(ss0[i as int].1.owns(e));
                                                    } else {
                                                        assert(e < prev.nodes@.len());
                                                        assert(ss0[i as int].1.owns(e));
                                                    }
                                                }
                                            } else {
                                                assert(ss@[k] == before[k] && ss@[l] == before[l]);
                                            }
                                        }
                                        assert forall|k: int| 0 <= k < i + 1 implies in_sync(#[trigger] vs@[k].1, ss@[k].1, vc.host) by {
                                            if k < i {
                                                assert(ss@[k] == before[k]);
                                                assert forall|e: usize| #[trigger] ss@[k].1.owns(e) implies alike(
                                                    prev.nodes@[e as int],
                                                    vc.host.nodes@[e as int],
                                                ) by {
                                                    if ss0[i as int].1.owns(e) {
                                                        if !ss0[k].1.owns(e) {
                                                            assert(e < big);
                                                        }
                                                    }
                                                }
                                                lemma_sync_frame(vs@[k].1, ss@[k].1, prev, vc.host);
                                            }
                                        }
                                        assert forall|k: int| 0 <= k < i + 1 implies (#[trigger] ss@[k]).1.disjoint() by {
                                            if k < i {
                                                assert(ss@[k] == before[k]);
                                            }
                                        }
                                        assert forall|e: usize|
                                            (e as int) < big && (forall|k: int| 0 <= k < i + 1 ==> !#[trigger] ss0[k].1.owns(e))
                                                implies untouched(h0.nodes@[e as int], #[trigger] vc.host.nodes@[e as int]) by {
                                            assert(!ss0[i as int].1.owns(e));
                                            assert(untouched(h0.nodes@[e as int], prev.nodes@[e as int]));
                                        }
                                        if sync0 {
                                            assert forall|k: int|
                                                0 <= k < i + 1 implies (#[trigger] ss@[k]).0 == ss0[k].0 && same_state(
                                                    ss@[k].1,
                                                    ss0[k].1,
                                                ) by {
                                                if k < i {
                                                    assert(ss@[k] == before[k]);
                                                }
                                            }
                                        }
                                    }
                                    i = i + 1;
                                }
                            } else {
                                let n = ss.len();
                                let mut old_keys: Vec<u64> = Vec::new();
                                let mut i: usize = 0;
                                while i < n
                                    invariant
                                        n == ss@.len(),
                                        ss@ == ss0,
                                        0 <= i <= n,
                                        old_keys@.len() == i,
                                        forall|k: int| 0 <= k < i ==> #[trigger] old_keys@[k] == ss0[k].0,
                                    decreases n - i,
                                {
                                    old_keys.push(ss[i].0);
                                    i = i + 1;
                                }
                                let mut new_keys: Vec<u64> = Vec::new();
                                let mut j: usize = 0;
                                while j < vs.len()
                                    invariant
                                        0 <= j <= vs@.len(),
                                        new_keys@.len() == j,
                                        forall|k: int| 0 <= k < j ==> #[trigger] new_keys@[k] == vs@[k].0,
                                    decreases vs@.len() - j,
                                {
                                    new_keys.push(vs[j].0);
                                    j = j + 1;
                                }
                                // `taken[n - 1 - i]` holds the state of old position `i`
                                // until a new position reuses it.
                                let mut taken: Vec<Option<ViewState>> = Vec::new();
                                while ss.len() > 0
                                    invariant
                                        taken@.len() + ss@.len() == n,
                                        n == ss0.len(),
                                        ss@ == ss0.subrange(0, ss@.len() as int),
                                        forall|x: int| 0 <= x < taken@.len() ==> #[trigger] taken@[x] == Some(ss0[n - 1 - x].1),
                                    decreases ss@.len(),
                                {
                                    let ghost before = ss@;
                                    match ss.pop() {
                                        Some(entry) => {
                                            assert(entry == before[before.len() - 1]);
                                            taken.push(Some(entry.1));
                                        },
                                        None => {},
                                    }
                                    assert(ss@ =~= ss0.subrange(0, ss@.len() as int));
                                }
                                proof {
                                    assert(old_keys@ =~= state_keys(ss0));
                                    assert(new_keys@ =~= view_keys(vs@));
                                }
                                let plan = if old_keys.len() < usize::MAX && new_keys.len() < usize::MAX {
                                    Some(crate::lcs::diff_keys(&old_keys, &new_keys))
                                } else {
                                    None
                                };
                                proof {
                                    if plan is Some {
                                        assert(plan_facts(plan->Some_0, state_keys(ss0), view_keys(vs@)));
                                    }
                                }
                                let ghost mut src: Seq<int> = Seq::empty();
                                let mut out: Vec<(u64, ViewState)> = Vec::new();
                                let mut j: usize = 0;
                                while j < vs.len()
                                    invariant
                                        *self == View::Keyed(*vs),
                                        0 <= j <= vs@.len(),
                                        taken@.len() == n,
                                        n == ss0.len(),
                                        out@.len() == j,
                                        src.len() == j,
                                        plan is Some ==> plan_facts(plan->Some_0, state_keys(ss0), view_keys(vs@)),
                                        plan is None ==> !(n < usize::MAX && vs@.len() < usize::MAX),
                                        state_keys(ss0).len() == n,
                                        view_keys(vs@).len() == vs@.len(),
                                        forall|x: int|
                                            0 <= x < n && #[trigger] taken@[x] is None ==> plan is Some && exists|k: int|
                                                0 <= k < j && plan->Some_0.reuse@[k] == Some((n - 1 - x) as usize),
                                        forall|k: int|
                                            0 <= k < j ==> #[trigger] src[k] == if plan is Some && plan->Some_0.reuse@[k] is Some {
                                                plan->Some_0.reuse@[k]->Some_0 as int
                                            } else {
                                                -1
                                            },

                                        vc.entity == old(vc).entity,
                                        vc.entity < vc.host.nodes@.len(),
                                        vc.host.nodes@.len() >= big,
                                        big == old(vc).host.nodes@.len(),
                                        h0 == old(vc).host,
                                        forall|k: int| 0 <= k < ss0.len() ==> (#[trigger] ss0[k]).1.disjoint(),
                                        forall|k: int, l: int, e: usize|
                                            0 <= k < l < ss0.len() && #[trigger] ss0[k].1.owns(e) ==> !#[trigger] ss0[l].1.owns(e),
                                        forall|k: int, e: usize| 0 <= k < ss0.len() && #[trigger] ss0[k].1.owns(e) ==> e < big,
                                        forall|x: int| 0 <= x < n && #[trigger] taken@[x] is Some ==> taken@[x] == Some(ss0[n - 1 - x].1),
                                        forall|k: int| 0 <= k < j ==> -1 <= #[trigger] src[k] < n,
                                        forall|k: int| 0 <= k < j && #[trigger] src[k] >= 0 ==> taken@[n - 1 - src[k]] is None,
                                        forall|k: int, e: usize|
                                            0 <= k < j && #[trigger] out@[k].1.owns(e) ==> (src[k] >= 0 && ss0[src[k]].1.owns(e)) || (big <= e
                                                < vc.host.nodes@.len()),
                                        forall|k: int, l: int, e: usize|
                                            0 <= k < l < j && #[trigger] out@[k].1.owns(e) ==> !#[trigger] out@[l].1.owns(e),
                                        forall|k: int| 0 <= k < j ==> (#[trigger] out@[k]).0 == vs@[k].0 && in_sync(vs@[k].1, out@[k].1, vc.host),
                                        forall|k: int| 0 <= k < j ==> (#[trigger] out@[k]).1.disjoint(),
                                        forall|e: usize|
                                            (e as int) < big && (forall|k: int| 0 <= k < n ==> !#[trigger] ss0[k].1.owns(e))
                                                ==> untouched(h0.nodes@[e as int], #[trigger] vc.host.nodes@[e as int]),
                                        forall|x: int, e: usize|
                                            0 <= x < n && #[trigger] taken@[x] is Some && ss0[n - 1 - x].1.owns(e) ==> untouched(
                                h0.nodes@[e as int],
                                                #[trigger] vc.host.nodes@[e as int],
                                            ),
                                    decreases vs@.len() - j,
                                {
                                    proof {
                                        vstd::std_specs::vec::axiom_vec_index_decreases(*vs, j as int);
                                        assert(decreases_to!(*self => self->Keyed_0));
                                    }
                                    let reuse = match &plan {
                                        Some(p) => if j < p.reuse.len() {
                                            p.reuse[j]
                                        } else {
                                            None
                                        },
                                        None => None,
                                    };
                                    let ghost tk0 = taken@;
                                    proof {
                                        if plan is Some {
                                            assert(reuse == plan->Some_0.reuse@[j as int]);
                                            if reuse is Some {
                                                let i = reuse->Some_0;
                                                assert(i < n);
                                                if tk0[n - 1 - i] is None {
                                                    let k = choose|k: int|
                                                        0 <= k < j && plan->Some_0.reuse@[k] == Some(((n - 1) - (n - 1 - i)) as usize);
                                                    assert(plan->Some_0.reuse@[k] == reuse);
                                                }
                                            }
                                        } else {
                                            assert(reuse is None);
                                        }
                                    }
                                    let mut slot: Option<ViewState> = None;
                                    let mut from: usize = n;
                                    match reuse {
                                        Some(i) => {
                                            if i < n {
                                                std::mem::swap(&mut taken[n - 1 - i], &mut slot);
                                                from = i;
                                            }
                                        },
                                        None => {},
                                    }
                                    let ghost tk = taken@;
                                    let ghost prev = vc.host;
                                    let ghost was_some = slot is Some;
                                    let st = match slot {
                                        Some(prevst) => {
                                            let mut s = prevst;
                                            proof {
                                                assert(s == ss0[from as int].1);
                                                assert forall|e: usize| #[trigger] s.owns(e) implies e < prev.nodes@.len() by {
                                                    assert(ss0[from as int].1.owns(e));
                                                }
                                            }
                                            vs[j].1.update(vc, &mut s);
                                            s
                                        },
                                        None => vs[j].1.build(vc),
                                    };
                                    let ghost before = out@;
                                    out.push((vs[j].0, st));
                                    proof {
                                        let sj: int = if was_some { from as int } else { -1 };
                                        src = src.push(sj);
                                        assert(was_some == (reuse is Some));
                                        assert forall|x: int|
                                            0 <= x < n && #[trigger] taken@[x] is None implies plan is Some && exists|k: int|
                                                0 <= k < j + 1 && plan->Some_0.reuse@[k] == Some((n - 1 - x) as usize) by {
                                            if tk0[x] is None {
                                                let k = choose|k: int|
                                                    0 <= k < j && plan->Some_0.reuse@[k] == Some((n - 1 - x) as usize);
                                            } else {
                                                assert(x == n - 1 - from);
                                                assert(plan->Some_0.reuse@[j as int] == Some((n - 1 - x) as usize));
                                            }
                                        }
                                        if was_some {
                                            assert(tk[n - 1 - from] is None);
                                        }
                                        assert forall|k: int| 0 <= k < j + 1 && #[trigger] src[k] >= 0 implies taken@[n - 1 - src[k]] is None by {}
                                        assert forall|k: int, e: usize|
                                            0 <= k < j + 1 && #[trigger] out@[k].1.owns(e) implies (src[k] >= 0 && ss0[src[k]].1.owns(e)) || (big <= e
                                                < vc.host.nodes@.len()) by {
                                            if k < j {
                                                assert(out@[k] == before[k]);
                                            }
                                        }
                                        // the old state reused here was still in its slot
                                        assert forall|k: int| 0 <= k < j && was_some implies #[trigger] src[k] != from as int by {
                                            if src[k] == from as int {
                                                assert(tk[n - 1 - from] is None);
                                            }
                                        }
                                        assert forall|k: int, l: int, e: usize|
                                            0 <= k < l < j + 1 && #[trigger] out@[k].1.owns(e) implies !#[trigger] out@[l].1.owns(e) by {
                                            assert(out@[k] == before[k]);
                                            if l < j {
                                                assert(out@[l] == before[l]);
                                            } else if out@[l].1.owns(e) {
                                                if src[k] >= 0 && ss0[src[k]].1.owns(e) {
                                                    assert(e < big);
                                                    if was_some {
                                                        assert(src[k] != from as int);
                                                        assert(ss0[from as int].1.owns(e));
                                                        if src[k] < from as int {
                                                        } else {
                                                        }
                                                    }
                                                } else {
                                                    if was_some {
                                                        assert(ss0[from as int].1.owns(e));
                                                    }
                                                }
                                            }
                                        }
                                        assert forall|k: int| 0 <= k < j + 1 implies (#[trigger] out@[k]).0 == vs@[k].0 && in_sync(
                                            vs@[k].1,
                                            out@[k].1,
                                            vc.host,
                                        ) by {
                                            if k < j {
                                                assert(out@[k] == before[k]);
                                                assert forall|e: usize| #[trigger] out@[k].1.owns(e) implies alike(
                                                    prev.nodes@[e as int],
                                                    vc.host.nodes@[e as int],
                                                ) by {
                                                    if was_some {
                                                        if src[k] >= 0 && ss0[src[k]].1.owns(e) {
                                                            assert(src[k] != from as int);
                                                            assert(e < big);
                                                        }
                                                        if ss0[from as int].1.owns(e) {
                                                            assert(e < big);
                                                        }
                                                    } else {
                                                        assert(vc.host.nodes@.subrange(0, prev.nodes@.len() as int)[e as int]
                                                            == vc.host.nodes@[e as int]);
                                                    }
                                                }
                                                lemma_sync_frame(vs@[k].1, out@[k].1, prev, vc.host);
                                            }
                                        }
                                        assert forall|k: int| 0 <= k < j + 1 implies (#[trigger] out@[k]).1.disjoint() by {
                                            if k < j {
                                                assert(out@[k] == before[k]);
                                            }
                                        }
                                        assert forall|e: usize|
                                            (e as int) < big && (forall|k: int| 0 <= k < n ==> !#[trigger] ss0[k].1.owns(e))
                                                implies untouched(h0.nodes@[e as int], #[trigger] vc.host.nodes@[e as int]) by {
                                            assert(untouched(h0.nodes@[e as int], prev.nodes@[e as int]));
                                            if was_some {
                                                assert(!ss0[from as int].1.owns(e));
                                            } else {
                                                assert(vc.host.nodes@.subrange(0, prev.nodes@.len() as int)[e as int]
                                                    == vc.host.nodes@[e as int]);
                                            }
                                        }
                                        assert forall|x: int, e: usize|
                                            0 <= x < n && #[trigger] taken@[x] is Some && ss0[n - 1 - x].1.owns(e) implies untouched(
                                h0.nodes@[e as int],
                                                #[trigger] vc.host.nodes@[e as int],
                                            ) by {
                                            assert(untouched(h0.nodes@[e as int], prev.nodes@[e as int]));
                                            assert(e < big);
                                            if was_some {
                                                if x == n - 1 - from {
                                                    assert(taken@[x] is None);
                                                }
                                                assert(!ss0[from as int].1.owns(e));
                                            } else {
                                                assert(vc.host.nodes@.subrange(0, prev.nodes@.len() as int)[e as int]
                                                    == vc.host.nodes@[e as int]);
                                            }
                                        }
                                    }
                                    j = j + 1;
                                }
                                let mut x: usize = 0;
                                while x < taken.len()
                                    invariant
                                        0 <= x <= n,
                                        taken@.len() == n,
                                        n == ss0.len(),
                                        out@.len() == vs@.len(),
                                        src.len() == vs@.len(),
                                        plan is Some ==> plan_facts(plan->Some_0, state_keys(ss0), view_keys(vs@)),
                                        plan is None ==> !(n < usize::MAX && vs@.len() < usize::MAX),
                                        state_keys(ss0).len() == n,
                                        view_keys(vs@).len() == vs@.len(),
                                        forall|x: int|
                                            0 <= x < n && #[trigger] taken@[x] is None ==> plan is Some && exists|k: int|
                                                0 <= k < vs@.len() && plan->Some_0.reuse@[k] == Some((n - 1 - x) as usize),
                                        forall|k: int|
                                            0 <= k < vs@.len() ==> #[trigger] src[k] == if plan is Some && plan->Some_0.reuse@[k] is Some {
                                                plan->Some_0.reuse@[k]->Some_0 as int
                                            } else {
                                                -1
                                            },
                                        forall|i: int, e: usize|
                                            0 <= i < n && n - 1 - i < x && taken@[n - 1 - i] is Some && #[trigger] ss0[i].1.owns(e)
                                                && (e as int) < big ==> !vc.host.nodes@[e as int].alive,
                                        vc.entity == old(vc).entity,
                                        vc.entity < vc.host.nodes@.len(),
                                        vc.host.nodes@.len() >= big,
                                        big == old(vc).host.nodes@.len(),
                                        h0 == old(vc).host,
                                        forall|k: int, l: int, e: usize|
                                            0 <= k < l < ss0.len() && #[trigger] ss0[k].1.owns(e) ==> !#[trigger] ss0[l].1.owns(e),
                                        forall|k: int, e: usize| 0 <= k < ss0.len() && #[trigger] ss0[k].1.owns(e) ==> e < big,
                                        forall|y: int| 0 <= y < n && #[trigger] taken@[y] is Some ==> taken@[y] == Some(ss0[n - 1 - y].1),
                                        forall|k: int| 0 <= k < vs@.len() ==> -1 <= #[trigger] src[k] < n,
                                        forall|k: int| 0 <= k < vs@.len() && #[trigger] src[k] >= 0 ==> taken@[n - 1 - src[k]] is None,
                                        forall|k: int, e: usize|
                                            0 <= k < vs@.len() && #[trigger] out@[k].1.owns(e) ==> (src[k] >= 0 && ss0[src[k]].1.owns(e)) || (big <= e
                                                < vc.host.nodes@.len()),
                                        forall|k: int| 0 <= k < vs@.len() ==> (#[trigger] out@[k]).0 == vs@[k].0 && in_sync(vs@[k].1, out@[k].1, vc.host),
                                        forall|e: usize|
                                            (e as int) < big && (forall|k: int| 0 <= k < n ==> !#[trigger] ss0[k].1.owns(e))
                                                ==> untouched(h0.nodes@[e as int], #[trigger] vc.host.nodes@[e as int]),
                                    decreases n - x,
                                {
                                    let ghost prev = vc.host;
                                    match &taken[x] {
                                        Some(s) => {
                                            s.raze(vc);
                                            proof {
                                                let oi = n - 1 - x;
                                                assert forall|i: int, e: usize|
                                                    0 <= i < n && n - 1 - i < x + 1 && taken@[n - 1 - i] is Some
                                                        && #[trigger] ss0[i].1.owns(e) && (e as int) < big
                                                        implies !vc.host.nodes@[e as int].alive by {
                                                    if i == oi {
                                                        assert(s.owns(e));
                                                    } else if !s.owns(e) {
                                                        assert(vc.host.nodes@[e as int] == prev.nodes@[e as int]);
                                                    }
                                                }
                                                assert(*s == ss0[oi].1);
                                                assert forall|k: int| 0 <= k < vs@.len() implies (#[trigger] out@[k]).0 == vs@[k].0
                                                    && in_sync(vs@[k].1, out@[k].1, vc.host) by {
                                                    assert forall|e: usize| #[trigger] out@[k].1.owns(e) implies alike(
                                                        prev.nodes@[e as int],
                                                        vc.host.nodes@[e as int],
                                                    ) by {
                                                        if src[k] >= 0 && ss0[src[k]].1.owns(e) {
                                                            assert(src[k] != oi);
                                                        }
                                                        if ss0[oi].1.owns(e) {
                                                            assert(e < big);
                                                        }
                                                    }
                                                    lemma_sync_frame(vs@[k].1, out@[k].1, prev, vc.host);
                                                }
                                                assert forall|e: usize|
                                                    (e as int) < big && (forall|k: int| 0 <= k < n ==> !#[trigger] ss0[k].1.owns(e))
                                                        implies untouched(h0.nodes@[e as int], #[trigger] vc.host.nodes@[e as int]) by {
                                                    assert(!ss0[oi].1.owns(e));
                                                    assert(untouched(h0.nodes@[e as int], prev.nodes@[e as int]));
                                                }
                                            }
                                        },
                                        None => {
                                            proof {
                                                assert forall|i: int, e: usize|
                                                    0 <= i < n && n - 1 - i < x + 1 && taken@[n - 1 - i] is Some
                                                        && #[trigger] ss0[i].1.owns(e) && (e as int) < big
                                                        implies !vc.host.nodes@[e as int].alive by {
                                                    assert(n - 1 - i != x);
                                                }
                                            }
                                        },
                                    }
                                    x = x + 1;
                                }
                                *ss = out;
                                let ghost prev = vc.host;
                                vc.mark_changed_shape();
                                proof {
                                    if n < usize::MAX && vs@.len() < usize::MAX {
                                        let pl = plan->Some_0;
                                        let m = pl.matched@;
                                        assert forall|p: int, e: usize|
                                            0 <= p < m.len() && #[trigger] ss@[m[p].1 as int].1.owns(e) implies ss0[m[p].0 as int].1.owns(e)
                                                || h0.nodes@.len() <= e by {
                                            let jj = m[p].1 as int;
                                            assert(pl.reuse@[jj] == Some(m[p].0));
                                            assert(src[jj] == m[p].0 as int);
                                        }
                                        assert forall|i: int, e: usize|
                                            0 <= i < ss0.len() && (forall|p: int| 0 <= p < m.len() ==> #[trigger] m[p].0 != i)
                                                && #[trigger] ss0[i].1.owns(e) && (e as int) < h0.nodes@.len()
                                                implies !vc.host.nodes@[e as int].alive by {
                                            if taken@[n - 1 - i] is None {
                                                let k = choose|k: int|
                                                    0 <= k < vs@.len() && pl.reuse@[k] == Some(((n - 1) - (n - 1 - i)) as usize);
                                                assert(!(pl.reuse@[k] is None));
                                                let p = choose|p: int| 0 <= p < m.len() && !(#[trigger] m[p].1 != k);
                                                assert(pl.reuse@[m[p].1 as int] == Some(m[p].0));
                                                assert(m[p].0 as int == i);
                                            }
                                            assert(!prev.nodes@[e as int].alive);
                                        }
                                        assert forall|j: int, e: usize|
                                            0 <= j < ss@.len() && (forall|p: int| 0 <= p < m.len() ==> #[trigger] m[p].1 != j)
                                                && #[trigger] ss@[j].1.owns(e) implies h0.nodes@.len() <= e by {
                                            assert(pl.reuse@[j] is None);
                                            assert(src[j] == -1);
                                        }
                                        assert(kept_on_lcs(m, vs@, ss0, ss@, h0, vc.host));
                                    }
                                }
                                proof {
                                    assert forall|k: int| 0 <= k < ss@.len() implies (#[trigger] vs@[k]).0 == ss@[k].0
                                        && in_sync(vs@[k].1, ss@[k].1, vc.host) by {
                                        assert forall|e: usize| #[trigger] ss@[k].1.owns(e) implies alike(
                                            prev.nodes@[e as int],
                                            vc.host.nodes@[e as int],
                                        ) by {}
                                        lemma_sync_frame(vs@[k].1, ss@[k].1, prev, vc.host);
                                    }
                                }
                            }
                        },
                        _ => {},
                    }
                    proof {
                        assert(*state is Keyed);
                        let v = state->Keyed_0@;
                        assert forall|e: usize| #[trigger] state.owns(e) implies old(state).owns(e) || (big <= e
                            < vc.host.nodes@.len()) by {
                            let k = choose|k: int| 0 <= k < v.len() && (#[trigger] v[k]).1.owns(e);
                        }
                        assert forall|e: usize|
                            (e as int) < big && !#[trigger] old(state).owns(e) implies untouched(
                                h0.nodes@[e as int],
                                vc.host.nodes@[e as int],
                            ) by {
                            assert forall|k: int| 0 <= k < ss0v@.len() implies !#[trigger] ss0v@[k].1.owns(e) by {}
                        }
                    }
                }
            },
            View::If(c, a, b) => {
                let same = match &*state {
                    ViewState::If(c2, _) => *c2 == *c,
                    _ => false,
                };
                if same {
                    match state {
                        ViewState::If(_, st) => {
                            proof {
                                assert forall|x: usize| old(state).owns(x) == (**st).owns(x) by {}
                            }
                            if *c {
                                a.update(vc, &mut **st);
                            } else {
                                b.update(vc, &mut **st);
                            }
                        },
                        _ => {},
                    }
                    proof {
                        assert forall|x: usize| #[trigger] state.owns(x) implies old(state).owns(x) || (old(
                            vc,
                        ).host.nodes@.len() <= x < vc.host.nodes@.len()) by {
                            assert(state.owns(x) == state->If_1.owns(x));
                        }
                    }
                } else {
                    self.rebuild(vc, state);
                }
            },
            View::Bind(bd) => {
                let mut target: usize = 0;
                let mut found = false;
                let mut same = false;
                match &*state {
                    ViewState::Presenter(e) => {
                        if *e < vc.host.nodes.len() && vc.host.nodes[*e].alive {
                            match &vc.host.nodes[*e].kind {
                                NodeKind::Presenter { presenter, props: held, .. } => {
                                    if *presenter == bd.presenter {
                                        target = *e;
                                        found = true;
                                        same = *held == bd.props;
                                    }
                                },
                                _ => {},
                            }
                        }
                    },
                    _ => {},
                }
                if found {
                    if !same {
                        vc.host.set_props(target, bd.props);
                    }
                    assert forall|x: usize| state.owns(x) == (x == target) by {}
                } else {
                    self.rebuild(vc, state);
                }
            },
        }
    }
    /// Materialises this view: spawns its host nodes, all of them new; no
    /// existing node changes.
    pub fn build(&self, vc: &mut ViewContext) -> (r: ViewState)
        ensures
            final(vc).entity == old(vc).entity,
            final(vc).host.nodes@.len() >= old(vc).host.nodes@.len(),
            final(vc).host.nodes@.subrange(0, old(vc).host.nodes@.len() as int)
                == old(vc).host.nodes@,
            forall|e: usize|
                #[trigger] r.owns(e) ==> old(vc).host.nodes@.len() <= e < final(vc).host.nodes@.len(),
            in_sync(*self, r, final(vc).host),
            r.disjoint(),
            forall|e: usize| #[trigger] r.owns(e) ==> presenter_output(final(vc).host, e).len() == 0,
            *self is Text ==> r == ViewState::Text(old(vc).host.nodes@.len() as usize) && final(vc).host.nodes@
                == old(vc).host.nodes@.push(fresh_node(NodeKind::Text(self->Text_0), None, false)),
            *self is Bind ==> {
                let e = old(vc).host.nodes@.len() as int;
                let n = final(vc).host.nodes@[e];
                &&& r == ViewState::Presenter(e as usize)
                &&& final(vc).host.nodes@.len() == e + 1
                &&& n.alive && n.dirty && !n.shape_changed
                &&& n.parent == Some(old(vc).entity)
                &&& n.kind is Presenter && n.kind->presenter == self->Bind_0.presenter
                &&& n.kind->props == self->Bind_0.props && n.kind->output@.len() == 0
            },
        decreases self,
    {
        match self {
            View::Empty => {
                assert(vc.host.nodes@.subrange(0, vc.host.nodes@.len() as int) =~= vc.host.nodes@);
                let r = ViewState::Empty;
                assert forall|e: usize| !r.owns(e) by {}
                r
            },
            View::Text(s) => {
                let e = vc.host.spawn(NodeKind::Text(s.clone()), None, false);
                assert(vc.host.nodes@.subrange(0, e as int) =~= old(vc).host.nodes@);
                let r = ViewState::Text(e);
                assert forall|x: usize| r.owns(x) == (x == e) by {}
                r
            },
            View::Fragment(vs) => {
                let ghost start = vc.host.nodes@;
                let mut out: Vec<ViewState> = Vec::new();
                let mut i: usize = 0;
                assert(vc.host.nodes@.subrange(0, start.len() as int) =~= start);
                while i < vs.len()
                    invariant
                        *self == View::Fragment(*vs),
                        0 <= i <= vs@.len(),
                        out@.len() == i,
                        vc.entity == old(vc).entity,
                        start == old(vc).host.nodes@,
                        vc.host.nodes@.len() >= start.len(),
                        vc.host.nodes@.subrange(0, start.len() as int) == start,
                        forall|k: int, e: usize|
                            0 <= k < i && #[trigger] out@[k].owns(e) ==> start.len() <= e
                                < vc.host.nodes@.len(),
                        forall|k: int| 0 <= k < i ==> in_sync(#[trigger] vs@[k], out@[k], vc.host),
                        forall|k: int| 0 <= k < i ==> (#[trigger] out@[k]).disjoint(),
                        forall|k: int, e: usize|
                            0 <= k < i && #[trigger] out@[k].owns(e) ==> presenter_output(vc.host, e).len() == 0,
                        forall|k: int, l: int, e: usize|
                            0 <= k < l < i && #[trigger] out@[k].owns(e) ==> !#[trigger] out@[l].owns(e),
                    decreases vs@.len() - i,
                {
                    proof {
                        vstd::std_specs::vec::axiom_vec_index_decreases(*vs, i as int);
                        assert(decreases_to!(*self => self->Fragment_0));
                    }
                    let ghost prev = vc.host;
                    let st = vs[i].build(vc);
                    proof {
                        assert forall|k: int| 0 <= k < i implies in_sync(#[trigger] vs@[k], out@[k], vc.host) by {
                            assert forall|e: usize| #[trigger] out@[k].owns(e) implies alike(
                                prev.nodes@[e as int],
                                vc.host.nodes@[e as int],
                            ) by {
                                assert(vc.host.nodes@.subrange(0, prev.nodes@.len() as int)[e as int]
                                    == vc.host.nodes@[e as int]);
                            }
                            lemma_sync_frame(vs@[k], out@[k], prev, vc.host);
                        }
                        assert(vc.host.nodes@.subrange(0, start.len() as int) =~= prev.nodes@.subrange(
                            0,
                            start.len() as int,
                        ));
                    }
                    let ghost before = out@;
                    out.push(st);
                    proof {
                        assert forall|k: int, l: int, e: usize|
                            0 <= k < l < i + 1 && #[trigger] out@[k].owns(e) implies !#[trigger] out@[l].owns(
                            e,
                        ) by {
                            if l == i {
                                assert(out@[k] == before[k]);
                                assert(e < prev.nodes@.len());
                            } else {
                                assert(out@[k] == before[k] && out@[l] == before[l]);
                            }
                        }
                        assert forall|k: int| 0 <= k < i + 1 implies (#[trigger] out@[k]).disjoint() by {
                            if k < i {
                                assert(out@[k] == before[k]);
                            }
                        }
                    }
                    i = i + 1;
                }
                let r = ViewState::Fragment(out);
                proof {
                    assert forall|e: usize| #[trigger] r.owns(e) implies start.len() <= e
                        < vc.host.nodes@.len() by {
                        let k = choose|k: int| 0 <= k < out@.len() && (#[trigger] out@[k]).owns(e);
                    }
                    assert forall|e: usize| #[trigger] r.owns(e) implies presenter_output(vc.host, e).len() == 0 by {
                        let k = choose|k: int| 0 <= k < out@.len() && (#[trigger] out@[k]).owns(e);
                    }
                }
                r
            },
            View::Keyed(vs) => {
                let ghost start = vc.host.nodes@;
                let mut out: Vec<(u64, ViewState)> = Vec::new();
                let mut i: usize = 0;
                assert(vc.host.nodes@.subrange(0, start.len() as int) =~= start);
                while i < vs.len()
                    invariant
                        *self == View::Keyed(*vs),
                        0 <= i <= vs@.len(),
                        out@.len() == i,
                        vc.entity == old(vc).entity,
                        start == old(vc).host.nodes@,
                        vc.host.nodes@.len() >= start.len(),
                        vc.host.nodes@.subrange(0, start.len() as int) == start,
                        forall|k: int, e: usize|
                            0 <= k < i && #[trigger] out@[k].1.owns(e) ==> start.len() <= e
                                < vc.host.nodes@.len(),
                        forall|k: int|
                            0 <= k < i ==> (#[trigger] vs@[k]).0 == out@[k].0 && in_sync(
                                vs@[k].1,
                                out@[k].1,
                                vc.host,
                            ),
                        forall|k: int| 0 <= k < i ==> (#[trigger] out@[k]).1.disjoint(),
                        forall|k: int, e: usize|
                            0 <= k < i && #[trigger] out@[k].1.owns(e) ==> presenter_output(vc.host, e).len() == 0,
                        forall|k: int, l: int, e: usize|
                            0 <= k < l < i && #[trigger] out@[k].1.owns(e) ==> !#[trigger] out@[l].1.owns(e),
                    decreases vs@.len() - i,
                {
                    proof {
                        vstd::std_specs::vec::axiom_vec_index_decreases(*vs, i as int);
                        assert(decreases_to!(*self => self->Keyed_0));
                    }
                    let ghost prev = vc.host;
                    let st = vs[i].1.build(vc);
                    proof {
                        assert forall|k: int| 0 <= k < i implies (#[trigger] vs@[k]).0 == out@[k].0 && in_sync(
                            vs@[k].1,
                            out@[k].1,
                            vc.host,
                        ) by {
                            assert forall|e: usize| #[trigger] out@[k].1.owns(e) implies alike(
                                prev.nodes@[e as int],
                                vc.host.nodes@[e as int],
                            ) by {
                                assert(vc.host.nodes@.subrange(0, prev.nodes@.len() as int)[e as int]
                                    == vc.host.nodes@[e as int]);
                            }
                            lemma_sync_frame(vs@[k].1, out@[k].1, prev, vc.host);
                        }
                        assert(vc.host.nodes@.subrange(0, start.len() as int) =~= prev.nodes@.subrange(
                            0,
                            start.len() as int,
                        ));
                    }
                    let ghost before = out@;
                    out.push((vs[i].0, st));
                    proof {
                        assert forall|k: int, l: int, e: usize|
                            0 <= k < l < i + 1 && #[trigger] out@[k].1.owns(e) implies !#[trigger] out@[l].1.owns(
                            e,
                        ) by {
                            if l == i {
                                assert(out@[k] == before[k]);
                                assert(e < prev.nodes@.len());
                            } else {
                                assert(out@[k] == before[k] && out@[l] == before[l]);
                            }
                        }
                        assert forall|k: int| 0 <= k < i + 1 implies (#[trigger] out@[k]).1.disjoint() by {
                            if k < i {
                                assert(out@[k] == before[k]);
                            }
                        }
                    }
                    i = i + 1;
                }
                let r = ViewState::Keyed(out);
                proof {
                    assert forall|e: usize| #[trigger] r.owns(e) implies start.len() <= e
                        < vc.host.nodes@.len() by {
                        let k = choose|k: int| 0 <= k < out@.len() && (#[trigger] out@[k]).1.owns(e);
                    }
                    assert forall|e: usize| #[trigger] r.owns(e) implies presenter_output(vc.host, e).len() == 0 by {
                        let k = choose|k: int| 0 <= k < out@.len() && (#[trigger] out@[k]).1.owns(e);
                    }
                }
                r
            },
            View::If(c, a, b) => {
                let st = if *c {
                    a.build(vc)
                } else {
                    b.build(vc)
                };
                let r = ViewState::If(*c, Box::new(st));
                assert forall|x: usize| r.owns(x) == st.owns(x) by {}
                r
            },
            View::Bind(bd) => {
                let parent = vc.entity;
                let e = vc.host.spawn(
                    NodeKind::Presenter { presenter: bd.presenter, props: bd.props, output: Vec::new() },
                    Some(parent),
                    true,
                );
                assert(vc.host.nodes@.subrange(0, e as int) =~= old(vc).host.nodes@);
                let r = ViewState::Presenter(e);
                assert forall|x: usize| r.owns(x) == (x == e) by {}
                r
            },
        }
    }
}

} // verus!
