use std::cell::Cell;

use quill::cx::{Cx, LocalSlots};
use quill::host::{HostGraph, NodeKind, ViewContext};
use quill::lcs::{diff_keys, lcs_matching};
use quill::node_span::NodeSpan;
use quill::presenter::{raze_tree, run_pass, PresenterState, Presenters};

use quill::tracking::{ComponentStore, DependencyRecord, ResourceStore};
use quill::view::{Bind, PresenterFn, PresenterId, View, ViewState};

fn root_context() -> ViewContext {
    let mut host = HostGraph::new();
    let root = host.spawn(NodeKind::Element, None, false);
    ViewContext::new(host, root)
}

fn text(s: &str) -> View {
    View::Text(s.to_string())
}

fn text_of(vc: &ViewContext, e: usize) -> Option<String> {
    match &vc.host.nodes[e].kind {
        NodeKind::Text(t) => Some(t.clone()),
        _ => None,
    }
}

fn keyed(items: &[(u64, &str)]) -> View {
    View::Keyed(items.iter().map(|(k, s)| (*k, text(s))).collect())
}

fn keyed_handles(state: &ViewState) -> Vec<(u64, usize)> {
    match state {
        ViewState::Keyed(v) => v
            .iter()
            .map(|(k, s)| match s {
                ViewState::Text(e) => (*k, *e),
                _ => panic!("expected a text child"),
            })
            .collect(),
        _ => panic!("expected a keyed state"),
    }
}

#[test]
fn flatten_fragment_keeps_order() {
    let a = NodeSpan::Fragment(vec![NodeSpan::Node(1), NodeSpan::Node(2)]);
    let b = NodeSpan::Empty;
    let c = NodeSpan::Fragment(vec![NodeSpan::Node(3), NodeSpan::Fragment(vec![NodeSpan::Node(4)])]);
    let mut expected = a.flatten();
    expected.extend(b.flatten());
    expected.extend(c.flatten());
    let all = NodeSpan::Fragment(vec![a, b, c]);
    assert_eq!(all.flatten(), expected);
    assert_eq!(all.flatten(), vec![1, 2, 3, 4]);
}

#[test]
fn flatten_single_and_empty() {
    assert_eq!(NodeSpan::Empty.flatten(), Vec::<u64>::new());
    assert_eq!(NodeSpan::Node(7).flatten(), vec![7]);
}

#[test]
fn lcs_of_swapped_middle() {
    // a b c d -> a c b d
    let old = vec![10, 20, 30, 40];
    let new = vec![10, 30, 20, 40];
    let m = lcs_matching(&old, &new);
    assert_eq!(m.len(), 3);
    assert_eq!(m[0], (0, 0));
    assert_eq!(m[2], (3, 3));
    assert!(m[1] == (1, 2) || m[1] == (2, 1));
}

#[test]
fn lcs_edge_cases() {
    assert_eq!(lcs_matching(&vec![], &vec![1, 2]), vec![]);
    assert_eq!(lcs_matching(&vec![1, 2, 3], &vec![1, 2, 3]), vec![(0, 0), (1, 1), (2, 2)]);
    assert_eq!(lcs_matching(&vec![1, 2], &vec![3, 4]), vec![]);
    assert_eq!(lcs_matching(&vec![5, 5], &vec![5]).len(), 1);
}

#[test]
fn diff_keys_plan() {
    let old = vec![10, 20, 30, 40];
    let new = vec![10, 30, 20, 40];
    let plan = diff_keys(&old, &new);
    assert_eq!(plan.matched.len(), 3);
    assert_eq!(plan.reuse[0], Some(0));
    assert_eq!(plan.reuse[3], Some(3));
    assert_eq!(plan.reuse.iter().filter(|r| r.is_none()).count(), 1);
    assert_eq!(plan.razed.len(), 1);
    assert!(plan.razed[0] == 1 || plan.razed[0] == 2);
}

#[test]
fn diff_keys_insert_and_remove() {
    let plan = diff_keys(&vec![1, 2, 3], &vec![0, 1, 3, 4]);
    assert_eq!(plan.matched, vec![(0, 1), (2, 2)]);
    assert_eq!(plan.reuse, vec![None, Some(0), Some(2), None]);
    assert_eq!(plan.razed, vec![1]);
}

#[test]
fn keyed_reorder_keeps_lcs_members() {
    let mut vc = root_context();
    let v1 = keyed(&[(1, "a"), (2, "b"), (3, "c"), (4, "d")]);
    let mut st = v1.build(&mut vc);
    let before = keyed_handles(&st);
    let nodes_before = vc.host.nodes.len();
    let v2 = keyed(&[(1, "a"), (3, "c"), (2, "b"), (4, "d")]);
    v2.update(&mut vc, &mut st);
    let after = keyed_handles(&st);
    assert_eq!(after.iter().map(|p| p.0).collect::<Vec<_>>(), vec![1, 3, 2, 4]);
    // a and d keep their nodes; of b and c exactly one does.
    assert_eq!(after[0].1, before[0].1);
    assert_eq!(after[3].1, before[3].1);
    let kept_b = after[2].1 == before[1].1;
    let kept_c = after[1].1 == before[2].1;
    assert!(kept_b != kept_c);
    // exactly one node was built, and exactly one razed
    assert_eq!(vc.host.nodes.len(), nodes_before + 1);
    assert_eq!(vc.host.live_count(), 1 + 4);
    assert!(vc.host.nodes[0].shape_changed);
    let spans = st.nodes(&vc).flatten();
    let texts: Vec<String> = spans.iter().map(|e| text_of(&vc, *e as usize).unwrap()).collect();
    assert_eq!(texts, vec!["a", "c", "b", "d"]);
}

#[test]
fn keyed_same_keys_patches_in_place() {
    let mut vc = root_context();
    let mut st = keyed(&[(1, "a"), (2, "b")]).build(&mut vc);
    let before = keyed_handles(&st);
    keyed(&[(1, "x"), (2, "y")]).update(&mut vc, &mut st);
    assert_eq!(keyed_handles(&st), before);
    assert_eq!(text_of(&vc, before[0].1), Some("x".to_string()));
    assert!(!vc.host.nodes[0].shape_changed);
}

#[test]
fn update_with_same_view_changes_nothing() {
    let mut vc = root_context();
    let v = View::Fragment(vec![
        text("a"),
        View::If(true, Box::new(text("yes")), Box::new(View::Empty)),
        View::Bind(Bind::new(1, 5)),
        keyed(&[(1, "k1"), (2, "k2")]),
    ]);
    let mut st = v.build(&mut vc);
    let host_before = vc.host.clone();
    let state_before = format!("{:?}", st);
    v.update(&mut vc, &mut st);
    assert_eq!(vc.host, host_before);
    assert_eq!(format!("{:?}", st), state_before);
    v.update(&mut vc, &mut st);
    assert_eq!(vc.host, host_before);
}

#[test]
fn raze_clears_every_node() {
    let mut vc = root_context();
    let v = View::Fragment(vec![
        text("a"),
        View::Fragment(vec![text("b"), text("c")]),
        View::If(false, Box::new(text("x")), Box::new(text("y"))),
        View::Bind(Bind::new(2, 0)),
        keyed(&[(9, "z")]),
    ]);
    let st = v.build(&mut vc);
    assert_eq!(vc.host.live_count(), 1 + 6);
    st.raze(&mut vc);
    assert_eq!(vc.host.live_count(), 1);
    assert!(vc.host.nodes[0].alive);
}

#[test]
fn if_switch_razes_old_branch_and_builds_new() {
    let mut vc = root_context();
    let a = || Box::new(text("A"));
    let b = || Box::new(text("B"));
    let mut st = View::If(true, a(), b()).build(&mut vc);
    let a_node = match &st {
        ViewState::If(true, inner) => match **inner {
            ViewState::Text(e) => e,
            _ => panic!("expected text"),
        },
        _ => panic!("expected the true branch"),
    };
    View::If(false, a(), b()).update(&mut vc, &mut st);
    assert!(!vc.host.nodes[a_node].alive);
    let span = st.nodes(&vc).flatten();
    assert_eq!(span.len(), 1);
    let b_node = span[0] as usize;
    assert_ne!(b_node, a_node);
    assert_eq!(text_of(&vc, b_node), Some("B".to_string()));
    match &st {
        ViewState::If(false, inner) => assert_eq!(inner.nodes(&vc).flatten(), span),
        _ => panic!("expected the false branch"),
    }
    assert!(vc.host.nodes[0].shape_changed);
}

#[test]
fn text_update_in_place() {
    let mut vc = root_context();
    let mut st = text("one").build(&mut vc);
    let e = match st {
        ViewState::Text(e) => e,
        _ => panic!(),
    };
    text("two").update(&mut vc, &mut st);
    assert_eq!(st, ViewState::Text(e));
    assert_eq!(text_of(&vc, e), Some("two".to_string()));
    assert!(!vc.host.nodes[0].shape_changed);
}

#[test]
fn text_update_rebuilds_missing_node() {
    let mut vc = root_context();
    let mut st = text("one").build(&mut vc);
    let e = match st {
        ViewState::Text(e) => e,
        _ => panic!(),
    };
    vc.host.despawn(e);
    text("one").update(&mut vc, &mut st);
    match st {
        ViewState::Text(n) => {
            assert_ne!(n, e);
            assert!(vc.host.nodes[n].alive);
            assert_eq!(text_of(&vc, n), Some("one".to_string()));
        },
        _ => panic!(),
    }
    assert!(vc.host.nodes[0].shape_changed);
}

#[test]
fn fragment_length_change() {
    let mut vc = root_context();
    let mut st = View::Fragment(vec![text("a"), text("b"), text("c")]).build(&mut vc);
    View::Fragment(vec![text("a")]).update(&mut vc, &mut st);
    assert_eq!(vc.host.live_count(), 2);
    assert!(vc.host.nodes[0].shape_changed);
    View::Fragment(vec![text("a"), text("d")]).update(&mut vc, &mut st);
    assert_eq!(vc.host.live_count(), 3);
    let texts: Vec<String> =
        st.nodes(&vc).flatten().iter().map(|e| text_of(&vc, *e as usize).unwrap()).collect();
    assert_eq!(texts, vec!["a", "d"]);
}

#[test]
fn empty_view_has_no_nodes() {
    let mut vc = root_context();
    let st = View::Empty.build(&mut vc);
    assert_eq!(st, ViewState::Empty);
    assert_eq!(st.nodes(&vc).flatten(), Vec::<u64>::new());
    assert_eq!(vc.host.nodes.len(), 1);
}

#[test]
fn gating_follows_read_resources_only() {
    let mut store: ResourceStore<u32> = ResourceStore::new();
    let r = store.insert(1);
    let q = store.insert(2);
    let mut cx = Cx::new(0, 0);
    assert_eq!(*cx.use_resource(&store, r), 1);
    let deps = cx.deps;
    assert!(!deps.is_stale(&store));
    store.set(q, 3);
    assert!(!deps.is_stale(&store));
    store.set(r, 4);
    assert!(deps.is_stale(&store));
    assert_eq!(store.tick(r), 1);
}

#[test]
fn resource_write_advances_tick() {
    let mut store: ResourceStore<u32> = ResourceStore::new();
    let r = store.insert(1);
    let mut cx = Cx::new(0, 0);
    cx.use_resource_mut(&mut store, r, 8);
    assert_eq!(*store.get(r), 8);
    assert_eq!(store.tick(r), 1);
    assert_eq!(cx.deps.reads, vec![(r, 0)]);
    assert!(cx.deps.is_stale(&store));
    assert!(!DependencyRecord::new().is_stale(&store));
}

#[test]
fn locals_persist_across_invocations() {
    let mut slots: LocalSlots<u32> = LocalSlots::new();
    let mut cx = Cx::new(0, 0);
    assert_eq!(cx.use_local(&mut slots, 5), 5);
    assert_eq!(cx.use_local(&mut slots, 6), 6);
    slots.set(0, 50);
    let mut cx2 = Cx::new(0, 0);
    assert_eq!(cx2.use_local(&mut slots, 99), 50);
    assert_eq!(cx2.use_local(&mut slots, 99), 6);
    assert_eq!(cx2.local_index, 2);
    assert_eq!(slots.slots.len(), 2);
}

struct Counting {
    calls: Cell<u32>,
    last_props: Cell<u64>,
}

impl Presenters<u32> for Counting {
    fn present(&self, _presenter: u64, cx: &mut Cx, _store: &mut ResourceStore<u32>) -> View {
        self.calls.set(self.calls.get() + 1);
        self.last_props.set(cx.props);
        View::Text(format!("count {}", cx.props))
    }
}

#[test]
fn props_bound_presenter_reinvokes_only_on_change() {
    let presenters = Counting { calls: Cell::new(0), last_props: Cell::new(0) };
    let mut store: ResourceStore<u32> = ResourceStore::new();
    let mut records: Vec<Option<PresenterState>> = Vec::new();
    let mut vc = root_context();
    let mut st = View::Bind(PresenterId(1).bind(1)).build(&mut vc);
    // the first invocation waits for the pass
    assert_eq!(presenters.calls.get(), 0);
    assert_eq!(run_pass(&presenters, &mut records, &mut vc, &mut store, &ComponentStore::new(0)).0, 1);
    assert_eq!(presenters.calls.get(), 1);
    assert_eq!(run_pass(&presenters, &mut records, &mut vc, &mut store, &ComponentStore::new(0)).0, 0);

    vc.entity = 0;
    View::Bind(Bind::new(1, 1)).update(&mut vc, &mut st);
    assert_eq!(run_pass(&presenters, &mut records, &mut vc, &mut store, &ComponentStore::new(0)).0, 0);
    assert_eq!(presenters.calls.get(), 1);

    vc.entity = 0;
    View::Bind(Bind::new(1, 2)).update(&mut vc, &mut st);
    assert_eq!(run_pass(&presenters, &mut records, &mut vc, &mut store, &ComponentStore::new(0)).0, 1);
    assert_eq!(presenters.calls.get(), 2);
    assert_eq!(presenters.last_props.get(), 2);
    assert_eq!(run_pass(&presenters, &mut records, &mut vc, &mut store, &ComponentStore::new(0)).0, 0);
    assert_eq!(presenters.calls.get(), 2);

    // the presenter's output is what its entity contributes
    vc.entity = 0;
    let out = st.nodes(&vc).flatten();
    assert_eq!(out.len(), 1);
    assert_eq!(text_of(&vc, out[0] as usize), Some("count 2".to_string()));
}

#[test]
fn razed_presenter_is_not_reentered() {
    let presenters = Counting { calls: Cell::new(0), last_props: Cell::new(0) };
    let mut store: ResourceStore<u32> = ResourceStore::new();
    let mut records: Vec<Option<PresenterState>> = Vec::new();
    let mut vc = root_context();
    let st = View::Bind(Bind::new(3, 0)).build(&mut vc);
    run_pass(&presenters, &mut records, &mut vc, &mut store, &ComponentStore::new(0));
    let e = match st {
        ViewState::Presenter(e) => e,
        _ => panic!(),
    };
    vc.entity = 0;
    st.raze(&mut vc);
    vc.host.set_dirty(e, true);
    assert_eq!(run_pass(&presenters, &mut records, &mut vc, &mut store, &ComponentStore::new(0)).0, 0);
    let rec = records[e].as_ref().unwrap();
    assert!(rec.razed);
    assert_eq!(vc.host.live_count(), 1);
    assert_eq!(presenters.calls.get(), 1);
}

#[test]
fn mark_changed_shape_sets_flag() {
    let mut vc = root_context();
    assert!(!vc.host.nodes[0].shape_changed);
    vc.mark_changed_shape();
    assert!(vc.host.nodes[0].shape_changed);
}

#[test]
fn component_reads_are_recorded() {
    let comps = ComponentStore::new(2);
    let mut cx = Cx::new(0, 0);
    assert!(cx.deps.components.is_empty());
    cx.track_component(&comps, 0, 1);
    assert_eq!(cx.deps.components, vec![(0, 1, 0)]);
}

#[test]
fn component_change_marks_reader_dirty() {
    let mut comps = ComponentStore::new(2);
    let e0 = comps.add_entity();
    let e1 = comps.add_entity();
    let mut cx = Cx::new(0, 0);
    cx.track_component(&comps, e1, 0);
    let deps = cx.deps;
    assert!(!deps.components_stale(&comps));
    comps.mark_changed(e0, 0);
    comps.mark_changed(e1, 1);
    assert!(!deps.components_stale(&comps));
    comps.mark_changed(e1, 0);
    assert!(deps.components_stale(&comps));
    assert_eq!(comps.tick(e1, 0), 1);
    assert_eq!(comps.tick(9, 9), 0);

    let mut vc = root_context();
    let state = View::Bind(Bind::new(4, 0)).build(&mut vc);
    let entity = match state {
        ViewState::Presenter(e) => e,
        _ => panic!(),
    };
    let mut ps = PresenterState::new(entity);
    ps.deps = deps;
    vc.host.set_dirty(entity, false);
    let store: ResourceStore<u32> = ResourceStore::new();
    ps.refresh(&mut vc.host, &store, &comps);
    assert!(vc.host.nodes[entity].dirty);
    assert!(ps.needs_run(&vc.host));
}

struct Reader {
    calls: Cell<u32>,
}

impl Presenters<u32> for Reader {
    fn present(&self, _presenter: u64, cx: &mut Cx, store: &mut ResourceStore<u32>) -> View {
        self.calls.set(self.calls.get() + 1);
        let v = *cx.use_resource(store, 0);
        View::Text(format!("{}", v))
    }
}

#[test]
fn resource_change_reinvokes_reader_once() {
    let presenters = Reader { calls: Cell::new(0) };
    let mut store: ResourceStore<u32> = ResourceStore::new();
    let r = store.insert(1);
    let q = store.insert(2);
    let comps = ComponentStore::new(0);
    let mut records: Vec<Option<PresenterState>> = Vec::new();
    let mut vc = root_context();
    View::Bind(Bind::new(1, 0)).build(&mut vc);
    assert_eq!(run_pass(&presenters, &mut records, &mut vc, &mut store, &comps).0, 1);
    store.set(q, 5);
    assert_eq!(run_pass(&presenters, &mut records, &mut vc, &mut store, &comps).0, 0);
    store.set(r, 7);
    assert_eq!(run_pass(&presenters, &mut records, &mut vc, &mut store, &comps).0, 1);
    assert_eq!(run_pass(&presenters, &mut records, &mut vc, &mut store, &comps).0, 0);
    assert_eq!(presenters.calls.get(), 2);
}

struct Nested;

impl Presenters<u32> for Nested {
    fn present(&self, presenter: u64, cx: &mut Cx, store: &mut ResourceStore<u32>) -> View {
        if presenter == 1 {
            View::Fragment(vec![text("head"), View::Bind(Bind::new(2, 0))])
        } else if *cx.use_resource(store, 0) == 0 {
            text("x")
        } else {
            View::Fragment(vec![text("y"), text("z")])
        }
    }
}

fn output_texts(vc: &ViewContext, e: usize) -> Vec<String> {
    match &vc.host.nodes[e].kind {
        NodeKind::Presenter { output, .. } => {
            output.iter().map(|h| text_of(vc, *h as usize).unwrap()).collect()
        },
        _ => panic!("expected a presenter"),
    }
}

#[test]
fn child_shape_change_reaches_parent_output() {
    let mut store: ResourceStore<u32> = ResourceStore::new();
    let r = store.insert(0);
    let comps = ComponentStore::new(0);
    let mut records: Vec<Option<PresenterState>> = Vec::new();
    let mut vc = root_context();
    let outer = match View::Bind(Bind::new(1, 0)).build(&mut vc) {
        ViewState::Presenter(e) => e,
        _ => panic!(),
    };
    assert_eq!(run_pass(&Nested, &mut records, &mut vc, &mut store, &comps).0, 1);
    assert_eq!(output_texts(&vc, outer), vec!["head"]);
    assert_eq!(run_pass(&Nested, &mut records, &mut vc, &mut store, &comps).0, 1);
    assert_eq!(output_texts(&vc, outer), vec!["head", "x"]);
    assert!(!vc.host.nodes[outer].shape_changed);
    store.set(r, 1);
    assert_eq!(run_pass(&Nested, &mut records, &mut vc, &mut store, &comps).0, 1);
    assert_eq!(output_texts(&vc, outer), vec!["head", "y", "z"]);
    assert!(vc.host.nodes[0].shape_changed);
    assert_eq!(run_pass(&Nested, &mut records, &mut vc, &mut store, &comps).0, 0);
}

#[test]
fn raze_tree_clears_nested_presenters_at_once() {
    let mut store: ResourceStore<u32> = ResourceStore::new();
    store.insert(0);
    let comps = ComponentStore::new(0);
    let mut records: Vec<Option<PresenterState>> = Vec::new();
    let mut vc = root_context();
    let st = View::Fragment(vec![text("top"), View::Bind(Bind::new(1, 0))]).build(&mut vc);
    run_pass(&Nested, &mut records, &mut vc, &mut store, &comps);
    run_pass(&Nested, &mut records, &mut vc, &mut store, &comps);
    // root, "top", outer presenter, "head", inner presenter, "x"
    assert_eq!(vc.host.live_count(), 6);
    vc.entity = 0;
    raze_tree(&st, &mut records, &mut vc);
    assert_eq!(vc.host.live_count(), 1);
    assert!(records.iter().flatten().all(|r| r.razed));
}

#[test]
fn equal_value_write_still_reinvokes_reader() {
    let presenters = Reader { calls: Cell::new(0) };
    let mut store: ResourceStore<u32> = ResourceStore::new();
    let r = store.insert(3);
    let comps = ComponentStore::new(0);
    let mut records: Vec<Option<PresenterState>> = Vec::new();
    let mut vc = root_context();
    View::Bind(Bind::new(1, 0)).build(&mut vc);
    assert_eq!(run_pass(&presenters, &mut records, &mut vc, &mut store, &comps).0, 1);
    store.set(r, 3);
    assert_eq!(run_pass(&presenters, &mut records, &mut vc, &mut store, &comps).0, 1);
    assert_eq!(run_pass(&presenters, &mut records, &mut vc, &mut store, &comps).0, 0);
    assert_eq!(presenters.calls.get(), 2);
}

#[test]
fn text_state_span_is_its_node() {
    let mut vc = root_context();
    let st = text("t").build(&mut vc);
    let e = match st {
        ViewState::Text(e) => e,
        _ => panic!(),
    };
    assert_eq!(st.nodes(&vc), NodeSpan::Node(e as u64));
    assert_eq!(st.nodes(&vc), st.nodes(&vc));
}
