use vstd::prelude::*;

verus! {

/// The host-graph node handles produced by a view: none, one, or an ordered
/// list of nested spans.
#[derive(Debug, PartialEq, Eq)]
pub enum NodeSpan {
    Empty,
    Node(u64),
    Fragment(Vec<NodeSpan>),
}

impl NodeSpan {
    /// The leaf handles of this span, in order.
    pub open spec fn flat(self) -> Seq<u64>
        decreases self,
    {
        match self {
            NodeSpan::Empty => Seq::empty(),
            NodeSpan::Node(h) => seq![h],
            NodeSpan::Fragment(v) => flat_all(v@),
        }
    }

    /// Appends the leaf handles of this span, in order, to `out`.
    pub fn flatten_into(&self, out: &mut Vec<u64>)
        ensures
            final(out)@ == old(out)@ + self.flat(),
        decreases self,
    {
        match self {
            NodeSpan::Empty => {
                assert(old(out)@ + Seq::<u64>::empty() =~= old(out)@);
            },
            NodeSpan::Node(h) => {
                out.push(*h);
            },
            NodeSpan::Fragment(v) => {
                let ghost start = out@;
                let mut i: usize = 0;
                while i < v.len()
                    invariant
                        0 <= i <= v.len(),
                        *self == NodeSpan::Fragment(*v),
                        out@ == start + flat_all(v@.subrange(0, i as int)),
                    decreases v.len() - i,
                {
                    proof {
                        vstd::std_specs::vec::axiom_vec_index_decreases(*v, i as int);
                        assert(decreases_to!(*self => self->Fragment_0));
                    }
                    v[i].flatten_into(out);
                    assert(v@.subrange(0, i + 1).drop_last() =~= v@.subrange(0, i as int));
                    assert(out@ =~= start + flat_all(v@.subrange(0, i + 1)));
                    i = i + 1;
                }
                assert(v@.subrange(0, v.len() as int) =~= v@);
            },
        }
    }

    /// The leaf handles of this span, in order.
    pub fn flatten(&self) -> (r: Vec<u64>)
        ensures
            r@ == self.flat(),
    {
        let mut out: Vec<u64> = Vec::new();
        self.flatten_into(&mut out);
        assert(Seq::<u64>::empty() + self.flat() =~= self.flat());
        out
    }
}

/// The concatenation, in order, of the leaf handles of each span in `s`.
pub open spec fn flat_all(s: Seq<NodeSpan>) -> Seq<u64>
    decreases s,
{
    if s.len() == 0 {
        Seq::empty()
    } else {
        flat_all(s.drop_last()) + s.last().flat()
    }
}

/// Flattening is order-preserving: the leaves of a run of spans placed after
/// another run are the leaves of the first run followed by those of the second.
pub proof fn lemma_flat_all_concat(a: Seq<NodeSpan>, b: Seq<NodeSpan>)
    ensures
        flat_all(a + b) == flat_all(a) + flat_all(b),
    decreases b.len(),
{
    if b.len() == 0 {
        assert(a + b =~= a);
        assert(flat_all(a) + Seq::<u64>::empty() =~= flat_all(a));
    } else {
        lemma_flat_all_concat(a, b.drop_last());
        assert((a + b).drop_last() =~= a + b.drop_last());
        assert((a + b).last() == b.last());
        assert(flat_all(a + b) =~= flat_all(a) + flat_all(b));
    }
}

/// A fragment of three spans flattens to the leaves of the first, then of the
/// second, then of the third, whatever each of them holds.
pub proof fn lemma_fragment_of_three(v: Vec<NodeSpan>)
    requires
        v@.len() == 3,
    ensures
        NodeSpan::Fragment(v).flat() == v@[0].flat() + v@[1].flat() + v@[2].flat(),
{
    let s = v@;
    assert(s.drop_last().drop_last().drop_last() =~= Seq::<NodeSpan>::empty());
    assert(s.drop_last().drop_last().last() == s[0]);
    assert(s.drop_last().last() == s[1]);
    assert(Seq::<u64>::empty() + s[0].flat() =~= s[0].flat());
    assert(flat_all(Seq::<NodeSpan>::empty()) == Seq::<u64>::empty());
    assert(flat_all(s.drop_last().drop_last()) == s[0].flat());
    assert(flat_all(s.drop_last()) == s[0].flat() + s[1].flat());
    assert(flat_all(s) == s[0].flat() + s[1].flat() + s[2].flat());
}

} // verus!
