use vstd::prelude::*;

verus! {

/// `m` pairs positions of `a` (from `i` on) with positions of `b` (from `j`
/// on) that hold equal keys, strictly increasing in both sequences: a common
/// subsequence of the two suffixes.
pub open spec fn is_matching(a: Seq<u64>, b: Seq<u64>, m: Seq<(usize, usize)>, i: int, j: int) -> bool {
    &&& forall|p: int|
        0 <= p < m.len() ==> i <= (#[trigger] m[p]).0 < a.len() && j <= m[p].1 < b.len()
            && a[m[p].0 as int] == b[m[p].1 as int]
    &&& forall|p: int, q: int|
        0 <= p < q < m.len() ==> (#[trigger] m[p]).0 < (#[trigger] m[q]).0 && m[p].1 < m[q].1
}

/// Length of a longest common subsequence of `a[i..]` and `b[j..]`.
pub open spec fn lcs_from(a: Seq<u64>, b: Seq<u64>, i: int, j: int) -> nat
    decreases a.len() - i + b.len() - j,
{
    if i < 0 || j < 0 || i >= a.len() || j >= b.len() {
        0
    } else {
        let skip = vstd::math::max(lcs_from(a, b, i + 1, j) as int, lcs_from(a, b, i, j + 1) as int);
        if a[i] == b[j] {
            vstd::math::max(1 + lcs_from(a, b, i + 1, j + 1) as int, skip) as nat
        } else {
            skip as nat
        }
    }
}

/// No common subsequence of `a[i..]` and `b[j..]` is longer than `lcs_from`.
pub proof fn lemma_matching_bounded(a: Seq<u64>, b: Seq<u64>, m: Seq<(usize, usize)>, i: int, j: int)
    requires
        0 <= i,
        0 <= j,
        is_matching(a, b, m, i, j),
    ensures
        m.len() <= lcs_from(a, b, i, j),
    decreases a.len() - i + b.len() - j,
{
    if m.len() > 0 {
        let p = m[0].0 as int;
        let q = m[0].1 as int;
        if p > i {
            assert forall|x: int| 0 <= x < m.len() implies i + 1 <= (#[trigger] m[x]).0 by {
                if x > 0 {
                    assert(m[0].0 < m[x].0);
                }
            }
            lemma_matching_bounded(a, b, m, i + 1, j);
        } else if q > j {
            assert forall|x: int| 0 <= x < m.len() implies j + 1 <= (#[trigger] m[x]).1 by {
                if x > 0 {
                    assert(m[0].1 < m[x].1);
                }
            }
            lemma_matching_bounded(a, b, m, i, j + 1);
        } else {
            let rest = m.drop_first();
            assert forall|x: int| 0 <= x < rest.len() implies i + 1 <= (#[trigger] rest[x]).0 && j + 1
                <= rest[x].1 by {
                assert(m[0].0 < m[x + 1].0);
            }
            assert forall|x: int, y: int| 0 <= x < y < rest.len() implies (#[trigger] rest[x]).0 < (
            #[trigger] rest[y]).0 && rest[x].1 < rest[y].1 by {
                assert(rest[x] == m[x + 1] && rest[y] == m[y + 1]);
            }
            lemma_matching_bounded(a, b, rest, i + 1, j + 1);
        }
    }
}

/// A common subsequence of `a[i..]` and `b[j..]` is no longer than `a[i..]`.
pub proof fn lemma_lcs_from_le(a: Seq<u64>, b: Seq<u64>, i: int, j: int)
    requires
        0 <= i <= a.len(),
        0 <= j <= b.len(),
    ensures
        lcs_from(a, b, i, j) <= a.len() - i,
    decreases a.len() - i + b.len() - j,
{
    if i < a.len() && j < b.len() {
        lemma_lcs_from_le(a, b, i + 1, j);
        lemma_lcs_from_le(a, b, i, j + 1);
        lemma_lcs_from_le(a, b, i + 1, j + 1);
    }
}

/// A longest common subsequence of `a` and `b`, as the increasing list of
/// matched (position in `a`, position in `b`) pairs.
pub fn lcs_matching(a: &Vec<u64>, b: &Vec<u64>) -> (r: Vec<(usize, usize)>)
    requires
        a@.len() < usize::MAX,
        b@.len() < usize::MAX,
    ensures
        is_matching(a@, b@, r@, 0, 0),
        r@.len() == lcs_from(a@, b@, 0, 0),
        forall|m: Seq<(usize, usize)>| is_matching(a@, b@, m, 0, 0) ==> m.len() <= r@.len(),
{
    let n = a.len();
    let k = b.len();
    let ghost sa = a@;
    let ghost sb = b@;
    // rows[c] holds, for each j, the value of lcs_from at (n - c, j).
    let mut rows: Vec<Vec<usize>> = Vec::new();
    rows.push(vec![0usize; k + 1]);
    let mut c: usize = 0;
    while c < n
        invariant
            n == a@.len(),
            k == b@.len(),
            k < usize::MAX,
            sa == a@,
            sb == b@,
            0 <= c <= n,
            rows@.len() == c + 1,
            forall|r: int| 0 <= r < rows@.len() ==> (#[trigger] rows@[r])@.len() == k + 1,
            forall|r: int, jj: int|
                0 <= r < rows@.len() && 0 <= jj <= k ==> #[trigger] rows@[r]@[jj] == lcs_from(
                    sa,
                    sb,
                    n - r,
                    jj,
                ),
        decreases n - c,
    {
        let i = n - 1 - c;
        let below = &rows[c];
        let mut row: Vec<usize> = vec![0usize; k + 1];
        let mut j: usize = k;
        while j > 0
            invariant
                n == a@.len(),
                k == b@.len(),
                k < usize::MAX,
                sa == a@,
                sb == b@,
                i < n,
                0 <= j <= k,
                row@.len() == k + 1,
                below@.len() == k + 1,
                forall|jj: int| 0 <= jj <= k ==> #[trigger] below@[jj] == lcs_from(sa, sb, i + 1, jj),
                forall|jj: int| j <= jj <= k ==> #[trigger] row@[jj] == lcs_from(sa, sb, i as int, jj),
            decreases j,
        {
            j = j - 1;
            proof {
                lemma_lcs_from_le(sa, sb, i + 1, j + 1);
            }
            let down = below[j];
            let right = row[j + 1];
            let skip = if down >= right {
                down
            } else {
                right
            };
            let v = if a[i] == b[j] {
                let diag = below[j + 1] + 1;
                if diag >= skip {
                    diag
                } else {
                    skip
                }
            } else {
                skip
            };
            row.set(j, v);
        }
        rows.push(row);
        c = c + 1;
    }
    let mut out: Vec<(usize, usize)> = Vec::new();
    let mut i: usize = 0;
    let mut j: usize = 0;
    while i < n && j < k
        invariant
            n == a@.len(),
            k == b@.len(),
            sa == a@,
            sb == b@,
            0 <= i <= n,
            0 <= j <= k,
            rows@.len() == n + 1,
            forall|r: int| 0 <= r < rows@.len() ==> (#[trigger] rows@[r])@.len() == k + 1,
            forall|r: int, jj: int|
                0 <= r < rows@.len() && 0 <= jj <= k ==> #[trigger] rows@[r]@[jj] == lcs_from(
                    sa,
                    sb,
                    n - r,
                    jj,
                ),
            is_matching(sa, sb, out@, 0, 0),
            forall|p: int| 0 <= p < out@.len() ==> (#[trigger] out@[p]).0 < i && out@[p].1 < j,
            out@.len() + lcs_from(sa, sb, i as int, j as int) == lcs_from(sa, sb, 0, 0),
        decreases n - i + k - j,
    {
        let here = rows[n - i][j];
        if a[i] == b[j] && here == rows[n - i - 1][j + 1] + 1 {
            let ghost before = out@;
            out.push((i, j));
            assert forall|p: int, q: int| 0 <= p < q < out@.len() implies (#[trigger] out@[p]).0 < (
            #[trigger] out@[q]).0 && out@[p].1 < out@[q].1 by {
                if q < before.len() {
                    assert(out@[p] == before[p] && out@[q] == before[q]);
                } else {
                    assert(out@[p] == before[p]);
                }
            }
            i = i + 1;
            j = j + 1;
        } else if here == rows[n - i - 1][j] {
            i = i + 1;
        } else {
            j = j + 1;
        }
    }
    proof {
        assert forall|m: Seq<(usize, usize)>| is_matching(sa, sb, m, 0, 0) implies m.len()
            <= out@.len() by {
            lemma_matching_bounded(sa, sb, m, 0, 0);
        }
    }
    out
}

/// The plan for reconciling a keyed list: which old children are kept (the
/// longest common subsequence of keys), which new positions reuse an old
/// child, and which old children are razed.
pub struct KeyedDiff {
    /// Kept children, as increasing (old position, new position) pairs.
    pub matched: Vec<(usize, usize)>,
    /// For each new position, the old position whose child is kept there, or
    /// `None` when a child must be built.
    pub reuse: Vec<Option<usize>>,
    /// The old positions, in increasing order, whose children are razed.
    pub razed: Vec<usize>,
}

/// Reconciliation plan from the keys `old_keys` to the keys `new_keys`: the
/// children on a longest common subsequence of keys survive in place, all
/// others are razed (old side) or built (new side).
pub fn diff_keys(old_keys: &Vec<u64>, new_keys: &Vec<u64>) -> (r: KeyedDiff)
    requires
        old_keys@.len() < usize::MAX,
        new_keys@.len() < usize::MAX,
    ensures
        is_matching(old_keys@, new_keys@, r.matched@, 0, 0),
        r.matched@.len() == lcs_from(old_keys@, new_keys@, 0, 0),
        forall|m: Seq<(usize, usize)>|
            is_matching(old_keys@, new_keys@, m, 0, 0) ==> m.len() <= r.matched@.len(),
        r.reuse@.len() == new_keys@.len(),
        forall|p: int|
            0 <= p < r.matched@.len() ==> r.reuse@[(#[trigger] r.matched@[p]).1 as int] == Some(
                r.matched@[p].0,
            ),
        forall|j: int|
            0 <= j < new_keys@.len() ==> (#[trigger] r.reuse@[j] is None <==> forall|p: int|
                0 <= p < r.matched@.len() ==> #[trigger] r.matched@[p].1 != j),
        forall|x: int, y: int| 0 <= x < y < r.razed@.len() ==> r.razed@[x] < r.razed@[y],
        forall|i: usize|
            i < old_keys@.len() ==> (r.razed@.contains(i) <==> forall|p: int|
                0 <= p < r.matched@.len() ==> #[trigger] r.matched@[p].0 != i),
        forall|x: int| 0 <= x < r.razed@.len() ==> r.razed@[x] < old_keys@.len(),
        forall|j: int|
            0 <= j < new_keys@.len() && (#[trigger] r.reuse@[j]) is Some ==> r.reuse@[j]->Some_0
                < old_keys@.len(),
        forall|j1: int, j2: int|
            0 <= j1 < new_keys@.len() && 0 <= j2 < new_keys@.len() && j1 != j2 && (#[trigger] r.reuse@[j1]) is Some
                ==> r.reuse@[j1] != #[trigger] r.reuse@[j2],
{
    let matched = lcs_matching(old_keys, new_keys);
    let ghost m = matched@;
    let mut reuse: Vec<Option<usize>> = Vec::new();
    let mut p: usize = 0;
    let mut j: usize = 0;
    while j < new_keys.len()
        invariant
            m == matched@,
            is_matching(old_keys@, new_keys@, m, 0, 0),
            0 <= j <= new_keys@.len(),
            0 <= p <= m.len(),
            reuse@.len() == j,
            forall|q: int| 0 <= q < p ==> (#[trigger] m[q]).1 < j,
            forall|q: int| p <= q < m.len() ==> (#[trigger] m[q]).1 >= j,
            forall|q: int| 0 <= q < p ==> reuse@[(#[trigger] m[q]).1 as int] == Some(m[q].0),
            forall|jj: int|
                0 <= jj < j ==> (#[trigger] reuse@[jj] is None <==> forall|q: int|
                    0 <= q < m.len() ==> #[trigger] m[q].1 != jj),
        decreases new_keys@.len() - j,
    {
        let ghost before = reuse@;
        if p < matched.len() && matched[p].1 == j {
            reuse.push(Some(matched[p].0));
            proof {
                assert forall|q: int| p + 1 <= q < m.len() implies (#[trigger] m[q]).1 >= j + 1 by {
                    assert(m[p as int].1 < m[q].1);
                }
                assert forall|q: int| 0 <= q < p + 1 implies reuse@[(#[trigger] m[q]).1 as int]
                    == Some(m[q].0) by {
                    if q < p {
                        assert(reuse@[m[q].1 as int] == before[m[q].1 as int]);
                    }
                }
            }
            p = p + 1;
        } else {
            reuse.push(None);
            proof {
                assert forall|q: int| 0 <= q < m.len() implies #[trigger] m[q].1 != j by {
                    if q >= p && q > p {
                        assert(m[p as int].1 < m[q].1);
                    }
                }
            }
        }
        proof {
            assert forall|jj: int| 0 <= jj < j implies #[trigger] reuse@[jj] == before[jj] by {}
        }
        j = j + 1;
    }
    let mut razed: Vec<usize> = Vec::new();
    let mut p: usize = 0;
    let mut i: usize = 0;
    while i < old_keys.len()
        invariant
            m == matched@,
            is_matching(old_keys@, new_keys@, m, 0, 0),
            0 <= i <= old_keys@.len(),
            0 <= p <= m.len(),
            forall|q: int| 0 <= q < p ==> (#[trigger] m[q]).0 < i,
            forall|q: int| p <= q < m.len() ==> (#[trigger] m[q]).0 >= i,
            forall|x: int, y: int| 0 <= x < y < razed@.len() ==> razed@[x] < razed@[y],
            forall|x: int| 0 <= x < razed@.len() ==> razed@[x] < i,
            forall|ii: usize|
                ii < i ==> (razed@.contains(ii) <==> forall|q: int|
                    0 <= q < m.len() ==> #[trigger] m[q].0 != ii),
        decreases old_keys@.len() - i,
    {
        let ghost before = razed@;
        let ghost p0 = p as int;
        if p < matched.len() && matched[p].0 == i {
            proof {
                assert forall|q: int| p + 1 <= q < m.len() implies (#[trigger] m[q]).0 >= i + 1 by {
                    assert(m[p as int].0 < m[q].0);
                }
            }
            p = p + 1;
            proof {
                assert forall|ii: usize|
                    ii < i + 1 implies (razed@.contains(ii) <==> forall|q: int|
                    0 <= q < m.len() ==> #[trigger] m[q].0 != ii) by {
                    if ii == i {
                        assert(m[p0].0 == i);
                        if razed@.contains(ii) {
                            let x = choose|x: int| 0 <= x < razed@.len() && razed@[x] == ii;
                            assert(razed@[x] < i);
                        }
                    }
                }
            }
        } else {
            razed.push(i);
            proof {
                assert forall|q: int| 0 <= q < m.len() implies #[trigger] m[q].0 != i by {
                    if q > p {
                        assert(m[p as int].0 < m[q].0);
                    }
                }
                assert(razed@[razed@.len() - 1] == i);
                assert forall|ii: usize|
                    ii < i + 1 implies (razed@.contains(ii) <==> forall|q: int|
                    0 <= q < m.len() ==> #[trigger] m[q].0 != ii) by {
                    if ii < i {
                        if razed@.contains(ii) {
                            let x = choose|x: int| 0 <= x < razed@.len() && razed@[x] == ii;
                            assert(x < before.len());
                            assert(before[x] == ii);
                        }
                        if before.contains(ii) {
                            let x = choose|x: int| 0 <= x < before.len() && before[x] == ii;
                            assert(razed@[x] == ii);
                        }
                    }
                }
            }
        }
        i = i + 1;
    }
    proof {
        assert forall|j: int|
            0 <= j < new_keys@.len() && (#[trigger] reuse@[j]) is Some implies exists|p: int|
                0 <= p < m.len() && #[trigger] m[p].1 == j && reuse@[j] == Some(m[p].0) by {
            let p = choose|p: int| 0 <= p < m.len() && !(#[trigger] m[p].1 != j);
            assert(reuse@[m[p].1 as int] == Some(m[p].0));
        }
        assert forall|j: int|
            0 <= j < new_keys@.len() && (#[trigger] reuse@[j]) is Some implies reuse@[j]->Some_0
                < old_keys@.len() by {
            let p = choose|p: int| 0 <= p < m.len() && #[trigger] m[p].1 == j && reuse@[j] == Some(m[p].0);
        }
        assert forall|j1: int, j2: int|
            0 <= j1 < new_keys@.len() && 0 <= j2 < new_keys@.len() && j1 != j2 && (#[trigger] reuse@[j1]) is Some
                implies reuse@[j1] != #[trigger] reuse@[j2] by {
            if reuse@[j1] == reuse@[j2] {
                let p1 = choose|p: int| 0 <= p < m.len() && #[trigger] m[p].1 == j1 && reuse@[j1] == Some(m[p].0);
                let p2 = choose|p: int| 0 <= p < m.len() && #[trigger] m[p].1 == j2 && reuse@[j2] == Some(m[p].0);
                if p1 < p2 {
                    assert(m[p1].0 < m[p2].0);
                } else {
                    assert(m[p2].0 < m[p1].0);
                }
            }
        }
    }
    KeyedDiff { matched, reuse, razed }
}

} // verus!
