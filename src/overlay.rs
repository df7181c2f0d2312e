use vstd::prelude::*;

use crate::interval::{
    labels_over, lemma_labels_constant, lemma_permutation_elements, lemma_same_elements, Interval, Merge,
};
use crate::label::{add_label, copy_labels, keys, ordered_keys, remove_label, same_labels, Label};

verus! {

/// A run as the contracts see it: start, end and the keys of its labels.
pub type RunView = (int, int, Set<Seq<u8>>);

/// The view of one run.
pub open spec fn run_view<T: Label>(r: Interval<Vec<T>>) -> RunView {
    (r.0 as int, r.1 as int, keys(r.2@))
}

/// The view of a sequence of runs.
pub open spec fn runs_view<T: Label>(runs: Seq<Interval<Vec<T>>>) -> Seq<RunView> {
    runs.map_values(|r: Interval<Vec<T>>| run_view(r))
}

/// The runs are non-empty, follow each other without gap or overlap, and
/// cover exactly `[0, n)`.
pub open spec fn covers(v: Seq<RunView>, n: int) -> bool {
    &&& v.len() == 0 ==> n == 0
    &&& v.len() > 0 ==> v[0].0 == 0 && v[v.len() - 1].1 == n
    &&& forall|i: int| 0 <= i < v.len() ==> (#[trigger] v[i]).0 < v[i].1
    &&& forall|i: int, j: int| #![trigger v[i], v[j]] 0 <= i && j == i + 1 && j < v.len() ==> v[i].1 == v[j].0
}

/// No two adjacent runs carry the same labels.
pub open spec fn maximal(v: Seq<RunView>) -> bool {
    forall|i: int, j: int| #![trigger v[i], v[j]] 0 <= i && j == i + 1 && j < v.len() ==> v[i].2 != v[j].2
}

/// Run `i` of `v` contains offset `x`.
pub open spec fn run_contains(v: Seq<RunView>, i: int, x: int) -> bool {
    0 <= i < v.len() && v[i].0 <= x < v[i].1
}

/// The labels active at offset `x`: those of the run that contains it.
pub open spec fn labels_at(v: Seq<RunView>, x: int) -> Set<Seq<u8>> {
    if exists|i: int| run_contains(v, i, x) {
        v[choose|i: int| run_contains(v, i, x)].2
    } else {
        Set::empty()
    }
}

/// In runs that cover a range, an earlier run ends before a later one starts.
pub proof fn lemma_ordered(v: Seq<RunView>, n: int, i: int, j: int)
    requires
        covers(v, n),
        0 <= i < j < v.len(),
    ensures
        v[i].1 <= v[j].0,
    decreases j - i,
{
    if j > i + 1 {
        lemma_ordered(v, n, i, j - 1);
        assert(v[j - 1].0 < v[j - 1].1);
    }
}

/// In runs that cover a range, the labels at an offset are those of any run
/// that contains it.
pub proof fn lemma_labels_at(v: Seq<RunView>, n: int, i: int, x: int)
    requires
        covers(v, n),
        run_contains(v, i, x),
    ensures
        labels_at(v, x) == v[i].2,
{
    let k = choose|k: int| run_contains(v, k, x);
    if k < i {
        lemma_ordered(v, n, k, i);
    } else if k > i {
        lemma_ordered(v, n, i, k);
    }
}

/// In runs that cover `[0, n)`, every offset below `n` lies in some run.
pub proof fn lemma_covered(v: Seq<RunView>, n: int, x: int) -> (i: int)
    requires
        covers(v, n),
        0 <= x < n,
    ensures
        run_contains(v, i, x),
    decreases v.len(),
{
    let last = v.len() - 1;
    if v[last].0 <= x {
        last
    } else {
        let w = v.subrange(0, last);
        assert(covers(w, v[last].0)) by {
            assert forall|i: int| 0 <= i < w.len() implies (#[trigger] w[i]).0 < w[i].1 by {
                assert(w[i] == v[i]);
            }
            assert forall|i: int| 0 <= i < w.len() - 1 implies (#[trigger] w[i]).1 == w[i + 1].0 by {
                assert(w[i] == v[i]);
                assert(w[i + 1] == v[i + 1]);
            }
            if w.len() > 0 {
                assert(w[w.len() - 1] == v[last - 1]);
                assert(w[0] == v[0]);
            }
        }
        let i = lemma_covered(w, v[last].0, x);
        assert(w[i] == v[i]);
        i
    }
}

/// Appends a run after runs that cover `[0, run.0)`, merging it into the last
/// one when both carry the same labels.
fn push_run<T: Label>(out: &mut Vec<Interval<Vec<T>>>, run: Interval<Vec<T>>)
    requires
        covers(runs_view(old(out)@), run.0 as int),
        maximal(runs_view(old(out)@)),
        forall|i: int| 0 <= i < old(out)@.len() ==> ordered_keys((#[trigger] old(out)@[i]).2@),
        run.0 < run.1,
        ordered_keys(run.2@),
    ensures
        covers(runs_view(final(out)@), run.1 as int),
        maximal(runs_view(final(out)@)),
        forall|i: int| 0 <= i < final(out)@.len() ==> ordered_keys((#[trigger] final(out)@[i]).2@),
        forall|x: int|
            0 <= x < run.0 ==> labels_at(runs_view(final(out)@), x) == labels_at(runs_view(old(out)@), x),
        forall|x: int| run.0 <= x < run.1 ==> labels_at(runs_view(final(out)@), x) == keys(run.2@),
{
    let ghost v0 = runs_view(out@);
    let n = out.len();
    if n > 0 && same_labels(&out[n - 1].2, &run.2) {
        let last = out.pop().unwrap();
        let ghost last_view = run_view(last);
        assert(out@ == old(out)@.subrange(0, n - 1));
        out.push(Interval(last.0, run.1, last.2));
        let ghost v1 = runs_view(out@);
        proof {
            assert(v1.len() == v0.len());
            assert forall|i: int| 0 <= i < n - 1 implies v1[i] == v0[i] by {
                assert(out@[i] == old(out)@[i]);
            }
            assert(v1[n - 1] == (v0[n - 1].0, run.1 as int, v0[n - 1].2));
            assert(covers(v1, run.1 as int));
            assert forall|x: int| 0 <= x < run.0 implies labels_at(v1, x) == labels_at(v0, x) by {
                let i = lemma_covered(v0, run.0 as int, x);
                lemma_labels_at(v0, run.0 as int, i, x);
                lemma_labels_at(v1, run.1 as int, i, x);
            }
            assert forall|x: int| run.0 <= x < run.1 implies labels_at(v1, x) == keys(run.2@) by {
                lemma_labels_at(v1, run.1 as int, n - 1, x);
            }
        }
    } else {
        let ghost rv = run_view(run);
        out.push(run);
        let ghost v1 = runs_view(out@);
        proof {
            assert(v1 == v0.push(rv));
            assert forall|x: int| 0 <= x < run.0 implies labels_at(v1, x) == labels_at(v0, x) by {
                let i = lemma_covered(v0, run.0 as int, x);
                lemma_labels_at(v0, run.0 as int, i, x);
                lemma_labels_at(v1, rv.1, i, x);
            }
            assert forall|x: int| run.0 <= x < run.1 implies labels_at(v1, x) == keys(run.2@) by {
                lemma_labels_at(v1, rv.1, n as int, x);
            }
        }
    }
}

/// No run of `v` holds offset `c` strictly inside it.
pub open spec fn on_edge(v: Seq<RunView>, c: int) -> bool {
    forall|i: int| 0 <= i < v.len() ==> !((#[trigger] v[i]).0 < c < v[i].1)
}

/// The run that holds `offset` strictly inside it, if any.
fn find_run<T: Label>(runs: &Vec<Interval<Vec<T>>>, offset: usize) -> (r: Option<usize>)
    ensures
        match r {
            Some(i) => i < runs@.len() && runs@[i as int].0 < offset < runs@[i as int].1,
            None => on_edge(runs_view(runs@), offset as int),
        },
{
    let mut i: usize = 0;
    while i < runs.len()
        invariant
            i <= runs@.len(),
            forall|j: int| 0 <= j < i ==> !((#[trigger] runs@[j]).0 < offset < runs@[j].1),
        decreases runs@.len() - i,
    {
        if runs[i].0 < offset && offset < runs[i].1 {
            return Some(i);
        }
        i = i + 1;
    }
    None
}

/// `v1` is `v0` with run `i` split in two at `offset`.
pub open spec fn split_of(v0: Seq<RunView>, v1: Seq<RunView>, i: int, offset: int) -> bool {
    &&& 0 <= i < v0.len()
    &&& v0[i].0 < offset < v0[i].1
    &&& v1.len() == v0.len() + 1
    &&& forall|j: int| 0 <= j < i ==> v1[j] == v0[j]
    &&& forall|j: int| i < j < v0.len() ==> v1[j + 1] == v0[j]
    &&& v1[i] == (v0[i].0, offset, v0[i].2)
    &&& v1[i + 1] == (offset, v0[i].1, v0[i].2)
}

/// Splitting a run keeps the coverage.
proof fn lemma_split_covers(v0: Seq<RunView>, v1: Seq<RunView>, n: int, i: int, offset: int)
    requires
        covers(v0, n),
        split_of(v0, v1, i, offset),
    ensures
        covers(v1, n),
{
    assert forall|j: int| 0 <= j < v1.len() - 1 implies (#[trigger] v1[j]).1 == v1[j + 1].0 by {
        if j < i {
            assert(v1[j] == v0[j]);
            if j + 1 < i {
                assert(v1[j + 1] == v0[j + 1]);
            }
        } else if j > i + 1 {
            assert(v1[j] == v0[j - 1]);
            assert(v1[j + 1] == v0[j]);
        } else if j == i + 1 {
            assert(v1[j + 1] == v0[j]);
        }
    }
    assert forall|j: int| 0 <= j < v1.len() implies (#[trigger] v1[j]).0 < v1[j].1 by {
        if j < i {
            assert(v1[j] == v0[j]);
        } else if j > i + 1 {
            assert(v1[j] == v0[j - 1]);
        }
    }
    if i == 0 {
        assert(v1[0].0 == v0[0].0);
    } else {
        assert(v1[0] == v0[0]);
    }
    if i + 1 == v0.len() {
        assert(v1[v1.len() - 1].1 == v0[v0.len() - 1].1);
    } else {
        assert(v1[v1.len() - 1] == v0[v0.len() - 1]);
    }
}

/// Splitting a run keeps the labels at every offset, and leaves the split
/// offset, and every offset that was on an edge, on an edge.
proof fn lemma_split_view(v0: Seq<RunView>, v1: Seq<RunView>, n: int, i: int, offset: int)
    requires
        covers(v0, n),
        split_of(v0, v1, i, offset),
    ensures
        covers(v1, n),
        forall|x: int| 0 <= x < n ==> labels_at(v1, x) == labels_at(v0, x),
        on_edge(v1, offset),
        forall|c: int| on_edge(v0, c) ==> on_edge(v1, c),
{
    lemma_split_covers(v0, v1, n, i, offset);
    assert forall|x: int| 0 <= x < n implies labels_at(v1, x) == labels_at(v0, x) by {
        let j = lemma_covered(v0, n, x);
        lemma_labels_at(v0, n, j, x);
        if j < i {
            lemma_labels_at(v1, n, j, x);
        } else if j > i {
            lemma_labels_at(v1, n, j + 1, x);
        } else if x < offset {
            lemma_labels_at(v1, n, j, x);
        } else {
            lemma_labels_at(v1, n, j + 1, x);
        }
    }
    assert forall|c: int| on_edge(v0, c) implies on_edge(v1, c) by {
        assert forall|j: int| 0 <= j < v1.len() implies !((#[trigger] v1[j]).0 < c < v1[j].1) by {
            if j < i {
                assert(v1[j] == v0[j]);
            } else if j > i + 1 {
                assert(v1[j] == v0[j - 1]);
            } else {
                assert(!(v0[i].0 < c < v0[i].1));
            }
        }
    }
    assert forall|j: int| 0 <= j < v1.len() implies !((#[trigger] v1[j]).0 < offset < v1[j].1) by {
        if j < i {
            assert(v1[j] == v0[j]);
            lemma_ordered(v0, n, j, i);
        } else if j > i + 1 {
            assert(v1[j] == v0[j - 1]);
            lemma_ordered(v0, n, i, j - 1);
        }
    }
}

/// Splits the run that holds `offset` strictly inside it in two at `offset`,
/// both halves keeping its labels.
fn split_runs<T: Label>(runs: &mut Vec<Interval<Vec<T>>>, n: Ghost<int>, offset: usize)
    requires
        covers(runs_view(old(runs)@), n@),
        forall|i: int| 0 <= i < old(runs)@.len() ==> ordered_keys((#[trigger] old(runs)@[i]).2@),
    ensures
        covers(runs_view(final(runs)@), n@),
        forall|i: int| 0 <= i < final(runs)@.len() ==> ordered_keys((#[trigger] final(runs)@[i]).2@),
        forall|x: int|
            0 <= x < n@ ==> labels_at(runs_view(final(runs)@), x) == labels_at(runs_view(old(runs)@), x),
        on_edge(runs_view(final(runs)@), offset as int),
        forall|c: int| on_edge(runs_view(old(runs)@), c) ==> on_edge(runs_view(final(runs)@), c),
{
    match find_run(runs, offset) {
        None => {},
        Some(i) => {
            let ghost v0 = runs_view(runs@);
            let ghost w0 = runs@;
            let len = runs.len();
            assert(i + 1 <= len);
            let r = runs.remove(i);
            let head = Interval(r.0, offset, copy_labels(&r.2));
            runs.insert(i, head);
            runs.insert(i + 1, Interval(offset, r.1, r.2));
            let ghost v1 = runs_view(runs@);
            proof {
                assert(v1.len() == v0.len() + 1);
                assert forall|j: int| 0 <= j < i implies v1[j] == v0[j] by {
                    assert(runs@[j] == w0[j]);
                }
                assert forall|j: int| i < j < v0.len() implies v1[j + 1] == v0[j] by {
                    assert(runs@[j + 1] == w0[j]);
                }
                assert(v1[i as int] == (v0[i as int].0, offset as int, v0[i as int].2));
                assert(v1[i + 1] == (offset as int, v0[i as int].1, v0[i as int].2));
                assert(split_of(v0, v1, i as int, offset as int));
                assert forall|j: int| 0 <= j < runs@.len() implies ordered_keys((#[trigger] runs@[j]).2@) by {
                    if j < i {
                        assert(runs@[j] == w0[j]);
                    } else if j > i + 1 {
                        assert(runs@[j] == w0[j - 1]);
                    }
                }
                lemma_split_view(v0, v1, n@, i as int, offset as int);
            }
        },
    }
}

/// The labels `ls` after `k` is added (`add`) or taken away, where `within`
/// says whether the offset lies in the edited range.
pub open spec fn edited(ls: Set<Seq<u8>>, k: Seq<u8>, add: bool, within: bool) -> Set<Seq<u8>> {
    if !within {
        ls
    } else if add {
        ls.insert(k)
    } else {
        ls.remove(k)
    }
}

/// `after` is a maximal partition of `[0, n)` whose labels are those of
/// `before` with `k` added (`add`) or taken away over `[start, end)`.
pub open spec fn relabelled(
    before: Seq<RunView>,
    after: Seq<RunView>,
    n: int,
    k: Seq<u8>,
    add: bool,
    start: int,
    end: int,
) -> bool {
    &&& covers(after, n)
    &&& maximal(after)
    &&& forall|x: int|
        0 <= x < n ==> #[trigger] labels_at(after, x) == edited(labels_at(before, x), k, add, start <= x < end)
}

/// `v` is a maximal partition of `[0, n)` whose labels at each offset are
/// those of the intervals of `ivs` that contain it.
pub open spec fn describes<T: Label>(v: Seq<RunView>, n: int, ivs: Seq<Interval<T>>) -> bool {
    &&& covers(v, n)
    &&& maximal(v)
    &&& forall|x: int| 0 <= x < n ==> #[trigger] labels_at(v, x) == labels_over(ivs, x)
}

/// In runs that cover `[0, n)`, every run lies within `[0, n)`.
proof fn lemma_end_within(v: Seq<RunView>, n: int, i: int)
    requires
        covers(v, n),
        0 <= i < v.len(),
    ensures
        0 <= v[i].0,
        v[i].1 <= n,
{
    if i < v.len() - 1 {
        lemma_ordered(v, n, i, v.len() - 1);
    }
    if i > 0 {
        lemma_ordered(v, n, 0, i);
    }
}

/// Two maximal partitions of `[0, n)` that carry the same labels at every
/// offset and start run `k` at the same offset have the same run `k`.
proof fn lemma_unique_step(a: Seq<RunView>, b: Seq<RunView>, n: int, k: int)
    requires
        covers(a, n),
        covers(b, n),
        maximal(a),
        maximal(b),
        forall|x: int| 0 <= x < n ==> labels_at(a, x) == labels_at(b, x),
        0 <= k < a.len(),
        0 <= k < b.len(),
        a[k].0 == b[k].0,
    ensures
        a[k] == b[k],
{
    let s = a[k].0;
    lemma_end_within(a, n, k);
    lemma_end_within(b, n, k);
    lemma_labels_at(a, n, k, s);
    lemma_labels_at(b, n, k, s);
    assert(labels_at(a, s) == labels_at(b, s));
    assert(a[k].2 == b[k].2);
    if a[k].1 < b[k].1 {
        let x = a[k].1;
        assert(k + 1 < a.len());
        assert(a[k + 1].0 == x);
        lemma_labels_at(a, n, k + 1, x);
        lemma_labels_at(b, n, k, x);
        assert(labels_at(a, x) == labels_at(b, x));
        assert(a[k].2 != a[k + 1].2);
    } else if b[k].1 < a[k].1 {
        let x = b[k].1;
        assert(k + 1 < b.len());
        assert(b[k + 1].0 == x);
        lemma_labels_at(b, n, k + 1, x);
        lemma_labels_at(a, n, k, x);
        assert(labels_at(a, x) == labels_at(b, x));
        assert(b[k].2 != b[k + 1].2);
    }
    assert(a[k].1 == b[k].1);
}

/// Two maximal partitions of `[0, n)` agree on their first `k + 1` runs
/// when they carry the same labels at every offset.
proof fn lemma_unique_prefix(a: Seq<RunView>, b: Seq<RunView>, n: int, k: int)
    requires
        covers(a, n),
        covers(b, n),
        maximal(a),
        maximal(b),
        forall|x: int| 0 <= x < n ==> labels_at(a, x) == labels_at(b, x),
        0 <= k < a.len(),
        0 <= k < b.len(),
    ensures
        forall|j: int| 0 <= j <= k ==> a[j] == b[j],
    decreases k,
{
    if k > 0 {
        lemma_unique_prefix(a, b, n, k - 1);
        assert(a[k - 1] == b[k - 1]);
    }
    lemma_unique_step(a, b, n, k);
}

/// A maximal partition of `[0, n)` is fixed by the labels at each offset:
/// two that carry the same labels everywhere are the same.
pub proof fn lemma_unique(a: Seq<RunView>, b: Seq<RunView>, n: int)
    requires
        covers(a, n),
        covers(b, n),
        maximal(a),
        maximal(b),
        forall|x: int| 0 <= x < n ==> labels_at(a, x) == labels_at(b, x),
    ensures
        a == b,
{
    if a.len() > 0 && b.len() > 0 {
        let k = if a.len() < b.len() { a.len() - 1 } else { b.len() - 1 };
        lemma_unique_prefix(a, b, n, k);
        if a.len() < b.len() {
            assert(b[k].1 == n);
            lemma_end_within(b, n, k + 1);
        } else if b.len() < a.len() {
            assert(a[k].1 == n);
            lemma_end_within(a, n, k + 1);
        }
    } else if a.len() > 0 {
        lemma_end_within(a, n, 0);
    } else if b.len() > 0 {
        lemma_end_within(b, n, 0);
    }
    assert(a =~= b);
}

/// Building is independent of the order of the intervals: two overlays built
/// from permutations of one list of intervals are the same.
pub proof fn lemma_build_order_independent<T: Label>(
    a: Seq<RunView>,
    b: Seq<RunView>,
    n: int,
    first: Seq<Interval<T>>,
    second: Seq<Interval<T>>,
)
    requires
        first.to_multiset() == second.to_multiset(),
        describes(a, n, first),
        describes(b, n, second),
    ensures
        a == b,
{
    lemma_permutation_elements(first, second);
    lemma_same_elements(first, second);
    assert forall|x: int| 0 <= x < n implies labels_at(a, x) == labels_at(b, x) by {
        assert(labels_at(a, x) == labels_over(first, x));
        assert(labels_at(b, x) == labels_over(second, x));
    }
    lemma_unique(a, b, n);
}

/// Inserting a label over a range a second time changes nothing.
pub proof fn lemma_insert_idempotent(
    o: Seq<RunView>,
    once: Seq<RunView>,
    twice: Seq<RunView>,
    n: int,
    k: Seq<u8>,
    start: int,
    end: int,
)
    requires
        relabelled(o, once, n, k, true, start, end),
        relabelled(once, twice, n, k, true, start, end),
    ensures
        twice == once,
{
    assert forall|x: int| 0 <= x < n implies labels_at(twice, x) == labels_at(once, x) by {
        assert(labels_at(once, x) == edited(labels_at(o, x), k, true, start <= x < end));
        assert(labels_at(twice, x) == edited(labels_at(once, x), k, true, start <= x < end));
        if start <= x < end {
            assert(labels_at(twice, x) =~= labels_at(once, x));
        }
    }
    lemma_unique(twice, once, n);
}

/// Removing a label over a range just after inserting it there, where the
/// overlay did not carry it, gives back the overlay.
pub proof fn lemma_insert_remove_inverse(
    o: Seq<RunView>,
    inserted: Seq<RunView>,
    removed: Seq<RunView>,
    n: int,
    k: Seq<u8>,
    start: int,
    end: int,
)
    requires
        covers(o, n),
        maximal(o),
        forall|x: int| 0 <= x < n && start <= x < end ==> !(#[trigger] labels_at(o, x)).contains(k),
        relabelled(o, inserted, n, k, true, start, end),
        relabelled(inserted, removed, n, k, false, start, end),
    ensures
        removed == o,
{
    assert forall|x: int| 0 <= x < n implies labels_at(removed, x) == labels_at(o, x) by {
        assert(labels_at(inserted, x) == edited(labels_at(o, x), k, true, start <= x < end));
        assert(labels_at(removed, x) == edited(labels_at(inserted, x), k, false, start <= x < end));
        if start <= x < end {
            assert(labels_at(removed, x) =~= labels_at(o, x));
        }
    }
    lemma_unique(removed, o, n);
}

/// Why an interval or an edit was refused.
#[derive(Clone, Copy, Debug, PartialEq, Eq)]
pub enum OverlayError {
    /// An interval that is empty or reaches past the end of the buffer.
    InvalidInterval,
    /// An edit that reaches past the end of the buffer.
    OutOfRange,
}

/// An interval `[start, end)` that is non-empty and lies within `[0, n)`.
pub open spec fn valid_interval<T>(iv: Interval<T>, n: int) -> bool {
    iv.0 < iv.1 <= n
}

/// The partition of a buffer into runs, each tagged with the labels active
/// over it.
pub struct Overlay<T> {
    length: usize,
    runs: Vec<Interval<Vec<T>>>,
}

impl<T: Label> View for Overlay<T> {
    type V = Seq<RunView>;

    closed spec fn view(&self) -> Seq<RunView> {
        runs_view(self.runs@)
    }
}

impl<T: Label> Overlay<T> {
    /// The length of the buffer.
    pub closed spec fn length(&self) -> int {
        self.length as int
    }

    /// The runs cover the buffer and no two adjacent runs carry the same
    /// labels.
    pub closed spec fn wf(&self) -> bool {
        &&& covers(self@, self.length as int)
        &&& maximal(self@)
        &&& forall|i: int| 0 <= i < self.runs@.len() ==> ordered_keys((#[trigger] self.runs@[i]).2@)
    }

    /// A well-formed overlay covers its buffer with a maximal partition.
    pub proof fn lemma_wf(&self)
        requires
            self.wf(),
        ensures
            covers(self@, self.length()),
            maximal(self@),
    {
    }

    /// The length of the buffer.
    pub fn len(&self) -> (r: usize)
        ensures
            r == self.length(),
    {
        self.length
    }

    /// The overlay of a buffer of `length` offsets under `intervals`: the
    /// labels active at each offset are those of the intervals that contain
    /// it. Refuses an interval that is empty or reaches past `length`.
    #[verifier::loop_isolation(false)]
    pub fn build(length: usize, intervals: Vec<Interval<T>>) -> (r: Result<Overlay<T>, OverlayError>)
        ensures
            r is Err <==> exists|j: int|
                0 <= j < intervals@.len() && !valid_interval(#[trigger] intervals@[j], length as int),
            match r {
                Ok(o) => {
                    &&& o.wf()
                    &&& o.length() == length
                    &&& describes(o@, length as int, intervals@)
                },
                Err(e) => e == OverlayError::InvalidInterval,
            },
    {
        let mut j: usize = 0;
        while j < intervals.len()
            invariant
                j <= intervals@.len(),
                forall|k: int| 0 <= k < j ==> valid_interval(#[trigger] intervals@[k], length as int),
            decreases intervals@.len() - j,
        {
            if !(intervals[j].0 < intervals[j].1 && intervals[j].1 <= length) {
                return Err(OverlayError::InvalidInterval);
            }
            j = j + 1;
        }
        let ghost input = intervals@;
        let m = Merge::spanning(length, intervals);
        let ghost q = m.intervals();
        let ghost sweep = m;
        proof {
            lemma_permutation_elements(q, input);
            lemma_same_elements(q, input);
        }
        let parts = m.runs();
        let mut out: Vec<Interval<Vec<T>>> = Vec::new();
        let mut k: usize = 0;
        while k < parts.len()
            invariant
                k <= parts@.len(),
                covers(runs_view(out@), if k == 0 { 0 } else { parts@[k - 1].1 as int }),
                maximal(runs_view(out@)),
                forall|i: int| 0 <= i < out@.len() ==> ordered_keys((#[trigger] out@[i]).2@),
                forall|x: int|
                    0 <= x < (if k == 0 { 0 } else { parts@[k - 1].1 as int }) ==> labels_at(runs_view(out@), x)
                        == labels_over(input, x),
            decreases parts@.len() - k,
        {
            let p = &parts[k];
            let run = Interval(p.0, p.1, copy_labels(&p.2));
            proof {
                if k > 0 {
                    assert(parts@[k - 1].1 == parts@[k as int].0);
                } else {
                    assert(parts@[0].0 == sweep.cursor());
                }
            }
            let ghost out0 = runs_view(out@);
            push_run(&mut out, run);
            proof {
                assert forall|x: int| 0 <= x < p.1 implies labels_at(runs_view(out@), x) == labels_over(input, x) by {
                    if x >= p.0 {
                        assert forall|e: int| crate::interval::is_edge(q, e) && p.0 < e implies p.1 <= e by {
                            assert(sweep.is_boundary(e));
                        }
                        lemma_labels_constant(q, p.0 as int, p.1 as int, x);
                    } else {
                        assert(labels_at(out0, x) == labels_over(input, x));
                    }
                }
            }
            k = k + 1;
        }
        proof {
            assert(sweep.is_boundary(length as int));
            if parts@.len() > 0 {
                let last = parts@[parts@.len() - 1];
                assert(sweep.is_boundary(last.1 as int));
                if crate::interval::is_edge(q, last.1 as int) {
                    let w = choose|w: int| 0 <= w < q.len() && (q[w].0 == last.1 || q[w].1 == last.1);
                    assert(q.contains(q[w]));
                    let v = choose|v: int| 0 <= v < input.len() && input[v] == q[w];
                    assert(valid_interval(input[v], length as int));
                }
            }
        }
        Ok(Overlay { length, runs: out })
    }

    /// Adds (`add`) or takes away `label` over `[start, end)`, splitting the
    /// runs at `start` and `end` and merging runs that end up with the same
    /// labels.
    #[verifier::loop_isolation(false)]
    fn relabel(&mut self, label: &T, start: usize, end: usize, add: bool)
        requires
            old(self).wf(),
            start < end <= old(self).length(),
        ensures
            final(self).wf(),
            final(self).length() == old(self).length(),
            forall|x: int|
                0 <= x < old(self).length() ==> labels_at(final(self)@, x) == edited(
                    labels_at(old(self)@, x),
                    label.key(),
                    add,
                    start <= x < end,
                ),
    {
        let n = Ghost(self.length as int);
        let ghost v0 = self@;
        split_runs(&mut self.runs, n, start);
        split_runs(&mut self.runs, n, end);
        let ghost v = runs_view(self.runs@);
        let mut out: Vec<Interval<Vec<T>>> = Vec::new();
        let mut k: usize = 0;
        while k < self.runs.len()
            invariant
                k <= self.runs@.len(),
                covers(runs_view(out@), if k == 0 { 0 } else { self.runs@[k - 1].1 as int }),
                maximal(runs_view(out@)),
                forall|i: int| 0 <= i < out@.len() ==> ordered_keys((#[trigger] out@[i]).2@),
                forall|x: int|
                    0 <= x < (if k == 0 { 0 } else { self.runs@[k - 1].1 as int }) ==> labels_at(runs_view(out@), x)
                        == edited(labels_at(v, x), label.key(), add, start <= x < end),
            decreases self.runs@.len() - k,
        {
            let p = &self.runs[k];
            let mut labels = copy_labels(&p.2);
            let inside = start <= p.0 && p.0 < end;
            if inside {
                if add {
                    add_label(&mut labels, label);
                } else {
                    remove_label(&mut labels, label);
                }
            }
            proof {
                assert(v[k as int] == run_view(*p));
                if k > 0 {
                    assert(v[k - 1].1 == v[k as int].0);
                }
            }
            let ghost out0 = runs_view(out@);
            push_run(&mut out, Interval(p.0, p.1, labels));
            proof {
                assert forall|x: int| 0 <= x < p.1 implies labels_at(runs_view(out@), x) == edited(
                    labels_at(v, x),
                    label.key(),
                    add,
                    start <= x < end,
                ) by {
                    if x >= p.0 {
                        lemma_labels_at(v, n@, k as int, x);
                        assert(!(v[k as int].0 < start < v[k as int].1));
                        assert(!(v[k as int].0 < end < v[k as int].1));
                        assert(inside == (start <= x < end));
                    } else {
                        assert(labels_at(out0, x) == edited(labels_at(v, x), label.key(), add, start <= x < end));
                    }
                }
            }
            k = k + 1;
        }
        self.runs = out;
    }

    /// Adds `label` over `[start, end)`.
    ///
    /// Refuses an empty range, and a range that reaches past the end of the
    /// buffer, leaving the overlay as it was.
    pub fn insert(&mut self, label: &T, start: usize, end: usize) -> (r: Result<(), OverlayError>)
        requires
            old(self).wf(),
        ensures
            final(self).wf(),
            final(self).length() == old(self).length(),
            r is Ok <==> start < end <= old(self).length(),
            r == Err::<(), OverlayError>(OverlayError::InvalidInterval) <==> start >= end,
            r == Err::<(), OverlayError>(OverlayError::OutOfRange) <==> start < end && end > old(self).length(),
            covers(final(self)@, final(self).length()),
            maximal(final(self)@),
            r is Err ==> final(self)@ == old(self)@,
            r is Ok ==> relabelled(
                old(self)@,
                final(self)@,
                old(self).length(),
                label.key(),
                true,
                start as int,
                end as int,
            ),
    {
        if start >= end {
            return Err(OverlayError::InvalidInterval);
        }
        if end > self.length {
            return Err(OverlayError::OutOfRange);
        }
        self.relabel(label, start, end, true);
        Ok(())
    }

    /// Takes `label` away over `[start, end)`.
    ///
    /// Refuses an empty range, and a range that reaches past the end of the
    /// buffer, leaving the overlay as it was.
    pub fn remove(&mut self, label: &T, start: usize, end: usize) -> (r: Result<(), OverlayError>)
        requires
            old(self).wf(),
        ensures
            final(self).wf(),
            final(self).length() == old(self).length(),
            r is Ok <==> start < end <= old(self).length(),
            r == Err::<(), OverlayError>(OverlayError::InvalidInterval) <==> start >= end,
            r == Err::<(), OverlayError>(OverlayError::OutOfRange) <==> start < end && end > old(self).length(),
            covers(final(self)@, final(self).length()),
            maximal(final(self)@),
            r is Err ==> final(self)@ == old(self)@,
            r is Ok ==> relabelled(
                old(self)@,
                final(self)@,
                old(self).length(),
                label.key(),
                false,
                start as int,
                end as int,
            ),
    {
        if start >= end {
            return Err(OverlayError::InvalidInterval);
        }
        if end > self.length {
            return Err(OverlayError::OutOfRange);
        }
        self.relabel(label, start, end, false);
        Ok(())
    }

    /// The index of the run that holds `offset` strictly inside it, or `None`
    /// where `offset` already lies on an edge between runs or outside the
    /// buffer.
    pub fn find_boundary(&self, offset: usize) -> (r: Option<usize>)
        requires
            self.wf(),
        ensures
            match r {
                Some(i) => i < self@.len() && self@[i as int].0 < offset < self@[i as int].1,
                None => on_edge(self@, offset as int),
            },
    {
        find_run(&self.runs, offset)
    }

    /// The runs in order, each with its labels.
    pub fn to_slices(&self) -> (r: Vec<Interval<Vec<T>>>)
        requires
            self.wf(),
        ensures
            runs_view(r@) == self@,
            forall|i: int| 0 <= i < r@.len() ==> ordered_keys((#[trigger] r@[i]).2@),
    {
        let mut r: Vec<Interval<Vec<T>>> = Vec::new();
        let mut i: usize = 0;
        while i < self.runs.len()
            invariant
                i <= self.runs@.len(),
                r@.len() == i,
                forall|j: int| 0 <= j < i ==> run_view(#[trigger] r@[j]) == run_view(self.runs@[j]),
                forall|j: int| 0 <= j < i ==> ordered_keys((#[trigger] r@[j]).2@),
                forall|j: int| 0 <= j < self.runs@.len() ==> ordered_keys((#[trigger] self.runs@[j]).2@),
            decreases self.runs@.len() - i,
        {
            let p = &self.runs[i];
            r.push(Interval(p.0, p.1, copy_labels(&p.2)));
            i = i + 1;
        }
        assert(runs_view(r@) =~= runs_view(self.runs@));
        r
    }
}

} // verus!
