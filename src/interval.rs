use vstd::multiset::Multiset;
use vstd::prelude::*;

use crate::label::{add_label, keys, ordered_keys, Label};

verus! {

broadcast use vstd::seq_lib::group_to_multiset_ensures;

/// The half-open range `[start, end)` of a buffer, tagged with a value.
///
/// As input the value is a label; as output of a sweep it is the set of labels
/// active over the range.
#[derive(Clone, Debug, PartialEq, Eq)]
pub struct Interval<T>(pub usize, pub usize, pub T);

/// Every interval of the sequence is non-empty.
pub open spec fn all_nonempty<T>(ivs: Seq<Interval<T>>) -> bool {
    forall|i: int| 0 <= i < ivs.len() ==> (#[trigger] ivs[i]).0 < ivs[i].1
}

/// The labels of the intervals of `ivs` that contain offset `x`.
pub open spec fn labels_over<T: Label>(ivs: Seq<Interval<T>>, x: int) -> Set<Seq<u8>> {
    Set::new(
        |k: Seq<u8>|
            exists|i: int| 0 <= i < ivs.len() && ivs[i].0 <= x < ivs[i].1 && ivs[i].2.key() == k,
    )
}

/// Offset `b` is where an interval of `ivs` starts or ends.
pub open spec fn is_edge<T>(ivs: Seq<Interval<T>>, b: int) -> bool {
    exists|i: int| 0 <= i < ivs.len() && (ivs[i].0 == b || ivs[i].1 == b)
}

/// Intervals sorted by their start.
pub open spec fn sorted_by_start<T>(ivs: Seq<Interval<T>>) -> bool {
    forall|i: int, j: int| 0 <= i <= j < ivs.len() ==> ivs[i].0 <= ivs[j].0
}

/// Between `a` and the next edge after it, the active labels do not change.
pub proof fn lemma_labels_constant<T: Label>(ivs: Seq<Interval<T>>, a: int, b: int, x: int)
    requires
        a <= x < b,
        forall|e: int| is_edge(ivs, e) && a < e ==> b <= e,
    ensures
        labels_over(ivs, x) == labels_over(ivs, a),
{
    assert forall|k: Seq<u8>| labels_over(ivs, x).contains(k) == labels_over(ivs, a).contains(k) by {
        if labels_over(ivs, x).contains(k) {
            let i = choose|i: int| 0 <= i < ivs.len() && ivs[i].0 <= x < ivs[i].1 && ivs[i].2.key() == k;
            if ivs[i].0 > a {
                assert(is_edge(ivs, ivs[i].0 as int));
            }
        }
        if labels_over(ivs, a).contains(k) {
            let i = choose|i: int| 0 <= i < ivs.len() && ivs[i].0 <= a < ivs[i].1 && ivs[i].2.key() == k;
            assert(is_edge(ivs, ivs[i].1 as int));
        }
    }
    assert(labels_over(ivs, x) =~= labels_over(ivs, a));
}

/// Two sequences with the same elements have the same edges and labels.
pub proof fn lemma_same_elements<T: Label>(a: Seq<Interval<T>>, b: Seq<Interval<T>>)
    requires
        forall|iv: Interval<T>| a.contains(iv) <==> b.contains(iv),
    ensures
        forall|x: int| labels_over(a, x) == labels_over(b, x),
        forall|e: int| is_edge(a, e) == is_edge(b, e),
        all_nonempty(a) == all_nonempty(b),
{
    assert forall|x: int| labels_over(a, x) == labels_over(b, x) by {
        assert forall|k: Seq<u8>| labels_over(a, x).contains(k) implies labels_over(b, x).contains(k) by {
            if labels_over(a, x).contains(k) {
                let i = choose|i: int| 0 <= i < a.len() && a[i].0 <= x < a[i].1 && a[i].2.key() == k;
                assert(a.contains(a[i]));
                let j = choose|j: int| 0 <= j < b.len() && b[j] == a[i];
            }
        }
        assert forall|k: Seq<u8>| labels_over(b, x).contains(k) implies labels_over(a, x).contains(k) by {
            if labels_over(b, x).contains(k) {
                let i = choose|i: int| 0 <= i < b.len() && b[i].0 <= x < b[i].1 && b[i].2.key() == k;
                assert(b.contains(b[i]));
                let j = choose|j: int| 0 <= j < a.len() && a[j] == b[i];
            }
        }
        assert(labels_over(a, x) =~= labels_over(b, x));
    }
    assert forall|e: int| is_edge(a, e) == is_edge(b, e) by {
        if is_edge(a, e) {
            let i = choose|i: int| 0 <= i < a.len() && (a[i].0 == e || a[i].1 == e);
            assert(a.contains(a[i]));
            let j = choose|j: int| 0 <= j < b.len() && b[j] == a[i];
        }
        if is_edge(b, e) {
            let i = choose|i: int| 0 <= i < b.len() && (b[i].0 == e || b[i].1 == e);
            assert(b.contains(b[i]));
            let j = choose|j: int| 0 <= j < a.len() && a[j] == b[i];
        }
    }
    if all_nonempty(a) {
        assert forall|i: int| 0 <= i < b.len() implies (#[trigger] b[i]).0 < b[i].1 by {
            assert(b.contains(b[i]));
            let j = choose|j: int| 0 <= j < a.len() && a[j] == b[i];
        }
    }
    if all_nonempty(b) {
        assert forall|i: int| 0 <= i < a.len() implies (#[trigger] a[i]).0 < a[i].1 by {
            assert(a.contains(a[i]));
            let j = choose|j: int| 0 <= j < b.len() && b[j] == a[i];
        }
    }
}

/// A permutation keeps the elements of a sequence.
pub proof fn lemma_permutation_elements<A>(a: Seq<A>, b: Seq<A>)
    requires
        a.to_multiset() == b.to_multiset(),
    ensures
        forall|x: A| a.contains(x) <==> b.contains(x),
{
    a.to_multiset_ensures();
    b.to_multiset_ensures();
    assert forall|x: A| a.contains(x) <==> b.contains(x) by {
        assert(a.contains(x) <==> a.to_multiset().count(x) > 0);
        assert(b.contains(x) <==> b.to_multiset().count(x) > 0);
    }
}

/// The intervals of `ivs`, ordered by start.
fn sort_by_start<T>(ivs: Vec<Interval<T>>) -> (r: Vec<Interval<T>>)
    ensures
        sorted_by_start(r@),
        r@.to_multiset() == ivs@.to_multiset(),
{
    let mut rest = ivs;
    let mut r: Vec<Interval<T>> = Vec::new();
    let ghost all = rest@;
    while rest.len() > 0
        invariant
            sorted_by_start(r@),
            r@.to_multiset().add(rest@.to_multiset()) == all.to_multiset(),
        decreases rest@.len(),
    {
        let ghost before_rest = rest@;
        let ghost before = r@;
        let last = rest.len() - 1;
        let iv = rest.remove(last);
        assert(before_rest.remove(last as int) =~= rest@);
        let mut pos: usize = r.len();
        while pos > 0 && r[pos - 1].0 > iv.0
            invariant
                pos <= r@.len(),
                r@ == before,
                forall|j: int| pos <= j < r@.len() ==> r@[j].0 > iv.0,
            decreases pos,
        {
            pos = pos - 1;
        }
        r.insert(pos, iv);
        proof {
            assert(r@.remove(pos as int) =~= before);
            assert(r@.to_multiset().remove(iv) == before.to_multiset());
            assert(r@.contains(r@[pos as int]));
            assert(r@.to_multiset() =~= before.to_multiset().insert(iv));
            assert(before_rest.to_multiset() =~= rest@.to_multiset().insert(iv)) by {
                assert(before_rest.contains(before_rest[last as int]));
            }
            assert(r@.to_multiset().add(rest@.to_multiset()) =~= before.to_multiset().add(
                before_rest.to_multiset(),
            ));
        }
    }
    assert(rest@.to_multiset() =~= Multiset::empty());
    assert(r@.to_multiset() =~= all.to_multiset());
    r
}

/// Some entry of `s` has label key `k` and end `e`.
pub open spec fn holds_entry<T: Label>(s: Seq<(T, usize)>, k: Seq<u8>, e: int) -> bool {
    exists|i: int| 0 <= i < s.len() && s[i].0.key() == k && s[i].1 == e
}

/// The label keys of a sequence of entries.
pub open spec fn entry_keys<T: Label>(s: Seq<(T, usize)>) -> Set<Seq<u8>> {
    Set::new(|k: Seq<u8>| exists|i: int| 0 <= i < s.len() && s[i].0.key() == k)
}

proof fn lemma_holds_entry_push<T: Label>(s: Seq<(T, usize)>, x: (T, usize), k: Seq<u8>, e: int)
    ensures
        holds_entry(s.push(x), k, e) <==> holds_entry(s, k, e) || (x.0.key() == k && x.1 == e),
{
    if holds_entry(s, k, e) {
        let i = choose|i: int| 0 <= i < s.len() && s[i].0.key() == k && s[i].1 == e;
        assert(s.push(x)[i] == s[i]);
    }
    if x.0.key() == k && x.1 == e {
        assert(s.push(x)[s.len() as int] == x);
    }
    if holds_entry(s.push(x), k, e) {
        let i = choose|i: int| 0 <= i < s.len() + 1 && s.push(x)[i].0.key() == k && s.push(x)[i].1 == e;
        if i < s.len() {
            assert(s.push(x)[i] == s[i]);
        }
    }
}

/// Some interval of `q` at a position in `[lo, hi)` has label key `k` and end `e`.
pub open spec fn queued_entry<T: Label>(q: Seq<Interval<T>>, lo: int, hi: int, k: Seq<u8>, e: int) -> bool {
    exists|j: int| lo <= j < hi && q[j].2.key() == k && q[j].1 == e
}

/// The distinct labels of a sequence of entries.
fn entry_labels<T: Label>(ends: &Vec<(T, usize)>) -> (r: Vec<T>)
    ensures
        ordered_keys(r@),
        keys(r@) == entry_keys(ends@),
{
    let mut r: Vec<T> = Vec::new();
    let mut i: usize = 0;
    while i < ends.len()
        invariant
            i <= ends@.len(),
            ordered_keys(r@),
            keys(r@) == entry_keys(ends@.subrange(0, i as int)),
        decreases ends@.len() - i,
    {
        add_label(&mut r, &ends[i].0);
        proof {
            let pre = ends@.subrange(0, i as int);
            let post = ends@.subrange(0, i + 1);
            assert(post =~= pre.push(ends@[i as int]));
            assert forall|k: Seq<u8>| entry_keys(post).contains(k) == entry_keys(pre).insert(ends@[i as int].0.key()).contains(k) by {
                if entry_keys(pre).contains(k) {
                    let m = choose|m: int| 0 <= m < pre.len() && pre[m].0.key() == k;
                    assert(post[m] == pre[m]);
                }
                if k == ends@[i as int].0.key() {
                    assert(post[i as int] == ends@[i as int]);
                }
                if entry_keys(post).contains(k) {
                    let m = choose|m: int| 0 <= m < post.len() && post[m].0.key() == k;
                    if m < i {
                        assert(post[m] == pre[m]);
                    }
                }
            }
            assert(entry_keys(post) =~= entry_keys(pre).insert(ends@[i as int].0.key()));
        }
        i = i + 1;
    }
    assert(ends@.subrange(0, i as int) =~= ends@);
    r
}

/// The entries of `ends` that do not end at `b`.
fn entries_not_ending_at<T: Label>(ends: &Vec<(T, usize)>, b: usize) -> (r: Vec<(T, usize)>)
    ensures
        forall|k: Seq<u8>, e: int| holds_entry(r@, k, e) <==> holds_entry(ends@, k, e) && e != b,
{
    let mut r: Vec<(T, usize)> = Vec::new();
    let mut i: usize = 0;
    while i < ends.len()
        invariant
            i <= ends@.len(),
            forall|k: Seq<u8>, e: int|
                holds_entry(r@, k, e) <==> holds_entry(ends@.subrange(0, i as int), k, e) && e != b,
        decreases ends@.len() - i,
    {
        let ghost pre = ends@.subrange(0, i as int);
        let ghost post = ends@.subrange(0, i + 1);
        let ghost r0 = r@;
        proof {
            assert(post =~= pre.push(ends@[i as int]));
        }
        if ends[i].1 != b {
            let x = (ends[i].0.duplicate(), ends[i].1);
            r.push(x);
        }
        assert forall|k: Seq<u8>, e: int|
            holds_entry(r@, k, e) <==> holds_entry(post, k, e) && e != b by {
            assert(post == pre.push(ends@[i as int]));
            lemma_holds_entry_push(pre, ends@[i as int], k, e);
            assert(holds_entry(post, k, e) <==> holds_entry(pre, k, e) || (ends@[i as int].0.key() == k
                && ends@[i as int].1 == e));
            assert(holds_entry(r0, k, e) <==> holds_entry(pre, k, e) && e != b);
            if ends@[i as int].1 != b {
                lemma_holds_entry_push(r0, r@[r0.len() as int], k, e);
                assert(r@ == r0.push(r@[r0.len() as int]));
                assert(holds_entry(r@, k, e) <==> holds_entry(r0, k, e) || (ends@[i as int].0.key() == k
                    && ends@[i as int].1 == e));
            } else {
                assert(r@ == r0);
            }
        }
        i = i + 1;
    }
    assert(ends@.subrange(0, i as int) =~= ends@);
    r
}

/// A sweep over the edges of a collection of labelled intervals.
///
/// Each step emits the run from the current offset to the next edge, tagged
/// with the labels active over it.
pub struct Merge<T> {
    /// Start of the next run.
    last: usize,
    /// An extra edge, counted only while it lies ahead of `last`.
    horizon: usize,
    /// Active intervals: label and end offset.
    ends: Vec<(T, usize)>,
    /// All intervals, ordered by start; those before `next` have started.
    queue: Vec<Interval<T>>,
    next: usize,
    /// Offset past which no edge lies.
    top: Ghost<int>,
}

impl<T: Label> Merge<T> {
    /// The intervals being swept.
    pub closed spec fn intervals(&self) -> Seq<Interval<T>> {
        self.queue@
    }

    /// Start of the next run.
    pub closed spec fn cursor(&self) -> int {
        self.last as int
    }

    /// The extra edge, if it lies ahead of the cursor.
    pub closed spec fn horizon(&self) -> int {
        self.horizon as int
    }

    /// Offset past which no edge lies.
    pub closed spec fn reach(&self) -> int {
        self.top@
    }

    /// Offset `b` is an edge of the sweep.
    pub open spec fn is_boundary(&self, b: int) -> bool {
        is_edge(self.intervals(), b) || b == self.horizon()
    }

    /// Offset `b` is the nearest edge ahead of the cursor.
    pub open spec fn is_next_boundary(&self, b: int) -> bool {
        &&& self.cursor() < b
        &&& self.is_boundary(b)
        &&& forall|c: int| #[trigger] self.is_boundary(c) && self.cursor() < c ==> b <= c
    }

    /// Some active entry has label key `k` and end `e`.
    pub closed spec fn has_entry(&self, k: Seq<u8>, e: int) -> bool {
        holds_entry(self.ends@, k, e)
    }

    /// Some started interval with label key `k` and end `e` is still open.
    pub closed spec fn has_open(&self, k: Seq<u8>, e: int) -> bool {
        exists|j: int|
            0 <= j < self.next && self.queue@[j].2.key() == k && self.queue@[j].1 == e && e > self.last
    }

    /// The sweep's state agrees with its intervals.
    pub closed spec fn wf(&self) -> bool {
        let q = self.queue@;
        &&& all_nonempty(q)
        &&& sorted_by_start(q)
        &&& self.next <= q.len()
        &&& forall|j: int| 0 <= j < self.next ==> (#[trigger] q[j]).0 <= self.last
        &&& forall|j: int| self.next <= j < q.len() ==> (#[trigger] q[j]).0 > self.last
        &&& forall|i: int|
            0 <= i < self.ends@.len() ==> self.has_open((#[trigger] self.ends@[i]).0.key(), self.ends@[i].1 as int)
        &&& forall|j: int|
            0 <= j < self.next && (#[trigger] q[j]).1 > self.last ==> self.has_entry(q[j].2.key(), q[j].1 as int)
        &&& forall|j: int| 0 <= j < q.len() ==> (#[trigger] q[j]).1 <= self.top@
        &&& self.horizon <= self.top@
        &&& self.last <= self.top@
    }

    /// Starts a sweep at `start` over `queue`, which must be sorted by start.
    fn start_at(start: usize, horizon: usize, queue: Vec<Interval<T>>, top: Ghost<int>) -> (r: Merge<T>)
        requires
            all_nonempty(queue@),
            sorted_by_start(queue@),
            forall|j: int| 0 <= j < queue@.len() ==> start <= (#[trigger] queue@[j]).0,
            forall|j: int| 0 <= j < queue@.len() ==> (#[trigger] queue@[j]).1 <= top@,
            horizon <= top@,
            start <= top@,
        ensures
            r.wf(),
            r.intervals() == queue@,
            r.cursor() == start,
            r.horizon() == horizon,
            r.reach() == top@,
    {
        let mut ends: Vec<(T, usize)> = Vec::new();
        let mut next: usize = 0;
        while next < queue.len() && queue[next].0 == start
            invariant
                next <= queue@.len(),
                all_nonempty(queue@),
                forall|j: int| 0 <= j < next ==> (#[trigger] queue@[j]).0 == start,
                ends@.len() == next,
                forall|i: int|
                    0 <= i < next ==> (#[trigger] ends@[i]).0.key() == queue@[i].2.key() && ends@[i].1
                        == queue@[i].1,
            decreases queue@.len() - next,
        {
            ends.push((queue[next].2.duplicate(), queue[next].1));
            next = next + 1;
        }
        let r = Merge { last: start, horizon, ends, queue, next, top };
        assert forall|i: int| 0 <= i < r.ends@.len() implies r.has_open(
            (#[trigger] r.ends@[i]).0.key(),
            r.ends@[i].1 as int,
        ) by {
            assert(r.queue@[i].0 < r.queue@[i].1);
            assert(r.queue@[i].2.key() == r.ends@[i].0.key() && r.queue@[i].1 == r.ends@[i].1);
        }
        assert forall|j: int| 0 <= j < r.next && (#[trigger] r.queue@[j]).1 > r.last implies r.has_entry(
            r.queue@[j].2.key(),
            r.queue@[j].1 as int,
        ) by {
            assert(r.ends@[j].0.key() == r.queue@[j].2.key() && r.ends@[j].1 == r.queue@[j].1);
        }
        assert forall|j: int| r.next <= j < r.queue@.len() implies (#[trigger] r.queue@[j]).0 > r.last by {
            assert(r.queue@[r.next as int].0 <= r.queue@[j].0);
        }
        r
    }

    /// A sweep over `intervals`, starting at the smallest start.
    pub fn from_iter(intervals: Vec<Interval<T>>) -> (r: Merge<T>)
        requires
            all_nonempty(intervals@),
        ensures
            r.wf(),
            r.intervals().to_multiset() == intervals@.to_multiset(),
            r.horizon() == 0,
            intervals@.len() == 0 ==> r.cursor() == 0,
            forall|j: int| 0 <= j < intervals@.len() ==> r.cursor() <= (#[trigger] intervals@[j]).0,
            intervals@.len() > 0 ==> exists|j: int|
                0 <= j < intervals@.len() && r.cursor() == (#[trigger] intervals@[j]).0,
    {
        let ghost input = intervals@;
        let queue = sort_by_start(intervals);
        proof {
            lemma_permutation_elements(queue@, input);
            lemma_same_elements(queue@, input);
            queue@.to_multiset_ensures();
            input.to_multiset_ensures();
        }
        let mut top: usize = 0;
        let mut i: usize = 0;
        while i < queue.len()
            invariant
                i <= queue@.len(),
                forall|j: int| 0 <= j < i ==> (#[trigger] queue@[j]).1 <= top,
            decreases queue@.len() - i,
        {
            if queue[i].1 > top {
                top = queue[i].1;
            }
            i = i + 1;
        }
        let start = if queue.len() > 0 {
            queue[0].0
        } else {
            0
        };
        proof {
            if queue@.len() > 0 {
                assert(queue@[0].0 < queue@[0].1);
                assert(queue@.contains(queue@[0]));
                assert(input.contains(queue@[0]));
                let w = choose|w: int| 0 <= w < input.len() && input[w] == queue@[0];
                assert(start == input[w].0);
                assert(exists|j: int| 0 <= j < input.len() && start == (#[trigger] input[j]).0);
            }
            assert forall|j: int| 0 <= j < input.len() implies start <= (#[trigger] input[j]).0 by {
                assert(input.contains(input[j]));
                assert(queue@.contains(input[j]));
            }
        }
        Self::start_at(start, 0, queue, Ghost(top as int))
    }

    /// The nearest edge ahead of the cursor, if any.
    pub fn peek(&self) -> (r: Option<usize>)
        requires
            self.wf(),
        ensures
            match r {
                Some(b) => self.is_next_boundary(b as int),
                None => forall|c: int| #[trigger] self.is_boundary(c) ==> c <= self.cursor(),
            },
    {
        let mut best: Option<usize> = if self.horizon > self.last {
            Some(self.horizon)
        } else {
            None
        };
        let mut i: usize = 0;
        while i < self.ends.len()
            invariant
                self.wf(),
                i <= self.ends@.len(),
                match best {
                    Some(b) => {
                        &&& self.last < b
                        &&& self.is_boundary(b as int)
                        &&& (self.horizon > self.last ==> b <= self.horizon)
                        &&& forall|k: int| 0 <= k < i ==> b <= (#[trigger] self.ends@[k]).1
                    },
                    None => self.horizon <= self.last && i == 0,
                },
            decreases self.ends@.len() - i,
        {
            let e = self.ends[i].1;
            proof {
                assert(self.has_open(self.ends@[i as int].0.key(), e as int));
                let j = choose|j: int|
                    0 <= j < self.next && self.queue@[j].2.key() == self.ends@[i as int].0.key()
                        && self.queue@[j].1 == e && e > self.last;
                assert(is_edge(self.queue@, e as int));
            }
            best = match best {
                Some(b) => if e < b {
                    Some(e)
                } else {
                    Some(b)
                },
                None => Some(e),
            };
            i = i + 1;
        }
        if self.next < self.queue.len() {
            let s = self.queue[self.next].0;
            proof {
                assert(is_edge(self.queue@, s as int));
            }
            best = match best {
                Some(b) => if s < b {
                    Some(s)
                } else {
                    Some(b)
                },
                None => Some(s),
            };
        }
        proof {
            let q = self.queue@;
            assert forall|c: int| #[trigger] self.is_boundary(c) && self.cursor() < c implies best is Some
                && best->0 <= c by {
                if c != self.horizon {
                    let j = choose|j: int| 0 <= j < q.len() && (q[j].0 == c || q[j].1 == c);
                    assert(q[j].0 < q[j].1);
                    if j < self.next {
                        assert(q[j].0 <= self.last);
                        assert(self.has_entry(q[j].2.key(), q[j].1 as int));
                        let k = choose|k: int|
                            0 <= k < self.ends@.len() && self.ends@[k].0.key() == q[j].2.key()
                                && self.ends@[k].1 == q[j].1;
                    } else {
                        assert(q[self.next as int].0 <= q[j].0);
                    }
                }
            }
        }
        best
    }

    /// Emits the run from the cursor to the nearest edge ahead of it, tagged
    /// with the labels active over it, and moves the cursor to that edge.
    pub fn next(&mut self) -> (r: Option<Interval<Vec<T>>>)
        requires
            old(self).wf(),
        ensures
            final(self).wf(),
            final(self).intervals() == old(self).intervals(),
            final(self).horizon() == old(self).horizon(),
            final(self).reach() == old(self).reach(),
            match r {
                None => {
                    &&& final(self).cursor() == old(self).cursor()
                    &&& forall|c: int| #[trigger] old(self).is_boundary(c) ==> c <= old(self).cursor()
                },
                Some(run) => {
                    &&& run.0 == old(self).cursor()
                    &&& old(self).is_next_boundary(run.1 as int)
                    &&& final(self).cursor() == run.1
                    &&& keys(run.2@) == labels_over(old(self).intervals(), run.0 as int)
                    &&& ordered_keys(run.2@)
                },
            },
    {
        let b = match self.peek() {
            None => return None,
            Some(b) => b,
        };
        let ghost pre = *self;
        let labels = entry_labels(&self.ends);
        let mut kept = entries_not_ending_at(&self.ends, b);
        let ghost kept0 = kept@;
        let ghost next0 = self.next;
        while self.next < self.queue.len() && self.queue[self.next].0 == b
            invariant
                pre.wf(),
                pre.is_next_boundary(b as int),
                self.queue@ == pre.queue@,
                self.last == pre.last,
                self.horizon == pre.horizon,
                self.top == pre.top,
                next0 == pre.next,
                next0 <= self.next <= self.queue@.len(),
                forall|j: int| next0 <= j < self.next ==> (#[trigger] self.queue@[j]).0 == b,
                forall|k: Seq<u8>, e: int|
                    #![trigger holds_entry(kept@, k, e)]
                    holds_entry(kept@, k, e) <==> holds_entry(kept0, k, e) || queued_entry(
                        self.queue@,
                        next0 as int,
                        self.next as int,
                        k,
                        e,
                    ),
            decreases self.queue@.len() - self.next,
        {
            let x = (self.queue[self.next].2.duplicate(), self.queue[self.next].1);
            let ghost k0 = kept@;
            let ghost n0 = self.next;
            kept.push(x);
            self.next = self.next + 1;
            assert forall|k: Seq<u8>, e: int|
                holds_entry(kept@, k, e) <==> holds_entry(kept0, k, e) || queued_entry(
                    self.queue@,
                    next0 as int,
                    self.next as int,
                    k,
                    e,
                ) by {
                lemma_holds_entry_push(k0, x, k, e);
                assert(holds_entry(k0, k, e) <==> holds_entry(kept0, k, e) || queued_entry(
                    self.queue@,
                    next0 as int,
                    n0 as int,
                    k,
                    e,
                ));
                if x.0.key() == k && x.1 == e {
                    assert(self.queue@[n0 as int].2.key() == k && self.queue@[n0 as int].1 == e);
                }
                if queued_entry(self.queue@, next0 as int, self.next as int, k, e) {
                    let j = choose|j: int|
                        next0 <= j < self.next && self.queue@[j].2.key() == k && self.queue@[j].1 == e;
                    if j < n0 {
                        assert(queued_entry(self.queue@, next0 as int, n0 as int, k, e));
                    }
                }
                if queued_entry(self.queue@, next0 as int, n0 as int, k, e) {
                    let j = choose|j: int|
                        next0 <= j < n0 && self.queue@[j].2.key() == k && self.queue@[j].1 == e;
                    assert(next0 <= j < self.next && self.queue@[j].2.key() == k && self.queue@[j].1 == e);
                }
            }
        }
        let start = self.last;
        self.ends = kept;
        self.last = b;
        proof {
            let q = self.queue@;
            // the labels active at the old cursor are those of the active entries
            assert forall|k: Seq<u8>| keys(labels@).contains(k) == labels_over(q, start as int).contains(k) by {
                if entry_keys(pre.ends@).contains(k) {
                    let i = choose|i: int| 0 <= i < pre.ends@.len() && pre.ends@[i].0.key() == k;
                    assert(pre.has_open(pre.ends@[i].0.key(), pre.ends@[i].1 as int));
                    let j = choose|j: int|
                        0 <= j < pre.next && q[j].2.key() == k && q[j].1 == pre.ends@[i].1 && q[j].1 > pre.last;
                    assert(q[j].0 <= pre.last);
                }
                if labels_over(q, start as int).contains(k) {
                    let j = choose|j: int| 0 <= j < q.len() && q[j].0 <= start < q[j].1 && q[j].2.key() == k;
                    assert(j < pre.next);
                    assert(pre.has_entry(k, q[j].1 as int));
                    let i = choose|i: int|
                        0 <= i < pre.ends@.len() && pre.ends@[i].0.key() == k && pre.ends@[i].1 == q[j].1;
                }
            }
            assert(keys(labels@) =~= labels_over(q, start as int));
            // every active end lies at or after the new cursor
            assert forall|k: Seq<u8>, e: int| holds_entry(pre.ends@, k, e) implies e >= b by {
                let i = choose|i: int| 0 <= i < pre.ends@.len() && pre.ends@[i].0.key() == k && pre.ends@[i].1 == e;
                assert(pre.has_open(pre.ends@[i].0.key(), pre.ends@[i].1 as int));
                let j = choose|j: int|
                    0 <= j < pre.next && q[j].2.key() == k && q[j].1 == e && e > pre.last;
                assert(is_edge(q, e));
                assert(pre.is_boundary(e));
            }
            assert forall|j: int| 0 <= j < self.next implies (#[trigger] q[j]).0 <= self.last by {
                if j < pre.next {
                    assert(q[j].0 <= pre.last);
                }
            }
            assert forall|j: int| self.next <= j < q.len() implies (#[trigger] q[j]).0 > self.last by {
                let n = self.next as int;
                assert(q[n].0 <= q[j].0);
                assert(q[n].0 > pre.last);
                assert(is_edge(q, q[n].0 as int));
                assert(pre.is_boundary(q[n].0 as int));
            }
            assert forall|i: int| 0 <= i < self.ends@.len() implies self.has_open(
                (#[trigger] self.ends@[i]).0.key(),
                self.ends@[i].1 as int,
            ) by {
                let k = self.ends@[i].0.key();
                let e = self.ends@[i].1 as int;
                assert(holds_entry(self.ends@, k, e));
                if holds_entry(kept0, k, e) {
                    let m = choose|m: int| 0 <= m < pre.ends@.len() && pre.ends@[m].0.key() == k && pre.ends@[m].1 == e;
                    assert(pre.has_open(pre.ends@[m].0.key(), pre.ends@[m].1 as int));
                    let j = choose|j: int| 0 <= j < pre.next && q[j].2.key() == k && q[j].1 == e && e > pre.last;
                    assert(e >= b);
                } else {
                    assert(queued_entry(q, next0 as int, self.next as int, k, e));
                    let j = choose|j: int| next0 <= j < self.next && q[j].2.key() == k && q[j].1 == e;
                    assert(q[j].0 < q[j].1);
                }
            }
            assert forall|j: int| 0 <= j < self.next && (#[trigger] q[j]).1 > self.last implies self.has_entry(
                q[j].2.key(),
                q[j].1 as int,
            ) by {
                if j < pre.next {
                    assert(pre.has_entry(q[j].2.key(), q[j].1 as int));
                    assert(holds_entry(kept0, q[j].2.key(), q[j].1 as int));
                } else {
                    assert(queued_entry(q, next0 as int, self.next as int, q[j].2.key(), q[j].1 as int));
                }
                assert(holds_entry(self.ends@, q[j].2.key(), q[j].1 as int));
            }
        }
        Some(Interval(start, b, labels))
    }

    /// A sweep over `intervals` from offset 0, with `length` as an extra edge.
    pub fn spanning(length: usize, intervals: Vec<Interval<T>>) -> (r: Merge<T>)
        requires
            forall|j: int|
                0 <= j < intervals@.len() ==> (#[trigger] intervals@[j]).0 < intervals@[j].1 <= length,
        ensures
            r.wf(),
            r.intervals().to_multiset() == intervals@.to_multiset(),
            r.cursor() == 0,
            r.horizon() == length,
            r.reach() == length,
    {
        let ghost input = intervals@;
        let queue = sort_by_start(intervals);
        proof {
            lemma_permutation_elements(queue@, input);
            assert forall|j: int| 0 <= j < queue@.len() implies (#[trigger] queue@[j]).0 < queue@[j].1 <= length by {
                assert(queue@.contains(queue@[j]));
                let w = choose|w: int| 0 <= w < input.len() && input[w] == queue@[j];
            }
        }
        Self::start_at(0, length, queue, Ghost(length as int))
    }

    /// All the remaining runs of the sweep, in order.
    #[verifier::loop_isolation(false)]
    pub fn runs(self) -> (r: Vec<Interval<Vec<T>>>)
        requires
            self.wf(),
        ensures
            forall|i: int|
                0 <= i < r@.len() ==> {
                    &&& (#[trigger] r@[i]).0 < r@[i].1
                    &&& forall|c: int| #[trigger] self.is_boundary(c) && r@[i].0 < c ==> r@[i].1 <= c
                    &&& self.is_boundary(r@[i].1 as int)
                    &&& keys(r@[i].2@) == labels_over(self.intervals(), r@[i].0 as int)
                    &&& ordered_keys(r@[i].2@)
                },
            forall|i: int| 0 <= i < r@.len() - 1 ==> (#[trigger] r@[i]).1 == r@[i + 1].0,
            r@.len() > 0 ==> r@[0].0 == self.cursor(),
            r@.len() > 0 ==> forall|c: int| #[trigger] self.is_boundary(c) ==> c <= r@[r@.len() - 1].1,
            r@.len() == 0 ==> forall|c: int| #[trigger] self.is_boundary(c) ==> c <= self.cursor(),
    {
        let ghost start = self;
        let mut m = self;
        assert(start == self);
        let mut r: Vec<Interval<Vec<T>>> = Vec::new();
        loop
            invariant
                m.wf(),
                m.intervals() == start.intervals(),
                m.horizon() == start.horizon(),
                m.reach() == start.reach(),
                forall|c: int| #[trigger] m.is_boundary(c) == start.is_boundary(c),
                forall|i: int|
                    0 <= i < r@.len() ==> {
                        &&& (#[trigger] r@[i]).0 < r@[i].1
                        &&& forall|c: int| #[trigger] start.is_boundary(c) && r@[i].0 < c ==> r@[i].1 <= c
                        &&& start.is_boundary(r@[i].1 as int)
                        &&& keys(r@[i].2@) == labels_over(start.intervals(), r@[i].0 as int)
                        &&& ordered_keys(r@[i].2@)
                    },
                forall|i: int| 0 <= i < r@.len() - 1 ==> (#[trigger] r@[i]).1 == r@[i + 1].0,
                r@.len() > 0 ==> r@[0].0 == start.cursor() && r@[r@.len() - 1].1 == m.cursor(),
                r@.len() == 0 ==> m.cursor() == start.cursor(),
            decreases m.reach() - m.cursor(),
        {
            let ghost m0 = m;
            match m.next() {
                None => {
                    proof {
                        assert forall|c: int| #[trigger] start.is_boundary(c) implies c <= m0.cursor() by {
                            assert(m0.is_boundary(c));
                        }
                    }
                    return r;
                },
                Some(run) => {
                    proof {
                        assert forall|c: int| #[trigger] start.is_boundary(c) && run.0 < c implies run.1 <= c by {
                            assert(m0.is_boundary(c));
                        }
                        assert(start.is_boundary(run.1 as int));
                    }
                    let ghost r0 = r@;
                    r.push(run);
                    proof {
                        assert forall|i: int| 0 <= i < r0.len() implies r@[i] == r0[i] by {}
                    }
                },
            }
        }
    }
}

} // verus!
