use vstd::prelude::*;

use crate::interval::Interval;
use crate::label::Label;
use crate::overlay::{covers, edited, labels_at, maximal, valid_interval, Overlay, OverlayError};

verus! {

/// Some span of `s` has the range and the label of `iv`.
pub open spec fn span_in<T: Label>(iv: Interval<T>, s: Seq<Interval<T>>) -> bool {
    exists|i: int| 0 <= i < s.len() && s[i].0 == iv.0 && s[i].1 == iv.1 && s[i].2.key() == iv.2.key()
}

/// The spans of `a`, in order, that `b` does not hold.
pub open spec fn missing_from<T: Label>(a: Seq<Interval<T>>, b: Seq<Interval<T>>) -> Seq<Interval<T>>
    decreases a.len(),
{
    if a.len() == 0 {
        Seq::empty()
    } else {
        let rest = missing_from(a.drop_last(), b);
        if span_in(a.last(), b) {
            rest
        } else {
            rest.push(a.last())
        }
    }
}

/// The labels `ls` at offset `x` after each span of `spans` in turn adds
/// (`add`) or takes away its label over its range.
pub open spec fn after_edits<T: Label>(ls: Set<Seq<u8>>, spans: Seq<Interval<T>>, add: bool, x: int) -> Set<
    Seq<u8>,
>
    decreases spans.len(),
{
    if spans.len() == 0 {
        ls
    } else {
        let s = spans.last();
        edited(after_edits(ls, spans.drop_last(), add, x), s.2.key(), add, s.0 <= x < s.1)
    }
}

/// Whether `s` holds a span with the range and the label of `iv`.
fn has_span<T: Label>(s: &Vec<Interval<T>>, iv: &Interval<T>) -> (r: bool)
    ensures
        r == span_in(*iv, s@),
{
    let mut i: usize = 0;
    while i < s.len()
        invariant
            i <= s@.len(),
            forall|j: int|
                0 <= j < i ==> !((#[trigger] s@[j]).0 == iv.0 && s@[j].1 == iv.1 && s@[j].2.key() == iv.2.key()),
        decreases s@.len() - i,
    {
        if s[i].0 == iv.0 && s[i].1 == iv.1 && s[i].2.same(&iv.2) {
            return true;
        }
        i = i + 1;
    }
    false
}

/// The spans of `a`, in order, that `b` does not hold.
fn spans_missing_from<T: Label>(a: &Vec<Interval<T>>, b: &Vec<Interval<T>>) -> (r: Vec<Interval<T>>)
    ensures
        r@.len() == missing_from(a@, b@).len(),
        forall|i: int|
            0 <= i < r@.len() ==> {
                let m = #[trigger] missing_from(a@, b@)[i];
                r@[i].0 == m.0 && r@[i].1 == m.1 && r@[i].2.key() == m.2.key()
            },
{
    let mut r: Vec<Interval<T>> = Vec::new();
    let mut i: usize = 0;
    while i < a.len()
        invariant
            i <= a@.len(),
            r@.len() == missing_from(a@.subrange(0, i as int), b@).len(),
            forall|j: int|
                0 <= j < r@.len() ==> {
                    let m = #[trigger] missing_from(a@.subrange(0, i as int), b@)[j];
                    r@[j].0 == m.0 && r@[j].1 == m.1 && r@[j].2.key() == m.2.key()
                },
        decreases a@.len() - i,
    {
        let ghost pre = a@.subrange(0, i as int);
        let ghost post = a@.subrange(0, i + 1);
        proof {
            assert(post.drop_last() =~= pre);
            assert(post.last() == a@[i as int]);
        }
        if !has_span(b, &a[i]) {
            r.push(Interval(a[i].0, a[i].1, a[i].2.duplicate()));
        }
        proof {
            assert forall|j: int| 0 <= j < r@.len() implies {
                let m = #[trigger] missing_from(post, b@)[j];
                r@[j].0 == m.0 && r@[j].1 == m.1 && r@[j].2.key() == m.2.key()
            } by {
                if j < missing_from(pre, b@).len() {
                    assert(missing_from(post, b@)[j] == missing_from(pre, b@)[j]);
                }
            }
        }
        i = i + 1;
    }
    assert(a@.subrange(0, i as int) =~= a@);
    r
}

impl<T: Label> Overlay<T> {
    /// Moves the overlay from the spans `previous` to the spans `current`:
    /// takes away, in order, the label of each span of `previous` that
    /// `current` does not hold, then adds, in order, the label of each span of
    /// `current` that `previous` does not hold.
    ///
    /// Refuses, before any change, a list with a span that is empty or reaches
    /// past the end of the buffer.
    #[verifier::loop_isolation(false)]
    pub fn change_spans(&mut self, previous: &Vec<Interval<T>>, current: &Vec<Interval<T>>) -> (r: Result<
        (),
        OverlayError,
    >)
        requires
            old(self).wf(),
        ensures
            final(self).wf(),
            final(self).length() == old(self).length(),
            covers(final(self)@, final(self).length()),
            maximal(final(self)@),
            r is Err <==> (exists|j: int|
                0 <= j < previous@.len() && !valid_interval(#[trigger] previous@[j], old(self).length()))
                || (exists|j: int|
                0 <= j < current@.len() && !valid_interval(#[trigger] current@[j], old(self).length())),
            r is Err ==> r == Err::<(), OverlayError>(OverlayError::InvalidInterval) && final(self)@ == old(
                self,
            )@,
            r is Ok ==> forall|x: int|
                0 <= x < old(self).length() ==> #[trigger] labels_at(final(self)@, x) == after_edits(
                    after_edits(labels_at(old(self)@, x), missing_from(previous@, current@), false, x),
                    missing_from(current@, previous@),
                    true,
                    x,
                ),
    {
        let n = self.len();
        proof {
            self.lemma_wf();
        }
        let mut j: usize = 0;
        while j < previous.len()
            invariant
                j <= previous@.len(),
                forall|k: int| 0 <= k < j ==> valid_interval(#[trigger] previous@[k], n as int),
            decreases previous@.len() - j,
        {
            if !(previous[j].0 < previous[j].1 && previous[j].1 <= n) {
                return Err(OverlayError::InvalidInterval);
            }
            j = j + 1;
        }
        let mut j: usize = 0;
        while j < current.len()
            invariant
                j <= current@.len(),
                forall|k: int| 0 <= k < j ==> valid_interval(#[trigger] current@[k], n as int),
            decreases current@.len() - j,
        {
            if !(current[j].0 < current[j].1 && current[j].1 <= n) {
                return Err(OverlayError::InvalidInterval);
            }
            j = j + 1;
        }
        let ghost start = self@;
        let dropped = spans_missing_from(previous, current);
        let added = spans_missing_from(current, previous);
        let ghost dropped_spec = missing_from(previous@, current@);
        let ghost added_spec = missing_from(current@, previous@);
        proof {
            lemma_missing_valid(previous@, current@, n as int);
            lemma_missing_valid(current@, previous@, n as int);
        }
        let mut i: usize = 0;
        while i < dropped.len()
            invariant
                self.wf(),
                self.length() == n,
                i <= dropped@.len(),
                forall|x: int|
                    0 <= x < n ==> #[trigger] labels_at(self@, x) == after_edits(
                        labels_at(start, x),
                        dropped_spec.subrange(0, i as int),
                        false,
                        x,
                    ),
            decreases dropped@.len() - i,
        {
            let ghost before = self@;
            let s = &dropped[i];
            proof {
                assert(valid_interval(dropped_spec[i as int], n as int));
            }
            let _ = self.remove(&s.2, s.0, s.1);
            proof {
                let post = dropped_spec.subrange(0, i + 1);
                assert(post.drop_last() =~= dropped_spec.subrange(0, i as int));
                assert(post.last() == dropped_spec[i as int]);
                assert forall|x: int| 0 <= x < n implies #[trigger] labels_at(self@, x) == after_edits(
                    labels_at(start, x),
                    post,
                    false,
                    x,
                ) by {
                    assert(labels_at(self@, x) == edited(labels_at(before, x), s.2.key(), false, s.0 <= x < s.1));
                }
            }
            i = i + 1;
        }
        let ghost middle = self@;
        proof {
            assert(dropped_spec.subrange(0, i as int) =~= dropped_spec);
        }
        let mut i: usize = 0;
        while i < added.len()
            invariant
                self.wf(),
                self.length() == n,
                i <= added@.len(),
                forall|x: int|
                    0 <= x < n ==> #[trigger] labels_at(self@, x) == after_edits(
                        labels_at(middle, x),
                        added_spec.subrange(0, i as int),
                        true,
                        x,
                    ),
            decreases added@.len() - i,
        {
            let ghost before = self@;
            let s = &added[i];
            proof {
                assert(valid_interval(added_spec[i as int], n as int));
            }
            let _ = self.insert(&s.2, s.0, s.1);
            proof {
                let post = added_spec.subrange(0, i + 1);
                assert(post.drop_last() =~= added_spec.subrange(0, i as int));
                assert(post.last() == added_spec[i as int]);
                assert forall|x: int| 0 <= x < n implies #[trigger] labels_at(self@, x) == after_edits(
                    labels_at(middle, x),
                    post,
                    true,
                    x,
                ) by {
                    assert(labels_at(self@, x) == edited(labels_at(before, x), s.2.key(), true, s.0 <= x < s.1));
                }
            }
            i = i + 1;
        }
        proof {
            assert(added_spec.subrange(0, i as int) =~= added_spec);
            self.lemma_wf();
        }
        Ok(())
    }
}

/// Every span missing from another list is a span of the first list, so it
/// is valid where all of those are.
proof fn lemma_missing_valid<T: Label>(a: Seq<Interval<T>>, b: Seq<Interval<T>>, n: int)
    requires
        forall|k: int| 0 <= k < a.len() ==> valid_interval(#[trigger] a[k], n),
    ensures
        forall|k: int|
            0 <= k < missing_from(a, b).len() ==> valid_interval(#[trigger] missing_from(a, b)[k], n),
    decreases a.len(),
{
    if a.len() > 0 {
        let rest = a.drop_last();
        lemma_missing_valid(rest, b, n);
        assert(valid_interval(a[a.len() - 1], n));
        let m = missing_from(a, b);
        let mr = missing_from(rest, b);
        assert forall|k: int| 0 <= k < m.len() implies valid_interval(#[trigger] m[k], n) by {
            if k < mr.len() {
                assert(m[k] == mr[k]);
            } else {
                assert(m[k] == a.last());
            }
        }
    }
}

} // verus!
