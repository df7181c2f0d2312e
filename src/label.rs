use vstd::prelude::*;
use vstd::string::StringSliceAdditionalSpecFns;

use core::cmp::Ordering;

verus! {

/// A highlight label (a class name, a marker kind).
///
/// A label is identified by its byte key: two labels with the same key are the
/// same label.
pub trait Label: Sized {
    /// The bytes that identify this label.
    spec fn key(&self) -> Seq<u8>;

    /// Where this label stands in the order of labels by their keys.
    fn compare(&self, other: &Self) -> (r: Ordering)
        ensures
            r == Ordering::Less ==> key_less(self.key(), other.key()),
            r == Ordering::Equal ==> self.key() == other.key(),
            r == Ordering::Greater ==> key_less(other.key(), self.key()),
    ;

    /// Whether two labels are the same label.
    fn same(&self, other: &Self) -> (r: bool)
        ensures
            r == (self.key() == other.key()),
    ;

    /// A copy of this label.
    fn duplicate(&self) -> (r: Self)
        ensures
            r.key() == self.key(),
    ;
}

/// `a` and `b` agree before position `i`, and at `i` either `a` has ended
/// while `b` goes on, or `a` holds the smaller byte.
pub open spec fn key_less_at(a: Seq<u8>, b: Seq<u8>, i: int) -> bool {
    &&& 0 <= i <= a.len()
    &&& i <= b.len()
    &&& forall|j: int| 0 <= j < i ==> a[j] == b[j]
    &&& (i == a.len() && i < b.len()) || (i < a.len() && i < b.len() && a[i] < b[i])
}

/// Byte string `a` comes strictly before `b` in lexicographic order.
pub open spec fn key_less(a: Seq<u8>, b: Seq<u8>) -> bool {
    exists|i: int| #[trigger] key_less_at(a, b, i)
}

/// Lexicographic order is transitive.
pub proof fn lemma_key_less_transitive(a: Seq<u8>, b: Seq<u8>, c: Seq<u8>)
    requires
        key_less(a, b),
        key_less(b, c),
    ensures
        key_less(a, c),
{
    let i = choose|i: int| key_less_at(a, b, i);
    let j = choose|j: int| key_less_at(b, c, j);
    let m = if i < j { i } else { j };
    assert(forall|k: int| 0 <= k < m ==> a[k] == c[k]);
    assert(key_less_at(a, c, m));
}

/// Orders two byte strings lexicographically.
fn compare_bytes(a: &[u8], b: &[u8]) -> (r: Ordering)
    ensures
        r == Ordering::Less ==> key_less(a@, b@),
        r == Ordering::Equal ==> a@ == b@,
        r == Ordering::Greater ==> key_less(b@, a@),
{
    let mut i: usize = 0;
    while i < a.len() && i < b.len() && a[i] == b[i]
        invariant
            i <= a@.len(),
            i <= b@.len(),
            forall|j: int| 0 <= j < i ==> a@[j] == b@[j],
        decreases a@.len() - i,
    {
        i = i + 1;
    }
    let ghost k = i as int;
    if i < a.len() && i < b.len() {
        if a[i] < b[i] {
            assert(key_less_at(a@, b@, k));
            Ordering::Less
        } else {
            assert(key_less_at(b@, a@, k));
            Ordering::Greater
        }
    } else if i < b.len() {
        assert(key_less_at(a@, b@, k));
        Ordering::Less
    } else if i < a.len() {
        assert(key_less_at(b@, a@, k));
        Ordering::Greater
    } else {
        assert(a@ =~= b@);
        Ordering::Equal
    }
}

/// Compares two byte strings for equality.
fn bytes_equal(a: &[u8], b: &[u8]) -> (r: bool)
    ensures
        r == (a@ == b@),
{
    if a.len() != b.len() {
        return false;
    }
    let mut i: usize = 0;
    while i < a.len()
        invariant
            a@.len() == b@.len(),
            i <= a@.len(),
            forall|j: int| 0 <= j < i ==> a@[j] == b@[j],
        decreases a@.len() - i,
    {
        if a[i] != b[i] {
            return false;
        }
        i = i + 1;
    }
    assert(a@ =~= b@);
    true
}

impl Label for () {
    open spec fn key(&self) -> Seq<u8> {
        Seq::empty()
    }

    fn compare(&self, other: &Self) -> (r: Ordering) {
        Ordering::Equal
    }

    fn same(&self, other: &Self) -> (r: bool) {
        true
    }

    fn duplicate(&self) -> (r: Self) {
        ()
    }
}

impl<'a> Label for &'a str {
    open spec fn key(&self) -> Seq<u8> {
        (**self).spec_bytes()
    }

    fn compare(&self, other: &Self) -> (r: Ordering) {
        compare_bytes(self.as_bytes(), other.as_bytes())
    }

    fn same(&self, other: &Self) -> (r: bool) {
        bytes_equal(self.as_bytes(), other.as_bytes())
    }

    fn duplicate(&self) -> (r: Self) {
        *self
    }
}

impl Label for String {
    open spec fn key(&self) -> Seq<u8> {
        vstd::utf8::encode_utf8(self@)
    }

    fn compare(&self, other: &Self) -> (r: Ordering) {
        compare_bytes(self.as_str().as_bytes(), other.as_str().as_bytes())
    }

    fn same(&self, other: &Self) -> (r: bool) {
        bytes_equal(self.as_str().as_bytes(), other.as_str().as_bytes())
    }

    fn duplicate(&self) -> (r: Self) {
        self.clone()
    }
}

/// The set of keys of a sequence of labels.
pub open spec fn keys<T: Label>(s: Seq<T>) -> Set<Seq<u8>> {
    Set::new(|k: Seq<u8>| exists|i: int| 0 <= i < s.len() && s[i].key() == k)
}

/// The labels are in strictly increasing order of their keys, so that no
/// label occurs twice.
pub open spec fn ordered_keys<T: Label>(s: Seq<T>) -> bool {
    forall|i: int, j: int| 0 <= i < j < s.len() ==> key_less(#[trigger] s[i].key(), #[trigger] s[j].key())
}

/// The position of `label` in `labels`, if it is there.
pub fn find_label<T: Label>(labels: &Vec<T>, label: &T) -> (r: Option<usize>)
    ensures
        match r {
            Some(i) => i < labels@.len() && labels@[i as int].key() == label.key(),
            None => !keys(labels@).contains(label.key()),
        },
{
    let mut i: usize = 0;
    while i < labels.len()
        invariant
            i <= labels@.len(),
            forall|j: int| 0 <= j < i ==> labels@[j].key() != label.key(),
        decreases labels@.len() - i,
    {
        if labels[i].same(label) {
            return Some(i);
        }
        i = i + 1;
    }
    None
}

/// Adds `label` to a set of labels, at its place in the order.
pub fn add_label<T: Label>(labels: &mut Vec<T>, label: &T)
    requires
        ordered_keys(old(labels)@),
    ensures
        ordered_keys(final(labels)@),
        keys(final(labels)@) == keys(old(labels)@).insert(label.key()),
{
    let mut p: usize = 0;
    let mut stop: bool = false;
    while !stop && p < labels.len()
        invariant
            p <= labels@.len(),
            forall|j: int| 0 <= j < p ==> key_less(#[trigger] labels@[j].key(), label.key()),
            stop ==> p < labels@.len() && (labels@[p as int].key() == label.key() || key_less(
                label.key(),
                labels@[p as int].key(),
            )),
        decreases labels@.len() - p + (if stop { 0int } else { 1int }),
    {
        match labels[p].compare(label) {
            Ordering::Less => {
                p = p + 1;
            },
            _ => {
                stop = true;
            },
        }
    }
    if stop && labels[p].same(label) {
        assert(keys(labels@).contains(label.key()));
        assert(keys(labels@) =~= keys(labels@).insert(label.key()));
        return;
    }
    let ghost before = labels@;
    labels.insert(p, label.duplicate());
    proof {
        assert(labels@.len() == before.len() + 1);
        assert forall|j: int| 0 <= j < p implies labels@[j] == before[j] by {}
        assert forall|j: int| p < j < labels@.len() implies labels@[j] == before[j - 1] by {}
        assert(labels@[p as int].key() == label.key());
        assert forall|i: int, j: int| 0 <= i < j < labels@.len() implies key_less(
            #[trigger] labels@[i].key(),
            #[trigger] labels@[j].key(),
        ) by {
            if j == p {
                assert(labels@[i] == before[i]);
            } else if i == p {
                assert(labels@[j] == before[j - 1]);
                if j - 1 > p {
                    assert(key_less(before[p as int].key(), before[j - 1].key()));
                    lemma_key_less_transitive(label.key(), before[p as int].key(), before[j - 1].key());
                }
            } else if j < p {
                assert(labels@[i] == before[i] && labels@[j] == before[j]);
            } else if i < p {
                assert(labels@[i] == before[i] && labels@[j] == before[j - 1]);
            } else {
                assert(labels@[i] == before[i - 1] && labels@[j] == before[j - 1]);
            }
        }
        assert forall|k: Seq<u8>| keys(labels@).contains(k) == keys(before).insert(label.key()).contains(k) by {
            if keys(before).contains(k) {
                let i = choose|i: int| 0 <= i < before.len() && before[i].key() == k;
                if i < p {
                    assert(labels@[i] == before[i]);
                } else {
                    assert(labels@[i + 1] == before[i]);
                }
            }
            if keys(labels@).contains(k) {
                let i = choose|i: int| 0 <= i < labels@.len() && labels@[i].key() == k;
                if i < p {
                    assert(labels@[i] == before[i]);
                } else if i > p {
                    assert(labels@[i] == before[i - 1]);
                }
            }
        }
        assert(keys(labels@) =~= keys(before).insert(label.key()));
    }
}

/// Takes `label` out of a set of labels.
pub fn remove_label<T: Label>(labels: &mut Vec<T>, label: &T)
    requires
        ordered_keys(old(labels)@),
    ensures
        ordered_keys(final(labels)@),
        keys(final(labels)@) == keys(old(labels)@).remove(label.key()),
{
    match find_label(labels, label) {
        Some(i) => {
            let ghost before = labels@;
            labels.remove(i);
            assert forall|k: Seq<u8>| keys(labels@).contains(k) == keys(before).remove(label.key()).contains(k) by {
                if keys(before).contains(k) && k != label.key() {
                    let j = choose|j: int| 0 <= j < before.len() && before[j].key() == k;
                    if j < i {
                        assert(labels@[j] == before[j]);
                    } else {
                        assert(j != i);
                        assert(labels@[j - 1] == before[j]);
                    }
                }
                if keys(labels@).contains(k) {
                    let j = choose|j: int| 0 <= j < labels@.len() && labels@[j].key() == k;
                    if j < i {
                        assert(labels@[j] == before[j]);
                    } else {
                        assert(labels@[j] == before[j + 1]);
                    }
                }
            }
            assert(keys(labels@) =~= keys(before).remove(label.key()));
        },
        None => {
            assert(keys(labels@) =~= keys(labels@).remove(label.key()));
        },
    }
}

/// Whether every label of `a` is in `b`.
fn labels_within<T: Label>(a: &Vec<T>, b: &Vec<T>) -> (r: bool)
    ensures
        r == keys(a@).subset_of(keys(b@)),
{
    let mut i: usize = 0;
    while i < a.len()
        invariant
            i <= a@.len(),
            forall|j: int| 0 <= j < i ==> keys(b@).contains(#[trigger] a@[j].key()),
        decreases a@.len() - i,
    {
        match find_label(b, &a[i]) {
            Some(_) => {},
            None => {
                assert(keys(a@).contains(a@[i as int].key()));
                return false;
            },
        }
        i = i + 1;
    }
    true
}

/// Whether two sets of labels hold the same labels.
pub fn same_labels<T: Label>(a: &Vec<T>, b: &Vec<T>) -> (r: bool)
    ensures
        r == (keys(a@) == keys(b@)),
{
    let r = labels_within(a, b) && labels_within(b, a);
    proof {
        if r {
            assert(keys(a@) =~= keys(b@));
        }
    }
    r
}

/// A copy of a set of labels.
pub fn copy_labels<T: Label>(labels: &Vec<T>) -> (r: Vec<T>)
    ensures
        r@.len() == labels@.len(),
        forall|i: int| 0 <= i < r@.len() ==> r@[i].key() == labels@[i].key(),
        keys(r@) == keys(labels@),
        ordered_keys(labels@) ==> ordered_keys(r@),
{
    let mut r: Vec<T> = Vec::new();
    let mut i: usize = 0;
    while i < labels.len()
        invariant
            i <= labels@.len(),
            r@.len() == i,
            forall|j: int| 0 <= j < i ==> r@[j].key() == labels@[j].key(),
        decreases labels@.len() - i,
    {
        r.push(labels[i].duplicate());
        i = i + 1;
    }
    assert forall|k: Seq<u8>| keys(r@).contains(k) == keys(labels@).contains(k) by {
        if keys(r@).contains(k) {
            let j = choose|j: int| 0 <= j < r@.len() && r@[j].key() == k;
            assert(labels@[j].key() == k);
        }
        if keys(labels@).contains(k) {
            let j = choose|j: int| 0 <= j < labels@.len() && labels@[j].key() == k;
            assert(r@[j].key() == k);
        }
    }
    assert(keys(r@) =~= keys(labels@));
    r
}

} // verus!
