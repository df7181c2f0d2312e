use vstd::prelude::*;

use core::cmp::Ordering;

verus! {

/// An offset into a buffer: a whole byte, or a run of bits inside the byte
/// at some offset.
#[derive(Clone, Copy, Debug, PartialEq, Eq, Structural)]
pub enum Mask {
    /// The byte at this offset.
    Byte(usize),
    /// `len` bits from bit `shift` of the byte at `offset`: `Bit(offset, len, shift)`.
    Bit(usize, usize, u8),
}

/// The three-way comparison of two integers.
pub open spec fn compare_spec(a: int, b: int) -> Ordering {
    if a < b {
        Ordering::Less
    } else if a == b {
        Ordering::Equal
    } else {
        Ordering::Greater
    }
}

fn compare_usize(a: usize, b: usize) -> (r: Ordering)
    ensures
        r == compare_spec(a as int, b as int),
{
    if a < b {
        Ordering::Less
    } else if a == b {
        Ordering::Equal
    } else {
        Ordering::Greater
    }
}

impl Mask {
    /// The byte offset where the mask begins.
    pub open spec fn floor_spec(&self) -> int {
        match self {
            Mask::Byte(i) => *i as int,
            Mask::Bit(s, _, _) => *s as int,
        }
    }

    /// The offset where the mask ends.
    pub open spec fn ceil_spec(&self) -> int {
        match self {
            Mask::Byte(i) => *i as int,
            Mask::Bit(s, l, _) => *s + *l,
        }
    }

    /// The byte offset where the mask begins.
    pub fn floor(&self) -> (r: usize)
        ensures
            r == self.floor_spec(),
    {
        match self {
            Mask::Byte(i) => *i,
            Mask::Bit(s, _, _) => *s,
        }
    }

    /// The offset where the mask ends.
    pub fn ceil(&self) -> (r: usize)
        requires
            self.ceil_spec() <= usize::MAX,
        ensures
            r == self.ceil_spec(),
    {
        match self {
            Mask::Byte(i) => *i,
            Mask::Bit(s, l, _) => *s + *l,
        }
    }

    /// The same mask moved `rhs` bytes towards the start of the buffer.
    pub fn sub(self, rhs: usize) -> (r: Mask)
        requires
            rhs <= self.floor_spec(),
        ensures
            r == match self {
                Mask::Byte(i) => Mask::Byte((i - rhs) as usize),
                Mask::Bit(i, l, s) => Mask::Bit((i - rhs) as usize, l, s),
            },
    {
        match self {
            Mask::Byte(i) => Mask::Byte(i - rhs),
            Mask::Bit(i, l, s) => Mask::Bit(i - rhs, l, s),
        }
    }

    /// Masks are ordered by where they begin; two bit masks in one byte are
    /// ordered by their first bit.
    pub open spec fn order(&self, other: &Mask) -> Ordering {
        match (*self, *other) {
            (Mask::Bit(a, _, c), Mask::Bit(b, _, d)) => if a == b {
                compare_spec(c as int, d as int)
            } else {
                compare_spec(a as int, b as int)
            },
            _ => compare_spec(self.floor_spec(), other.floor_spec()),
        }
    }
}

impl PartialOrd for Mask {
    fn partial_cmp(&self, other: &Mask) -> (r: Option<Ordering>) {
        match (self, other) {
            (Mask::Byte(a), Mask::Byte(b)) => Some(compare_usize(*a, *b)),
            (Mask::Bit(a, _, _), Mask::Byte(b)) => Some(compare_usize(*a, *b)),
            (Mask::Byte(a), Mask::Bit(b, _, _)) => Some(compare_usize(*a, *b)),
            (Mask::Bit(a, _, c), Mask::Bit(b, _, d)) => if *a == *b {
                Some(compare_usize(*c as usize, *d as usize))
            } else {
                Some(compare_usize(*a, *b))
            },
        }
    }
}

impl vstd::std_specs::cmp::PartialOrdSpecImpl for Mask {
    open spec fn obeys_partial_cmp_spec() -> bool {
        true
    }

    open spec fn partial_cmp_spec(&self, other: &Mask) -> Option<Ordering> {
        Some(self.order(other))
    }
}

} // verus!
