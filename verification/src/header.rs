//! The `Range` request header in its single-range form, `bytes=<a>-<b>`.

use vstd::prelude::*;
use vstd::slice::slice_subrange;
use vstd::string::StringSliceAdditionalSpecFns;

verus! {

/// One end of a range of values.
#[derive(Debug, Clone, Copy, PartialEq, Eq)]
pub enum Bound<T> {
    /// The end is this value, which belongs to the range.
    Included(T),
    /// The end is this value, which does not belong to the range.
    Excluded(T),
    /// The range has no end on this side.
    Unbounded,
}

/// A range given by its two ends.
#[derive(Debug, Clone, PartialEq, Eq)]
pub struct RangeCustom<T> {
    pub start: Bound<T>,
    pub end: Bound<T>,
}

/// The same bound, holding a reference to its value.
pub fn bound_as_ref<T>(bound: &Bound<T>) -> (r: Bound<&T>)
    ensures
        match *bound {
            Bound::Included(x) => r == Bound::Included(&x),
            Bound::Excluded(x) => r == Bound::Excluded(&x),
            Bound::Unbounded => r == Bound::<&T>::Unbounded,
        },
{
    match bound {
        Bound::Included(x) => Bound::Included(x),
        Bound::Excluded(x) => Bound::Excluded(x),
        Bound::Unbounded => Bound::Unbounded,
    }
}

impl<T> RangeCustom<T> {
    /// The lower end of the range.
    pub fn start_bound(&self) -> (r: Bound<&T>)
        ensures
            match self.start {
                Bound::Included(x) => r == Bound::Included(&x),
                Bound::Excluded(x) => r == Bound::Excluded(&x),
                Bound::Unbounded => r == Bound::<&T>::Unbounded,
            },
    {
        bound_as_ref(&self.start)
    }

    /// The upper end of the range.
    pub fn end_bound(&self) -> (r: Bound<&T>)
        ensures
            match self.end {
                Bound::Included(x) => r == Bound::Included(&x),
                Bound::Excluded(x) => r == Bound::Excluded(&x),
                Bound::Unbounded => r == Bound::<&T>::Unbounded,
            },
    {
        bound_as_ref(&self.end)
    }
}

/// The bytes of `bytes=`, which every accepted header begins with.
pub open spec fn unit_prefix() -> Seq<u8> {
    seq![98u8, 121u8, 116u8, 101u8, 115u8, 61u8]
}

/// Whether every byte is an ASCII decimal digit.
pub open spec fn is_digits(text: Seq<u8>) -> bool {
    forall|i: int| 0 <= i < text.len() ==> 48 <= #[trigger] text[i] <= 57
}

/// The number that one decimal digit stands for; zero for any other byte.
pub open spec fn digit_value(b: u8) -> nat {
    if 48 <= b <= 57 {
        (b - 48) as nat
    } else {
        0
    }
}

/// The number that a run of decimal digits spells.
pub open spec fn digits_value(text: Seq<u8>) -> nat
    decreases text.len(),
{
    if text.len() == 0 {
        0
    } else {
        digits_value(text.drop_last()) * 10 + digit_value(text.last())
    }
}

/// The number that a text spells as an unsigned 64-bit decimal: an optional
/// `+`, then at least one digit, the whole no greater than `u64::MAX`.
pub open spec fn decimal_u64(text: Seq<u8>) -> Option<u64> {
    let digits = if text.len() > 0 && text[0] == 43 {
        text.skip(1)
    } else {
        text
    };
    if digits.len() > 0 && is_digits(digits) && digits_value(digits) <= u64::MAX {
        Some(digits_value(digits) as u64)
    } else {
        None
    }
}

/// Whether `at` is where the first `-` of `text` stands.
pub open spec fn is_first_dash(text: Seq<u8>, at: int) -> bool {
    &&& 0 <= at < text.len()
    &&& text[at] == 45
    &&& forall|j: int| 0 <= j < at ==> text[j] != 45
}

/// Whether `text` holds a `-` at all.
pub open spec fn has_dash(text: Seq<u8>) -> bool {
    exists|at: int| is_first_dash(text, at)
}

/// Where the first `-` of `text` stands.
pub open spec fn first_dash(text: Seq<u8>) -> int {
    choose|at: int| is_first_dash(text, at)
}

/// One end of a header's range: absent text leaves the end open, a number
/// names the end inclusively, anything else is malformed (`None`).
pub open spec fn bound_of(text: Seq<u8>) -> Option<Bound<u64>> {
    if text.len() == 0 {
        Some(Bound::Unbounded)
    } else {
        match decimal_u64(text) {
            Some(v) => Some(Bound::Included(v)),
            None => None,
        }
    }
}

/// What a `Range` header of the given bytes asks for: the header must begin
/// with `bytes=`, the rest is split at its first `-`, and each side is an end
/// of the range. `None` for every other header.
pub open spec fn range_header(s: Seq<u8>) -> Option<RangeCustom<u64>> {
    if s.len() >= 6 && s.subrange(0, 6) == unit_prefix() && has_dash(s.skip(6)) {
        let rest = s.skip(6);
        let dash = first_dash(rest);
        match (bound_of(rest.subrange(0, dash)), bound_of(rest.subrange(dash + 1, rest.len() as int))) {
            (Some(start), Some(end)) => Some(RangeCustom { start, end }),
            _ => None,
        }
    } else {
        None
    }
}

/// The digits read so far never spell more than the whole run does.
proof fn lemma_digits_grow(text: Seq<u8>, n: int)
    requires
        0 <= n <= text.len(),
    ensures
        digits_value(text.take(n)) <= digits_value(text),
    decreases text.len() - n,
{
    if n == text.len() {
        assert(text.take(n) =~= text);
    } else {
        lemma_digits_grow(text, n + 1);
        let longer = text.take(n + 1);
        assert(longer.drop_last() =~= text.take(n));
        assert(digits_value(longer) >= digits_value(text.take(n)) * 10);
    }
}

/// Reads an unsigned 64-bit decimal number.
pub fn parse_u64(text: &[u8]) -> (r: Option<u64>)
    ensures
        r == decimal_u64(text@),
{
    let n = text.len();
    let from: usize = if n > 0 && text[0] == 43 { 1 } else { 0 };
    let ghost digits = text@.skip(from as int);
    proof {
        assert(text@.skip(0) =~= text@);
    }
    if from == n {
        return None;
    }
    let mut value: u64 = 0;
    let mut i: usize = from;
    proof {
        assert(digits.take(0) =~= Seq::<u8>::empty());
    }
    while i < n
        invariant
            from <= i <= n,
            n == text@.len(),
            digits == text@.skip(from as int),
            digits == (if text@.len() > 0 && text@[0] == 43 {
                text@.skip(1)
            } else {
                text@
            }),
            is_digits(digits.take(i - from)),
            value == digits_value(digits.take(i - from)),
        decreases n - i,
    {
        let c = text[i];
        let ghost read = digits.take(i - from + 1);
        proof {
            assert(read.drop_last() =~= digits.take(i - from));
            assert(read.last() == c);
        }
        if c < 48 || c > 57 {
            proof {
                assert(digits[i - from] == c);
            }
            return None;
        }
        let scaled = match value.checked_mul(10) {
            Some(v) => v,
            None => {
                proof {
                    lemma_digits_grow(digits, i - from + 1);
                }
                return None;
            },
        };
        value = match scaled.checked_add((c - 48) as u64) {
            Some(v) => v,
            None => {
                proof {
                    lemma_digits_grow(digits, i - from + 1);
                }
                return None;
            },
        };
        proof {
            assert forall|j: int| 0 <= j < read.len() implies 48 <= #[trigger] read[j] <= 57 by {
                if j < i - from {
                    assert(read[j] == digits.take(i - from)[j]);
                }
            }
        }
        i += 1;
    }
    proof {
        assert(digits.take(n - from) =~= digits);
    }
    Some(value)
}

/// Reads one end of a header's range.
fn parse_bound(text: &[u8]) -> (r: Option<Bound<u64>>)
    ensures
        r == bound_of(text@),
{
    if text.len() == 0 {
        Some(Bound::Unbounded)
    } else {
        match parse_u64(text) {
            Some(v) => Some(Bound::Included(v)),
            None => None,
        }
    }
}

/// Reads a `Range` header in its single-range form `bytes=<a>-<b>`. Either
/// end may be left out; both are inclusive. Any other header gives `None`.
pub fn parse_single_range_header(s: &str) -> (r: Option<RangeCustom<u64>>)
    ensures
        r == range_header(s.spec_bytes()),
{
    let bytes = s.as_bytes();
    let n = bytes.len();
    if n < 6 || bytes[0] != 98 || bytes[1] != 121 || bytes[2] != 116 || bytes[3] != 101 || bytes[4]
        != 115 || bytes[5] != 61 {
        proof {
            if n >= 6 {
                let head = bytes@.subrange(0, 6);
                assert(head[0] == bytes@[0] && head[1] == bytes@[1] && head[2] == bytes@[2]
                    && head[3] == bytes@[3] && head[4] == bytes@[4] && head[5] == bytes@[5]);
            }
        }
        return None;
    }
    assert(bytes@.subrange(0, 6) =~= unit_prefix());
    let ghost rest = bytes@.skip(6);
    let mut i: usize = 6;
    while i < n && bytes[i] != 45
        invariant
            6 <= i <= n,
            n == bytes@.len(),
            rest == bytes@.skip(6),
            forall|j: int| 0 <= j < i - 6 ==> rest[j] != 45,
        decreases n - i,
    {
        i += 1;
    }
    if i == n {
        proof {
            if has_dash(rest) {
                let at = first_dash(rest);
                assert(is_first_dash(rest, at));
            }
        }
        return None;
    }
    proof {
        assert(is_first_dash(rest, i - 6));
        let at = first_dash(rest);
        assert(is_first_dash(rest, at));
        assert(at == i - 6);
    }
    let start_text = slice_subrange(bytes, 6, i);
    let end_text = slice_subrange(bytes, i + 1, n);
    proof {
        assert(start_text@ =~= rest.subrange(0, i - 6));
        assert(end_text@ =~= rest.subrange(i - 6 + 1, rest.len() as int));
    }
    let start = match parse_bound(start_text) {
        Some(b) => b,
        None => {
            return None;
        },
    };
    let end = match parse_bound(end_text) {
        Some(b) => b,
        None => {
            return None;
        },
    };
    Some(RangeCustom { start, end })
}

} // verus!
