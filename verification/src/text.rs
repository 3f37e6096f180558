//! Numbers written out in decimal.

use vstd::prelude::*;
use vstd::string::{StrSliceExecFns, StringExecFns};

verus! {

/// The character for one decimal digit.
pub open spec fn digit_char(d: nat) -> char
    recommends
        d < 10,
{
    if d == 0 {
        '0'
    } else if d == 1 {
        '1'
    } else if d == 2 {
        '2'
    } else if d == 3 {
        '3'
    } else if d == 4 {
        '4'
    } else if d == 5 {
        '5'
    } else if d == 6 {
        '6'
    } else if d == 7 {
        '7'
    } else if d == 8 {
        '8'
    } else {
        '9'
    }
}

/// A number in decimal, without sign or leading zeros.
pub open spec fn decimal(n: nat) -> Seq<char>
    decreases n,
{
    if n < 10 {
        seq![digit_char(n)]
    } else {
        decimal(n / 10).push(digit_char(n % 10))
    }
}

/// The text of one decimal digit.
fn digit_str(d: u64) -> (s: &'static str)
    requires
        d < 10,
    ensures
        s@ == seq![digit_char(d as nat)],
{
    proof {
        reveal_strlit("0");
        reveal_strlit("1");
        reveal_strlit("2");
        reveal_strlit("3");
        reveal_strlit("4");
        reveal_strlit("5");
        reveal_strlit("6");
        reveal_strlit("7");
        reveal_strlit("8");
        reveal_strlit("9");
    }
    let s = if d == 0 {
        "0"
    } else if d == 1 {
        "1"
    } else if d == 2 {
        "2"
    } else if d == 3 {
        "3"
    } else if d == 4 {
        "4"
    } else if d == 5 {
        "5"
    } else if d == 6 {
        "6"
    } else if d == 7 {
        "7"
    } else if d == 8 {
        "8"
    } else {
        "9"
    };
    assert(s@ =~= seq![digit_char(d as nat)]);
    s
}

/// Writes a number in decimal.
pub fn decimal_string(n: u64) -> (s: String)
    ensures
        s@ == decimal(n as nat),
    decreases n,
{
    if n < 10 {
        String::from_str(digit_str(n))
    } else {
        let mut s = decimal_string(n / 10);
        s.append(digit_str(n % 10));
        assert(s@ =~= decimal(n as nat));
        s
    }
}

/// Whether a character is white space as Unicode defines it.
pub open spec fn is_white_space(c: char) -> bool {
    let v = c as u32;
    (0x09 <= v <= 0x0D) || v == 0x20 || v == 0x85 || v == 0xA0 || v == 0x1680 || (0x2000 <= v
        <= 0x200A) || v == 0x2028 || v == 0x2029 || v == 0x202F || v == 0x205F || v == 0x3000
}

/// Whether a character is white space as Unicode defines it.
pub fn white_space(c: char) -> (r: bool)
    ensures
        r == is_white_space(c),
{
    let v = c as u32;
    (0x09 <= v && v <= 0x0D) || v == 0x20 || v == 0x85 || v == 0xA0 || v == 0x1680 || (0x2000 <= v
        && v <= 0x200A) || v == 0x2028 || v == 0x2029 || v == 0x202F || v == 0x205F || v == 0x3000
}

/// A text without the white space at its end.
pub open spec fn trim_end(text: Seq<char>) -> Seq<char>
    decreases text.len(),
{
    if text.len() > 0 && is_white_space(text.last()) {
        trim_end(text.drop_last())
    } else {
        text
    }
}

/// A text without the white space at its start.
pub open spec fn trim_start(text: Seq<char>) -> Seq<char>
    decreases text.len(),
{
    if text.len() > 0 && is_white_space(text.first()) {
        trim_start(text.drop_first())
    } else {
        text
    }
}

/// Whether every character is a decimal digit.
pub open spec fn all_digits(text: Seq<char>) -> bool {
    forall|i: int| 0 <= i < text.len() ==> '0' <= #[trigger] text[i] <= '9'
}

/// The number that a run of decimal digits spells.
pub open spec fn digits_number(text: Seq<char>) -> nat
    decreases text.len(),
{
    if text.len() == 0 {
        0
    } else {
        digits_number(text.drop_last()) * 10 + if '0' <= text.last() <= '9' {
            (text.last() as u32 - 48) as nat
        } else {
            0
        }
    }
}

/// The number that a text spells in decimal: an optional `+`, then at least
/// one digit. `None` for any other text.
pub open spec fn number(text: Seq<char>) -> Option<nat> {
    let digits = if text.len() > 0 && text[0] == '+' {
        text.drop_first()
    } else {
        text
    };
    if digits.len() > 0 && all_digits(digits) {
        Some(digits_number(digits))
    } else {
        None
    }
}

/// The digits read so far never spell more than the whole run does.
proof fn lemma_number_grows(text: Seq<char>, n: int)
    requires
        0 <= n <= text.len(),
    ensures
        digits_number(text.take(n)) <= digits_number(text),
    decreases text.len() - n,
{
    if n == text.len() {
        assert(text.take(n) =~= text);
    } else {
        lemma_number_grows(text, n + 1);
        let longer = text.take(n + 1);
        assert(longer.drop_last() =~= text.take(n));
        assert(digits_number(longer) >= digits_number(text.take(n)) * 10);
    }
}

/// Where the text `s[from..to]` ends once the white space at its end is
/// left off.
pub fn trimmed_end(s: &str, from: usize, to: usize) -> (end: usize)
    requires
        from <= to <= s@.len(),
    ensures
        from <= end <= to,
        s@.subrange(from as int, end as int) == trim_end(s@.subrange(from as int, to as int)),
{
    let mut end = to;
    while end > from && white_space(s.get_char(end - 1))
        invariant
            from <= end <= to <= s@.len(),
            trim_end(s@.subrange(from as int, end as int)) == trim_end(
                s@.subrange(from as int, to as int),
            ),
        decreases end,
    {
        proof {
            let text = s@.subrange(from as int, end as int);
            assert(text.last() == s@[end - 1]);
            assert(text.drop_last() =~= s@.subrange(from as int, end - 1));
        }
        end -= 1;
    }
    proof {
        let text = s@.subrange(from as int, end as int);
        if end > from {
            assert(text.last() == s@[end - 1]);
        }
    }
    end
}

/// Where the text `s[from..to]` starts once the white space at its start is
/// left off.
pub fn trimmed_start(s: &str, from: usize, to: usize) -> (start: usize)
    requires
        from <= to <= s@.len(),
    ensures
        from <= start <= to,
        s@.subrange(start as int, to as int) == trim_start(s@.subrange(from as int, to as int)),
{
    let mut start = from;
    while start < to && white_space(s.get_char(start))
        invariant
            from <= start <= to <= s@.len(),
            trim_start(s@.subrange(start as int, to as int)) == trim_start(
                s@.subrange(from as int, to as int),
            ),
        decreases to - start,
    {
        proof {
            let text = s@.subrange(start as int, to as int);
            assert(text.first() == s@[start as int]);
            assert(text.drop_first() =~= s@.subrange(start + 1, to as int));
        }
        start += 1;
    }
    proof {
        let text = s@.subrange(start as int, to as int);
        if start < to {
            assert(text.first() == s@[start as int]);
        }
    }
    start
}

/// Reads the text `s[from..to]` as an unsigned 64-bit decimal number.
pub fn parse_number(s: &str, from: usize, to: usize) -> (r: Option<u64>)
    requires
        from <= to <= s@.len(),
    ensures
        r == match number(s@.subrange(from as int, to as int)) {
            Some(n) => if n <= u64::MAX {
                Some(n as u64)
            } else {
                None
            },
            None => None,
        },
{
    let ghost text = s@.subrange(from as int, to as int);
    let first: usize = if from < to && s.get_char(from) == '+' { from + 1 } else { from };
    let ghost digits = s@.subrange(first as int, to as int);
    proof {
        if first > from {
            assert(text[0] == s@[from as int]);
            assert(digits =~= text.drop_first());
        } else {
            if from < to {
                assert(text[0] == s@[from as int]);
            }
            assert(digits =~= text);
        }
    }
    if first == to {
        return None;
    }
    let mut value: u64 = 0;
    let mut i: usize = first;
    proof {
        assert(digits.take(0) =~= Seq::<char>::empty());
    }
    while i < to
        invariant
            from <= first <= i <= to <= s@.len(),
            text == s@.subrange(from as int, to as int),
            digits == s@.subrange(first as int, to as int),
            number(text) == if all_digits(digits) {
                Some(digits_number(digits))
            } else {
                None
            },
            all_digits(digits.take(i - first)),
            value == digits_number(digits.take(i - first)),
        decreases to - i,
    {
        let c = s.get_char(i);
        let ghost read = digits.take(i - first + 1);
        proof {
            assert(read.drop_last() =~= digits.take(i - first));
            assert(read.last() == c);
            assert(digits[i - first] == c);
        }
        if c < '0' || c > '9' {
            return None;
        }
        let d = (c as u32 - 48) as u64;
        let scaled = match value.checked_mul(10) {
            Some(v) => v,
            None => {
                proof {
                    lemma_number_grows(digits, i - first + 1);
                }
                return None;
            },
        };
        value = match scaled.checked_add(d) {
            Some(v) => v,
            None => {
                proof {
                    lemma_number_grows(digits, i - first + 1);
                }
                return None;
            },
        };
        proof {
            assert forall|j: int| 0 <= j < read.len() implies '0' <= #[trigger] read[j] <= '9' by {
                if j < i - first {
                    assert(read[j] == digits.take(i - first)[j]);
                }
            }
        }
        i += 1;
    }
    proof {
        assert(digits.take(to - first) =~= digits);
    }
    Some(value)
}

/// A number written in decimal reads back as itself.
pub proof fn lemma_decimal_reads_back(n: nat)
    ensures
        decimal(n).len() > 0,
        all_digits(decimal(n)),
        digits_number(decimal(n)) == n,
        number(decimal(n)) == Some(n),
    decreases n,
{
    let text = decimal(n);
    if n < 10 {
        assert(text.drop_last() =~= Seq::<char>::empty());
        assert(text.last() == digit_char(n));
        assert(digits_number(text.drop_last()) == 0);
    } else {
        lemma_decimal_reads_back(n / 10);
        let front = decimal(n / 10);
        assert(text.drop_last() =~= front);
        assert(text.last() == digit_char(n % 10));
        assert forall|i: int| 0 <= i < text.len() implies '0' <= #[trigger] text[i] <= '9' by {
            if i < front.len() {
                assert(text[i] == front[i]);
            }
        }
    }
    assert('0' <= text[0] <= '9');
}

} // verus!
