//! The bytes that JSON is written with.
//!
//! The laws speak of texts byte by byte, in the numbers of the bytes.
use crate::ascii;
use vstd::prelude::*;

verus! {

/// White space: a space, a tab, a line feed or a carriage return.
pub open spec fn white(b: u8) -> bool {
    b == 0x20 || b == 0x09 || b == 0x0a || b == 0x0d
}

/// A decimal digit.
pub open spec fn digit(b: u8) -> bool {
    0x30 <= b <= 0x39
}

/// What a decimal digit counts.
pub open spec fn digit_counts(b: u8) -> nat {
    if digit(b) {
        (b - 0x30) as nat
    } else {
        0
    }
}

/// The letter before an exponent.
pub open spec fn power_mark(b: u8) -> bool {
    b == 0x65 || b == 0x45
}

/// A hexadecimal digit.
pub open spec fn hex(b: u8) -> bool {
    digit(b) || 0x41 <= b <= 0x46 || 0x61 <= b <= 0x66
}

/// What a hexadecimal digit counts.
pub open spec fn hex_counts(b: u8) -> nat {
    if digit(b) {
        (b - 0x30) as nat
    } else if 0x41 <= b <= 0x46 {
        (b - 0x41 + 10) as nat
    } else if 0x61 <= b <= 0x66 {
        (b - 0x61 + 10) as nat
    } else {
        0
    }
}

/// The bytes that are told apart while a text is read are these.
pub proof fn law_bytes(b: u8)
    ensures
        ascii::is_space(b) <==> white(b),
        ascii::is_digit(b) <==> digit(b),
        ascii::is_exponent_mark(b) <==> power_mark(b),
        ascii::is_control(b) <==> b < 0x20,
        digit(b) ==> ascii::digit_value(b) == digit_counts(b),
        ascii::hex_value(b) == if hex(b) {
            Some(hex_counts(b))
        } else {
            None
        },
{
}

/// Whether `s` stands at `i`.
pub open spec fn holds(b: Seq<u8>, i: int, s: Seq<u8>) -> bool {
    &&& 0 <= i
    &&& i + s.len() <= b.len()
    &&& forall|t: int| 0 <= t < s.len() ==> #[trigger] b[i + t] == s[t]
}

/// A text in two parts.
pub proof fn lemma_split(b: Seq<u8>, i: int, s: Seq<u8>, t: Seq<u8>)
    requires
        holds(b, i, s + t),
    ensures
        holds(b, i, s),
        holds(b, i + s.len(), t),
{
    assert forall|k: int| 0 <= k < s.len() implies #[trigger] b[i + k] == s[k] by {
        assert(b[i + k] == (s + t)[k]);
    }
    assert forall|k: int| 0 <= k < t.len() implies #[trigger] b[(i + s.len()) + k] == t[k] by {
        assert(b[i + (s.len() + k)] == (s + t)[s.len() + k]);
    }
}

/// Two parts of a text.
pub proof fn lemma_join(b: Seq<u8>, i: int, s: Seq<u8>, t: Seq<u8>)
    requires
        holds(b, i, s),
        holds(b, i + s.len(), t),
    ensures
        holds(b, i, s + t),
{
    assert forall|k: int| 0 <= k < s.len() + t.len() implies #[trigger] b[i + k] == (s + t)[k] by {
        if k >= s.len() {
            assert(b[(i + s.len()) + (k - s.len())] == t[k - s.len()]);
        }
    }
}

/// The first byte of a text.
pub proof fn lemma_first(b: Seq<u8>, i: int, s: Seq<u8>)
    requires
        holds(b, i, s),
        s.len() > 0,
    ensures
        b[i] == s[0],
{
    assert(b[i + 0] == s[0]);
}

/// What stands between two places.
pub proof fn lemma_between(b: Seq<u8>, i: int, j: int)
    requires
        0 <= i <= j <= b.len(),
    ensures
        holds(b, i, b.subrange(i, j)),
{
}

} // verus!
