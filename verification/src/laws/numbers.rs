//! Laws of numbers.
use crate::error::ErrorCode;
use crate::laws::notation;
use crate::number::Number;
use crate::outcome::Outcome;
use crate::read::Cursor;
use crate::value::Json;
use crate::{grammar, number};
use vstd::arithmetic::power::*;
use vstd::prelude::*;

verus! {

/// Whether a text consists of decimal digits, of which there is at least one.
pub open spec fn digits(s: Seq<u8>) -> bool {
    s.len() > 0 && forall|i: int| 0 <= i < s.len() ==> notation::digit(#[trigger] s[i])
}

/// Whether a text is the integer part of a number: digits, of which the first
/// is zero only if it is the only one.
pub open spec fn whole(s: Seq<u8>) -> bool {
    digits(s) && (s[0] == 0x30 ==> s.len() == 1)
}

/// The number that decimal digits denote.
pub open spec fn denotes(s: Seq<u8>) -> nat
    decreases s.len(),
{
    if s.len() == 0 {
        0
    } else {
        denotes(s.drop_last()) * 10 + notation::digit_counts(s[s.len() - 1])
    }
}

/// The minus sign of a number that has one.
pub open spec fn sign(negative: bool) -> Seq<u8> {
    if negative {
        seq![0x2du8]
    } else {
        Seq::empty()
    }
}

/// The digits behind the point of a number that has one, with the point.
pub open spec fn fraction(digits: Option<Seq<u8>>) -> Seq<u8> {
    match digits {
        Some(d) => seq![0x2eu8] + d,
        None => Seq::empty(),
    }
}

/// The digits behind the point of a number.
pub open spec fn decimals(digits: Option<Seq<u8>>) -> Seq<u8> {
    match digits {
        Some(d) => d,
        None => Seq::empty(),
    }
}

/// A value that is a number of these parts and takes all of a text.
pub open spec fn float(c: Cursor, negative: bool, significand: nat, exponent: int) -> Outcome<
    Json,
> {
    number::from_parts(c.at(c.bytes.len() as int), !negative, significand, exponent).map(
        |n: Number| Json::Number(n),
    )
}

/// Whether `s` stands at `i`.
pub open spec fn holds(b: Seq<u8>, i: int, s: Seq<u8>) -> bool {
    notation::holds(b, i, s)
}

/// Whether no digit stands at `i`.
pub open spec fn stops(b: Seq<u8>, i: int) -> bool {
    i < b.len() ==> !notation::digit(b[i])
}

/// Whether the source does not break where the byte at `i` is looked at.
pub open spec fn readable(c: Cursor, i: int) -> bool {
    i < c.bytes.len() || !c.broken()
}

/// The number whose digits are those of `n`, followed by `s`.
pub open spec fn followed(n: nat, s: Seq<u8>) -> nat {
    (n * pow(10, s.len()) + denotes(s)) as nat
}

/// Appending a digit to those before it.
pub proof fn lemma_denotes_more(s: Seq<u8>, k: int)
    requires
        0 <= k <= s.len(),
    ensures
        denotes(s.take(k)) <= denotes(s),
        k < s.len() ==> denotes(s.take(k + 1)) == denotes(s.take(k)) * 10 + notation::digit_counts(
            s[k],
        ),
    decreases s.len() - k,
{
    if k < s.len() {
        lemma_denotes_more(s, k + 1);
        assert(s.take(k + 1).drop_last() =~= s.take(k));
    } else {
        assert(s.take(k) =~= s);
    }
}

/// Folding the digits from the `k`th on, up to the `m`th.
proof fn lemma_fold(b: Seq<u8>, i: int, s: Seq<u8>, k: int, m: int, max: nat)
    requires
        0 <= k <= m <= s.len(),
        holds(b, i - k, s),
        0 <= i,
        forall|t: int| k <= t < s.len() ==> notation::digit(#[trigger] s[t]),
        denotes(s.take(m)) <= max,
        m < s.len() ==> denotes(s.take(m + 1)) > max,
        m == s.len() ==> stops(b, i + (m - k)),
    ensures
        number::fold_digits(b, i, denotes(s.take(k)), max) == (denotes(s.take(m)), i + (m - k)),
        m < s.len() ==> b[i + (m - k)] == s[m],
    decreases m - k,
{
    if k < s.len() {
        assert(b[(i - k) + k] == s[k]);
        lemma_denotes_more(s, k);
    }
    if k < m {
        lemma_denotes_more(s.take(m), k + 1);
        assert(s.take(m).take(k + 1) =~= s.take(k + 1));
        lemma_fold(b, i + 1, s, k + 1, m, max);
    }
}

proof fn lemma_digits_end(b: Seq<u8>, i: int, s: Seq<u8>, k: int)
    requires
        0 <= k <= s.len(),
        holds(b, i - k, s),
        0 <= i,
        forall|t: int| k <= t < s.len() ==> notation::digit(#[trigger] s[t]),
        stops(b, i + (s.len() - k)),
    ensures
        number::digits_end(b, i) == i + (s.len() - k),
    decreases s.len() - k,
{
    if k < s.len() {
        assert(b[(i - k) + k] == s[k]);
        lemma_digits_end(b, i + 1, s, k + 1);
    }
}

proof fn lemma_one_digit(s: Seq<u8>)
    requires
        digits(s),
    ensures
        denotes(s.take(1)) == notation::digit_counts(s[0]),
{
    assert(s.take(1).drop_last() =~= Seq::empty());
    assert(denotes(Seq::empty()) == 0);
    assert(s.take(1)[0] == s[0]);
}

/// The integer part of a number, if it fits the significand.
proof fn lemma_whole(c: Cursor, s: Seq<u8>, positive: bool)
    requires
        c.valid(),
        !c.broken(),
        whole(s),
        holds(c.bytes, c.pos, s),
        stops(c.bytes, c.pos + s.len()),
        denotes(s) <= u64::MAX,
    ensures
        number::integer(c, positive) == number::number(
            c.at(c.pos + s.len()),
            positive,
            denotes(s),
        ),
{
    reveal(number::integer);
    lemma_one_digit(s);
    assert(c.bytes[c.pos + 0] == s[0]);
    assert(s.take(s.len() as int) =~= s);
    if s[0] != 0x30 {
        lemma_fold(c.bytes, c.pos + 1, s, 1, s.len() as int, u64::MAX as nat);
    }
}

/// The beginning of a number.
proof fn lemma_start(c: Cursor, negative: bool, s: Seq<u8>, depth: int)
    requires
        c.valid(),
        c.pos == 0,
        digits(s),
        holds(c.bytes, 0, sign(negative) + s),
    ensures
        holds(c.bytes, sign(negative).len() as int, s),
        grammar::value(c, depth) == number::integer(
            c.at(sign(negative).len() as int),
            !negative,
        ).map(|n: Number| Json::Number(n)).placed(),
{
    reveal(grammar::value);
    let k = sign(negative).len() as int;
    assert(c.bytes[0int + 0] == (sign(negative) + s)[0]);
    assert forall|t: int| 0 <= t < s.len() implies #[trigger] c.bytes[k + t] == s[t] by {
        assert(c.bytes[0 + (k + t)] == (sign(negative) + s)[k + t]);
    }
    assert(c.bytes[k + 0] == s[0]);
    assert(grammar::spaced(c) == c);
    assert(c.at(0) == c);
}

/// A number without a point and an exponent is the integer that its digits
/// denote, as long as that is at most the largest `u64`.
pub proof fn law_integer(c: Cursor, negative: bool, s: Seq<u8>, depth: int)
    requires
        c.valid(),
        !c.broken(),
        c.pos == 0,
        whole(s),
        c.bytes == sign(negative) + s,
        denotes(s) <= u64::MAX,
    ensures
        grammar::value(c, depth) == (Outcome::Done {
            value: Json::Number(number::integer_value(!negative, denotes(s))),
            pos: c.bytes.len() as int,
        }),
{
    lemma_start(c, negative, s, depth);
    lemma_whole(c.at(sign(negative).len() as int), s, !negative);
    reveal(number::number);
}

/// Of a longer integer the leading digits are kept, as many as fit a `u64`,
/// and each of the others counts one power of ten.
pub proof fn law_long_integer(c: Cursor, negative: bool, s: Seq<u8>, kept: int, depth: int)
    requires
        c.valid(),
        !c.broken(),
        c.pos == 0,
        whole(s),
        c.bytes == sign(negative) + s,
        0 <= kept < s.len(),
        denotes(s.take(kept)) <= u64::MAX < denotes(s.take(kept + 1)),
    ensures
        grammar::value(c, depth) == float(
            c,
            negative,
            denotes(s.take(kept)),
            number::clamp(s.len() - kept),
        ),
{
    let k = sign(negative).len() as int;
    let d = c.at(k);
    lemma_start(c, negative, s, depth);
    lemma_one_digit(s);
    assert(c.bytes[k + 0] == s[0]);
    lemma_fold(c.bytes, k + 1, s, 1, kept, u64::MAX as nat);
    lemma_digits_end(c.bytes, k + kept, s, kept);
    reveal(number::integer);
    reveal(number::long_integer);
}

/// Appending a digit to a number.
pub proof fn lemma_followed(n: nat, s: Seq<u8>, k: int)
    requires
        0 <= k <= s.len(),
    ensures
        followed(n, s.take(0)) == n,
        k < s.len() ==> followed(n, s.take(k + 1)) == followed(n, s.take(k)) * 10
            + notation::digit_counts(s[k]),
{
    lemma_pow0(10);
    assert(denotes(s.take(0)) == 0);
    if k < s.len() {
        lemma_denotes_more(s, k);
        let p = pow(10, k as nat);
        lemma_pow_positive(10, k as nat);
        reveal(pow);
        assert(pow(10, (k + 1) as nat) == 10 * p);
        let d = denotes(s.take(k)) as int;
        let x = notation::digit_counts(s[k]) as int;
        assert(n * (10 * p) + (d * 10 + x) == (n * p + d) * 10 + x) by (nonlinear_arith);
        assert(n * p >= 0) by (nonlinear_arith)
            requires
                p > 0,
        ;
        assert(n * (10 * p) >= 0) by (nonlinear_arith)
            requires
                p > 0,
        ;
    }
}

/// Digits behind no number denote what they denote.
pub proof fn lemma_followed_zero(s: Seq<u8>)
    ensures
        followed(0, s) == denotes(s),
{
    assert(0 * pow(10, s.len()) == 0) by (nonlinear_arith);
}

/// Appending the first digit before the others.
pub proof fn lemma_shift(n: nat, s: Seq<u8>, k: int)
    requires
        0 <= k < s.len(),
    ensures
        followed(n * 10 + notation::digit_counts(s[0]), s.drop_first().take(k)) == followed(
            n,
            s.take(k + 1),
        ),
    decreases k,
{
    let m = n * 10 + notation::digit_counts(s[0]);
    let t = s.drop_first();
    if k == 0 {
        lemma_followed(m, t, 0);
        lemma_followed(n, s, 0);
    } else {
        lemma_shift(n, s, k - 1);
        lemma_followed(m, t, k - 1);
        lemma_followed(n, s, k);
    }
}

/// Appending digits one by one.
proof fn lemma_followed_all(s: Seq<u8>, d: Seq<u8>, k: int)
    requires
        0 <= k <= d.len(),
    ensures
        denotes(s + d.take(k)) == followed(denotes(s), d.take(k)),
    decreases k,
{
    if k == 0 {
        lemma_followed(denotes(s), d, 0);
        assert(s + d.take(0) =~= s);
    } else {
        lemma_followed_all(s, d, k - 1);
        lemma_followed(denotes(s), d, k - 1);
        assert((s + d.take(k)).drop_last() =~= s + d.take(k - 1));
        assert((s + d.take(k))[(s + d.take(k)).len() - 1] == d[k - 1]);
    }
}

/// Folding digits behind those of `n`, from the `j`th on and up to the `k`th.
proof fn lemma_fold_behind(b: Seq<u8>, i: int, n: nat, d: Seq<u8>, j: int, k: int, max: nat)
    requires
        0 <= j <= k <= d.len(),
        holds(b, i, d),
        forall|t: int| 0 <= t < d.len() ==> notation::digit(#[trigger] d[t]),
        followed(n, d.take(k)) <= max,
        k < d.len() ==> followed(n, d.take(k + 1)) > max,
        k == d.len() ==> stops(b, i + k),
    ensures
        followed(n, d.take(j)) <= followed(n, d.take(k)),
        number::fold_digits(b, i + j, followed(n, d.take(j)), max) == (
            followed(n, d.take(k)),
            i + k,
        ),
    decreases k - j,
{
    if j < d.len() {
        assert(b[i + j] == d[j]);
        lemma_followed(n, d, j);
    }
    if j < k {
        lemma_fold_behind(b, i, n, d, j + 1, k, max);
    }
}

/// The digits of an integer that its significand has no room for count one
/// power of ten each, whatever they are. Behind them come a fraction, an
/// exponent or the end of the number.
pub proof fn law_long_part(c: Cursor, s: Seq<u8>, positive: bool, significand: nat, start: int)
    requires
        c.valid(),
        s.len() == 0 || digits(s),
        holds(c.bytes, c.pos, s),
        stops(c.bytes, c.pos + s.len()),
        readable(c, c.pos + s.len()),
    ensures
        ({
            let e = c.at(c.pos + s.len());
            let exp = number::clamp(start + s.len());
            number::long_integer(c, positive, significand, start) == if number::faces(e, 0x2e) {
                number::decimal(e, positive, significand, exp)
            } else if number::faces_exponent(e) {
                number::exponent(e, positive, significand, exp)
            } else {
                number::from_parts(e, positive, significand, exp)
            }
        }),
{
    reveal(number::long_integer);
    lemma_digits_end(c.bytes, c.pos, s, 0);
}

/// Of the digits behind a point as many are taken as the significand has room
/// for, and each of those divides by ten; the others are consumed and have no
/// effect. Behind them comes an exponent or the end of the number.
pub proof fn law_fraction_part(
    c: Cursor,
    d: Seq<u8>,
    taken: int,
    positive: bool,
    significand: nat,
    start: int,
)
    requires
        c.valid(),
        digits(d),
        holds(c.bytes, c.pos, seq![0x2eu8] + d),
        stops(c.bytes, c.pos + 1 + d.len()),
        readable(c, c.pos + 1 + d.len()),
        0 <= taken <= d.len(),
        followed(significand, d.take(taken)) <= u64::MAX,
        taken < d.len() ==> followed(significand, d.take(taken + 1)) > u64::MAX,
    ensures
        ({
            let e = c.at(c.pos + 1 + d.len());
            let n = followed(significand, d.take(taken));
            let exp = number::clamp(start - taken);
            number::decimal(c, positive, significand, start) == if number::faces_exponent(e) {
                number::exponent(e, positive, n, exp)
            } else {
                number::from_parts(e, positive, n, exp)
            }
        }),
{
    reveal(number::decimal);
    let i = c.pos + 1;
    assert forall|t: int| 0 <= t < d.len() implies #[trigger] c.bytes[i + t] == d[t] by {
        assert(c.bytes[c.pos + (1 + t)] == (seq![0x2eu8] + d)[1 + t]);
    }
    lemma_followed(significand, d, 0);
    lemma_fold_behind(c.bytes, i, significand, d, 0, taken, u64::MAX as nat);
    lemma_digits_end(c.bytes, i, d, 0);
    number::lemma_fold_digits_bounds(c.bytes, i, significand, u64::MAX as nat);
}

/// The digits behind the point of a number, if they fit the significand.
proof fn lemma_fraction(c: Cursor, s: Seq<u8>, d: Seq<u8>, positive: bool)
    requires
        c.valid(),
        !c.broken(),
        digits(s),
        digits(d),
        holds(c.bytes, c.pos, seq![0x2eu8] + d),
        stops(c.bytes, c.pos + 1 + d.len()),
        denotes(s + d) <= u64::MAX,
    ensures
        ({
            let e = c.at(c.pos + 1 + d.len());
            let exp = number::clamp(-(d.len() as int));
            number::number(c, positive, denotes(s)) == if number::faces_exponent(e) {
                number::exponent(e, positive, denotes(s + d), exp)
            } else {
                number::from_parts(e, positive, denotes(s + d), exp)
            }
        }),
{
    reveal(number::number);
    let k = d.len() as int;
    assert(c.bytes[c.pos + 0] == (seq![0x2eu8] + d)[0]);
    lemma_followed_all(s, d, k);
    assert(d.take(k) =~= d);
    law_fraction_part(c, d, k, positive, denotes(s), 0);
}

/// An exponent that fits an `i32` is added, or subtracted behind a minus sign.
/// Nothing but its sign and the number that its digits denote matters.
pub proof fn law_exponent_part(
    c: Cursor,
    mark: u8,
    plus: Seq<u8>,
    x: Seq<u8>,
    positive: bool,
    significand: nat,
    start: int,
)
    requires
        c.valid(),
        notation::power_mark(mark),
        plus == Seq::<u8>::empty() || plus == seq![0x2bu8] || plus == seq![0x2du8],
        digits(x),
        holds(c.bytes, c.pos, seq![mark] + plus + x),
        stops(c.bytes, c.pos + 1 + plus.len() + x.len()),
        readable(c, c.pos + 1 + plus.len() + x.len()),
        denotes(x) <= i32::MAX,
    ensures
        number::exponent(c, positive, significand, start) == number::from_parts(
            c.at(c.pos + 1 + plus.len() + x.len()),
            positive,
            significand,
            number::clamp(
                if plus == seq![0x2du8] {
                    start - denotes(x)
                } else {
                    start + denotes(x)
                },
            ),
        ),
{
    reveal(number::exponent);
    reveal(number::exponent_digits);
    let all = seq![mark] + plus + x;
    let k = 1 + plus.len();
    assert forall|t: int| 0 <= t < x.len() implies #[trigger] c.bytes[(c.pos + k) + t] == x[t] by {
        assert(c.bytes[c.pos + (k + t)] == all[k + t]);
    }
    assert(c.bytes[c.pos + 1] == all[1]);
    assert(c.bytes[(c.pos + k) + 0] == x[0]);
    lemma_one_digit(x);
    assert(x.take(x.len() as int) =~= x);
    lemma_fold(c.bytes, c.pos + k + 1, x, 1, x.len() as int, i32::MAX as nat);
    if plus.len() == 1 {
        assert(all[1] == plus[0]);
        assert(seq![0x2bu8][0] != seq![0x2du8][0]);
        assert(c.at(c.pos + 1).at(c.pos + 2) == c.at(c.pos + k));
    } else {
        assert(plus != seq![0x2du8]) by {
            assert(seq![0x2du8].len() == 1);
        }
        assert(all[1] == x[0]);
    }
}

/// Zeros in front of digits do not change the number that they denote.
pub proof fn law_zeros_in_front(zeros: Seq<u8>, x: Seq<u8>)
    requires
        forall|i: int| 0 <= i < zeros.len() ==> #[trigger] zeros[i] == 0x30,
    ensures
        denotes(zeros + x) == denotes(x),
    decreases zeros.len() + x.len(),
{
    if x.len() > 0 {
        law_zeros_in_front(zeros, x.drop_last());
        assert((zeros + x).drop_last() =~= zeros + x.drop_last());
    } else if zeros.len() > 0 {
        law_zeros_in_front(zeros.drop_last(), x);
        assert((zeros + x).drop_last() =~= zeros.drop_last() + x);
        assert((zeros + x)[(zeros + x).len() - 1] == 0x30);
    }
}

/// A number with a point is the integer that its digits denote without it,
/// divided by one power of ten for each digit behind the point, as long as
/// that integer is at most the largest `u64`.
pub proof fn law_fraction(c: Cursor, negative: bool, s: Seq<u8>, d: Seq<u8>, depth: int)
    requires
        c.valid(),
        !c.broken(),
        c.pos == 0,
        whole(s),
        digits(d),
        c.bytes == sign(negative) + s + seq![0x2eu8] + d,
        denotes(s + d) <= u64::MAX,
    ensures
        grammar::value(c, depth) == float(
            c,
            negative,
            denotes(s + d),
            number::clamp(-(d.len() as int)),
        ),
{
    let k = sign(negative).len() as int;
    let p = k + s.len();
    lemma_start(c, negative, s, depth);
    lemma_denotes_more(s + d, s.len() as int);
    assert((s + d).take(s.len() as int) =~= s);
    assert(c.bytes[p] == 0x2e);
    lemma_whole(c.at(k), s, !negative);
    assert forall|t: int| 0 <= t < 1 + d.len() implies #[trigger] c.bytes[p + t] == (seq![0x2eu8]
        + d)[t] by {}
    lemma_fraction(c.at(p), s, d, !negative);
}

/// An exponent shifts the point: a number with one is the number without it
/// times that power of ten. It is refused where that is beyond every double.
pub proof fn law_exponent(
    c: Cursor,
    negative: bool,
    s: Seq<u8>,
    d: Option<Seq<u8>>,
    mark: u8,
    plus: Seq<u8>,
    x: Seq<u8>,
    depth: int,
)
    requires
        c.valid(),
        !c.broken(),
        c.pos == 0,
        whole(s),
        d matches Some(d) ==> digits(d),
        notation::power_mark(mark),
        plus == Seq::<u8>::empty() || plus == seq![0x2bu8] || plus == seq![0x2du8],
        digits(x),
        c.bytes == sign(negative) + s + fraction(d) + (seq![mark] + plus + x),
        denotes(s + decimals(d)) <= u64::MAX,
        denotes(x) <= i32::MAX,
    ensures
        grammar::value(c, depth) == float(
            c,
            negative,
            denotes(s + decimals(d)),
            number::clamp(
                number::clamp(-(decimals(d).len() as int)) + if plus == seq![0x2du8] {
                    -(denotes(x) as int)
                } else {
                    denotes(x) as int
                },
            ),
        ),
{
    let k = sign(negative).len() as int;
    let p = k + s.len();
    let q = p + fraction(d).len();
    let tail = seq![mark] + plus + x;
    let all = s + decimals(d);
    lemma_start(c, negative, s, depth);
    lemma_denotes_more(all, s.len() as int);
    assert(all.take(s.len() as int) =~= s);
    assert(c.bytes[q] == tail[0]);
    assert forall|t: int| 0 <= t < tail.len() implies #[trigger] c.bytes[q + t] == tail[t] by {}
    match d {
        Some(d) => {
            assert(c.bytes[p] == fraction(Some(d))[0]);
            lemma_whole(c.at(k), s, !negative);
            assert forall|t: int| 0 <= t < 1 + d.len() implies #[trigger] c.bytes[p + t] == (
            seq![0x2eu8] + d)[t] by {
                assert(c.bytes[p + t] == fraction(Some(d))[t]);
            }
            lemma_fraction(c.at(p), s, d, !negative);
            law_exponent_part(
                c.at(q),
                mark,
                plus,
                x,
                !negative,
                denotes(all),
                number::clamp(-(d.len() as int)),
            );
        },
        None => {
            lemma_whole(c.at(k), s, !negative);
            assert(all =~= s);
            reveal(number::number);
            law_exponent_part(c.at(q), mark, plus, x, !negative, denotes(s), 0);
        },
    }
}

/// A number has no leading zero: one that is followed by a digit is refused.
pub proof fn law_leading_zero(c: Cursor, negative: bool, s: Seq<u8>, depth: int)
    requires
        c.valid(),
        !c.broken(),
        c.pos == 0,
        s.len() >= 2,
        s[0] == 0x30,
        notation::digit(s[1]),
        c.bytes == sign(negative) + s,
    ensures
        grammar::value(c, depth) == (Outcome::<Json>::Fail {
            code: ErrorCode::InvalidNumber,
            place: sign(negative).len() as int + 2,
            pos: sign(negative).len() as int + 1,
        }),
{
    reveal(number::integer);
    let z = s.take(1);
    assert forall|t: int| 0 <= t < (sign(negative) + z).len() implies #[trigger] c.bytes[0 + t] == (
    sign(negative) + z)[t] by {}
    lemma_start(c, negative, z, depth);
    assert(c.bytes[sign(negative).len() as int] == s[0]);
    assert(c.bytes[sign(negative).len() as int + 1] == s[1]);
}

} // verus!
