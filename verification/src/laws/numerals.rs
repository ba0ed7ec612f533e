//! Laws of the parts that numbers are written in.
use crate::error::ErrorCode;
use crate::laws::{notation, numbers, pieces};
use crate::number::{Decimal, Number};
use crate::outcome::{Outcome, Placed};
use crate::read::Cursor;
use crate::value::Json;
use crate::{grammar, number, range};
use vstd::prelude::*;

verus! {

/// An exponent as it is written.
pub struct Power {
    /// The letter `e`, small or capital.
    pub mark: u8,
    /// Its sign, if it has one.
    pub sign: Seq<u8>,
    /// Its digits.
    pub digits: Seq<u8>,
}

/// A number as it is written.
pub struct Numeral {
    /// Whether it has a minus sign.
    pub negative: bool,
    /// The digits before the point.
    pub whole: Seq<u8>,
    /// The digits behind the point, if there is one.
    pub fraction: Option<Seq<u8>>,
    /// The exponent, if there is one.
    pub power: Option<Power>,
}

/// How many of the digits `s` can be appended to `n` before it exceeds `max`.
pub open spec fn room(n: nat, s: Seq<u8>, max: nat) -> nat
    decreases s.len(),
{
    if s.len() > 0 && n * 10 + notation::digit_counts(s[0]) <= max {
        1 + room(n * 10 + notation::digit_counts(s[0]), s.drop_first(), max)
    } else {
        0
    }
}

/// The number that comes of appending those.
pub open spec fn kept(n: nat, s: Seq<u8>, max: nat) -> nat
    decreases s.len(),
{
    if s.len() > 0 && n * 10 + notation::digit_counts(s[0]) <= max {
        kept(n * 10 + notation::digit_counts(s[0]), s.drop_first(), max)
    } else {
        n
    }
}

/// The nearest number that an `i32` can be.
pub open spec fn limited(n: int) -> int {
    if n < -0x8000_0000 {
        -0x8000_0000
    } else if n > 0x7fff_ffff {
        0x7fff_ffff
    } else {
        n
    }
}

/// The largest `u64`.
pub open spec fn largest() -> nat {
    0xffff_ffff_ffff_ffff
}

/// The largest `i32`.
pub open spec fn largest_power() -> nat {
    0x7fff_ffff
}

impl Power {
    /// How the exponent is written.
    pub open spec fn written(self) -> Seq<u8> {
        seq![self.mark] + (self.sign + self.digits)
    }

    /// Whether it is an exponent.
    pub open spec fn sound(self) -> bool {
        &&& notation::power_mark(self.mark)
        &&& self.sign == Seq::<u8>::empty() || self.sign == seq![0x2bu8] || self.sign == seq![
            0x2du8,
        ]
        &&& numbers::digits(self.digits)
    }

    /// Whether it divides.
    pub open spec fn divides(self) -> bool {
        self.sign == seq![0x2du8]
    }

    /// Whether it is too large to be counted.
    pub open spec fn endless(self) -> bool {
        room(0, self.digits, largest_power()) < self.digits.len()
    }

    /// Its number.
    pub open spec fn count(self) -> nat {
        kept(0, self.digits, largest_power())
    }
}

/// How an exponent is written that may be missing.
pub open spec fn power_written(p: Option<Power>) -> Seq<u8> {
    match p {
        Some(p) => p.written(),
        None => Seq::empty(),
    }
}

impl Numeral {
    /// How the number is written.
    pub open spec fn written(self) -> Seq<u8> {
        numbers::sign(self.negative) + (self.whole + (numbers::fraction(self.fraction)
            + power_written(self.power)))
    }

    /// Whether it is a number.
    pub open spec fn sound(self) -> bool {
        &&& numbers::whole(self.whole)
        &&& self.fraction matches Some(d) ==> numbers::digits(d)
        &&& self.power matches Some(p) ==> p.sound()
    }

    /// Whether it ends where `b` follows.
    pub open spec fn ends(self, b: u8) -> bool {
        &&& !notation::digit(b)
        &&& self.power is None ==> !notation::power_mark(b)
        &&& self.power is None && self.fraction is None ==> b != 0x2e
    }

    /// As many of its leading digits as a `u64` has room for.
    pub open spec fn significand(self) -> nat {
        let n = kept(0, self.whole, largest());
        match self.fraction {
            Some(d) => kept(n, d, largest()),
            None => n,
        }
    }

    /// The power of ten that belongs to them without the exponent: one for
    /// each digit before the point that there is no room for, less one for
    /// each behind it that there is.
    pub open spec fn scale(self) -> int {
        let left = limited(self.whole.len() - room(0, self.whole, largest()));
        match self.fraction {
            Some(d) => limited(left - room(kept(0, self.whole, largest()), d, largest())),
            None => left,
        }
    }

    /// Whether it is an integer that fits a `u64`.
    pub open spec fn counts(self) -> bool {
        &&& self.fraction is None
        &&& self.power is None
        &&& room(0, self.whole, largest()) == self.whole.len()
    }

    /// The number that it means; none where that is beyond every double.
    pub open spec fn meant(self) -> Option<Number> {
        let n = self.significand();
        if self.counts() {
            if !self.negative {
                Some(Number::PosInt(n as u64))
            } else if n <= 0x8000_0000_0000_0000 {
                Some(Number::NegInt((-n) as i64))
            } else {
                Some(decimal(false, n, 0))
            }
        } else {
            match self.power {
                None => finite(!self.negative, n, self.scale()),
                Some(p) => if !p.endless() {
                    finite(
                        !self.negative,
                        n,
                        limited(
                            if p.divides() {
                                self.scale() - p.count()
                            } else {
                                self.scale() + p.count()
                            },
                        ),
                    )
                } else if n == 0 || p.divides() {
                    Some(decimal(!self.negative, 0, 0))
                } else {
                    None
                },
            }
        }
    }

    /// How much of it has been consumed when it is found to be beyond every
    /// double.
    pub open spec fn consumed(self) -> int {
        match self.power {
            Some(p) if p.endless() => self.written().len() - p.digits.len() + room(
                0,
                p.digits,
                largest_power(),
            ) + 1,
            _ => self.written().len() as int,
        }
    }
}

/// A number of these parts.
pub open spec fn decimal(positive: bool, significand: nat, exponent: int) -> Number {
    Number::Float(
        Decimal { positive, significand: significand as u64, exponent: exponent as i32 },
    )
}

/// The same, unless it is beyond every double.
pub open spec fn finite(positive: bool, significand: nat, exponent: int) -> Option<Number> {
    if range::overflows(significand, exponent) {
        None
    } else {
        Some(decimal(positive, significand, exponent))
    }
}

/// What reading a number from `i` on gives that ends at `end`.
pub open spec fn read(n: Option<Number>, place: int, end: int) -> Outcome<Number> {
    match n {
        Some(n) => Outcome::Done { value: n, pos: end },
        None => pieces::refused_at(ErrorCode::NumberOutOfRange, place),
    }
}

proof fn lemma_fold(b: Seq<u8>, i: int, n: nat, s: Seq<u8>, max: nat)
    requires
        s.len() == 0 || numbers::digits(s),
        notation::holds(b, i, s),
        numbers::stops(b, i + s.len()),
    ensures
        number::fold_digits(b, i, n, max) == (kept(n, s, max), i + room(n, s, max)),
        room(n, s, max) <= s.len(),
        number::digits_end(b, i) == i + s.len(),
        n <= max ==> kept(n, s, max) <= max,
    decreases s.len(),
{
    if s.len() > 0 {
        notation::lemma_first(b, i, s);
        let t = s.drop_first();
        assert forall|k: int| 0 <= k < t.len() implies #[trigger] b[(i + 1) + k] == t[k] by {
            assert(b[i + (k + 1)] == s[k + 1]);
        }
        lemma_fold(b, i + 1, n * 10 + notation::digit_counts(s[0]), t, max);
    }
}

/// The digits that fit are those whose number does.
pub proof fn lemma_kept(n: nat, s: Seq<u8>, max: nat)
    ensures
        kept(n, s, max) == numbers::followed(n, s.take(room(n, s, max) as int)),
        room(n, s, max) <= s.len(),
        room(n, s, max) < s.len() ==> numbers::followed(n, s.take(room(n, s, max) as int + 1))
            > max,
    decreases s.len(),
{
    numbers::lemma_followed(n, s, 0);
    if s.len() > 0 {
        let d = notation::digit_counts(s[0]);
        assert(s.take(0 + 1int) =~= s.take(1));
        if n * 10 + d <= max {
            let t = s.drop_first();
            lemma_kept(n * 10 + d, t, max);
            let r = room(n * 10 + d, t, max) as int;
            numbers::lemma_shift(n, s, r);
            if r < t.len() {
                numbers::lemma_shift(n, s, r + 1);
            }
        }
    }
}

/// What an exponent does to the digits before it: it is added to the power of
/// ten that belongs to them. One that is too large to be counted makes the
/// number zero where it divides, and is refused where it multiplies anything
/// but zero.
pub proof fn law_power(c: Cursor, p: Power, positive: bool, significand: nat, start: int)
    requires
        c.valid(),
        p.sound(),
        notation::holds(c.bytes, c.pos, p.written()),
        numbers::stops(c.bytes, c.pos + p.written().len()),
        numbers::readable(c, c.pos + p.written().len()),
    ensures
        number::exponent(c, positive, significand, start) == read(
            if !p.endless() {
                finite(
                    positive,
                    significand,
                    limited(
                        if p.divides() {
                            start - p.count()
                        } else {
                            start + p.count()
                        },
                    ),
                )
            } else if significand == 0 || p.divides() {
                Some(decimal(positive, 0, 0))
            } else {
                None
            },
            if p.endless() {
                c.pos + p.written().len() - p.digits.len() + room(0, p.digits, largest_power()) + 1
            } else {
                c.pos + p.written().len()
            },
            c.pos + p.written().len(),
        ),
{
    reveal(number::exponent);
    reveal(number::exponent_digits);
    let x = p.digits;
    let k = 1 + p.sign.len();
    let i = c.pos + k;
    notation::lemma_split(c.bytes, c.pos, seq![p.mark], p.sign + x);
    notation::lemma_split(c.bytes, c.pos + 1, p.sign, x);
    notation::lemma_first(c.bytes, i, x);
    lemma_fold(c.bytes, i, 0, x, largest_power());
    assert(notation::digit(x[0]));
    if p.sign.len() == 1 {
        notation::lemma_first(c.bytes, c.pos + 1, p.sign);
        assert(seq![0x2bu8][0] != seq![0x2du8][0]);
        assert(c.at(c.pos + 1).at(c.pos + 2) == c.at(i));
    } else {
        assert(p.sign != seq![0x2du8]) by {
            assert(seq![0x2du8].len() == 1);
        }
        assert(c.at(c.pos + 1) == c.at(i));
    }
    let r = room(0, x, largest_power());
    if r < x.len() {
        let e = c.at(i + r + 1);
        assert(c.bytes[i + r] == x[r as int]);
        let rest = x.skip(r as int + 1);
        assert forall|t: int| 0 <= t < rest.len() implies #[trigger] c.bytes[e.pos + t]
            == rest[t] by {
            assert(c.bytes[i + (r + 1 + t)] == x[r + 1 + t]);
        }
        assert(rest.len() == 0 || numbers::digits(rest));
        lemma_fold(c.bytes, e.pos, 0, rest, largest());
        assert(c.at(i).at(i + r + 1) == e);
    } else {
        assert(number::digits_end(c.bytes, i) == i + x.len());
    }
}

/// A fraction that may be missing, and an exponent that may be.
proof fn lemma_tail(
    c: Cursor,
    f: Option<Seq<u8>>,
    p: Option<Power>,
    positive: bool,
    significand: nat,
    start: int,
)
    requires
        c.valid(),
        significand <= largest(),
        f matches Some(d) ==> numbers::digits(d),
        p matches Some(q) ==> q.sound(),
        f is Some || p is Some,
        notation::holds(c.bytes, c.pos, numbers::fraction(f) + power_written(p)),
        ({
            let end = c.pos + numbers::fraction(f).len() + power_written(p).len();
            &&& numbers::readable(c, end)
            &&& numbers::stops(c.bytes, end)
            &&& end < c.bytes.len() && p is None ==> !notation::power_mark(c.bytes[end])
        }),
    ensures
        ({
            let end = c.pos + numbers::fraction(f).len() + power_written(p).len();
            let n = match f {
                Some(d) => kept(significand, d, largest()),
                None => significand,
            };
            let scale = match f {
                Some(d) => limited(start - room(significand, d, largest())),
                None => start,
            };
            let o = if f is Some {
                number::decimal(c, positive, significand, start)
            } else {
                number::exponent(c, positive, significand, start)
            };
            o == match p {
                None => read(finite(positive, n, scale), end, end),
                Some(p) => read(
                    if !p.endless() {
                        finite(
                            positive,
                            n,
                            limited(
                                if p.divides() {
                                    scale - p.count()
                                } else {
                                    scale + p.count()
                                },
                            ),
                        )
                    } else if n == 0 || p.divides() {
                        Some(decimal(positive, 0, 0))
                    } else {
                        None
                    },
                    if p.endless() {
                        end - p.digits.len() + room(0, p.digits, largest_power()) + 1
                    } else {
                        end
                    },
                    end,
                ),
            }
        }),
{
    notation::lemma_split(c.bytes, c.pos, numbers::fraction(f), power_written(p));
    let q = c.pos + numbers::fraction(f).len();
    let e = c.at(q);
    if let Some(pw) = p {
        notation::lemma_first(c.bytes, q, pw.written());
    }
    match f {
        Some(d) => {
            reveal(number::decimal);
            let i = c.pos + 1;
            notation::lemma_split(c.bytes, c.pos, seq![0x2eu8], d);
            notation::lemma_first(c.bytes, c.pos, seq![0x2eu8] + d);
            lemma_fold(c.bytes, i, significand, d, largest());
            number::lemma_fold_digits_bounds(c.bytes, i, significand, largest());
            if let Some(pw) = p {
                law_power(
                    e,
                    pw,
                    positive,
                    kept(significand, d, largest()),
                    limited(start - room(significand, d, largest())),
                );
            }
        },
        None => {
            assert(e == c);
            law_power(c, p->0, positive, significand, start);
        },
    }
}

/// A number from behind its sign.
#[verifier::rlimit(40)]
proof fn lemma_unsigned(c: Cursor, n: Numeral)
    requires
        c.valid(),
        n.sound(),
        notation::holds(
            c.bytes,
            c.pos,
            n.whole + (numbers::fraction(n.fraction) + power_written(n.power)),
        ),
        ({
            let end = c.pos + n.written().len() - numbers::sign(n.negative).len();
            &&& numbers::readable(c, end)
            &&& end < c.bytes.len() ==> n.ends(c.bytes[end])
        }),
    ensures
        ({
            let start = c.pos - numbers::sign(n.negative).len();
            number::integer(c, !n.negative) == read(
                n.meant(),
                start + n.consumed(),
                start + n.written().len(),
            )
        }),
{
    let tail = numbers::fraction(n.fraction) + power_written(n.power);
    let s = n.whole;
    notation::lemma_split(c.bytes, c.pos, s, tail);
    notation::lemma_first(c.bytes, c.pos, s);
    let p = c.pos + s.len();
    let e = c.at(p);
    if tail.len() > 0 {
        notation::lemma_first(c.bytes, p, tail);
        if n.fraction is None {
            assert(tail =~= n.power->0.written());
        }
    }
    assert(numbers::stops(c.bytes, p));
    lemma_fold(c.bytes, c.pos, 0, s, largest());
    number::lemma_fold_digits_bounds(c.bytes, c.pos, 0, largest());
    assert(notation::digit(s[0]));
    reveal(number::integer);
    let r = room(0, s, largest());
    let k = kept(0, s, largest());
    if r == s.len() {
        if s[0] == 0x30 {
            assert(s.drop_first() =~= Seq::empty());
            assert(k == 0) by {
                reveal_with_fuel(kept, 2);
            }
        }
        assert(number::integer(c, !n.negative) == number::number(e, !n.negative, k));
        reveal(number::number);
        if tail.len() > 0 {
            lemma_tail(e, n.fraction, n.power, !n.negative, k, 0);
        }
    } else {
        if s[0] == 0x30 {
            assert(s.drop_first() =~= Seq::empty());
            reveal_with_fuel(room, 2);
        }
        let d = c.at(c.pos + r);
        assert(c.bytes[c.pos + r] == s[r as int]);
        assert(number::integer(c, !n.negative) == number::long_integer(d, !n.negative, k, 0));
        reveal(number::long_integer);
        let rest = s.skip(r as int);
        assert forall|t: int| 0 <= t < rest.len() implies #[trigger] c.bytes[d.pos + t]
            == rest[t] by {
            assert(c.bytes[c.pos + (r + t)] == s[r + t]);
        }
        assert(numbers::digits(rest));
        lemma_fold(c.bytes, d.pos, 0, rest, largest());
        if tail.len() > 0 {
            lemma_tail(e, n.fraction, n.power, !n.negative, k, limited(s.len() - r));
        }
    }
}

/// A number means what its parts say: an integer where it has no point and no
/// exponent and fits one, and otherwise its leading digits and a power of
/// ten.
pub proof fn law_numeral(c: Cursor, n: Numeral, depth: int)
    requires
        c.valid(),
        n.sound(),
        notation::holds(c.bytes, c.pos, n.written()),
        numbers::readable(c, c.pos + n.written().len()),
        c.pos + n.written().len() < c.bytes.len() ==> n.ends(
            c.bytes[c.pos + n.written().len()],
        ),
    ensures
        n.written().len() > 0,
        grammar::token(c, depth) == read(
            n.meant(),
            c.pos + n.consumed(),
            c.pos + n.written().len(),
        ).map(|x: Number| grammar::Token::Number(x)),
        grammar::value(c, depth) == read(
            n.meant(),
            c.pos + n.consumed(),
            c.pos + n.written().len(),
        ).map(|x: Number| Json::Number(x)),
{
    reveal(grammar::value);
    let w = n.written();
    let k = numbers::sign(n.negative).len();
    notation::lemma_first(c.bytes, c.pos, w);
    notation::lemma_split(
        c.bytes,
        c.pos,
        numbers::sign(n.negative),
        n.whole + (numbers::fraction(n.fraction) + power_written(n.power)),
    );
    notation::lemma_first(
        c.bytes,
        c.pos + k,
        n.whole + (numbers::fraction(n.fraction) + power_written(n.power)),
    );
    assert(notation::digit(n.whole[0]));
    assert(grammar::spaced(c) == c);
    assert(c.at(c.pos) == c);
    lemma_unsigned(c.at(c.pos + k), n);
}

/// An integer is the number that its digits denote, with its sign.
pub proof fn law_integer_fields(c: Cursor, negative: bool, s: Seq<u8>, depth: int)
    requires
        c.valid(),
        numbers::whole(s),
        notation::holds(c.bytes, c.pos, numbers::sign(negative) + s),
        ({
            let end = c.pos + numbers::sign(negative).len() + s.len();
            &&& numbers::readable(c, end)
            &&& end < c.bytes.len() ==> {
                let b = c.bytes[end];
                !notation::digit(b) && b != 0x2e && !notation::power_mark(b)
            }
        }),
    ensures
        ({
            let end = c.pos + numbers::sign(negative).len() + s.len();
            let o = grammar::value(c, depth);
            let n = numbers::denotes(s);
            &&& !negative && n <= u64::MAX ==> {
                &&& o matches Outcome::Done { value: Json::Number(Number::PosInt(x)), pos }
                &&& x as int == n
                &&& pos == end
            }
            &&& negative && n <= 0x8000_0000_0000_0000 ==> {
                &&& o matches Outcome::Done { value: Json::Number(Number::NegInt(x)), pos }
                &&& x as int == -(n as int)
                &&& pos == end
            }
            &&& negative && 0x8000_0000_0000_0000 < n <= u64::MAX ==> {
                &&& o matches Outcome::Done { value: Json::Number(Number::Float(x)), pos }
                &&& !x.positive
                &&& x.significand as int == n
                &&& x.exponent == 0
                &&& pos == end
            }
        }),
{
    if numbers::denotes(s) <= u64::MAX {
        let n = Numeral { negative, whole: s, fraction: None, power: None };
        assert(n.written() =~= numbers::sign(negative) + s);
        lemma_kept(0, s, largest());
        let r = room(0, s, largest()) as int;
        numbers::lemma_followed_zero(s.take(r));
        if r < s.len() {
            numbers::lemma_followed_zero(s.take(r + 1));
            numbers::lemma_denotes_more(s, r + 1);
        } else {
            assert(s.take(r) =~= s);
        }
        law_numeral(c, n, depth);
    }
}

/// What stands behind the digits before a point or an exponent.
proof fn lemma_behind_whole(c: Cursor, s: Seq<u8>, positive: bool)
    requires
        c.valid(),
        numbers::whole(s),
        notation::holds(c.bytes, c.pos, s),
        c.pos + s.len() < c.bytes.len(),
        numbers::stops(c.bytes, c.pos + s.len()),
    ensures
        ({
            let e = c.at(c.pos + s.len());
            let b = c.bytes[e.pos];
            let n = kept(0, s, largest());
            let start = limited(s.len() - room(0, s, largest()));
            &&& n <= largest()
            &&& b == 0x2e ==> number::integer(c, positive) == number::decimal(
                e,
                positive,
                n,
                start,
            )
            &&& notation::power_mark(b) ==> number::integer(c, positive) == number::exponent(
                e,
                positive,
                n,
                start,
            )
        }),
{
    notation::lemma_first(c.bytes, c.pos, s);
    let p = c.pos + s.len();
    let e = c.at(p);
    lemma_fold(c.bytes, c.pos, 0, s, largest());
    number::lemma_fold_digits_bounds(c.bytes, c.pos, 0, largest());
    assert(notation::digit(s[0]));
    reveal(number::integer);
    let r = room(0, s, largest());
    if s[0] == 0x30 {
        assert(s.drop_first() =~= Seq::empty());
        reveal_with_fuel(kept, 2);
        reveal_with_fuel(room, 2);
    }
    if r == s.len() {
        reveal(number::number);
    } else {
        let d = c.at(c.pos + r);
        assert(c.bytes[c.pos + r] == s[r as int]);
        reveal(number::long_integer);
        let rest = s.skip(r as int);
        assert forall|t: int| 0 <= t < rest.len() implies #[trigger] c.bytes[d.pos + t]
            == rest[t] by {
            assert(c.bytes[c.pos + (r + t)] == s[r + t]);
        }
        assert(numbers::digits(rest));
        lemma_fold(c.bytes, d.pos, 0, rest, largest());
    }
}

/// The beginning of a number: its sign and a digit, or what stands there
/// instead of one.
proof fn lemma_signed(c: Cursor, negative: bool, depth: int)
    requires
        c.valid(),
        notation::holds(c.bytes, c.pos, numbers::sign(negative)),
        !negative ==> c.pos < c.bytes.len() && notation::digit(c.bytes[c.pos]),
    ensures
        ({
            let o = number::integer(c.at(c.pos + numbers::sign(negative).len()), !negative);
            &&& grammar::token(c, depth) == o.map(
                |x: Number| grammar::Token::Number(x),
            ).placed()
            &&& grammar::value(c, depth) == o.map(|x: Number| Json::Number(x)).placed()
        }),
{
    reveal(grammar::value);
    if negative {
        notation::lemma_first(c.bytes, c.pos, numbers::sign(negative));
    }
    assert(grammar::spaced(c) == c);
    assert(c.at(c.pos) == c);
}

/// A minus sign without a digit, and a zero with one behind it.
pub proof fn law_refused_start(c: Cursor, negative: bool, depth: int)
    requires
        c.valid(),
        notation::holds(c.bytes, c.pos, numbers::sign(negative)),
    ensures
        ({
            let p = c.pos + numbers::sign(negative).len();
            let o = grammar::value(c, depth);
            let len = c.bytes.len();
            &&& negative && p == len && !c.broken() ==> o == pieces::refused_at::<Json>(
                ErrorCode::InvalidNumber,
                p,
            )
            &&& negative && p < len && !notation::digit(c.bytes[p]) ==> o == pieces::refused_at::<
                Json,
            >(ErrorCode::InvalidNumber, p + 1)
            &&& p + 1 < len && c.bytes[p] == 0x30 && notation::digit(c.bytes[p + 1]) ==> o == (
            Outcome::<Json>::Fail {
                code: ErrorCode::InvalidNumber,
                place: p + 2,
                pos: p + 1,
            })
        }),
{
    reveal(number::integer);
    let p = c.pos + numbers::sign(negative).len();
    if negative || p < c.bytes.len() && notation::digit(c.bytes[p]) {
        lemma_signed(c, negative, depth);
    }
}

/// A point without a digit behind it.
pub proof fn law_refused_point(c: Cursor, negative: bool, s: Seq<u8>, depth: int)
    requires
        c.valid(),
        numbers::whole(s),
        notation::holds(c.bytes, c.pos, numbers::sign(negative) + (s + seq![0x2eu8])),
        ({
            let p = c.pos + numbers::sign(negative).len() + s.len() + 1;
            numbers::readable(c, p) && numbers::stops(c.bytes, p)
        }),
    ensures
        ({
            let p = c.pos + numbers::sign(negative).len() + s.len() + 1;
            grammar::value(c, depth) == (Outcome::<Json>::Fail {
                code: ErrorCode::InvalidNumber,
                place: if p < c.bytes.len() {
                    p + 1
                } else {
                    p
                },
                pos: p,
            })
        }),
{
    let k = numbers::sign(negative).len();
    let d = c.at(c.pos + k);
    notation::lemma_split(c.bytes, c.pos, numbers::sign(negative), s + seq![0x2eu8]);
    notation::lemma_split(c.bytes, d.pos, s, seq![0x2eu8]);
    notation::lemma_first(c.bytes, d.pos, s);
    notation::lemma_first(c.bytes, d.pos + s.len(), seq![0x2eu8]);
    assert(notation::digit(s[0]));
    lemma_behind_whole(d, s, !negative);
    lemma_signed(c, negative, depth);
    reveal(number::decimal);
    lemma_fold(c.bytes, d.pos + s.len() + 1, kept(0, s, largest()), Seq::empty(), largest());
}

/// An exponent mark, with or without a sign, without a digit behind it.
pub proof fn law_refused_power(
    c: Cursor,
    n: Numeral,
    mark: u8,
    sign: Seq<u8>,
    depth: int,
)
    requires
        c.valid(),
        n.sound(),
        n.power is None,
        notation::power_mark(mark),
        sign == Seq::<u8>::empty() || sign == seq![0x2bu8] || sign == seq![0x2du8],
        notation::holds(c.bytes, c.pos, n.written() + (seq![mark] + sign)),
        ({
            let p = c.pos + n.written().len() + 1 + sign.len();
            &&& numbers::readable(c, p)
            &&& numbers::stops(c.bytes, p)
            &&& p < c.bytes.len() && sign.len() == 0 ==> c.bytes[p] != 0x2b && c.bytes[p] != 0x2d
        }),
    ensures
        ({
            let p = c.pos + n.written().len() + 1 + sign.len();
            grammar::value(c, depth) == pieces::refused_at::<Json>(
                ErrorCode::InvalidNumber,
                if p < c.bytes.len() {
                    p + 1
                } else {
                    p
                },
            )
        }),
{
    let k = numbers::sign(n.negative).len();
    let d = c.at(c.pos + k);
    let s = n.whole;
    let f = numbers::fraction(n.fraction);
    notation::lemma_split(c.bytes, c.pos, n.written(), seq![mark] + sign);
    assert(n.written() =~= numbers::sign(n.negative) + (s + f));
    notation::lemma_split(c.bytes, c.pos, numbers::sign(n.negative), s + f);
    notation::lemma_split(c.bytes, d.pos, s, f);
    let q = c.pos + n.written().len();
    notation::lemma_first(c.bytes, q, seq![mark] + sign);
    notation::lemma_split(c.bytes, q, seq![mark], sign);
    if sign.len() > 0 {
        notation::lemma_first(c.bytes, q + 1, sign);
    }
    notation::lemma_first(c.bytes, d.pos, s);
    assert(notation::digit(s[0]));
    if f.len() > 0 {
        notation::lemma_first(c.bytes, d.pos + s.len(), f);
    }
    lemma_behind_whole(d, s, !n.negative);
    lemma_signed(c, n.negative, depth);
    reveal(number::exponent);
    reveal(number::exponent_digits);
    if let Some(x) = n.fraction {
        reveal(number::decimal);
        let i = d.pos + s.len() + 1;
        notation::lemma_split(c.bytes, d.pos + s.len(), seq![0x2eu8], x);
        lemma_fold(c.bytes, i, kept(0, s, largest()), x, largest());
        number::lemma_fold_digits_bounds(c.bytes, i, kept(0, s, largest()), largest());
    }
}

/// Whether `n` is a number as far as it is written: digits may be missing
/// behind its point, or behind the mark or the sign of its exponent.
pub open spec fn begun(n: Numeral) -> bool {
    &&& numbers::whole(n.whole)
    &&& n.fraction matches Some(d) ==> numbers::digits(d) || (d.len() == 0 && n.power is None)
    &&& n.power matches Some(p) ==> {
        &&& notation::power_mark(p.mark)
        &&& p.sign == Seq::<u8>::empty() || p.sign == seq![0x2bu8] || p.sign == seq![0x2du8]
        &&& p.digits.len() == 0 || numbers::digits(p.digits)
    }
}

/// A source that fails where a number may go on.
proof fn lemma_power_cut(c: Cursor, p: Power, positive: bool, significand: nat, start: int)
    requires
        c.valid(),
        c.broken(),
        notation::power_mark(p.mark),
        p.sign == Seq::<u8>::empty() || p.sign == seq![0x2bu8] || p.sign == seq![0x2du8],
        p.digits.len() == 0 || numbers::digits(p.digits),
        notation::holds(c.bytes, c.pos, p.written()),
        c.pos + p.written().len() == c.bytes.len(),
        p.endless() ==> significand == 0 || p.divides(),
    ensures
        number::exponent(c, positive, significand, start) == (Outcome::<Number>::Broken {
            placed: Placed::Nowhere,
            moved: false,
        }),
{
    reveal(number::exponent);
    reveal(number::exponent_digits);
    let x = p.digits;
    let i = c.pos + 1 + p.sign.len();
    notation::lemma_split(c.bytes, c.pos, seq![p.mark], p.sign + x);
    notation::lemma_split(c.bytes, c.pos + 1, p.sign, x);
    lemma_fold(c.bytes, i, 0, x, largest_power());
    if p.sign.len() == 1 {
        notation::lemma_first(c.bytes, c.pos + 1, p.sign);
    }
    if x.len() > 0 {
        notation::lemma_first(c.bytes, i, x);
        assert(notation::digit(x[0]));
        let y = x.drop_first();
        assert forall|k: int| 0 <= k < y.len() implies #[trigger] c.bytes[(i + 1) + k] == y[k] by {
            assert(c.bytes[i + (k + 1)] == x[k + 1]);
        }
        lemma_fold(c.bytes, i + 1, notation::digit_counts(x[0]), y, largest_power());
        let r = room(0, x, largest_power());
        number::lemma_digits_end_bounds(c.bytes, i);
        number::lemma_fold_digits_bounds(c.bytes, i, 0, largest_power());
        if r < x.len() {
            assert(c.bytes[i + r] == x[r as int]);
            number::lemma_digits_end_bounds(c.bytes, i + r);
        }
    }
}


proof fn lemma_run(b: Seq<u8>, i: int) -> (s: Seq<u8>)
    requires
        0 <= i <= b.len(),
    ensures
        s.len() == 0 || numbers::digits(s),
        notation::holds(b, i, s),
        numbers::stops(b, i + s.len()),
{
    number::lemma_digits_end_bounds(b, i);
    let j = number::digits_end(b, i);
    notation::lemma_between(b, i, j);
    let s = b.subrange(i, j);
    assert forall|k: int| 0 <= k < s.len() implies notation::digit(#[trigger] s[k]) by {
        assert(s[k] == b[i + k]);
    }
    s
}

/// The exponent that stands at a mark, if a digit follows.
proof fn lemma_power_found(c: Cursor, n: Numeral, depth: int) -> (p: Power)
    requires
        c.valid(),
        !c.broken(),
        n.sound(),
        n.power is None,
        notation::holds(c.bytes, c.pos, n.written()),
        c.pos + n.written().len() < c.bytes.len(),
        notation::power_mark(c.bytes[c.pos + n.written().len()]),
        grammar::value(c, depth) is Done,
    ensures
        p.sound(),
        notation::holds(c.bytes, c.pos + n.written().len(), p.written()),
        numbers::stops(c.bytes, c.pos + n.written().len() + p.written().len()),
{
    let q = c.pos + n.written().len();
    let mark = c.bytes[q];
    let sign = if q + 1 < c.bytes.len() && c.bytes[q + 1] == 0x2b {
        seq![0x2bu8]
    } else if q + 1 < c.bytes.len() && c.bytes[q + 1] == 0x2d {
        seq![0x2du8]
    } else {
        Seq::empty()
    };
    assert(notation::holds(c.bytes, q, seq![mark]));
    assert(notation::holds(c.bytes, q + 1, sign));
    let x = lemma_run(c.bytes, q + 1 + sign.len());
    let p = Power { mark, sign, digits: x };
    notation::lemma_join(c.bytes, q, seq![mark], sign);
    notation::lemma_join(c.bytes, c.pos, n.written(), seq![mark] + sign);
    if x.len() == 0 {
        law_refused_power(c, n, mark, sign, depth);
    }
    notation::lemma_join(c.bytes, q + 1, sign, x);
    notation::lemma_join(c.bytes, q, seq![mark], sign + x);
    p
}

/// Nothing else is a number: what is read as one is written in such parts.
pub proof fn law_numeral_only(c: Cursor, depth: int) -> (n: Numeral)
    requires
        c.valid(),
        !c.broken(),
        c.pos < c.bytes.len(),
        c.bytes[c.pos] == 0x2d || notation::digit(c.bytes[c.pos]),
        grammar::value(c, depth) is Done,
    ensures
        n.sound(),
        notation::holds(c.bytes, c.pos, n.written()),
        c.pos + n.written().len() < c.bytes.len() ==> n.ends(c.bytes[c.pos + n.written().len()]),
        n.meant() is Some,
        grammar::value(c, depth) == (Outcome::Done {
            value: Json::Number(n.meant()->0),
            pos: c.pos + n.written().len(),
        }),
{
    let negative = c.bytes[c.pos] == 0x2d;
    let sg = numbers::sign(negative);
    assert(notation::holds(c.bytes, c.pos, sg));
    let i = c.pos + sg.len();
    law_refused_start(c, negative, depth);
    let s = lemma_run(c.bytes, i);
    if s.len() > 0 {
        notation::lemma_first(c.bytes, i, s);
        if s.len() > 1 {
            assert(c.bytes[i + 1] == s[1]);
            assert(notation::digit(s[1]));
        }
    }
    assert(numbers::whole(s));
    let p = i + s.len();
    let none = Seq::<u8>::empty();
    notation::lemma_join(c.bytes, c.pos, sg, s);
    let f = if p < c.bytes.len() && c.bytes[p] == 0x2e {
        let d = lemma_run(c.bytes, p + 1);
        assert(notation::holds(c.bytes, p, seq![0x2eu8]));
        if d.len() == 0 {
            notation::lemma_join(c.bytes, i, s, seq![0x2eu8]);
            notation::lemma_join(c.bytes, c.pos, sg, s + seq![0x2eu8]);
            law_refused_point(c, negative, s, depth);
        }
        notation::lemma_join(c.bytes, p, seq![0x2eu8], d);
        Some(d)
    } else {
        assert(notation::holds(c.bytes, p, none));
        None
    };
    let m = Numeral { negative, whole: s, fraction: f, power: None };
    notation::lemma_join(c.bytes, i, s, numbers::fraction(f));
    notation::lemma_join(c.bytes, c.pos, sg, s + numbers::fraction(f));
    assert(m.written() =~= sg + (s + numbers::fraction(f)));
    let q = c.pos + m.written().len();
    let n = if q < c.bytes.len() && notation::power_mark(c.bytes[q]) {
        let pw = lemma_power_found(c, m, depth);
        let n = Numeral { power: Some(pw), ..m };
        notation::lemma_join(c.bytes, c.pos, m.written(), pw.written());
        assert(n.written() =~= m.written() + pw.written());
        n
    } else {
        m
    };
    law_numeral(c, n, depth);
    n
}

/// A source that fails behind a fraction or an exponent.
proof fn lemma_tail_cut(
    c: Cursor,
    f: Option<Seq<u8>>,
    p: Option<Power>,
    positive: bool,
    n: nat,
    start: int,
)
    requires
        c.valid(),
        c.broken(),
        n <= largest(),
        f is Some || p is Some,
        begun(Numeral { negative: false, whole: seq![0x30u8], fraction: f, power: p }),
        notation::holds(c.bytes, c.pos, numbers::fraction(f) + power_written(p)),
        c.pos + numbers::fraction(f).len() + power_written(p).len() == c.bytes.len(),
        p matches Some(p) ==> p.endless() ==> p.divides() || n == 0 && (f matches Some(d) ==> kept(
            0,
            d,
            largest(),
        ) == 0),
    ensures
        f is Some ==> number::decimal(c, positive, n, start) == (Outcome::<Number>::Broken {
            placed: Placed::Nowhere,
            moved: false,
        }),
        f is None ==> number::exponent(c, positive, n, start) == (Outcome::<Number>::Broken {
            placed: Placed::Nowhere,
            moved: false,
        }),
{
    match f {
        None => {
            assert(numbers::fraction(f) + power_written(p) =~= p->0.written());
            lemma_power_cut(c, p->0, positive, n, start);
        },
        Some(d) => {
            reveal(number::decimal);
            let e = c.pos + 1 + d.len();
            notation::lemma_split(c.bytes, c.pos, numbers::fraction(f), power_written(p));
            notation::lemma_split(c.bytes, c.pos, seq![0x2eu8], d);
            if let Some(q) = p {
                notation::lemma_first(c.bytes, e, q.written());
            }
            lemma_fold(c.bytes, c.pos + 1, n, d, largest());
            number::lemma_fold_digits_bounds(c.bytes, c.pos + 1, n, largest());
            if let Some(q) = p {
                lemma_power_cut(
                    c.at(e),
                    q,
                    positive,
                    kept(n, d, largest()),
                    limited(start - room(n, d, largest())),
                );
            }
        },
    }
}

/// A source that fails where a number has begun and may go on gives its own
/// error, which is put behind the last byte.
pub proof fn law_numeral_cut(c: Cursor, n: Numeral, depth: int)
    requires
        c.valid(),
        c.failure is Some,
        begun(n),
        notation::holds(c.bytes, c.pos, n.written()),
        c.pos + n.written().len() == c.bytes.len(),
        n.power matches Some(p) ==> p.endless() ==> p.divides() || n.significand() == 0,
    ensures
        grammar::value(c, depth) == (Outcome::<Json>::Broken {
            placed: Placed::AtEnd,
            moved: false,
        }),
{
    let tail = numbers::fraction(n.fraction) + power_written(n.power);
    let s = n.whole;
    let sg = numbers::sign(n.negative);
    notation::lemma_split(c.bytes, c.pos, sg, s + tail);
    let d = c.at(c.pos + sg.len());
    notation::lemma_split(c.bytes, d.pos, s, tail);
    notation::lemma_first(c.bytes, d.pos, s);
    assert(notation::digit(s[0]));
    let e = d.pos + s.len();
    lemma_signed(c, n.negative, depth);
    let m = kept(0, s, largest());
    if tail.len() > 0 {
        notation::lemma_first(c.bytes, e, tail);
        lemma_behind_whole(d, s, !n.negative);
        if n.fraction is None {
            assert(tail =~= n.power->0.written());
        }
        if let Some(f) = n.fraction {
            if m > 0 {
                lemma_kept_grows(m, f, largest());
            }
        }
        lemma_tail_cut(
            c.at(e),
            n.fraction,
            n.power,
            !n.negative,
            m,
            limited(s.len() - room(0, s, largest())),
        );
    } else {
        reveal(number::integer);
        reveal(number::long_integer);
        lemma_fold(c.bytes, d.pos, 0, s, largest());
        number::lemma_fold_digits_bounds(c.bytes, d.pos, 0, largest());
        let r = room(0, s, largest());
        if r < s.len() {
            assert(c.bytes[d.pos + r] == s[r as int]);
        }
    }
}

/// Appending digits makes no number smaller.
proof fn lemma_kept_grows(n: nat, s: Seq<u8>, max: nat)
    ensures
        kept(n, s, max) >= n,
    decreases s.len(),
{
    if s.len() > 0 && n * 10 + notation::digit_counts(s[0]) <= max {
        lemma_kept_grows(n * 10 + notation::digit_counts(s[0]), s.drop_first(), max);
    }
}

/// The same of a minus sign that nothing follows.
pub proof fn law_sign_cut(c: Cursor, depth: int)
    requires
        c.valid(),
        c.failure is Some,
        c.pos + 1 == c.bytes.len(),
        c.bytes[c.pos] == 0x2d,
    ensures
        grammar::value(c, depth) == (Outcome::<Json>::Broken {
            placed: Placed::AtEnd,
            moved: false,
        }),
{
    assert(notation::holds(c.bytes, c.pos, numbers::sign(true)));
    lemma_signed(c, true, depth);
    reveal(number::integer);
}

/// Behind an integer part that fits a `u64` comes a fraction, an exponent, or
/// the end of an integer.
pub proof fn law_behind_integer(c: Cursor, positive: bool, n: nat)
    requires
        c.valid(),
        n <= largest(),
    ensures
        ({
            let o = number::number(c, positive, n);
            let b = c.bytes[c.pos];
            if c.pos < c.bytes.len() && b == 0x2e {
                o == number::decimal(c, positive, n, 0)
            } else if c.pos < c.bytes.len() && notation::power_mark(b) {
                o == number::exponent(c, positive, n, 0)
            } else if c.pos == c.bytes.len() && c.failure is Some {
                o == (Outcome::<Number>::Broken { placed: Placed::Nowhere, moved: false })
            } else {
                &&& o matches Outcome::Done { value, pos }
                &&& pos == c.pos
                &&& match value {
                    Number::PosInt(x) => positive && x as int == n,
                    Number::NegInt(x) => !positive && x as int == -(n as int),
                    Number::Float(x) => {
                        &&& !positive
                        &&& n > 0x8000_0000_0000_0000
                        &&& !x.positive
                        &&& x.significand as int == n
                        &&& x.exponent == 0
                    },
                }
            }
        }),
{
    reveal(number::number);
}

/// A number of given parts, and one whose exponent is too large to be counted.
pub proof fn law_parts(c: Cursor, positive: bool, n: nat, e: int, s: Seq<u8>, multiplies: bool)
    requires
        c.valid(),
        n <= largest(),
        -0x8000_0000 <= e <= 0x7fff_ffff,
        s.len() == 0 || numbers::digits(s),
        notation::holds(c.bytes, c.pos, s),
        numbers::stops(c.bytes, c.pos + s.len()),
    ensures
        match number::from_parts(c, positive, n, e) {
            Outcome::Done { value: Number::Float(x), pos } => {
                &&& !range::overflows(n, e)
                &&& x.positive == positive
                &&& x.significand as int == n
                &&& x.exponent as int == e
                &&& pos == c.pos
            },
            o => range::overflows(n, e) && o == pieces::refused_at::<Number>(
                ErrorCode::NumberOutOfRange,
                c.pos,
            ),
        },
        ({
            let p = c.pos + s.len();
            number::exponent_overflow(c, positive, n, multiplies) == if n != 0 && multiplies {
                pieces::refused_at::<Number>(ErrorCode::NumberOutOfRange, c.pos)
            } else if p == c.bytes.len() && c.failure is Some {
                Outcome::Broken { placed: Placed::Nowhere, moved: false }
            } else {
                Outcome::Done { value: decimal(positive, 0, 0), pos: p }
            }
        }),
{
    lemma_fold(c.bytes, c.pos, 0, s, largest());
}

} // verus!
