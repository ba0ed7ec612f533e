//! What a step makes of a text depends on nothing before the place where it
//! begins.
use crate::ascii::{is_digit, is_space, BACKSLASH, LOWER_U};
use crate::outcome::Outcome;
use crate::read::Cursor;
use crate::string::Literal;
use crate::value::Json;
use crate::{ascii, grammar, number, progress, string};
use vstd::prelude::*;

verus! {

/// The same place in a text that has `before` in front of it.
pub open spec fn behind(before: Seq<u8>, c: Cursor) -> Cursor {
    Cursor { bytes: before + c.bytes, pos: before.len() + c.pos, ..c }
}

/// The same ending `k` bytes later.
pub open spec fn shift<T>(o: Outcome<T>, k: int) -> Outcome<T> {
    match o {
        Outcome::Done { value, pos } => Outcome::Done { value, pos: pos + k },
        Outcome::Fail { code, place, pos } => Outcome::Fail {
            code,
            place: place + k,
            pos: pos + k,
        },
        Outcome::Torn { code, place } => Outcome::Torn { code, place: place + k },
        Outcome::Broken { placed, moved } => Outcome::Broken { placed, moved },
    }
}

proof fn lemma_skip_space(a: Seq<u8>, b: Seq<u8>, i: int)
    requires
        0 <= i,
    ensures
        grammar::skip_space(a + b, a.len() + i) == a.len() + grammar::skip_space(b, i),
    decreases b.len() - i,
{
    if i < b.len() {
        assert((a + b)[a.len() + i] == b[i]);
        if is_space(b[i]) {
            lemma_skip_space(a, b, i + 1);
        }
    }
}

proof fn lemma_digits_end(a: Seq<u8>, b: Seq<u8>, i: int)
    requires
        0 <= i,
    ensures
        number::digits_end(a + b, a.len() + i) == a.len() + number::digits_end(b, i),
    decreases b.len() - i,
{
    if i < b.len() {
        assert((a + b)[a.len() + i] == b[i]);
        if is_digit(b[i]) {
            lemma_digits_end(a, b, i + 1);
        }
    }
}

proof fn lemma_fold_digits(a: Seq<u8>, b: Seq<u8>, i: int, acc: nat, max: nat)
    requires
        0 <= i,
    ensures
        number::fold_digits(a + b, a.len() + i, acc, max).0 == number::fold_digits(
            b,
            i,
            acc,
            max,
        ).0,
        number::fold_digits(a + b, a.len() + i, acc, max).1 == a.len() + number::fold_digits(
            b,
            i,
            acc,
            max,
        ).1,
    decreases b.len() - i,
{
    if i < b.len() {
        assert((a + b)[a.len() + i] == b[i]);
        if is_digit(b[i]) && acc * 10 + ascii::digit_value(b[i]) <= max {
            lemma_fold_digits(a, b, i + 1, acc * 10 + ascii::digit_value(b[i]), max);
        }
    }
}

proof fn lemma_ident(a: Seq<u8>, c: Cursor, word: Seq<u8>, k: int)
    requires
        0 <= c.pos,
    ensures
        grammar::ident(behind(a, c), word, k) == shift(
            grammar::ident(c, word, k),
            a.len() as int,
        ),
    decreases word.len() - k,
{
    if k < word.len() && !c.spent() {
        assert((a + c.bytes)[a.len() + c.pos] == c.bytes[c.pos]);
        if c.bytes[c.pos] == word[k] {
            lemma_ident(a, c.at(c.pos + 1), word, k + 1);
            assert(behind(a, c).at(behind(a, c).pos + 1) == behind(a, c.at(c.pos + 1)));
        }
    }
}

proof fn lemma_hex_digits(a: Seq<u8>, c: Cursor, count: nat, acc: nat)
    requires
        0 <= c.pos,
    ensures
        string::hex_digits(behind(a, c), count, acc) == shift(
            string::hex_digits(c, count, acc),
            a.len() as int,
        ),
    decreases count,
{
    if count > 0 && !c.spent() {
        assert((a + c.bytes)[a.len() + c.pos] == c.bytes[c.pos]);
        if let Some(v) = ascii::hex_value(c.bytes[c.pos]) {
            lemma_hex_digits(a, c.at(c.pos + 1), (count - 1) as nat, acc * 16 + v);
            assert(behind(a, c).at(behind(a, c).pos + 1) == behind(a, c.at(c.pos + 1)));
        }
    }
}

proof fn lemma_pair_tail(a: Seq<u8>, c: Cursor, n1: nat)
    requires
        0 <= c.pos,
    ensures
        string::pair_tail(behind(a, c), n1) == shift(string::pair_tail(c, n1), a.len() as int),
{
    let d = behind(a, c);
    if !c.spent() {
        assert((a + c.bytes)[a.len() + c.pos] == c.bytes[c.pos]);
        let c1 = c.at(c.pos + 1);
        assert(d.at(d.pos + 1) == behind(a, c1));
        if !c1.spent() {
            assert((a + c.bytes)[a.len() + c1.pos] == c.bytes[c1.pos]);
            let c2 = c.at(c.pos + 2);
            assert(d.at(d.pos + 2) == behind(a, c2));
            lemma_hex_digits(a, c2, 4, 0);
        }
    }
}

proof fn lemma_escape(a: Seq<u8>, c: Cursor)
    requires
        c.valid(),
    ensures
        string::escape(behind(a, c)) == shift(string::escape(c), a.len() as int),
{
    let d = behind(a, c);
    if !c.spent() {
        assert((a + c.bytes)[a.len() + c.pos] == c.bytes[c.pos]);
        if c.bytes[c.pos] == LOWER_U {
            let c1 = c.at(c.pos + 1);
            assert(d.at(d.pos + 1) == behind(a, c1));
            lemma_hex_digits(a, c1, 4, 0);
            progress::lemma_hex_digits(c1, 4, 0);
            if let Outcome::Done { value: n, pos: p } = string::hex_digits(c1, 4, 0) {
                lemma_pair_tail(a, c1.at(p), n);
                assert(behind(a, c1).at(a.len() + p) == behind(a, c1.at(p)));
            }
        }
    }
}

proof fn lemma_literal(a: Seq<u8>, c: Cursor, checked: bool, sofar: Literal)
    requires
        c.valid(),
    ensures
        string::literal(behind(a, c), checked, sofar) == shift(
            string::literal(c, checked, sofar),
            a.len() as int,
        ),
    decreases c.bytes.len() - c.pos,
{
    let d = behind(a, c);
    if !c.spent() {
        assert((a + c.bytes)[a.len() + c.pos] == c.bytes[c.pos]);
        let b = c.bytes[c.pos];
        let c1 = c.at(c.pos + 1);
        assert(d.at(d.pos + 1) == behind(a, c1));
        if b == BACKSLASH {
            lemma_escape(a, c1);
            progress::lemma_escape(c1);
            if let Outcome::Done { value, pos } = string::escape(c1) {
                lemma_literal(
                    a,
                    c.at(pos),
                    checked,
                    Literal { bytes: sofar.bytes + value, escaped: true },
                );
                assert(d.at(a.len() + pos) == behind(a, c.at(pos)));
            }
        } else {
            lemma_literal(
                a,
                c1,
                checked,
                Literal { bytes: sofar.bytes.push(b), escaped: sofar.escaped },
            );
        }
    }
}

/// Strings do not depend on what stands before them.
pub proof fn lemma_text(a: Seq<u8>, c: Cursor)
    requires
        c.valid(),
    ensures
        string::text(behind(a, c)) == shift(string::text(c), a.len() as int),
        string::raw_string(behind(a, c), false) == shift(
            string::raw_string(c, false),
            a.len() as int,
        ),
{
    reveal(string::text);
    reveal(string::raw_string);
    lemma_literal(a, c, true, string::no_literal());
    lemma_literal(a, c, false, string::no_literal());
}

proof fn lemma_exponent_digits(
    a: Seq<u8>,
    c: Cursor,
    positive: bool,
    significand: nat,
    start: int,
    p: bool,
)
    requires
        c.valid(),
    ensures
        number::exponent_digits(behind(a, c), positive, significand, start, p) == shift(
            number::exponent_digits(c, positive, significand, start, p),
            a.len() as int,
        ),
{
    reveal(number::exponent_digits);
    let d = behind(a, c);
    if !c.spent() {
        assert((a + c.bytes)[a.len() + c.pos] == c.bytes[c.pos]);
        if is_digit(c.bytes[c.pos]) {
            let acc = ascii::digit_value(c.bytes[c.pos]);
            number::lemma_fold_digits_bounds(c.bytes, c.pos + 1, acc, i32::MAX as nat);
            lemma_fold_digits(a, c.bytes, c.pos + 1, acc, i32::MAX as nat);
            let (exp, j) = number::fold_digits(c.bytes, c.pos + 1, acc, i32::MAX as nat);
            assert(d.at(a.len() + j) == behind(a, c.at(j)));
            assert(d.at(a.len() + j + 1) == behind(a, c.at(j + 1)));
            if j < c.bytes.len() {
                assert((a + c.bytes)[a.len() + j] == c.bytes[j]);
                lemma_digits_end(a, c.bytes, j + 1);
                let e = number::digits_end(c.bytes, j + 1);
                assert(d.at(a.len() + e) == behind(a, c.at(e)));
            }
        }
    }
}

proof fn lemma_exponent(a: Seq<u8>, c: Cursor, positive: bool, significand: nat, start: int)
    requires
        c.valid(),
        !c.spent(),
    ensures
        number::exponent(behind(a, c), positive, significand, start) == shift(
            number::exponent(c, positive, significand, start),
            a.len() as int,
        ),
{
    reveal(number::exponent);
    let d = behind(a, c);
    let s = c.at(c.pos + 1);
    assert(d.at(d.pos + 1) == behind(a, s));
    if !s.spent() {
        assert((a + c.bytes)[a.len() + s.pos] == c.bytes[s.pos]);
        assert(d.at(d.pos + 2) == behind(a, s.at(s.pos + 1)));
        lemma_exponent_digits(a, s.at(s.pos + 1), positive, significand, start, true);
        lemma_exponent_digits(a, s.at(s.pos + 1), positive, significand, start, false);
    }
    lemma_exponent_digits(a, s, positive, significand, start, true);
}

proof fn lemma_decimal(a: Seq<u8>, c: Cursor, positive: bool, significand: nat, start: int)
    requires
        c.valid(),
        !c.spent(),
        significand <= u64::MAX,
    ensures
        number::decimal(behind(a, c), positive, significand, start) == shift(
            number::decimal(c, positive, significand, start),
            a.len() as int,
        ),
{
    reveal(number::decimal);
    let d = behind(a, c);
    let i = c.pos + 1;
    number::lemma_fold_digits_bounds(c.bytes, i, significand, u64::MAX as nat);
    lemma_fold_digits(a, c.bytes, i, significand, u64::MAX as nat);
    let (s2, j) = number::fold_digits(c.bytes, i, significand, u64::MAX as nat);
    number::lemma_digits_end_bounds(c.bytes, j);
    lemma_digits_end(a, c.bytes, j);
    let e = c.at(number::digits_end(c.bytes, j));
    assert(d.at(a.len() + e.pos) == behind(a, e));
    if !e.spent() {
        assert((a + c.bytes)[a.len() + e.pos] == c.bytes[e.pos]);
        lemma_exponent(a, e, positive, s2, number::clamp(start - (j - i)));
    }
}

proof fn lemma_number(a: Seq<u8>, c: Cursor, positive: bool, significand: nat)
    requires
        c.valid(),
        significand <= u64::MAX,
    ensures
        number::number(behind(a, c), positive, significand) == shift(
            number::number(c, positive, significand),
            a.len() as int,
        ),
        number::long_integer(behind(a, c), positive, significand, 0) == shift(
            number::long_integer(c, positive, significand, 0),
            a.len() as int,
        ),
{
    reveal(number::number);
    reveal(number::long_integer);
    let d = behind(a, c);
    if !c.spent() {
        assert((a + c.bytes)[a.len() + c.pos] == c.bytes[c.pos]);
        lemma_decimal(a, c, positive, significand, 0);
        lemma_exponent(a, c, positive, significand, 0);
    }
    number::lemma_digits_end_bounds(c.bytes, c.pos);
    lemma_digits_end(a, c.bytes, c.pos);
    let e = c.at(number::digits_end(c.bytes, c.pos));
    let exp = number::clamp(e.pos - c.pos);
    assert(d.at(a.len() + e.pos) == behind(a, e));
    if !e.spent() {
        assert((a + c.bytes)[a.len() + e.pos] == c.bytes[e.pos]);
        lemma_decimal(a, e, positive, significand, exp);
        lemma_exponent(a, e, positive, significand, exp);
    }
}

/// Numbers do not depend on what stands before them.
pub proof fn lemma_integer(a: Seq<u8>, c: Cursor, positive: bool)
    requires
        c.valid(),
    ensures
        number::integer(behind(a, c), positive) == shift(
            number::integer(c, positive),
            a.len() as int,
        ),
{
    reveal(number::integer);
    let d = behind(a, c);
    if !c.spent() {
        assert((a + c.bytes)[a.len() + c.pos] == c.bytes[c.pos]);
        let s = c.at(c.pos + 1);
        assert(d.at(d.pos + 1) == behind(a, s));
        if !s.spent() {
            assert((a + c.bytes)[a.len() + s.pos] == c.bytes[s.pos]);
        }
        lemma_number(a, s, positive, 0);
        if is_digit(c.bytes[c.pos]) {
            let acc = ascii::digit_value(c.bytes[c.pos]);
            number::lemma_fold_digits_bounds(c.bytes, c.pos + 1, acc, u64::MAX as nat);
            lemma_fold_digits(a, c.bytes, c.pos + 1, acc, u64::MAX as nat);
            let (significand, j) = number::fold_digits(c.bytes, c.pos + 1, acc, u64::MAX as nat);
            assert(d.at(a.len() + j) == behind(a, c.at(j)));
            lemma_number(a, c.at(j), positive, significand);
            if j < c.bytes.len() {
                assert((a + c.bytes)[a.len() + j] == c.bytes[j]);
            }
        }
    }
}

proof fn lemma_spaced(a: Seq<u8>, c: Cursor)
    requires
        c.valid(),
    ensures
        grammar::spaced(behind(a, c)) == behind(a, grammar::spaced(c)),
        grammar::spaced(c).valid(),
        !grammar::spaced(c).spent() ==> (a + c.bytes)[a.len() + grammar::spaced(c).pos]
            == c.bytes[grammar::spaced(c).pos],
{
    lemma_skip_space(a, c.bytes, c.pos);
    progress::lemma_skip_space(c.bytes, c.pos);
}

/// Beginnings of values do not depend on what stands before them.
#[verifier::rlimit(30)]
pub proof fn lemma_token(a: Seq<u8>, c: Cursor, depth: int)
    requires
        c.valid(),
    ensures
        grammar::token(behind(a, c), depth) == shift(grammar::token(c, depth), a.len() as int),
{
    lemma_spaced(a, c);
    let s = grammar::spaced(c);
    if !s.spent() {
        let t = s.at(s.pos + 1);
        assert(behind(a, s).at(behind(a, s).pos + 1) == behind(a, t));
        lemma_ident(a, t, grammar::ull(), 0);
        lemma_ident(a, t, grammar::rue(), 0);
        lemma_ident(a, t, grammar::alse(), 0);
        lemma_integer(a, t, false);
        lemma_integer(a, s, true);
        lemma_text(a, t);
    }
}

/// The steps between values do not depend on what stands before them.
pub proof fn lemma_between(a: Seq<u8>, c: Cursor, first: bool)
    requires
        c.valid(),
    ensures
        grammar::next_element(behind(a, c), first) == shift(
            grammar::next_element(c, first),
            a.len() as int,
        ),
        grammar::next_key(behind(a, c), first) == shift(
            grammar::next_key(c, first),
            a.len() as int,
        ),
        grammar::object_colon(behind(a, c)) == shift(grammar::object_colon(c), a.len() as int),
        grammar::end_seq(behind(a, c)) == shift(grammar::end_seq(c), a.len() as int),
        grammar::end_map(behind(a, c)) == shift(grammar::end_map(c), a.len() as int),
        grammar::end(behind(a, c)) == shift(grammar::end(c), a.len() as int),
        grammar::stream_start(behind(a, c)) == shift(grammar::stream_start(c), a.len() as int),
{
    lemma_spaced(a, c);
    let s = grammar::spaced(c);
    if !s.spent() {
        let t = s.at(s.pos + 1);
        assert(behind(a, s).at(behind(a, s).pos + 1) == behind(a, t));
        lemma_spaced(a, t);
    }
}

/// A value does not depend on what stands before it.
pub proof fn lemma_value(a: Seq<u8>, c: Cursor, depth: int)
    requires
        c.valid(),
    ensures
        grammar::value(behind(a, c), depth) == shift(grammar::value(c, depth), a.len() as int),
    decreases depth, c.bytes.len() - c.pos, 1int,
{
    reveal(grammar::value);
    lemma_token(a, c, depth);
    progress::lemma_token(c, depth);
    if let Outcome::Done { value: t, pos } = grammar::token(c, depth) {
        let d = c.at(pos);
        assert(behind(a, c).at(a.len() + pos) == behind(a, d));
        if depth > 1 {
            if t is Array {
                lemma_array(a, d, depth - 1);
            } else if t is Object {
                lemma_object(a, d, depth - 1);
            }
        }
    }
}

#[verifier::rlimit(30)]
proof fn lemma_array(a: Seq<u8>, d: Cursor, depth: int)
    requires
        d.valid(),
    ensures
        grammar::array(behind(a, d), depth) == shift(
            grammar::array(d, depth),
            a.len() as int,
        ),
    decreases depth, d.bytes.len() - d.pos, 3int,
{
    lemma_elements(a, d, depth, true, Seq::empty());
    progress::lemma_elements(d, depth, true, Seq::empty());
    match grammar::elements(d, depth, true, Seq::empty()) {
        Outcome::Done { value: v, pos: q } => {
            lemma_between(a, d.at(q), true);
            assert(behind(a, d).at(a.len() + q) == behind(a, d.at(q)));
        },
        Outcome::Fail { code, place, pos: q } => {
            lemma_between(a, d.at(q), true);
            assert(behind(a, d).at(a.len() + q) == behind(a, d.at(q)));
        },
        _ => {},
    }
}

#[verifier::rlimit(30)]
proof fn lemma_object(a: Seq<u8>, d: Cursor, depth: int)
    requires
        d.valid(),
    ensures
        grammar::object(behind(a, d), depth) == shift(
            grammar::object(d, depth),
            a.len() as int,
        ),
    decreases depth, d.bytes.len() - d.pos, 4int,
{
    lemma_members(a, d, depth, true, Seq::empty());
    progress::lemma_members(d, depth, true, Seq::empty());
    match grammar::members(d, depth, true, Seq::empty()) {
        Outcome::Done { value: v, pos: q } => {
            lemma_between(a, d.at(q), true);
            assert(behind(a, d).at(a.len() + q) == behind(a, d.at(q)));
        },
        Outcome::Fail { code, place, pos: q } => {
            lemma_between(a, d.at(q), true);
            assert(behind(a, d).at(a.len() + q) == behind(a, d.at(q)));
        },
        _ => {},
    }
}

#[verifier::rlimit(30)]
proof fn lemma_elements(a: Seq<u8>, c: Cursor, depth: int, first: bool, sofar: Seq<Json>)
    requires
        c.valid(),
    ensures
        grammar::elements(behind(a, c), depth, first, sofar) == shift(
            grammar::elements(c, depth, first, sofar),
            a.len() as int,
        ),
    decreases depth, c.bytes.len() - c.pos, 2int,
{
    reveal(grammar::value);
    lemma_between(a, c, first);
    progress::lemma_between(c, first);
    if let Outcome::Done { value: more, pos } = grammar::next_element(c, first) {
        if more {
            let d = c.at(pos);
            assert(behind(a, c).at(a.len() + pos) == behind(a, d));
            lemma_value(a, d, depth);
            progress::lemma_value(d, depth);
            if let Outcome::Done { value: v, pos: q } = grammar::value(d, depth) {
                assert(behind(a, c).at(a.len() + q) == behind(a, c.at(q)));
                lemma_elements(a, c.at(q), depth, false, sofar.push(v));
            }
        }
    }
}

proof fn lemma_member(a: Seq<u8>, c: Cursor, depth: int)
    requires
        c.valid(),
        !c.spent(),
    ensures
        grammar::member(behind(a, c), depth) == shift(grammar::member(c, depth), a.len() as int),
    decreases depth, c.bytes.len() - c.pos, 2int,
{
    reveal(grammar::value);
    let s = c.at(c.pos + 1);
    assert(behind(a, c).at(behind(a, c).pos + 1) == behind(a, s));
    lemma_text(a, s);
    progress::lemma_text(s);
    if let Outcome::Done { value: key, pos } = string::text(s) {
        let d = c.at(pos);
        assert(behind(a, c).at(a.len() + pos) == behind(a, d));
        lemma_between(a, d, true);
        progress::lemma_between(d, true);
        if let Outcome::Done { value: u, pos: p } = grammar::object_colon(d) {
            assert(behind(a, c).at(a.len() + p) == behind(a, c.at(p)));
            lemma_value(a, c.at(p), depth);
        }
    }
}

#[verifier::rlimit(30)]
proof fn lemma_members(
    a: Seq<u8>,
    c: Cursor,
    depth: int,
    first: bool,
    sofar: Seq<(Seq<char>, Json)>,
)
    requires
        c.valid(),
    ensures
        grammar::members(behind(a, c), depth, first, sofar) == shift(
            grammar::members(c, depth, first, sofar),
            a.len() as int,
        ),
    decreases depth, c.bytes.len() - c.pos, 3int,
{
    reveal(grammar::value);
    lemma_between(a, c, first);
    progress::lemma_between(c, first);
    if let Outcome::Done { value: more, pos } = grammar::next_key(c, first) {
        if more {
            let d = c.at(pos);
            assert(behind(a, c).at(a.len() + pos) == behind(a, d));
            lemma_member(a, d, depth);
            progress::lemma_member(d, depth);
            if let Outcome::Done { value: m, pos: q } = grammar::member(d, depth) {
                assert(behind(a, c).at(a.len() + q) == behind(a, c.at(q)));
                lemma_members(a, c.at(q), depth, false, sofar.push(m));
            }
        }
    }
}

} // verus!
