//! Laws of sources that fail.
use crate::ascii::{BACKSLASH, LOWER_U};
use crate::outcome::Outcome;
use crate::read::Cursor;
use crate::string::Literal;
use crate::value::Json;
use crate::{ascii, grammar, number, progress, string};
use vstd::prelude::*;

verus! {

/// The same text and place in a source that ends where this one fails.
pub open spec fn mended(c: Cursor) -> Cursor {
    Cursor { failure: None, ..c }
}

/// Whether a step on a failing source gave `o`, if on the mended one it gives
/// `p`: both give the same as long as they do not come to the end of the text.
pub open spec fn keeps<T>(c: Cursor, o: Outcome<T>, p: Outcome<T>) -> bool {
    let len = c.bytes.len() as int;
    match o {
        Outcome::Done { .. } | Outcome::Fail { .. } => p == o,
        Outcome::Torn { code, place } => p == (Outcome::<T>::Fail { code, place, pos: len }),
        Outcome::Broken { .. } => match p {
            Outcome::Done { pos, .. } => pos == len,
            Outcome::Fail { pos, .. } => pos == len,
            _ => false,
        },
    }
}

/// The same of a step that comes to the end of the text only where it is
/// refused for that.
pub open spec fn needs<T>(c: Cursor, o: Outcome<T>, p: Outcome<T>) -> bool {
    &&& keeps(c, o, p)
    &&& o is Broken ==> p is Fail
    &&& !(o is Torn)
}

proof fn lemma_ident(c: Cursor, word: Seq<u8>, k: int)
    requires
        c.valid(),
        c.broken(),
    ensures
        needs(c, grammar::ident(c, word, k), grammar::ident(mended(c), word, k)),
    decreases word.len() - k,
{
    if k < word.len() && !c.spent() {
        lemma_ident(c.at(c.pos + 1), word, k + 1);
    }
}

proof fn lemma_hex_digits(c: Cursor, count: nat, acc: nat)
    requires
        c.valid(),
        c.broken(),
    ensures
        needs(c, string::hex_digits(c, count, acc), string::hex_digits(mended(c), count, acc)),
    decreases count,
{
    if count > 0 && !c.spent() {
        if let Some(v) = ascii::hex_value(c.bytes[c.pos]) {
            lemma_hex_digits(c.at(c.pos + 1), (count - 1) as nat, acc * 16 + v);
        }
    }
}

proof fn lemma_escape(c: Cursor)
    requires
        c.valid(),
        c.broken(),
    ensures
        needs(c, string::escape(c), string::escape(mended(c))),
{
    if !c.spent() && c.bytes[c.pos] == LOWER_U {
        let d = c.at(c.pos + 1);
        lemma_hex_digits(d, 4, 0);
        progress::lemma_hex_digits(d, 4, 0);
        if let Outcome::Done { value, pos } = string::hex_digits(d, 4, 0) {
            if pos + 2 <= c.bytes.len() {
                lemma_hex_digits(c.at(pos + 2), 4, 0);
            }
        }
    }
}

proof fn lemma_literal(c: Cursor, checked: bool, sofar: Literal)
    requires
        c.valid(),
        c.broken(),
    ensures
        needs(c, string::literal(c, checked, sofar), string::literal(mended(c), checked, sofar)),
    decreases c.bytes.len() - c.pos,
{
    if !c.spent() {
        let b = c.bytes[c.pos];
        let d = c.at(c.pos + 1);
        if b == BACKSLASH {
            lemma_escape(d);
            progress::lemma_escape(d);
            if let Outcome::Done { value, pos } = string::escape(d) {
                lemma_literal(
                    c.at(pos),
                    checked,
                    Literal { bytes: sofar.bytes + value, escaped: true },
                );
            }
        } else {
            lemma_literal(
                d,
                checked,
                Literal { bytes: sofar.bytes.push(b), escaped: sofar.escaped },
            );
        }
    }
}

/// A string that is read from a failing source is read from the mended one.
pub proof fn law_failing_string(c: Cursor, checked: bool)
    requires
        c.valid(),
        c.broken(),
    ensures
        needs(c, string::raw_string(c, checked), string::raw_string(mended(c), checked)),
        needs(c, string::text(c), string::text(mended(c))),
{
    reveal(string::text);
    reveal(string::raw_string);
    lemma_literal(c, checked, string::no_literal());
    lemma_literal(c, true, string::no_literal());
}

proof fn lemma_exponent(c: Cursor, positive: bool, significand: nat, start: int)
    requires
        c.valid(),
        c.broken(),
        !c.spent(),
    ensures
        keeps(
            c,
            number::exponent(c, positive, significand, start),
            number::exponent(mended(c), positive, significand, start),
        ),
        !(number::exponent(c, positive, significand, start) is Torn),
{
    let s = c.at(c.pos + 1);
    reveal(number::exponent);
    lemma_exponent_digits(s, positive, significand, start, true);
    if !s.spent() {
        lemma_exponent_digits(s.at(s.pos + 1), positive, significand, start, true);
        lemma_exponent_digits(s.at(s.pos + 1), positive, significand, start, false);
    } else {
        reveal(number::exponent_digits);
    }
}

proof fn lemma_exponent_digits(
    c: Cursor,
    positive: bool,
    significand: nat,
    start: int,
    multiplies: bool,
)
    requires
        c.valid(),
        c.broken(),
    ensures
        ({
            let o = number::exponent_digits(c, positive, significand, start, multiplies);
            let p = number::exponent_digits(mended(c), positive, significand, start, multiplies);
            keeps(c, o, p) && !(o is Torn)
        }),
{
    reveal(number::exponent_digits);
    if !c.spent() && ascii::is_digit(c.bytes[c.pos]) {
        let x = ascii::digit_value(c.bytes[c.pos]);
        number::lemma_fold_digits_bounds(c.bytes, c.pos + 1, x, i32::MAX as nat);
        let (exp, j) = number::fold_digits(c.bytes, c.pos + 1, x, i32::MAX as nat);
        if j < c.bytes.len() {
            number::lemma_digits_end_bounds(c.bytes, j + 1);
        }
    }
}

proof fn lemma_decimal(c: Cursor, positive: bool, significand: nat, start: int)
    requires
        c.valid(),
        c.broken(),
        !c.spent(),
        significand <= u64::MAX,
    ensures
        keeps(
            c,
            number::decimal(c, positive, significand, start),
            number::decimal(mended(c), positive, significand, start),
        ),
        !(number::decimal(c, positive, significand, start) is Torn),
{
    reveal(number::decimal);
    let i = c.pos + 1;
    number::lemma_fold_digits_bounds(c.bytes, i, significand, u64::MAX as nat);
    let (s2, j) = number::fold_digits(c.bytes, i, significand, u64::MAX as nat);
    number::lemma_digits_end_bounds(c.bytes, j);
    let e = c.at(number::digits_end(c.bytes, j));
    if !e.spent() {
        lemma_exponent(e, positive, s2, number::clamp(start - (j - i)));
    }
}

proof fn lemma_number(c: Cursor, positive: bool, significand: nat)
    requires
        c.valid(),
        c.broken(),
        significand <= u64::MAX,
    ensures
        keeps(
            c,
            number::number(c, positive, significand),
            number::number(mended(c), positive, significand),
        ),
        !(number::number(c, positive, significand) is Torn),
        keeps(
            c,
            number::long_integer(c, positive, significand, 0),
            number::long_integer(mended(c), positive, significand, 0),
        ),
        !(number::long_integer(c, positive, significand, 0) is Torn),
{
    reveal(number::number);
    reveal(number::long_integer);
    if !c.spent() {
        lemma_exponent(c, positive, significand, 0);
        lemma_decimal(c, positive, significand, 0);
    }
    number::lemma_digits_end_bounds(c.bytes, c.pos);
    let e = c.at(number::digits_end(c.bytes, c.pos));
    let exp = number::clamp(0 + (e.pos - c.pos));
    if !e.spent() {
        lemma_exponent(e, positive, significand, exp);
        lemma_decimal(e, positive, significand, exp);
    }
}

proof fn lemma_integer(c: Cursor, positive: bool)
    requires
        c.valid(),
        c.broken(),
    ensures
        keeps(c, number::integer(c, positive), number::integer(mended(c), positive)),
        !(number::integer(c, positive) is Torn),
{
    reveal(number::integer);
    reveal(number::number);
    if !c.spent() {
        lemma_number(c.at(c.pos + 1), positive, 0);
        let x = ascii::digit_value(c.bytes[c.pos]);
        number::lemma_fold_digits_bounds(c.bytes, c.pos + 1, x, u64::MAX as nat);
        let (significand, j) = number::fold_digits(c.bytes, c.pos + 1, x, u64::MAX as nat);
        lemma_number(c.at(j), positive, significand);
    }
}

proof fn lemma_token(c: Cursor, depth: int)
    requires
        c.valid(),
        c.broken(),
    ensures
        keeps(c, grammar::token(c, depth), grammar::token(mended(c), depth)),
        !(grammar::token(c, depth) is Torn),
        grammar::token(c, depth) is Broken ==> (grammar::token(
            mended(c),
            depth,
        ) matches Outcome::Done { value, .. } ==> value is Number),
{
    progress::lemma_skip_space(c.bytes, c.pos);
    let s = grammar::spaced(c);
    if !s.spent() {
        let t = s.at(s.pos + 1);
        lemma_ident(t, grammar::ull(), 0);
        lemma_ident(t, grammar::rue(), 0);
        lemma_ident(t, grammar::alse(), 0);
        lemma_integer(t, false);
        lemma_integer(s, true);
        law_failing_string(t, true);
    }
}

proof fn lemma_between(c: Cursor, first: bool)
    requires
        c.valid(),
        c.broken(),
    ensures
        needs(c, grammar::next_element(c, first), grammar::next_element(mended(c), first)),
        needs(c, grammar::next_key(c, first), grammar::next_key(mended(c), first)),
        needs(c, grammar::object_colon(c), grammar::object_colon(mended(c))),
        needs(c, grammar::end_seq(c), grammar::end_seq(mended(c))),
        needs(c, grammar::end_map(c), grammar::end_map(mended(c))),
        c.spent() ==> grammar::end_seq(c) is Broken && grammar::end_map(c) is Broken,
        c.spent() ==> (grammar::next_element(mended(c), first) matches Outcome::Fail { pos, .. }
            && pos == c.pos),
        c.spent() ==> (grammar::next_key(mended(c), first) matches Outcome::Fail { pos, .. } && pos
            == c.pos),
{
    progress::lemma_skip_space(c.bytes, c.pos);
    let s = grammar::spaced(c);
    if !s.spent() {
        progress::lemma_skip_space(c.bytes, s.pos + 1);
    }
}

/// A value is the same from a failing source and from the mended one, and so
/// is what is refused, as long as the end of the text does not matter. Where
/// it does, the mended source gives a number that ends there, or refuses the
/// value with all of the text consumed.
pub proof fn law_failing_source(c: Cursor, depth: int)
    requires
        c.valid(),
        c.broken(),
    ensures
        keeps(c, grammar::value(c, depth), grammar::value(mended(c), depth)),
        grammar::value(c, depth) is Broken ==> (grammar::value(
            mended(c),
            depth,
        ) matches Outcome::Done { value, .. } ==> value is Number),
    decreases depth, c.bytes.len() - c.pos, 1int,
{
    reveal(grammar::value);
    progress::lemma_token(c, depth);
    lemma_token(c, depth);
    if let Outcome::Done { value: t, pos } = grammar::token(c, depth) {
        let d = c.at(pos);
        assert(mended(c).at(pos) == mended(d));
        if depth > 1 {
            if t is Array {
                lemma_elements(d, depth - 1, true, Seq::empty());
                lemma_array(d, depth - 1);
            } else if t is Object {
                lemma_members(d, depth - 1, true, Seq::empty());
                lemma_object(d, depth - 1);
            }
        }
    }
}

proof fn lemma_array(d: Cursor, depth: int)
    requires
        d.valid(),
        d.broken(),
        ({
            let o = grammar::elements(d, depth, true, Seq::empty());
            let p = grammar::elements(mended(d), depth, true, Seq::empty());
            keeps(d, o, p) && (o is Broken ==> p is Fail)
        }),
    ensures
        keeps(d, grammar::array(d, depth), grammar::array(mended(d), depth)),
        grammar::array(d, depth) is Broken ==> grammar::array(mended(d), depth) is Fail,
{
    progress::lemma_elements(d, depth, true, Seq::empty());
    let o = grammar::elements(d, depth, true, Seq::empty());
    let p = grammar::elements(mended(d), depth, true, Seq::empty());
    let end = d.at(d.bytes.len() as int);
    lemma_between(end, true);
    assert(mended(d).at(end.pos) == mended(end));
    match o {
        Outcome::Done { value, pos } => {
            lemma_between(d.at(pos), true);
            assert(mended(d).at(pos) == mended(d.at(pos)));
        },
        Outcome::Fail { code, place, pos } => {
            lemma_between(d.at(pos), true);
            assert(mended(d).at(pos) == mended(d.at(pos)));
        },
        _ => {},
    }
}

proof fn lemma_object(d: Cursor, depth: int)
    requires
        d.valid(),
        d.broken(),
        ({
            let o = grammar::members(d, depth, true, Seq::empty());
            let p = grammar::members(mended(d), depth, true, Seq::empty());
            keeps(d, o, p) && (o is Broken ==> p is Fail)
        }),
    ensures
        keeps(d, grammar::object(d, depth), grammar::object(mended(d), depth)),
        grammar::object(d, depth) is Broken ==> grammar::object(mended(d), depth) is Fail,
{
    progress::lemma_members(d, depth, true, Seq::empty());
    let o = grammar::members(d, depth, true, Seq::empty());
    let p = grammar::members(mended(d), depth, true, Seq::empty());
    let end = d.at(d.bytes.len() as int);
    lemma_between(end, true);
    assert(mended(d).at(end.pos) == mended(end));
    match o {
        Outcome::Done { value, pos } => {
            lemma_between(d.at(pos), true);
            assert(mended(d).at(pos) == mended(d.at(pos)));
        },
        Outcome::Fail { code, place, pos } => {
            lemma_between(d.at(pos), true);
            assert(mended(d).at(pos) == mended(d.at(pos)));
        },
        _ => {},
    }
}

proof fn lemma_elements(c: Cursor, depth: int, first: bool, sofar: Seq<Json>)
    requires
        c.valid(),
        c.broken(),
    ensures
        ({
            let o = grammar::elements(c, depth, first, sofar);
            let p = grammar::elements(mended(c), depth, first, sofar);
            keeps(c, o, p) && (o is Broken ==> p is Fail)
        }),
    decreases depth, c.bytes.len() - c.pos, 2int,
{
    reveal(grammar::value);
    progress::lemma_between(c, first);
    lemma_between(c, first);
    if let Outcome::Done { value: true, pos } = grammar::next_element(c, first) {
        let d = c.at(pos);
        assert(mended(c).at(pos) == mended(d));
        progress::lemma_value(d, depth);
        progress::lemma_value(mended(d), depth);
        law_failing_source(d, depth);
        if let Outcome::Done { value: v, pos: q } = grammar::value(d, depth) {
            assert(mended(c).at(q) == mended(c.at(q)));
            lemma_elements(c.at(q), depth, false, sofar.push(v));
        } else if let Outcome::Done { value: v, pos: q } = grammar::value(mended(d), depth) {
            let e = c.at(q);
            assert(mended(c).at(q) == mended(e));
            lemma_between(e, false);
            assert(grammar::elements(mended(e), depth, false, sofar.push(v)) is Fail);
        }
    }
}

proof fn lemma_member(c: Cursor, depth: int)
    requires
        c.valid(),
        c.broken(),
        !c.spent(),
    ensures
        keeps(c, grammar::member(c, depth), grammar::member(mended(c), depth)),
    decreases depth, c.bytes.len() - c.pos, 2int,
{
    reveal(grammar::value);
    let d = c.at(c.pos + 1);
    assert(mended(c).at(c.pos + 1) == mended(d));
    progress::lemma_text(d);
    law_failing_string(d, true);
    if let Outcome::Done { value: key, pos } = string::text(d) {
        progress::lemma_between(c.at(pos), true);
        lemma_between(c.at(pos), true);
        assert(mended(c).at(pos) == mended(c.at(pos)));
        if let Outcome::Done { value: u, pos: p } = grammar::object_colon(c.at(pos)) {
            assert(mended(c).at(p) == mended(c.at(p)));
            law_failing_source(c.at(p), depth);
        }
    }
}

proof fn lemma_members(c: Cursor, depth: int, first: bool, sofar: Seq<(Seq<char>, Json)>)
    requires
        c.valid(),
        c.broken(),
    ensures
        ({
            let o = grammar::members(c, depth, first, sofar);
            let p = grammar::members(mended(c), depth, first, sofar);
            keeps(c, o, p) && (o is Broken ==> p is Fail)
        }),
    decreases depth, c.bytes.len() - c.pos, 3int,
{
    reveal(grammar::value);
    progress::lemma_between(c, first);
    lemma_between(c, first);
    if let Outcome::Done { value: true, pos } = grammar::next_key(c, first) {
        let d = c.at(pos);
        assert(mended(c).at(pos) == mended(d));
        progress::lemma_member(d, depth);
        progress::lemma_member(mended(d), depth);
        lemma_member(d, depth);
        if let Outcome::Done { value: m, pos: q } = grammar::member(d, depth) {
            assert(mended(c).at(q) == mended(c.at(q)));
            lemma_members(c.at(q), depth, false, sofar.push(m));
        } else if let Outcome::Done { value: m, pos: q } = grammar::member(mended(d), depth) {
            let e = c.at(q);
            assert(mended(c).at(q) == mended(e));
            lemma_between(e, false);
            assert(grammar::members(mended(e), depth, false, sofar.push(m)) is Fail);
        }
    }
}

} // verus!
