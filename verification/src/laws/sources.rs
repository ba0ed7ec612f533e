//! Laws of sources.
use crate::ascii::{BACKSLASH, LOWER_U};
use crate::outcome::Outcome;
use crate::read::Cursor;
use crate::string::{Literal, Text};
use crate::value::Json;
use crate::{ascii, grammar, number, progress, stream, string};
use vstd::prelude::*;

verus! {

/// The same text and place in a source that does or does not lend.
pub open spec fn lending(c: Cursor, lends: bool) -> Cursor {
    Cursor { lends, ..c }
}

proof fn lemma_ident(c: Cursor, l: bool, word: Seq<u8>, k: int)
    ensures
        grammar::ident(lending(c, l), word, k) == grammar::ident(c, word, k),
    decreases word.len() - k,
{
    if k < word.len() && !c.spent() {
        lemma_ident(c.at(c.pos + 1), l, word, k + 1);
    }
}

proof fn lemma_hex_digits(c: Cursor, l: bool, count: nat, acc: nat)
    ensures
        string::hex_digits(lending(c, l), count, acc) == string::hex_digits(c, count, acc),
    decreases count,
{
    if count > 0 && !c.spent() {
        if let Some(v) = ascii::hex_value(c.bytes[c.pos]) {
            lemma_hex_digits(c.at(c.pos + 1), l, (count - 1) as nat, acc * 16 + v);
        }
    }
}

proof fn lemma_escape(c: Cursor, l: bool)
    requires
        c.valid(),
    ensures
        string::escape(lending(c, l)) == string::escape(c),
{
    if !c.spent() && c.bytes[c.pos] == LOWER_U {
        let d = c.at(c.pos + 1);
        lemma_hex_digits(d, l, 4, 0);
        if let Outcome::Done { value, pos } = string::hex_digits(d, 4, 0) {
            lemma_hex_digits(c.at(pos + 2), l, 4, 0);
        }
    }
}

proof fn lemma_literal(c: Cursor, l: bool, checked: bool, sofar: Literal)
    requires
        c.valid(),
    ensures
        string::literal(lending(c, l), checked, sofar) == string::literal(c, checked, sofar),
    decreases c.bytes.len() - c.pos,
{
    if !c.spent() {
        let b = c.bytes[c.pos];
        let d = c.at(c.pos + 1);
        if b == BACKSLASH {
            lemma_escape(d, l);
            progress::lemma_escape(d);
            if let Outcome::Done { value, pos } = string::escape(d) {
                lemma_literal(
                    c.at(pos),
                    l,
                    checked,
                    Literal { bytes: sofar.bytes + value, escaped: true },
                );
            }
        } else {
            lemma_literal(
                d,
                l,
                checked,
                Literal { bytes: sofar.bytes.push(b), escaped: sofar.escaped },
            );
        }
    }
}

/// A string without regard to where its characters are kept.
spec fn characters(o: Outcome<Text>) -> Outcome<Seq<char>> {
    o.map(|t: Text| t.chars)
}

proof fn lemma_text(c: Cursor, l: bool)
    requires
        c.valid(),
    ensures
        characters(string::text(lending(c, l))) == characters(string::text(c)),
{
    reveal(string::text);
    reveal(string::raw_string);
    lemma_literal(c, l, true, string::no_literal());
}

proof fn lemma_exponent(c: Cursor, l: bool, positive: bool, significand: nat, start: int)
    ensures
        number::exponent(lending(c, l), positive, significand, start) == number::exponent(
            c,
            positive,
            significand,
            start,
        ),
{
    reveal(number::exponent);
    reveal(number::exponent_digits);
}

proof fn lemma_decimal(c: Cursor, l: bool, positive: bool, significand: nat, start: int)
    ensures
        number::decimal(lending(c, l), positive, significand, start) == number::decimal(
            c,
            positive,
            significand,
            start,
        ),
{
    reveal(number::decimal);
    let i = c.pos + 1;
    let (s2, j) = number::fold_digits(c.bytes, i, significand, u64::MAX as nat);
    let e = c.at(number::digits_end(c.bytes, j));
    lemma_exponent(e, l, positive, s2, number::clamp(start - (j - i)));
}

proof fn lemma_number(c: Cursor, l: bool, positive: bool, significand: nat)
    ensures
        number::number(lending(c, l), positive, significand) == number::number(
            c,
            positive,
            significand,
        ),
        number::long_integer(lending(c, l), positive, significand, 0) == number::long_integer(
            c,
            positive,
            significand,
            0,
        ),
{
    reveal(number::number);
    reveal(number::long_integer);
    lemma_exponent(c, l, positive, significand, 0);
    lemma_decimal(c, l, positive, significand, 0);
    let e = c.at(number::digits_end(c.bytes, c.pos));
    let exp = number::clamp(0 + (e.pos - c.pos));
    lemma_exponent(e, l, positive, significand, exp);
    lemma_decimal(e, l, positive, significand, exp);
}

proof fn lemma_integer(c: Cursor, l: bool, positive: bool)
    ensures
        number::integer(lending(c, l), positive) == number::integer(c, positive),
{
    reveal(number::integer);
    lemma_number(c.at(c.pos + 1), l, positive, 0);
    let (significand, j) = number::fold_digits(
        c.bytes,
        c.pos + 1,
        ascii::digit_value(c.bytes[c.pos]),
        u64::MAX as nat,
    );
    lemma_number(c.at(j), l, positive, significand);
}

/// The beginning of a value without regard to where characters are kept.
spec fn settled(o: Outcome<grammar::Token>) -> Outcome<grammar::Token> {
    o.map(
        |t: grammar::Token|
            match t {
                grammar::Token::String(s) => grammar::Token::String(
                    Text { chars: s.chars, borrowed: false },
                ),
                t => t,
            },
    )
}

proof fn lemma_token(c: Cursor, l: bool, depth: int)
    requires
        c.valid(),
    ensures
        settled(grammar::token(lending(c, l), depth)) == settled(grammar::token(c, depth)),
{
    progress::lemma_skip_space(c.bytes, c.pos);
    let s = grammar::spaced(c);
    assert(grammar::spaced(lending(c, l)) == lending(s, l));
    if !s.spent() {
        let t = s.at(s.pos + 1);
        assert(lending(s, l).at(s.pos + 1) == lending(t, l));
        lemma_ident(t, l, grammar::ull(), 0);
        lemma_ident(t, l, grammar::rue(), 0);
        lemma_ident(t, l, grammar::alse(), 0);
        lemma_integer(t, l, false);
        lemma_integer(s, l, true);
        lemma_text(t, l);
        let x = string::text(t);
        let y = string::text(lending(t, l));
        assert(characters(x) == characters(y));
        assert(x is Done <==> y is Done);
    }
}

/// What a value is does not depend on whether its source lends: text that is
/// read from elsewhere gives what the same text in memory gives.
pub proof fn law_lending(c: Cursor, lends: bool, depth: int)
    requires
        c.valid(),
    ensures
        grammar::value(lending(c, lends), depth) == grammar::value(c, depth),
    decreases depth, c.bytes.len() - c.pos, 1int,
{
    reveal(grammar::value);
    progress::lemma_token(c, depth);
    lemma_token(c, lends, depth);
    let o = grammar::token(c, depth);
    let p = grammar::token(lending(c, lends), depth);
    assert(settled(o) == settled(p));
    assert(o is Done <==> p is Done);
    if let Outcome::Done { value: t, pos } = o {
        let d = c.at(pos);
        assert(lending(c, lends).at(pos) == lending(d, lends));
        if depth > 1 {
            if t is Array {
                lemma_elements(d, lends, depth - 1, true, Seq::empty());
            } else if t is Object {
                lemma_members(d, lends, depth - 1, true, Seq::empty());
            }
        }
        if let grammar::Token::String(x) = t {
            let y = p->Done_value->String_0;
            assert(settled(o)->Done_value->String_0.chars == x.chars);
            assert(settled(p)->Done_value->String_0.chars == y.chars);
        }
    }
}

/// The same of a document.
pub proof fn law_lending_document(c: Cursor, lends: bool, depth: int)
    requires
        c.valid(),
    ensures
        grammar::document(lending(c, lends), depth) == grammar::document(c, depth),
{
    law_lending(c, lends, depth);
    if let Outcome::Done { value, pos } = grammar::value(c, depth) {
        assert(lending(c, lends).at(pos) == lending(c.at(pos), lends));
        assert(grammar::end(lending(c.at(pos), lends)) == grammar::end(c.at(pos)));
    }
}

/// The same of a stream: its values, its offset and the way it ends.
pub proof fn law_lending_stream(c: Cursor, lends: bool, depth: int)
    requires
        c.valid(),
    ensures
        stream::run(lending(c, lends), depth) == stream::run(c, depth),
    decreases c.bytes.len() - c.pos,
{
    progress::lemma_skip_space(c.bytes, c.pos);
    assert(grammar::stream_start(lending(c, lends)) == grammar::stream_start(c));
    if let Outcome::Done { value: true, pos } = grammar::stream_start(c) {
        let d = c.at(pos);
        assert(lending(c, lends).at(pos) == lending(d, lends));
        law_lending(d, lends, depth);
        progress::lemma_value(d, depth);
        if let Outcome::Done { value, pos: q } = grammar::value(d, depth) {
            assert(lending(c, lends).at(q) == lending(c.at(q), lends));
            law_lending_stream(c.at(q), lends, depth);
        }
    }
}

proof fn lemma_elements(c: Cursor, l: bool, depth: int, first: bool, sofar: Seq<Json>)
    requires
        c.valid(),
    ensures
        grammar::elements(lending(c, l), depth, first, sofar) == grammar::elements(
            c,
            depth,
            first,
            sofar,
        ),
    decreases depth, c.bytes.len() - c.pos, 2int,
{
    reveal(grammar::value);
    progress::lemma_between(c, first);
    assert(grammar::next_element(lending(c, l), first) == grammar::next_element(c, first));
    if let Outcome::Done { value: true, pos } = grammar::next_element(c, first) {
        progress::lemma_value(c.at(pos), depth);
        law_lending(c.at(pos), l, depth);
        if let Outcome::Done { value: v, pos: q } = grammar::value(c.at(pos), depth) {
            lemma_elements(c.at(q), l, depth, false, sofar.push(v));
        }
    }
}

proof fn lemma_member(c: Cursor, l: bool, depth: int)
    requires
        c.valid(),
        !c.spent(),
    ensures
        grammar::member(lending(c, l), depth) == grammar::member(c, depth),
    decreases depth, c.bytes.len() - c.pos, 2int,
{
    reveal(grammar::value);
    let d = c.at(c.pos + 1);
    progress::lemma_text(d);
    lemma_text(d, l);
    let x = string::text(d);
    let y = string::text(lending(d, l));
    assert(characters(x) == characters(y));
    assert(x is Done <==> y is Done);
    if let Outcome::Done { value: key, pos } = x {
        progress::lemma_between(c.at(pos), true);
        if let Outcome::Done { value: u, pos: p } = grammar::object_colon(c.at(pos)) {
            law_lending(c.at(p), l, depth);
        }
    }
}

proof fn lemma_members(
    c: Cursor,
    l: bool,
    depth: int,
    first: bool,
    sofar: Seq<(Seq<char>, Json)>,
)
    requires
        c.valid(),
    ensures
        grammar::members(lending(c, l), depth, first, sofar) == grammar::members(
            c,
            depth,
            first,
            sofar,
        ),
    decreases depth, c.bytes.len() - c.pos, 3int,
{
    reveal(grammar::value);
    progress::lemma_between(c, first);
    assert(grammar::next_key(lending(c, l), first) == grammar::next_key(c, first));
    if let Outcome::Done { value: true, pos } = grammar::next_key(c, first) {
        progress::lemma_member(c.at(pos), depth);
        lemma_member(c.at(pos), l, depth);
        if let Outcome::Done { value: m, pos: q } = grammar::member(c.at(pos), depth) {
            lemma_members(c.at(q), l, depth, false, sofar.push(m));
        }
    }
}

} // verus!
