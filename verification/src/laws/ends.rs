//! Laws of input that ends too early.
use crate::ascii::BACKSLASH;
use crate::error::Category;
use crate::outcome::Outcome;
use crate::read::Cursor;
use crate::string::Literal;
use crate::value::Json;
use crate::{grammar, progress, string};
use vstd::prelude::*;

verus! {

/// Whether a step that complains of the end of the input has come to it.
pub open spec fn at_end<T>(c: Cursor, o: Outcome<T>) -> bool {
    o matches Outcome::Fail { code, place, pos } ==> code.category() == Category::Eof ==> place
        == c.bytes.len() && pos == c.bytes.len()
}

proof fn lemma_hex_digits(c: Cursor, count: nat, acc: nat)
    requires
        c.valid(),
    ensures
        at_end(c, string::hex_digits(c, count, acc)),
    decreases count,
{
    if count > 0 && !c.spent() {
        if let Some(v) = crate::ascii::hex_value(c.bytes[c.pos]) {
            lemma_hex_digits(c.at(c.pos + 1), (count - 1) as nat, acc * 16 + v);
        }
    }
}

proof fn lemma_escape(c: Cursor)
    requires
        c.valid(),
    ensures
        at_end(c, string::escape(c)),
{
    if !c.spent() {
        let d = c.at(c.pos + 1);
        lemma_hex_digits(d, 4, 0);
        progress::lemma_hex_digits(d, 4, 0);
        if let Outcome::Done { value, pos } = string::hex_digits(d, 4, 0) {
            if pos + 2 <= c.bytes.len() {
                lemma_hex_digits(c.at(pos + 2), 4, 0);
            }
        }
    }
}

proof fn lemma_literal(c: Cursor, checked: bool, sofar: Literal)
    requires
        c.valid(),
    ensures
        at_end(c, string::literal(c, checked, sofar)),
    decreases c.bytes.len() - c.pos,
{
    if !c.spent() {
        let b = c.bytes[c.pos];
        let d = c.at(c.pos + 1);
        if b == BACKSLASH {
            lemma_escape(d);
            progress::lemma_escape(d);
            if let Outcome::Done { value, pos } = string::escape(d) {
                lemma_literal(
                    c.at(pos),
                    checked,
                    Literal { bytes: sofar.bytes + value, escaped: true },
                );
            }
        } else {
            lemma_literal(
                d,
                checked,
                Literal { bytes: sofar.bytes.push(b), escaped: sofar.escaped },
            );
        }
    }
}

proof fn lemma_text(c: Cursor)
    requires
        c.valid(),
    ensures
        at_end(c, string::text(c)),
{
    reveal(string::text);
    reveal(string::raw_string);
    lemma_literal(c, true, string::no_literal());
}

proof fn lemma_token(c: Cursor, depth: int)
    requires
        c.valid(),
    ensures
        at_end(c, grammar::token(c, depth)),
{
    progress::lemma_skip_space(c.bytes, c.pos);
    let s = grammar::spaced(c);
    if !s.spent() {
        let t = s.at(s.pos + 1);
        progress::lemma_plain_ident(t, grammar::ull(), 0);
        progress::lemma_plain_ident(t, grammar::rue(), 0);
        progress::lemma_plain_ident(t, grammar::alse(), 0);
        progress::lemma_plain_integer(t, false);
        progress::lemma_plain_integer(s, true);
        lemma_text(t);
    }
}

proof fn lemma_between(c: Cursor, first: bool)
    requires
        c.valid(),
    ensures
        at_end(c, grammar::next_element(c, first)),
        at_end(c, grammar::next_key(c, first)),
        at_end(c, grammar::object_colon(c)),
        at_end(c, grammar::end_seq(c)),
        at_end(c, grammar::end_map(c)),
        c.spent() && !c.broken() ==> (grammar::end_seq(c) matches Outcome::Fail { pos, .. } && pos
            == c.pos),
        c.spent() && !c.broken() ==> (grammar::end_map(c) matches Outcome::Fail { pos, .. } && pos
            == c.pos),
{
    progress::lemma_skip_space(c.bytes, c.pos);
    let s = grammar::spaced(c);
    if !s.spent() {
        progress::lemma_skip_space(c.bytes, s.pos + 1);
    }
}

/// A value is refused for the end of the input only where all of the input
/// has been consumed, and the error points there.
pub proof fn law_eof_at_end(c: Cursor, depth: int)
    requires
        c.valid(),
        !c.broken(),
    ensures
        grammar::value(c, depth) matches Outcome::Fail { code, place, pos } ==> code.category()
            == Category::Eof ==> place == c.bytes.len() && pos == c.bytes.len(),
{
    lemma_value(c, depth);
}

proof fn lemma_value(c: Cursor, depth: int)
    requires
        c.valid(),
        !c.broken(),
    ensures
        at_end(c, grammar::value(c, depth)),
    decreases depth, c.bytes.len() - c.pos, 1int,
{
    reveal(grammar::value);
    progress::lemma_token(c, depth);
    lemma_token(c, depth);
    if let Outcome::Done { value: t, pos } = grammar::token(c, depth) {
        let d = c.at(pos);
        if depth > 1 {
            if t is Array {
                lemma_elements(d, depth - 1, true, Seq::empty());
                progress::lemma_elements(d, depth - 1, true, Seq::empty());
                match grammar::elements(d, depth - 1, true, Seq::empty()) {
                    Outcome::Done { value: v, pos: q } => lemma_between(c.at(q), true),
                    Outcome::Fail { code, place, pos: q } => lemma_between(c.at(q), true),
                    _ => {},
                }
            } else if t is Object {
                lemma_members(d, depth - 1, true, Seq::empty());
                progress::lemma_members(d, depth - 1, true, Seq::empty());
                match grammar::members(d, depth - 1, true, Seq::empty()) {
                    Outcome::Done { value: v, pos: q } => lemma_between(c.at(q), true),
                    Outcome::Fail { code, place, pos: q } => lemma_between(c.at(q), true),
                    _ => {},
                }
            }
        }
    }
}

proof fn lemma_elements(c: Cursor, depth: int, first: bool, sofar: Seq<Json>)
    requires
        c.valid(),
        !c.broken(),
    ensures
        at_end(c, grammar::elements(c, depth, first, sofar)),
    decreases depth, c.bytes.len() - c.pos, 2int,
{
    reveal(grammar::value);
    progress::lemma_between(c, first);
    lemma_between(c, first);
    if let Outcome::Done { value: true, pos } = grammar::next_element(c, first) {
        progress::lemma_value(c.at(pos), depth);
        lemma_value(c.at(pos), depth);
        if let Outcome::Done { value: v, pos: q } = grammar::value(c.at(pos), depth) {
            lemma_elements(c.at(q), depth, false, sofar.push(v));
        }
    }
}

proof fn lemma_member(c: Cursor, depth: int)
    requires
        c.valid(),
        !c.broken(),
        !c.spent(),
    ensures
        at_end(c, grammar::member(c, depth)),
    decreases depth, c.bytes.len() - c.pos, 2int,
{
    reveal(grammar::value);
    let d = c.at(c.pos + 1);
    progress::lemma_text(d);
    lemma_text(d);
    if let Outcome::Done { value: key, pos } = string::text(d) {
        progress::lemma_between(c.at(pos), true);
        lemma_between(c.at(pos), true);
        if let Outcome::Done { value: u, pos: p } = grammar::object_colon(c.at(pos)) {
            lemma_value(c.at(p), depth);
        }
    }
}

proof fn lemma_members(c: Cursor, depth: int, first: bool, sofar: Seq<(Seq<char>, Json)>)
    requires
        c.valid(),
        !c.broken(),
    ensures
        at_end(c, grammar::members(c, depth, first, sofar)),
    decreases depth, c.bytes.len() - c.pos, 3int,
{
    reveal(grammar::value);
    progress::lemma_between(c, first);
    lemma_between(c, first);
    if let Outcome::Done { value: true, pos } = grammar::next_key(c, first) {
        progress::lemma_member(c.at(pos), depth);
        lemma_member(c.at(pos), depth);
        if let Outcome::Done { value: m, pos: q } = grammar::member(c.at(pos), depth) {
            lemma_members(c.at(q), depth, false, sofar.push(m));
        }
    }
}

} // verus!
