//! Reading moves forward and stays inside the text.
use crate::ascii::{is_digit, is_space, BACKSLASH, LOWER_U, PLUS, MINUS, ZERO};
use crate::error::{Category, ErrorView};
use crate::outcome::Outcome;
use crate::read::Cursor;
use crate::string::Literal;
use crate::value::Json;
use crate::{ascii, grammar, number, outcome, read, string};
use vstd::prelude::*;

verus! {

/// Whether a step from `c` stays inside the text, points into it, breaks only
/// with its source and consumes at least `least` bytes where it succeeds.
pub open spec fn inside<T>(c: Cursor, o: Outcome<T>, least: int) -> bool {
    match o {
        Outcome::Done { value, pos } => c.pos + least <= pos <= c.bytes.len(),
        Outcome::Fail { code, place, pos } => {
            &&& c.pos <= pos <= c.bytes.len()
            &&& c.pos <= place <= c.bytes.len()
        },
        Outcome::Torn { code, place } => c.broken() && c.pos <= place <= c.bytes.len(),
        Outcome::Broken { .. } => c.broken(),
    }
}

/// White space ends inside the text, and nothing but white space is skipped.
pub proof fn lemma_skip_space(b: Seq<u8>, i: int)
    requires
        0 <= i <= b.len(),
    ensures
        i <= grammar::skip_space(b, i) <= b.len(),
        forall|k: int| i <= k < grammar::skip_space(b, i) ==> is_space(#[trigger] b[k]),
        grammar::skip_space(b, i) < b.len() ==> !is_space(b[grammar::skip_space(b, i)]),
    decreases b.len() - i,
{
    if i < b.len() && is_space(b[i]) {
        lemma_skip_space(b, i + 1);
    }
}

pub proof fn lemma_ident(c: Cursor, word: Seq<u8>, k: int)
    requires
        c.valid(),
        0 <= k <= word.len(),
    ensures
        inside(c, grammar::ident(c, word, k), word.len() - k),
    decreases word.len() - k,
{
    if k < word.len() && !c.spent() && c.bytes[c.pos] == word[k] {
        lemma_ident(c.at(c.pos + 1), word, k + 1);
    }
}

pub proof fn lemma_hex_digits(c: Cursor, count: nat, acc: nat)
    requires
        c.valid(),
    ensures
        inside(c, string::hex_digits(c, count, acc), count as int),
    decreases count,
{
    if count > 0 && !c.spent() {
        if let Some(v) = ascii::hex_value(c.bytes[c.pos]) {
            lemma_hex_digits(c.at(c.pos + 1), (count - 1) as nat, acc * 16 + v);
        }
    }
}

pub proof fn lemma_escape(c: Cursor)
    requires
        c.valid(),
    ensures
        inside(c, string::escape(c), 1),
{
    if !c.spent() && c.bytes[c.pos] == LOWER_U {
        let d = c.at(c.pos + 1);
        lemma_hex_digits(d, 4, 0);
        if let Outcome::Done { value: n, pos: p } = string::hex_digits(d, 4, 0) {
            let e = d.at(p);
            if !e.spent() && e.bytes[e.pos] == BACKSLASH {
                let f = e.at(p + 1);
                if !f.spent() && f.bytes[f.pos] == LOWER_U {
                    lemma_hex_digits(f.at(p + 2), 4, 0);
                }
            }
        }
    }
}

pub proof fn lemma_literal(c: Cursor, checked: bool, sofar: Literal)
    requires
        c.valid(),
    ensures
        inside(c, string::literal(c, checked, sofar), 1),
    decreases c.bytes.len() - c.pos,
{
    if !c.spent() {
        let b = c.bytes[c.pos];
        if b == BACKSLASH {
            lemma_escape(c.at(c.pos + 1));
            if let Outcome::Done { value, pos } = string::escape(c.at(c.pos + 1)) {
                lemma_literal(
                    c.at(pos),
                    checked,
                    Literal { bytes: sofar.bytes + value, escaped: true },
                );
            }
        } else {
            lemma_literal(
                c.at(c.pos + 1),
                checked,
                Literal { bytes: sofar.bytes.push(b), escaped: sofar.escaped },
            );
        }
    }
}

pub proof fn lemma_text(c: Cursor)
    requires
        c.valid(),
    ensures
        inside(c, string::text(c), 1),
        inside(c, string::raw_string(c, true), 1),
        inside(c, string::raw_string(c, false), 1),
{
    reveal(string::text);
    reveal(string::raw_string);
    lemma_literal(c, true, string::no_literal());
    lemma_literal(c, false, string::no_literal());
}

pub proof fn lemma_exponent_digits(
    c: Cursor,
    positive: bool,
    significand: nat,
    start: int,
    positive_exponent: bool,
)
    requires
        c.valid(),
    ensures
        inside(
            c,
            number::exponent_digits(c, positive, significand, start, positive_exponent),
            1,
        ),
{
    reveal(number::exponent_digits);
    if !c.spent() && is_digit(c.bytes[c.pos]) {
        let acc = ascii::digit_value(c.bytes[c.pos]);
        number::lemma_fold_digits_bounds(c.bytes, c.pos + 1, acc, i32::MAX as nat);
        let (exp, j) = number::fold_digits(c.bytes, c.pos + 1, acc, i32::MAX as nat);
        if j < c.bytes.len() {
            number::lemma_digits_end_bounds(c.bytes, j + 1);
        }
    }
}

pub proof fn lemma_exponent(c: Cursor, positive: bool, significand: nat, start: int)
    requires
        c.valid(),
        !c.spent(),
    ensures
        inside(c, number::exponent(c, positive, significand, start), 1),
{
    reveal(number::exponent);
    let s = c.at(c.pos + 1);
    if number::faces(s, PLUS) || number::faces(s, MINUS) {
        lemma_exponent_digits(s.at(s.pos + 1), positive, significand, start, true);
        lemma_exponent_digits(s.at(s.pos + 1), positive, significand, start, false);
    } else {
        lemma_exponent_digits(s, positive, significand, start, true);
    }
}

pub proof fn lemma_decimal(c: Cursor, positive: bool, significand: nat, start: int)
    requires
        c.valid(),
        !c.spent(),
        significand <= u64::MAX,
    ensures
        inside(c, number::decimal(c, positive, significand, start), 1),
{
    reveal(number::decimal);
    let i = c.pos + 1;
    number::lemma_fold_digits_bounds(c.bytes, i, significand, u64::MAX as nat);
    let (s2, j) = number::fold_digits(c.bytes, i, significand, u64::MAX as nat);
    number::lemma_digits_end_bounds(c.bytes, j);
    let e = c.at(number::digits_end(c.bytes, j));
    if number::faces_exponent(e) {
        lemma_exponent(e, positive, s2, number::clamp(start - (j - i)));
    }
}

pub proof fn lemma_number(c: Cursor, positive: bool, significand: nat)
    requires
        c.valid(),
        significand <= u64::MAX,
    ensures
        inside(c, number::number(c, positive, significand), 0),
{
    reveal(number::number);
    if !c.spent() {
        if number::faces_exponent(c) {
            lemma_exponent(c, positive, significand, 0);
        }
        lemma_decimal(c, positive, significand, 0);
    }
}

pub proof fn lemma_long_integer(c: Cursor, positive: bool, significand: nat, start: int)
    requires
        c.valid(),
        significand <= u64::MAX,
    ensures
        inside(c, number::long_integer(c, positive, significand, start), 0),
{
    reveal(number::long_integer);
    number::lemma_digits_end_bounds(c.bytes, c.pos);
    let e = c.at(number::digits_end(c.bytes, c.pos));
    let exp = number::clamp(start + (e.pos - c.pos));
    if !e.spent() {
        lemma_decimal(e, positive, significand, exp);
        lemma_exponent(e, positive, significand, exp);
    }
}

pub proof fn lemma_integer(c: Cursor, positive: bool)
    requires
        c.valid(),
    ensures
        inside(c, number::integer(c, positive), 1),
{
    reveal(number::integer);
    if !c.spent() {
        if c.bytes[c.pos] == ZERO {
            lemma_number(c.at(c.pos + 1), positive, 0);
        } else if is_digit(c.bytes[c.pos]) {
            let acc = ascii::digit_value(c.bytes[c.pos]);
            number::lemma_fold_digits_bounds(c.bytes, c.pos + 1, acc, u64::MAX as nat);
            let (significand, j) = number::fold_digits(c.bytes, c.pos + 1, acc, u64::MAX as nat);
            lemma_number(c.at(j), positive, significand);
            lemma_long_integer(c.at(j), positive, significand, 0);
        }
    }
}

pub proof fn lemma_token(c: Cursor, depth: int)
    requires
        c.valid(),
    ensures
        inside(c, grammar::token(c, depth), 1),
{
    lemma_skip_space(c.bytes, c.pos);
    let s = grammar::spaced(c);
    if !s.spent() {
        let t = s.at(s.pos + 1);
        lemma_ident(t, grammar::ull(), 0);
        lemma_ident(t, grammar::rue(), 0);
        lemma_ident(t, grammar::alse(), 0);
        lemma_integer(t, false);
        lemma_integer(s, true);
        lemma_text(t);
    }
}

/// The steps between values.
pub proof fn lemma_between(c: Cursor, first: bool)
    requires
        c.valid(),
    ensures
        inside(c, grammar::next_element(c, first), 0),
        inside(c, grammar::next_key(c, first), 0),
        inside(c, grammar::object_colon(c), 1),
        inside(c, grammar::end_seq(c), 1),
        inside(c, grammar::end_map(c), 1),
        inside(c, grammar::end(c), 0),
{
    lemma_skip_space(c.bytes, c.pos);
    let s = grammar::spaced(c);
    if !s.spent() {
        lemma_skip_space(c.bytes, s.pos + 1);
    }
}

/// A value takes at least one byte.
pub proof fn lemma_value(c: Cursor, depth: int)
    requires
        c.valid(),
    ensures
        inside(c, grammar::value(c, depth), 1),
    decreases depth, c.bytes.len() - c.pos, 1int,
{
    reveal(grammar::value);
    lemma_token(c, depth);
    if let Outcome::Done { value: t, pos } = grammar::token(c, depth) {
        if depth > 1 {
            if t is Array {
                lemma_elements(c.at(pos), depth - 1, true, Seq::empty());
                match grammar::elements(c.at(pos), depth - 1, true, Seq::empty()) {
                    Outcome::Done { value: v, pos: q } => lemma_between(c.at(q), true),
                    Outcome::Fail { code, place, pos: q } => lemma_between(c.at(q), true),
                    _ => {},
                }
            } else if t is Object {
                lemma_members(c.at(pos), depth - 1, true, Seq::empty());
                match grammar::members(c.at(pos), depth - 1, true, Seq::empty()) {
                    Outcome::Done { value: v, pos: q } => lemma_between(c.at(q), true),
                    Outcome::Fail { code, place, pos: q } => lemma_between(c.at(q), true),
                    _ => {},
                }
            }
        }
    }
}

pub proof fn lemma_elements(c: Cursor, depth: int, first: bool, sofar: Seq<Json>)
    requires
        c.valid(),
    ensures
        inside(c, grammar::elements(c, depth, first, sofar), 0),
    decreases depth, c.bytes.len() - c.pos, 2int,
{
    reveal(grammar::value);
    lemma_between(c, first);
    if let Outcome::Done { value: more, pos } = grammar::next_element(c, first) {
        if more {
            lemma_value(c.at(pos), depth);
            if let Outcome::Done { value: v, pos: q } = grammar::value(c.at(pos), depth) {
                lemma_elements(c.at(q), depth, false, sofar.push(v));
            }
        }
    }
}

pub proof fn lemma_member(c: Cursor, depth: int)
    requires
        c.valid(),
        !c.spent(),
    ensures
        inside(c, grammar::member(c, depth), 1),
    decreases depth, c.bytes.len() - c.pos, 2int,
{
    reveal(grammar::value);
    lemma_text(c.at(c.pos + 1));
    if let Outcome::Done { value: key, pos } = string::text(c.at(c.pos + 1)) {
        lemma_between(c.at(pos), true);
        if let Outcome::Done { value: u, pos: p } = grammar::object_colon(c.at(pos)) {
            lemma_value(c.at(p), depth);
        }
    }
}

pub proof fn lemma_members(c: Cursor, depth: int, first: bool, sofar: Seq<(Seq<char>, Json)>)
    requires
        c.valid(),
    ensures
        inside(c, grammar::members(c, depth, first, sofar), 0),
    decreases depth, c.bytes.len() - c.pos, 3int,
{
    reveal(grammar::value);
    lemma_between(c, first);
    if let Outcome::Done { value: more, pos } = grammar::next_key(c, first) {
        if more {
            lemma_member(c.at(pos), depth);
            if let Outcome::Done { value: m, pos: q } = grammar::member(c.at(pos), depth) {
                lemma_members(c.at(q), depth, false, sofar.push(m));
            }
        }
    }
}

/// Where a source that broke at the end of a text has stopped there, its place
/// is that of the last byte.
pub proof fn lemma_stopped(text: Seq<u8>, after: Cursor)
    requires
        after.valid(),
        after.resumes(text),
        after.pos == text.len(),
    ensures
        read::line_column(after.bytes, after.pos) == read::line_column(text, text.len() as int),
{
    assert forall|i: int| 0 <= i < text.len() implies after.bytes[i] == text[i] by {
        assert(after.bytes.take(text.len() as int)[i] == after.bytes[i]);
    }
    read::lemma_line_column_prefix(after.bytes, text, after.pos);
}

/// A further step of a source that broke at the end of a text, from `c` to
/// `after`, leaves that text and the places in it what they were.
pub proof fn lemma_resumed<T>(text: Seq<u8>, c: Cursor, after: Cursor, o: Outcome<T>)
    requires
        c.valid(),
        c.resumes(text),
        inside(c, o, 0),
        outcome::moves(c, after, o),
    ensures
        after.resumes(text),
        forall|e: ErrorView| #[trigger]
            outcome::behind(text, c, e) ==> outcome::behind(text, after, e),
        forall|e: ErrorView|
            read::line_column(after.bytes, after.pos) == (e.line, e.column)
                ==> #[trigger] outcome::behind(text, after, e),
{
    assert(after.pos >= c.pos);
    assert forall|i: int| 0 <= i < c.pos implies after.bytes[i] == c.bytes[i] by {
        if !(o is Done || o is Fail) {
            assert(after.bytes.take(c.bytes.len() as int)[i] == after.bytes[i]);
        }
    }
    assert forall|i: int| 0 <= i < text.len() implies after.bytes[i] == text[i] by {
        assert(c.bytes.take(text.len() as int)[i] == c.bytes[i]);
    }
    assert(after.bytes.take(text.len() as int) =~= text);
    assert forall|e: ErrorView| #[trigger] outcome::behind(text, c, e) implies outcome::behind(
        text,
        after,
        e,
    ) by {
        let n = choose|n: int|
            text.len() <= n <= c.pos && #[trigger] read::line_column(c.bytes, n) == (
                e.line,
                e.column,
            );
        read::lemma_line_column_prefix(after.bytes, c.bytes, n);
    }
}

/// Whether a step is never refused for its nesting.
pub open spec fn flat<T>(o: Outcome<T>) -> bool {
    o.code() matches Some(code) ==> !(code is RecursionLimitExceeded)
}

/// Whether a step is refused, if it is, for what the text says and neither
/// for its nesting nor for its end, and stops where its source breaks.
pub open spec fn plain<T>(o: Outcome<T>) -> bool {
    &&& o is Broken ==> o == outcome::broken::<T>()
    &&& !(o is Torn)
    &&& o.code() matches Some(code) ==> code.category() == Category::Syntax && !(
    code is RecursionLimitExceeded)
}

pub proof fn lemma_plain_ident(c: Cursor, word: Seq<u8>, k: int)
    ensures
        plain(grammar::ident(c, word, k)),
    decreases word.len() - k,
{
    if k < word.len() && !c.spent() && c.bytes[c.pos] == word[k] {
        lemma_plain_ident(c.at(c.pos + 1), word, k + 1);
    }
}

pub proof fn lemma_flat_escape(c: Cursor)
    ensures
        flat(string::escape(c)),
        !(string::escape(c) is Torn),
{
    reveal_with_fuel(string::hex_digits, 5);
}

pub proof fn lemma_flat_literal(c: Cursor, checked: bool, sofar: Literal)
    ensures
        flat(string::literal(c, checked, sofar)),
        !(string::literal(c, checked, sofar) is Torn),
    decreases c.bytes.len() - c.pos,
{
    if !c.spent() {
        let b = c.bytes[c.pos];
        if b == BACKSLASH {
            lemma_flat_escape(c.at(c.pos + 1));
            if let Outcome::Done { value, pos } = string::escape(c.at(c.pos + 1)) {
                if c.pos < pos <= c.bytes.len() {
                    lemma_flat_literal(
                        c.at(pos),
                        checked,
                        Literal { bytes: sofar.bytes + value, escaped: true },
                    );
                }
            }
        } else {
            lemma_flat_literal(
                c.at(c.pos + 1),
                checked,
                Literal { bytes: sofar.bytes.push(b), escaped: sofar.escaped },
            );
        }
    }
}

pub proof fn lemma_plain_exponent(c: Cursor, positive: bool, significand: nat, start: int)
    ensures
        plain(number::exponent(c, positive, significand, start)),
{
    reveal(number::exponent);
    reveal(number::exponent_digits);
    assert forall|d: Cursor, p: bool| plain(
        #[trigger] number::exponent_digits(d, positive, significand, start, p),
    ) by {}
}

pub proof fn lemma_plain_decimal(c: Cursor, positive: bool, significand: nat, start: int)
    ensures
        plain(number::decimal(c, positive, significand, start)),
{
    reveal(number::decimal);
    let i = c.pos + 1;
    let (s2, j) = number::fold_digits(c.bytes, i, significand, u64::MAX as nat);
    let e = c.at(number::digits_end(c.bytes, j));
    lemma_plain_exponent(e, positive, s2, number::clamp(start - (j - i)));
}

pub proof fn lemma_plain_number(c: Cursor, positive: bool, significand: nat)
    ensures
        plain(number::number(c, positive, significand)),
        plain(number::long_integer(c, positive, significand, 0)),
{
    reveal(number::number);
    reveal(number::long_integer);
    lemma_plain_exponent(c, positive, significand, 0);
    lemma_plain_decimal(c, positive, significand, 0);
    let e = c.at(number::digits_end(c.bytes, c.pos));
    let exp = number::clamp(0 + (e.pos - c.pos));
    lemma_plain_exponent(e, positive, significand, exp);
    lemma_plain_decimal(e, positive, significand, exp);
}

pub proof fn lemma_plain_integer(c: Cursor, positive: bool)
    ensures
        plain(number::integer(c, positive)),
{
    reveal(number::integer);
    lemma_plain_number(c.at(c.pos + 1), positive, 0);
    let (significand, j) = number::fold_digits(
        c.bytes,
        c.pos + 1,
        ascii::digit_value(c.bytes[c.pos]),
        u64::MAX as nat,
    );
    lemma_plain_number(c.at(j), positive, significand);
}

/// Words, numbers and strings have no nesting.
pub proof fn lemma_flat_scalars(c: Cursor)
    ensures
        plain(grammar::ident(c, grammar::ull(), 0)),
        plain(grammar::ident(c, grammar::rue(), 0)),
        plain(grammar::ident(c, grammar::alse(), 0)),
        plain(number::integer(c, true)),
        plain(number::integer(c, false)),
        flat(string::text(c)),
        flat(string::raw_string(c, false)),
        !(string::text(c) is Torn),
        !(string::raw_string(c, false) is Torn),
{
    reveal(string::text);
    reveal(string::raw_string);
    lemma_plain_integer(c, true);
    lemma_plain_integer(c, false);
    lemma_plain_ident(c, grammar::ull(), 0);
    lemma_plain_ident(c, grammar::rue(), 0);
    lemma_plain_ident(c, grammar::alse(), 0);
    lemma_flat_literal(c, true, string::no_literal());
    lemma_flat_literal(c, false, string::no_literal());
}

} // verus!
