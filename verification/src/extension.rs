//! A step that succeeded on a text succeeds in the same way on a longer one.
use crate::ascii::{is_digit, is_exponent_mark, is_space, BACKSLASH, DOT, LOWER_U, QUOTE};
use crate::outcome::Outcome;
use crate::read::Cursor;
use crate::string::Literal;
use crate::value::Json;
use crate::{ascii, grammar, number, progress, string};
use vstd::prelude::*;

verus! {

/// The same place in a text that has `more` behind it.
pub open spec fn ahead(c: Cursor, more: Seq<u8>) -> Cursor {
    Cursor { bytes: c.bytes + more, ..c }
}

/// Whether a number that ends where `more` begins does not go on in it.
pub open spec fn ends_number(more: Seq<u8>) -> bool {
    more.len() > 0 ==> !is_digit(more[0]) && more[0] != DOT && !is_exponent_mark(more[0])
}

/// Whether a step that ends at `pos` is over before `more` begins, even if it
/// was a number.
pub open spec fn over(c: Cursor, more: Seq<u8>, pos: int) -> bool {
    pos < c.bytes.len() || ends_number(more)
}

proof fn lemma_skip_space(b: Seq<u8>, more: Seq<u8>, i: int)
    requires
        0 <= i <= b.len(),
        grammar::skip_space(b, i) < b.len(),
    ensures
        grammar::skip_space(b + more, i) == grammar::skip_space(b, i),
    decreases b.len() - i,
{
    if i < b.len() {
        assert((b + more)[i] == b[i]);
        if is_space(b[i]) {
            lemma_skip_space(b, more, i + 1);
        }
    }
}

proof fn lemma_digits_end(b: Seq<u8>, more: Seq<u8>, i: int)
    requires
        0 <= i <= b.len(),
        number::digits_end(b, i) < b.len() || ends_number(more),
    ensures
        number::digits_end(b + more, i) == number::digits_end(b, i),
    decreases b.len() - i,
{
    if i < b.len() {
        assert((b + more)[i] == b[i]);
        if is_digit(b[i]) {
            lemma_digits_end(b, more, i + 1);
        }
    } else if more.len() > 0 {
        assert((b + more)[i] == more[0]);
    }
}

proof fn lemma_fold_digits(b: Seq<u8>, more: Seq<u8>, i: int, acc: nat, max: nat)
    requires
        0 <= i <= b.len(),
        number::fold_digits(b, i, acc, max).1 < b.len() || ends_number(more),
    ensures
        number::fold_digits(b + more, i, acc, max) == number::fold_digits(b, i, acc, max),
    decreases b.len() - i,
{
    if i < b.len() {
        assert((b + more)[i] == b[i]);
        if is_digit(b[i]) && acc * 10 + ascii::digit_value(b[i]) <= max {
            lemma_fold_digits(b, more, i + 1, acc * 10 + ascii::digit_value(b[i]), max);
        }
    } else if more.len() > 0 {
        assert((b + more)[i] == more[0]);
    }
}

proof fn lemma_ident(c: Cursor, more: Seq<u8>, word: Seq<u8>, k: int)
    requires
        c.valid(),
        grammar::ident(c, word, k) is Done,
    ensures
        grammar::ident(ahead(c, more), word, k) == grammar::ident(c, word, k),
    decreases word.len() - k,
{
    if k < word.len() && !c.spent() {
        assert((c.bytes + more)[c.pos] == c.bytes[c.pos]);
        lemma_ident(c.at(c.pos + 1), more, word, k + 1);
        assert(ahead(c, more).at(c.pos + 1) == ahead(c.at(c.pos + 1), more));
    }
}

proof fn lemma_hex_digits(c: Cursor, more: Seq<u8>, count: nat, acc: nat)
    requires
        c.valid(),
        string::hex_digits(c, count, acc) is Done,
    ensures
        string::hex_digits(ahead(c, more), count, acc) == string::hex_digits(c, count, acc),
    decreases count,
{
    if count > 0 && !c.spent() {
        assert((c.bytes + more)[c.pos] == c.bytes[c.pos]);
        if let Some(v) = ascii::hex_value(c.bytes[c.pos]) {
            lemma_hex_digits(c.at(c.pos + 1), more, (count - 1) as nat, acc * 16 + v);
            assert(ahead(c, more).at(c.pos + 1) == ahead(c.at(c.pos + 1), more));
        }
    }
}

proof fn lemma_escape(c: Cursor, more: Seq<u8>)
    requires
        c.valid(),
        string::escape(c) is Done,
    ensures
        string::escape(ahead(c, more)) == string::escape(c),
{
    let e = ahead(c, more);
    assert(e.bytes[c.pos] == c.bytes[c.pos]);
    if c.bytes[c.pos] == LOWER_U {
        let c1 = c.at(c.pos + 1);
        assert(e.at(c.pos + 1) == ahead(c1, more));
        progress::lemma_hex_digits(c1, 4, 0);
        lemma_hex_digits(c1, more, 4, 0);
        let p = string::hex_digits(c1, 4, 0)->Done_pos;
        let n = string::hex_digits(c1, 4, 0)->value;
        if string::is_leading_surrogate(n) {
            assert(e.at(p) == ahead(c.at(p), more));
            assert(e.bytes[p] == c.bytes[p]);
            assert(e.at(p + 1) == ahead(c.at(p + 1), more));
            assert(e.bytes[p + 1] == c.bytes[p + 1]);
            assert(e.at(p + 2) == ahead(c.at(p + 2), more));
            lemma_hex_digits(c.at(p + 2), more, 4, 0);
        }
    }
}

proof fn lemma_literal(c: Cursor, more: Seq<u8>, checked: bool, sofar: Literal)
    requires
        c.valid(),
        string::literal(c, checked, sofar) is Done,
    ensures
        string::literal(ahead(c, more), checked, sofar) == string::literal(c, checked, sofar),
    decreases c.bytes.len() - c.pos,
{
    let e = ahead(c, more);
    let b = c.bytes[c.pos];
    assert(e.bytes[c.pos] == b);
    let c1 = c.at(c.pos + 1);
    assert(e.at(c.pos + 1) == ahead(c1, more));
    if b == QUOTE {
    } else if b == BACKSLASH {
        progress::lemma_escape(c1);
        lemma_escape(c1, more);
        let value = string::escape(c1)->value;
        let pos = string::escape(c1)->Done_pos;
        assert(e.at(pos) == ahead(c.at(pos), more));
        lemma_literal(
            c.at(pos),
            more,
            checked,
            Literal { bytes: sofar.bytes + value, escaped: true },
        );
    } else {
        lemma_literal(
            c1,
            more,
            checked,
            Literal { bytes: sofar.bytes.push(b), escaped: sofar.escaped },
        );
    }
}

/// A string ends with its closing quote.
pub proof fn lemma_text(c: Cursor, more: Seq<u8>)
    requires
        c.valid(),
        string::text(c) is Done,
    ensures
        string::text(ahead(c, more)) == string::text(c),
{
    reveal(string::text);
    reveal(string::raw_string);
    lemma_literal(c, more, true, string::no_literal());
}

proof fn lemma_exponent_digits(
    c: Cursor,
    more: Seq<u8>,
    positive: bool,
    significand: nat,
    start: int,
    p: bool,
)
    requires
        c.valid(),
        number::exponent_digits(c, positive, significand, start, p) matches Outcome::Done {
            value,
            pos,
        } && over(c, more, pos),
    ensures
        number::exponent_digits(ahead(c, more), positive, significand, start, p)
            == number::exponent_digits(c, positive, significand, start, p),
{
    reveal(number::exponent_digits);
    let e = ahead(c, more);
    assert(e.bytes[c.pos] == c.bytes[c.pos]);
    let acc = ascii::digit_value(c.bytes[c.pos]);
    number::lemma_fold_digits_bounds(c.bytes, c.pos + 1, acc, i32::MAX as nat);
    let (exp, j) = number::fold_digits(c.bytes, c.pos + 1, acc, i32::MAX as nat);
    if j < c.bytes.len() && is_digit(c.bytes[j]) {
        number::lemma_digits_end_bounds(c.bytes, j + 1);
        lemma_fold_digits(c.bytes, more, c.pos + 1, acc, i32::MAX as nat);
        assert(e.bytes[j] == c.bytes[j]);
        lemma_digits_end(c.bytes, more, j + 1);
    } else {
        lemma_fold_digits(c.bytes, more, c.pos + 1, acc, i32::MAX as nat);
        if j < c.bytes.len() {
            assert(e.bytes[j] == c.bytes[j]);
        } else if more.len() > 0 {
            assert(e.bytes[j] == more[0]);
        }
    }
}

proof fn lemma_exponent(c: Cursor, more: Seq<u8>, positive: bool, significand: nat, start: int)
    requires
        c.valid(),
        !c.spent(),
        number::exponent(c, positive, significand, start) matches Outcome::Done { value, pos }
            && over(c, more, pos),
    ensures
        number::exponent(ahead(c, more), positive, significand, start) == number::exponent(
            c,
            positive,
            significand,
            start,
        ),
{
    reveal(number::exponent);
    let e = ahead(c, more);
    let s = c.at(c.pos + 1);
    assert(e.at(c.pos + 1) == ahead(s, more));
    if s.spent() {
        reveal(number::exponent_digits);
    } else {
        assert(e.bytes[s.pos] == c.bytes[s.pos]);
        assert(e.at(s.pos + 1) == ahead(s.at(s.pos + 1), more));
        if number::faces(s, ascii::PLUS) {
            lemma_exponent_digits(s.at(s.pos + 1), more, positive, significand, start, true);
        } else if number::faces(s, ascii::MINUS) {
            lemma_exponent_digits(s.at(s.pos + 1), more, positive, significand, start, false);
        } else {
            lemma_exponent_digits(s, more, positive, significand, start, true);
        }
    }
}

/// What may follow the digits of a number.
proof fn lemma_tail(
    e: Cursor,
    more: Seq<u8>,
    positive: bool,
    significand: nat,
    start: int,
    o: Outcome<number::Number>,
)
    requires
        e.valid(),
        number::faces_exponent(e) ==> o == number::exponent(e, positive, significand, start),
        !number::faces_exponent(e) ==> o is Done ==> o->Done_pos == e.pos,
        o matches Outcome::Done { value, pos } && over(e, more, pos),
    ensures
        number::faces_exponent(ahead(e, more)) == number::faces_exponent(e),
        number::faces_exponent(e) ==> number::exponent(
            ahead(e, more),
            positive,
            significand,
            start,
        ) == o,
        !number::faces_exponent(e) && e.spent() ==> number::faces(ahead(e, more), DOT) == false,
        !e.spent() ==> number::faces(ahead(e, more), DOT) == number::faces(e, DOT),
{
    let f = ahead(e, more);
    if !e.spent() {
        assert(f.bytes[e.pos] == e.bytes[e.pos]);
        if number::faces_exponent(e) {
            lemma_exponent(e, more, positive, significand, start);
        }
    } else if more.len() > 0 {
        assert(f.bytes[e.pos] == more[0]);
    }
}

proof fn lemma_decimal(c: Cursor, more: Seq<u8>, positive: bool, significand: nat, start: int)
    requires
        c.valid(),
        !c.spent(),
        significand <= u64::MAX,
        number::decimal(c, positive, significand, start) matches Outcome::Done { value, pos }
            && over(c, more, pos),
    ensures
        number::decimal(ahead(c, more), positive, significand, start) == number::decimal(
            c,
            positive,
            significand,
            start,
        ),
{
    reveal(number::decimal);
    let i = c.pos + 1;
    number::lemma_fold_digits_bounds(c.bytes, i, significand, u64::MAX as nat);
    let (s2, j) = number::fold_digits(c.bytes, i, significand, u64::MAX as nat);
    number::lemma_digits_end_bounds(c.bytes, j);
    let e = c.at(number::digits_end(c.bytes, j));
    let exp = number::clamp(start - (j - i));
    if number::faces_exponent(e) {
        progress::lemma_exponent(e, positive, s2, exp);
    }
    lemma_digits_end(c.bytes, more, j);
    lemma_fold_digits(c.bytes, more, i, significand, u64::MAX as nat);
    assert(ahead(c, more).at(e.pos) == ahead(e, more));
    lemma_tail(
        e,
        more,
        positive,
        s2,
        exp,
        number::decimal(c, positive, significand, start),
    );
}

proof fn lemma_number(c: Cursor, more: Seq<u8>, positive: bool, significand: nat)
    requires
        c.valid(),
        significand <= u64::MAX,
        number::number(c, positive, significand) matches Outcome::Done { value, pos } && over(
            c,
            more,
            pos,
        ),
    ensures
        number::number(ahead(c, more), positive, significand) == number::number(
            c,
            positive,
            significand,
        ),
{
    reveal(number::number);
    let o = number::number(c, positive, significand);
    if number::faces(c, DOT) {
        assert((c.bytes + more)[c.pos] == c.bytes[c.pos]);
        lemma_decimal(c, more, positive, significand, 0);
    } else {
        lemma_tail(c, more, positive, significand, 0, o);
    }
}

proof fn lemma_long_integer(c: Cursor, more: Seq<u8>, positive: bool, significand: nat)
    requires
        c.valid(),
        significand <= u64::MAX,
        number::long_integer(c, positive, significand, 0) matches Outcome::Done { value, pos }
            && over(c, more, pos),
    ensures
        number::long_integer(ahead(c, more), positive, significand, 0) == number::long_integer(
            c,
            positive,
            significand,
            0,
        ),
{
    reveal(number::long_integer);
    number::lemma_digits_end_bounds(c.bytes, c.pos);
    let e = c.at(number::digits_end(c.bytes, c.pos));
    let exp = number::clamp(e.pos - c.pos);
    assert(ahead(c, more).at(e.pos) == ahead(e, more));
    let o = number::long_integer(c, positive, significand, 0);
    if number::faces(e, DOT) {
        lemma_digits_end(c.bytes, more, c.pos);
        assert((c.bytes + more)[e.pos] == c.bytes[e.pos]);
        lemma_decimal(e, more, positive, significand, exp);
    } else {
        if number::faces_exponent(e) {
            progress::lemma_exponent(e, positive, significand, exp);
        }
        lemma_digits_end(c.bytes, more, c.pos);
        lemma_tail(e, more, positive, significand, exp, o);
    }
}

/// A number is the same if what follows cannot belong to it.
pub proof fn lemma_integer(c: Cursor, more: Seq<u8>, positive: bool)
    requires
        c.valid(),
        number::integer(c, positive) matches Outcome::Done { value, pos } && over(c, more, pos),
    ensures
        number::integer(ahead(c, more), positive) == number::integer(c, positive),
{
    reveal(number::integer);
    let e = ahead(c, more);
    assert(e.bytes[c.pos] == c.bytes[c.pos]);
    if c.bytes[c.pos] == ascii::ZERO {
        let s = c.at(c.pos + 1);
        assert(e.at(c.pos + 1) == ahead(s, more));
        lemma_number(s, more, positive, 0);
        progress::lemma_number(s, positive, 0);
        if !s.spent() {
            assert(e.bytes[s.pos] == c.bytes[s.pos]);
        } else if more.len() > 0 {
            assert(e.bytes[s.pos] == more[0]);
        }
    } else {
        let acc = ascii::digit_value(c.bytes[c.pos]);
        number::lemma_fold_digits_bounds(c.bytes, c.pos + 1, acc, u64::MAX as nat);
        let (significand, j) = number::fold_digits(c.bytes, c.pos + 1, acc, u64::MAX as nat);
        assert(e.at(j) == ahead(c.at(j), more));
        if j < c.bytes.len() {
            assert(e.bytes[j] == c.bytes[j]);
        } else if more.len() > 0 {
            assert(e.bytes[j] == more[0]);
        }
        if j < c.bytes.len() && is_digit(c.bytes[j]) {
            lemma_fold_digits(c.bytes, more, c.pos + 1, acc, u64::MAX as nat);
            lemma_long_integer(c.at(j), more, positive, significand);
        } else {
            progress::lemma_number(c.at(j), positive, significand);
            lemma_fold_digits(c.bytes, more, c.pos + 1, acc, u64::MAX as nat);
            lemma_number(c.at(j), more, positive, significand);
        }
    }
}

proof fn lemma_spaced(c: Cursor, more: Seq<u8>)
    requires
        c.valid(),
        !grammar::spaced(c).spent(),
    ensures
        grammar::spaced(ahead(c, more)) == ahead(grammar::spaced(c), more),
        grammar::spaced(c).valid(),
        (c.bytes + more)[grammar::spaced(c).pos] == c.bytes[grammar::spaced(c).pos],
{
    progress::lemma_skip_space(c.bytes, c.pos);
    lemma_skip_space(c.bytes, more, c.pos);
}

/// The beginning of a value is the same, unless it is a number that goes on.
pub proof fn lemma_token(c: Cursor, more: Seq<u8>, depth: int)
    requires
        c.valid(),
        !c.broken(),
        grammar::token(c, depth) matches Outcome::Done { value, pos } && (!(value is Number)
            || over(c, more, pos)),
    ensures
        grammar::token(ahead(c, more), depth) == grammar::token(c, depth),
{
    lemma_spaced(c, more);
    let s = grammar::spaced(c);
    let t = s.at(s.pos + 1);
    assert(ahead(s, more).at(s.pos + 1) == ahead(t, more));
    let b = s.bytes[s.pos];
    if b == ascii::LOWER_N {
        lemma_ident(t, more, grammar::ull(), 0);
    } else if b == ascii::LOWER_T {
        lemma_ident(t, more, grammar::rue(), 0);
    } else if b == ascii::LOWER_F {
        lemma_ident(t, more, grammar::alse(), 0);
    } else if b == ascii::MINUS {
        lemma_integer(t, more, false);
    } else if is_digit(b) {
        lemma_integer(s, more, true);
    } else if b == QUOTE {
        lemma_text(t, more);
    }
}

/// The steps between values end with a byte that stands there.
pub proof fn lemma_between(c: Cursor, more: Seq<u8>, first: bool)
    requires
        c.valid(),
        !c.broken(),
    ensures
        grammar::next_element(c, first) is Done ==> grammar::next_element(ahead(c, more), first)
            == grammar::next_element(c, first),
        grammar::next_key(c, first) is Done ==> grammar::next_key(ahead(c, more), first)
            == grammar::next_key(c, first),
        grammar::object_colon(c) is Done ==> grammar::object_colon(ahead(c, more))
            == grammar::object_colon(c),
        grammar::end_seq(c) is Done ==> grammar::end_seq(ahead(c, more)) == grammar::end_seq(c),
        grammar::end_map(c) is Done ==> grammar::end_map(ahead(c, more)) == grammar::end_map(c),
        grammar::stream_start(c) matches Outcome::Done { value: true, .. }
            ==> grammar::stream_start(ahead(c, more)) == grammar::stream_start(c),
        grammar::next_element(c, first) matches Outcome::Done { pos, .. } ==> c.pos
            < c.bytes.len(),
        grammar::next_key(c, first) matches Outcome::Done { pos, .. } ==> c.pos < c.bytes.len(),
{
    let s = grammar::spaced(c);
    progress::lemma_skip_space(c.bytes, c.pos);
    if !s.spent() {
        lemma_spaced(c, more);
        let t = s.at(s.pos + 1);
        assert(ahead(s, more).at(s.pos + 1) == ahead(t, more));
        if !grammar::spaced(t).spent() {
            lemma_spaced(t, more);
        }
    }
}

/// A value is the same, unless it is a number that goes on.
pub proof fn lemma_value(c: Cursor, more: Seq<u8>, depth: int)
    requires
        c.valid(),
        !c.broken(),
        grammar::value(c, depth) matches Outcome::Done { value, pos } && (!(value is Number)
            || over(c, more, pos)),
    ensures
        grammar::value(ahead(c, more), depth) == grammar::value(c, depth),
    decreases depth, c.bytes.len() - c.pos, 1int,
{
    reveal(grammar::value);
    progress::lemma_token(c, depth);
    lemma_token(c, more, depth);
    let t = grammar::token(c, depth)->value;
    let pos = grammar::token(c, depth)->Done_pos;
    let d = c.at(pos);
    assert(ahead(c, more).at(pos) == ahead(d, more));
    if depth > 1 {
        if t is Array {
            lemma_elements(d, more, depth - 1, true, Seq::empty());
            progress::lemma_elements(d, depth - 1, true, Seq::empty());
            let q = grammar::elements(d, depth - 1, true, Seq::empty())->Done_pos;
            assert(ahead(d, more).at(q) == ahead(c.at(q), more));
            lemma_between(c.at(q), more, true);
        } else if t is Object {
            lemma_members(d, more, depth - 1, true, Seq::empty());
            progress::lemma_members(d, depth - 1, true, Seq::empty());
            let q = grammar::members(d, depth - 1, true, Seq::empty())->Done_pos;
            assert(ahead(d, more).at(q) == ahead(c.at(q), more));
            lemma_between(c.at(q), more, true);
        }
    }
}

proof fn lemma_elements(c: Cursor, more: Seq<u8>, depth: int, first: bool, sofar: Seq<Json>)
    requires
        c.valid(),
        !c.broken(),
        grammar::elements(c, depth, first, sofar) is Done,
    ensures
        grammar::elements(ahead(c, more), depth, first, sofar) == grammar::elements(
            c,
            depth,
            first,
            sofar,
        ),
        c.pos < c.bytes.len(),
    decreases depth, c.bytes.len() - c.pos, 2int,
{
    reveal(grammar::value);
    progress::lemma_between(c, first);
    lemma_between(c, more, first);
    let go_on = grammar::next_element(c, first)->value;
    let pos = grammar::next_element(c, first)->Done_pos;
    if go_on {
        let d = c.at(pos);
        assert(ahead(c, more).at(pos) == ahead(d, more));
        progress::lemma_value(d, depth);
        let v = grammar::value(d, depth)->value;
        let q = grammar::value(d, depth)->Done_pos;
        lemma_elements(c.at(q), more, depth, false, sofar.push(v));
        lemma_value(d, more, depth);
        assert(ahead(c, more).at(q) == ahead(c.at(q), more));
    }
}

proof fn lemma_member(c: Cursor, more: Seq<u8>, depth: int)
    requires
        c.valid(),
        !c.spent(),
        !c.broken(),
        grammar::member(c, depth) matches Outcome::Done { value, pos } && pos < c.bytes.len(),
    ensures
        grammar::member(ahead(c, more), depth) == grammar::member(c, depth),
    decreases depth, c.bytes.len() - c.pos, 2int,
{
    reveal(grammar::value);
    let s = c.at(c.pos + 1);
    assert(ahead(c, more).at(c.pos + 1) == ahead(s, more));
    progress::lemma_text(s);
    lemma_text(s, more);
    let d = c.at(string::text(s)->Done_pos);
    assert(ahead(c, more).at(d.pos) == ahead(d, more));
    progress::lemma_between(d, true);
    lemma_between(d, more, true);
    let p = grammar::object_colon(d)->Done_pos;
    assert(ahead(c, more).at(p) == ahead(c.at(p), more));
    lemma_value(c.at(p), more, depth);
}

proof fn lemma_members(
    c: Cursor,
    more: Seq<u8>,
    depth: int,
    first: bool,
    sofar: Seq<(Seq<char>, Json)>,
)
    requires
        c.valid(),
        !c.broken(),
        grammar::members(c, depth, first, sofar) is Done,
    ensures
        grammar::members(ahead(c, more), depth, first, sofar) == grammar::members(
            c,
            depth,
            first,
            sofar,
        ),
        c.pos < c.bytes.len(),
    decreases depth, c.bytes.len() - c.pos, 3int,
{
    reveal(grammar::value);
    progress::lemma_between(c, first);
    lemma_between(c, more, first);
    let go_on = grammar::next_key(c, first)->value;
    let pos = grammar::next_key(c, first)->Done_pos;
    if go_on {
        let d = c.at(pos);
        assert(ahead(c, more).at(pos) == ahead(d, more));
        progress::lemma_member(d, depth);
        let m = grammar::member(d, depth)->value;
        let q = grammar::member(d, depth)->Done_pos;
        lemma_members(c.at(q), more, depth, false, sofar.push(m));
        lemma_member(d, more, depth);
        assert(ahead(c, more).at(q) == ahead(c.at(q), more));
    }
}

} // verus!
