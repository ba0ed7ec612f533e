//! Laws of values and whole documents.
use crate::ascii::is_space;
use crate::laws::{notation, streams};
use crate::outcome::Outcome;
use crate::read::Cursor;
use crate::value::Json;
use crate::{extension, grammar, locality, progress, string};
use vstd::prelude::*;

verus! {

/// Whether a text consists of white space.
pub open spec fn blank(b: Seq<u8>) -> bool {
    forall|i: int| 0 <= i < b.len() ==> notation::white(#[trigger] b[i])
}

/// A value is given or refused with an error about the text; only a source
/// that breaks causes any other error. What is consumed lies inside the text,
/// a value takes at least one byte, and an error points into what was there
/// to read.
pub proof fn law_total(c: Cursor, depth: int)
    requires
        c.valid(),
    ensures
        match grammar::value(c, depth) {
            Outcome::Done { value, pos } => c.pos < pos <= c.bytes.len(),
            Outcome::Fail { code, place, pos } => {
                &&& c.pos <= place <= c.bytes.len()
                &&& c.pos <= pos <= c.bytes.len()
            },
            Outcome::Torn { code, place } => c.broken() && c.pos <= place <= c.bytes.len(),
            Outcome::Broken { .. } => c.broken(),
        },
{
    progress::lemma_value(c, depth);
}

/// White space before a value means nothing.
pub proof fn law_leading_space(c: Cursor, depth: int)
    requires
        c.valid(),
    ensures
        grammar::value(grammar::spaced(c), depth) == grammar::value(c, depth),
{
    reveal(grammar::value);
    progress::lemma_skip_space(c.bytes, c.pos);
    let s = grammar::spaced(c);
    streams::lemma_spaced_twice(c, s.pos);
    assert(grammar::spaced(s) == s);
    assert(grammar::token(s, depth) == grammar::token(c, depth));
    if let Outcome::Done { value: t, pos } = grammar::token(c, depth) {
        assert(s.at(pos) == c.at(pos));
    }
}

/// A document that is accepted is read to its end, and nothing but white
/// space follows its value.
pub proof fn law_nothing_behind(c: Cursor, depth: int)
    requires
        c.valid(),
        grammar::document(c, depth) is Done,
    ensures
        grammar::document(c, depth)->Done_pos == c.bytes.len(),
        grammar::value(c, depth) matches Outcome::Done { value, pos } && value
            == grammar::document(c, depth)->Done_value && blank(
            c.bytes.subrange(pos, c.bytes.len() as int),
        ),
{
    progress::lemma_value(c, depth);
    let pos = grammar::value(c, depth)->Done_pos;
    progress::lemma_skip_space(c.bytes, pos);
}

/// White space that a whole text consists of from a place on is skipped.
proof fn lemma_blank(b: Seq<u8>, i: int)
    requires
        0 <= i <= b.len(),
        forall|k: int| i <= k < b.len() ==> is_space(#[trigger] b[k]),
    ensures
        grammar::skip_space(b, i) == b.len(),
    decreases b.len() - i,
{
    if i < b.len() {
        lemma_blank(b, i + 1);
    }
}

proof fn lemma_blank_before(a: Seq<u8>, c: Cursor, i: int)
    requires
        c.valid(),
        blank(a),
        0 <= i <= a.len(),
    ensures
        grammar::skip_space(a + c.bytes, i) == grammar::skip_space(
            a + c.bytes,
            a.len() as int,
        ),
    decreases a.len() - i,
{
    if i < a.len() {
        assert((a + c.bytes)[i] == a[i]);
        lemma_blank_before(a, c, i + 1);
    }
}

/// White space around a document means nothing.
pub proof fn law_surrounding_space(c: Cursor, depth: int, before: Seq<u8>, after: Seq<u8>)
    requires
        c.valid(),
        !c.broken(),
        c.pos == 0,
        before.len() + c.bytes.len() + after.len() <= usize::MAX,
        blank(before),
        blank(after),
        grammar::document(c, depth) is Done,
    ensures
        ({
            let d = Cursor { bytes: before + (c.bytes + after), ..c };
            grammar::document(d, depth) matches Outcome::Done { value, pos } && value
                == grammar::document(c, depth)->Done_value
        }),
{
    let d = Cursor { bytes: before + (c.bytes + after), ..c };
    let e = extension::ahead(c, after);
    law_nothing_behind(c, depth);
    let pos = grammar::value(c, depth)->Done_pos;
    progress::lemma_value(c, depth);
    extension::lemma_value(c, after, depth);
    assert(grammar::value(e, depth) == grammar::value(c, depth));
    assert forall|k: int| pos <= k < e.bytes.len() implies is_space(#[trigger] e.bytes[k]) by {
        if k < c.bytes.len() {
            assert(c.bytes.subrange(pos, c.bytes.len() as int)[k - pos] == c.bytes[k]);
        } else {
            assert(e.bytes[k] == after[k - c.bytes.len()]);
        }
    }
    lemma_blank(e.bytes, pos);
    assert(grammar::document(e, depth) is Done);
    // The same behind the white space in front.
    let f = locality::behind(before, e);
    locality::lemma_value(before, e, depth);
    locality::lemma_between(before, e.at(pos), true);
    assert(f.at(before.len() + pos) == locality::behind(before, e.at(pos)));
    lemma_blank_before(before, e, 0);
    progress::lemma_skip_space(d.bytes, d.pos);
    progress::lemma_skip_space(f.bytes, f.pos);
    assert(grammar::spaced(d) == grammar::spaced(f));
    law_leading_space(d, depth);
    law_leading_space(f, depth);
    assert(d.at(before.len() + pos) == f.at(before.len() + pos));
}

/// A `null` is no value and every other value is some value: an option is
/// read as the value it may be.
pub proof fn law_option(c: Cursor, depth: int)
    requires
        c.valid(),
    ensures
        grammar::option(c, depth) == grammar::value(c, depth).map(
            |v: Json|
                if v is Null {
                    None::<Json>
                } else {
                    Some(v)
                },
        ),
{
    reveal(grammar::value);
    progress::lemma_skip_space(c.bytes, c.pos);
    let s = grammar::spaced(c);
    assert(grammar::spaced(s) == s);
    law_leading_space(c, depth);
}

/// A string is an enum without data, and an object with one member, if that
/// is not refused, is an enum with data.
pub proof fn law_enum(c: Cursor, depth: int)
    requires
        c.valid(),
        depth >= 1,
    ensures
        grammar::value(c, depth) matches Outcome::Done { value: Json::String(s), pos }
            ==> grammar::variant(c, depth) == (Outcome::Done {
            value: (Json::String(s), None::<Json>),
            pos,
        }),
        grammar::value(c, depth) matches Outcome::Done { value: Json::Object(m), pos } ==> m.len()
            == 1 ==> grammar::variant(c, depth) == (Outcome::Done {
            value: (Json::String(m[0].0), Some(m[0].1)),
            pos,
        }),
{
    reveal(grammar::value);
    progress::lemma_skip_space(c.bytes, c.pos);
    let s = grammar::spaced(c);
    assert(grammar::spaced(s) == s);
    law_leading_space(c, depth);
    progress::lemma_token(c, depth);
    if let Outcome::Done { value: Json::Object(m), pos } = grammar::value(c, depth) {
        if m.len() == 1 {
            let d = c.at(s.pos + 1);
            lemma_one_member(d, depth - 1);
        }
    }
}

proof fn lemma_members_grow(c: Cursor, depth: int, first: bool, sofar: Seq<(Seq<char>, Json)>)
    requires
        c.valid(),
    ensures
        grammar::members(c, depth, first, sofar) matches Outcome::Done { value, .. } ==> value.len()
            >= sofar.len() && (value.len() == sofar.len() ==> value == sofar
            && grammar::next_key(c, first) == (Outcome::Done {
            value: false,
            pos: grammar::members(c, depth, first, sofar)->Done_pos,
        })),
    decreases c.bytes.len() - c.pos,
{
    reveal(grammar::value);
    progress::lemma_between(c, first);
    if let Outcome::Done { value: true, pos } = grammar::next_key(c, first) {
        progress::lemma_member(c.at(pos), depth);
        if let Outcome::Done { value: m, pos: q } = grammar::member(c.at(pos), depth) {
            lemma_members_grow(c.at(q), depth, false, sofar.push(m));
        }
    }
}

/// An object with one member from behind its brace.
proof fn lemma_one_member(c: Cursor, depth: int)
    requires
        c.valid(),
        grammar::object(c, depth) matches Outcome::Done { value: Json::Object(m), .. } && m.len()
            == 1,
    ensures
        grammar::variant_data(c, depth) matches Outcome::Done { value, pos } && value == (
            Json::String(grammar::object(c, depth)->Done_value->Object_0[0].0),
            Some(grammar::object(c, depth)->Done_value->Object_0[0].1),
        ) && grammar::enum_end(c.at(pos)) == (Outcome::Done {
            value: (),
            pos: grammar::object(c, depth)->Done_pos,
        }),
{
    reveal(grammar::value);
    let none = Seq::<(Seq<char>, Json)>::empty();
    progress::lemma_between(c, true);
    progress::lemma_skip_space(c.bytes, c.pos);
    let o = grammar::members(c, depth, true, none);
    let r = o->Done_pos;
    let p = grammar::next_key(c, true)->Done_pos;
    let s = grammar::spaced(c);
    assert(p == s.pos);
    progress::lemma_member(s, depth);
    let m = grammar::member(s, depth)->Done_value;
    let q = grammar::member(s, depth)->Done_pos;
    lemma_members_grow(c.at(q), depth, false, none.push(m));
    assert(o->Done_value =~= seq![m]);
    // The name.
    assert(grammar::spaced(s) == s);
    law_leading_space(c, depth);
    let t = s.at(s.pos + 1);
    let name = string::text(t)->Done_value;
    let behind_name = string::text(t)->Done_pos;
    assert(grammar::value(s, depth) == (Outcome::Done {
        value: Json::String(name.chars),
        pos: behind_name,
    }));
    // The closing brace.
    let e = c.at(q);
    progress::lemma_skip_space(e.bytes, e.pos);
    streams::lemma_spaced_twice(e, r);
    assert(grammar::spaced(c.at(r)) == grammar::spaced(e));
}

} // verus!
