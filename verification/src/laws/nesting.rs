//! Laws of the limit on nesting.
use crate::outcome::Outcome;
use crate::read::Cursor;
use crate::value::Json;
use crate::{grammar, progress, value};
use vstd::prelude::*;

verus! {

proof fn lemma_push(v: Seq<Json>, j: Json)
    ensures
        value::elements_nesting(v.push(j)) >= value::elements_nesting(v),
        value::elements_nesting(v.push(j)) >= value::nesting(j),
        value::elements_nesting(v.push(j)) == value::elements_nesting(v)
            || value::elements_nesting(v.push(j)) == value::nesting(j),
{
    assert(v.push(j).drop_last() =~= v);
}

proof fn lemma_push_member(v: Seq<(Seq<char>, Json)>, m: (Seq<char>, Json))
    ensures
        value::members_nesting(v.push(m)) >= value::members_nesting(v),
        value::members_nesting(v.push(m)) >= value::nesting(m.1),
        value::members_nesting(v.push(m)) == value::members_nesting(v)
            || value::members_nesting(v.push(m)) == value::nesting(m.1),
{
    assert(v.push(m).drop_last() =~= v);
}

/// A value that is accepted is nested less deeply than there were levels
/// left.
pub proof fn law_limit_kept(c: Cursor, depth: int)
    requires
        c.valid(),
        depth >= 1,
    ensures
        grammar::value(c, depth) matches Outcome::Done { value, .. } ==> value::nesting(value)
            < depth,
    decreases depth, c.bytes.len() - c.pos, 1int,
{
    reveal(grammar::value);
    progress::lemma_token(c, depth);
    if let Outcome::Done { value: t, pos } = grammar::token(c, depth) {
        if depth > 1 {
            if t is Array {
                lemma_limit_elements(c.at(pos), depth - 1, true, Seq::empty());
            } else if t is Object {
                lemma_limit_members(c.at(pos), depth - 1, true, Seq::empty());
            }
        }
    }
}

proof fn lemma_limit_elements(c: Cursor, depth: int, first: bool, sofar: Seq<Json>)
    requires
        c.valid(),
        depth >= 1,
        value::elements_nesting(sofar) < depth,
    ensures
        grammar::elements(c, depth, first, sofar) matches Outcome::Done { value, .. }
            ==> value::elements_nesting(value) < depth,
    decreases depth, c.bytes.len() - c.pos, 2int,
{
    reveal(grammar::value);
    progress::lemma_between(c, first);
    if let Outcome::Done { value: true, pos } = grammar::next_element(c, first) {
        progress::lemma_value(c.at(pos), depth);
        law_limit_kept(c.at(pos), depth);
        if let Outcome::Done { value: v, pos: q } = grammar::value(c.at(pos), depth) {
            lemma_push(sofar, v);
            lemma_limit_elements(c.at(q), depth, false, sofar.push(v));
        }
    }
}

proof fn lemma_limit_member(c: Cursor, depth: int)
    requires
        c.valid(),
        !c.spent(),
        depth >= 1,
    ensures
        grammar::member(c, depth) matches Outcome::Done { value, .. } ==> value::nesting(value.1)
            < depth,
    decreases depth, c.bytes.len() - c.pos, 2int,
{
    reveal(grammar::value);
    progress::lemma_text(c.at(c.pos + 1));
    if let Outcome::Done { value: key, pos } = crate::string::text(c.at(c.pos + 1)) {
        progress::lemma_between(c.at(pos), true);
        if let Outcome::Done { value: u, pos: p } = grammar::object_colon(c.at(pos)) {
            law_limit_kept(c.at(p), depth);
        }
    }
}

proof fn lemma_limit_members(
    c: Cursor,
    depth: int,
    first: bool,
    sofar: Seq<(Seq<char>, Json)>,
)
    requires
        c.valid(),
        depth >= 1,
        value::members_nesting(sofar) < depth,
    ensures
        grammar::members(c, depth, first, sofar) matches Outcome::Done { value, .. }
            ==> value::members_nesting(value) < depth,
    decreases depth, c.bytes.len() - c.pos, 3int,
{
    reveal(grammar::value);
    progress::lemma_between(c, first);
    if let Outcome::Done { value: true, pos } = grammar::next_key(c, first) {
        progress::lemma_member(c.at(pos), depth);
        lemma_limit_member(c.at(pos), depth);
        if let Outcome::Done { value: m, pos: q } = grammar::member(c.at(pos), depth) {
            lemma_push_member(sofar, m);
            lemma_limit_members(c.at(q), depth, false, sofar.push(m));
        }
    }
}

/// More levels change nothing but refusals for nesting: what is accepted with
/// `depth` levels, or refused for another reason, is so with more of them.
pub proof fn law_more_levels(c: Cursor, depth: int, more: int)
    requires
        c.valid(),
        1 <= depth <= more,
        progress::flat(grammar::value(c, depth)),
    ensures
        grammar::value(c, more) == grammar::value(c, depth),
    decreases depth, c.bytes.len() - c.pos, 1int,
{
    reveal(grammar::value);
    progress::lemma_token(c, depth);
    assert(grammar::token(c, more) == grammar::token(c, depth));
    if let Outcome::Done { value: t, pos } = grammar::token(c, depth) {
        if depth > 1 {
            if t is Array {
                lemma_more_elements(c.at(pos), depth - 1, more - 1, true, Seq::empty());
            } else if t is Object {
                lemma_more_members(c.at(pos), depth - 1, more - 1, true, Seq::empty());
            }
        }
    }
}

proof fn lemma_more_elements(
    c: Cursor,
    depth: int,
    more: int,
    first: bool,
    sofar: Seq<Json>,
)
    requires
        c.valid(),
        1 <= depth <= more,
        progress::flat(grammar::elements(c, depth, first, sofar)),
    ensures
        grammar::elements(c, more, first, sofar) == grammar::elements(c, depth, first, sofar),
    decreases depth, c.bytes.len() - c.pos, 2int,
{
    reveal(grammar::value);
    progress::lemma_between(c, first);
    if let Outcome::Done { value: true, pos } = grammar::next_element(c, first) {
        progress::lemma_value(c.at(pos), depth);
        law_more_levels(c.at(pos), depth, more);
        if let Outcome::Done { value: v, pos: q } = grammar::value(c.at(pos), depth) {
            lemma_more_elements(c.at(q), depth, more, false, sofar.push(v));
        }
    }
}

proof fn lemma_more_member(c: Cursor, depth: int, more: int)
    requires
        c.valid(),
        !c.spent(),
        1 <= depth <= more,
        progress::flat(grammar::member(c, depth)),
    ensures
        grammar::member(c, more) == grammar::member(c, depth),
    decreases depth, c.bytes.len() - c.pos, 2int,
{
    reveal(grammar::value);
    progress::lemma_text(c.at(c.pos + 1));
    if let Outcome::Done { value: key, pos } = crate::string::text(c.at(c.pos + 1)) {
        progress::lemma_between(c.at(pos), true);
        if let Outcome::Done { value: u, pos: p } = grammar::object_colon(c.at(pos)) {
            law_more_levels(c.at(p), depth, more);
        }
    }
}

proof fn lemma_more_members(
    c: Cursor,
    depth: int,
    more: int,
    first: bool,
    sofar: Seq<(Seq<char>, Json)>,
)
    requires
        c.valid(),
        1 <= depth <= more,
        progress::flat(grammar::members(c, depth, first, sofar)),
    ensures
        grammar::members(c, more, first, sofar) == grammar::members(c, depth, first, sofar),
    decreases depth, c.bytes.len() - c.pos, 3int,
{
    reveal(grammar::value);
    progress::lemma_between(c, first);
    if let Outcome::Done { value: true, pos } = grammar::next_key(c, first) {
        progress::lemma_member(c.at(pos), depth);
        lemma_more_member(c.at(pos), depth, more);
        if let Outcome::Done { value: m, pos: q } = grammar::member(c.at(pos), depth) {
            lemma_more_members(c.at(q), depth, more, false, sofar.push(m));
        }
    }
}

/// The limit refuses nothing that is nested less deeply: a value that is
/// accepted with any number of levels is accepted with as few as its nesting
/// asks for.
pub proof fn law_enough_levels(c: Cursor, depth: int, more: int)
    requires
        c.valid(),
        1 <= depth <= more,
        grammar::value(c, more) matches Outcome::Done { value, .. } && value::nesting(value)
            < depth,
    ensures
        grammar::value(c, depth) == grammar::value(c, more),
    decreases depth, c.bytes.len() - c.pos, 1int,
{
    reveal(grammar::value);
    progress::lemma_token(c, more);
    let t = grammar::token(c, more)->Done_value;
    let pos = grammar::token(c, more)->Done_pos;
    if more > 1 {
        if t is Array {
            lemma_enough_elements(c.at(pos), depth - 1, more - 1, true, Seq::empty());
        } else if t is Object {
            lemma_enough_members(c.at(pos), depth - 1, more - 1, true, Seq::empty());
        }
    }
}

proof fn lemma_elements_grow(c: Cursor, depth: int, first: bool, sofar: Seq<Json>)
    requires
        c.valid(),
    ensures
        grammar::elements(c, depth, first, sofar) matches Outcome::Done { value, .. }
            ==> value::elements_nesting(value) >= value::elements_nesting(sofar),
    decreases c.bytes.len() - c.pos,
{
    reveal(grammar::value);
    progress::lemma_between(c, first);
    if let Outcome::Done { value: true, pos } = grammar::next_element(c, first) {
        progress::lemma_value(c.at(pos), depth);
        if let Outcome::Done { value: v, pos: q } = grammar::value(c.at(pos), depth) {
            lemma_push(sofar, v);
            lemma_elements_grow(c.at(q), depth, false, sofar.push(v));
        }
    }
}

proof fn lemma_members_grow(c: Cursor, depth: int, first: bool, sofar: Seq<(Seq<char>, Json)>)
    requires
        c.valid(),
    ensures
        grammar::members(c, depth, first, sofar) matches Outcome::Done { value, .. }
            ==> value::members_nesting(value) >= value::members_nesting(sofar),
    decreases c.bytes.len() - c.pos,
{
    reveal(grammar::value);
    progress::lemma_between(c, first);
    if let Outcome::Done { value: true, pos } = grammar::next_key(c, first) {
        progress::lemma_member(c.at(pos), depth);
        if let Outcome::Done { value: m, pos: q } = grammar::member(c.at(pos), depth) {
            lemma_push_member(sofar, m);
            lemma_members_grow(c.at(q), depth, false, sofar.push(m));
        }
    }
}

proof fn lemma_enough_elements(
    c: Cursor,
    depth: int,
    more: int,
    first: bool,
    sofar: Seq<Json>,
)
    requires
        c.valid(),
        1 <= depth <= more,
        grammar::elements(c, more, first, sofar) matches Outcome::Done { value, .. }
            && value::elements_nesting(value) < depth,
    ensures
        grammar::elements(c, depth, first, sofar) == grammar::elements(c, more, first, sofar),
    decreases depth, c.bytes.len() - c.pos, 2int,
{
    reveal(grammar::value);
    progress::lemma_between(c, first);
    if let Outcome::Done { value: true, pos } = grammar::next_element(c, first) {
        progress::lemma_value(c.at(pos), more);
        let v = grammar::value(c.at(pos), more)->Done_value;
        let q = grammar::value(c.at(pos), more)->Done_pos;
        lemma_push(sofar, v);
        lemma_elements_grow(c.at(q), more, false, sofar.push(v));
        law_enough_levels(c.at(pos), depth, more);
        lemma_enough_elements(c.at(q), depth, more, false, sofar.push(v));
    }
}

proof fn lemma_enough_member(c: Cursor, depth: int, more: int)
    requires
        c.valid(),
        !c.spent(),
        1 <= depth <= more,
        grammar::member(c, more) matches Outcome::Done { value, .. } && value::nesting(value.1)
            < depth,
    ensures
        grammar::member(c, depth) == grammar::member(c, more),
    decreases depth, c.bytes.len() - c.pos, 2int,
{
    reveal(grammar::value);
    progress::lemma_text(c.at(c.pos + 1));
    let pos = crate::string::text(c.at(c.pos + 1))->Done_pos;
    progress::lemma_between(c.at(pos), true);
    let p = grammar::object_colon(c.at(pos))->Done_pos;
    law_enough_levels(c.at(p), depth, more);
}

proof fn lemma_enough_members(
    c: Cursor,
    depth: int,
    more: int,
    first: bool,
    sofar: Seq<(Seq<char>, Json)>,
)
    requires
        c.valid(),
        1 <= depth <= more,
        grammar::members(c, more, first, sofar) matches Outcome::Done { value, .. }
            && value::members_nesting(value) < depth,
    ensures
        grammar::members(c, depth, first, sofar) == grammar::members(c, more, first, sofar),
    decreases depth, c.bytes.len() - c.pos, 3int,
{
    reveal(grammar::value);
    progress::lemma_between(c, first);
    if let Outcome::Done { value: true, pos } = grammar::next_key(c, first) {
        progress::lemma_member(c.at(pos), more);
        let m = grammar::member(c.at(pos), more)->Done_value;
        let q = grammar::member(c.at(pos), more)->Done_pos;
        lemma_push_member(sofar, m);
        lemma_members_grow(c.at(q), more, false, sofar.push(m));
        lemma_enough_member(c.at(pos), depth, more);
        lemma_enough_members(c.at(q), depth, more, false, sofar.push(m));
    }
}

} // verus!
