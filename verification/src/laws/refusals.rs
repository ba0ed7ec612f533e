//! Laws of arrays and objects that are refused.
//!
//! A container is refused where one of its parts is, for the same reason and
//! at the same place. Its closing bracket is consumed all the same, if it
//! stands where the reading has stopped.
use crate::error::ErrorCode;
use crate::laws::forms::{Item, Member};
use crate::laws::steps;
use crate::laws::{documents, forms, notation, numbers};
use crate::outcome::{Outcome, Placed};
use crate::read::Cursor;
use crate::value::Json;
use crate::{grammar, progress, string};
use vstd::prelude::*;

verus! {

/// A refusal at `pos` inside a container that ends with `bracket`, before
/// which the blanks `gap` stand.
pub open spec fn left<T>(
    c: Cursor,
    code: ErrorCode,
    place: int,
    pos: int,
    gap: Seq<u8>,
    bracket: u8,
) -> Outcome<T> {
    let r = pos + gap.len();
    if r < c.bytes.len() {
        Outcome::Fail {
            code,
            place,
            pos: if c.bytes[r] == bracket {
                r + 1
            } else {
                r
            },
        }
    } else if c.failure is None {
        Outcome::Fail { code, place, pos: r }
    } else {
        Outcome::Torn { code, place }
    }
}

/// What a container gives whose part gave `o`, which was no success.
pub open spec fn passed_on<T>(c: Cursor, o: Outcome<T>, gap: Seq<u8>, bracket: u8) -> Outcome<
    Json,
> {
    match o {
        Outcome::Fail { code, place, pos } => left(c, code, place, pos, gap, bracket),
        Outcome::Torn { code, place } => Outcome::Torn { code, place },
        Outcome::Broken { placed: Placed::Nowhere, .. } => Outcome::Broken {
            placed: Placed::Behind,
            moved: true,
        },
        Outcome::Broken { placed, .. } => Outcome::Broken { placed, moved: true },
        Outcome::Done { .. } => Outcome::Done { value: Json::Null, pos: 0 },
    }
}

/// Whether `gap` are the blanks where a part that gave `o` has stopped.
pub open spec fn stopped<T>(c: Cursor, o: Outcome<T>, gap: Seq<u8>) -> bool {
    o matches Outcome::Fail { pos, .. } ==> steps::gap_at(c.at(pos), gap)
}

/// Whether the form that ends at `e` does not go on there.
pub open spec fn over(c: Cursor, f: forms::Form, e: int) -> bool {
    &&& f is Number ==> numbers::readable(c, e)
    &&& e < c.bytes.len() ==> forms::ends(f, c.bytes[e])
}

/// The place behind the last of some elements, before the blanks there.
pub open spec fn last_end(i: int, v: Seq<Item>) -> int {
    i + forms::items(v).len() - v[v.len() - 1].after.len()
}

/// The place behind the last of some members, before the blanks there.
pub open spec fn last_member_end(i: int, v: Seq<Member>) -> int {
    i + forms::members(v).len() - v[v.len() - 1].after.len()
}

/// A value with blanks before it.
proof fn lemma_spaced_value(c: Cursor, before: Seq<u8>, f: forms::Form, depth: int)
    requires
        c.valid(),
        documents::blank(before),
        forms::sound(f, depth),
        notation::holds(c.bytes, c.pos, before + forms::written(f)),
        over(c, f, c.pos + before.len() + forms::written(f).len()),
    ensures
        ({
            let p = c.pos + before.len();
            let q = p + forms::written(f).len();
            &&& grammar::spaced(c) == c.at(p)
            &&& p < q <= c.bytes.len()
            &&& c.bytes[p] == forms::written(f)[0]
            &&& grammar::value(c.at(p), depth) == (Outcome::Done {
                value: forms::meant(f),
                pos: q,
            })
            &&& grammar::value(c, depth) == (Outcome::Done { value: forms::meant(f), pos: q })
        }),
{
    let w = forms::written(f);
    notation::lemma_split(c.bytes, c.pos, before, w);
    let p = c.pos + before.len();
    forms::lemma_head(f, depth);
    notation::lemma_first(c.bytes, p, w);
    forms::lemma_skip(c.bytes, c.pos, before);
    forms::law_form(c.at(p), f, depth);
    documents::law_leading_space(c, depth);
}

/// Elements that have been read, each behind a comma.
proof fn lemma_more_read(
    c: Cursor,
    gap: Seq<u8>,
    v: Seq<Item>,
    depth: int,
    sofar: Seq<Json>,
    e: int,
)
    requires
        c.valid(),
        documents::blank(gap),
        forms::sound_items(v, depth),
        v.len() > 0 ==> notation::holds(c.bytes, c.pos, gap + forms::more_items(v)),
        e == if v.len() == 0 {
            c.pos
        } else {
            last_end(c.pos + gap.len() + 1, v)
        },
        v.len() > 0 ==> over(c, v[v.len() - 1].form, e),
    ensures
        c.pos <= e <= c.bytes.len(),
        grammar::elements(c, depth, false, sofar) == grammar::elements(
            c.at(e),
            depth,
            false,
            sofar + forms::items_meant(v),
        ),
    decreases v.len(),
{
    if v.len() == 0 {
        assert(sofar + forms::items_meant(v) =~= sofar);
        assert(c.at(e) == c);
    } else {
        let p = c.pos + gap.len();
        let x = v[0];
        let t = v.drop_first();
        let w = forms::written(x.form);
        let tail = x.after + forms::more_items(t);
        notation::lemma_split(c.bytes, c.pos, gap, forms::more_items(v));
        notation::lemma_first(c.bytes, p, forms::more_items(v));
        notation::lemma_split(c.bytes, p, seq![0x2cu8], forms::items(v));
        let d = c.at(p + 1);
        assert(forms::items(v) =~= (x.before + w) + tail);
        notation::lemma_split(c.bytes, d.pos, x.before + w, tail);
        let q = d.pos + x.before.len() + w.len();
        lemma_ends(c, x, t, depth, q);
        lemma_spaced_value(d, x.before, x.form, depth);
        forms::lemma_skip(c.bytes, c.pos, gap);
        let j = forms::meant(x.form);
        forms::lemma_step_element(c, p + 1, q, j, depth, false, sofar);
        forms::lemma_sound_rest(v, depth);
        lemma_more_read(c.at(q), x.after, t, depth, sofar.push(j), e);
        assert(sofar.push(j) + forms::items_meant(t) =~= sofar + forms::items_meant(v)) by {
            assert(forms::items_meant(v) =~= seq![j] + forms::items_meant(t));
        }
    }
}

/// An element that others follow ends before its blanks or a comma.
proof fn lemma_ends(c: Cursor, x: Item, t: Seq<Item>, depth: int, q: int)
    requires
        c.valid(),
        documents::blank(x.after),
        notation::holds(c.bytes, q, x.after + forms::more_items(t)),
        t.len() == 0 ==> over(c, x.form, q),
    ensures
        over(c, x.form, q),
{
    if t.len() > 0 {
        let tail = x.after + forms::more_items(t);
        notation::lemma_first(c.bytes, q, tail);
        if x.after.len() > 0 {
            assert(tail[0] == x.after[0]);
            assert(notation::white(x.after[0]));
        } else {
            assert(tail[0] == forms::more_items(t)[0]);
        }
    }
}

/// Elements that have been read, from behind the opening bracket on.
proof fn lemma_read(c: Cursor, v: Seq<Item>, depth: int)
    requires
        c.valid(),
        v.len() > 0,
        forms::sound_items(v, depth),
        notation::holds(c.bytes, c.pos, forms::items(v)),
        over(c, v[v.len() - 1].form, last_end(c.pos, v)),
    ensures
        c.pos <= last_end(c.pos, v) <= c.bytes.len(),
        grammar::elements(c, depth, true, Seq::empty()) == grammar::elements(
            c.at(last_end(c.pos, v)),
            depth,
            false,
            forms::items_meant(v),
        ),
{
    let x = v[0];
    let t = v.drop_first();
    let w = forms::written(x.form);
    let tail = x.after + forms::more_items(t);
    let none = Seq::<Json>::empty();
    assert(forms::items(v) =~= (x.before + w) + tail);
    notation::lemma_split(c.bytes, c.pos, x.before + w, tail);
    let p = c.pos + x.before.len();
    let q = p + w.len();
    let e = last_end(c.pos, v);
    lemma_ends(c, x, t, depth, q);
    lemma_spaced_value(c, x.before, x.form, depth);
    forms::lemma_head(x.form, depth);
    let j = forms::meant(x.form);
    forms::lemma_step_element(c, p, q, j, depth, true, none);
    forms::lemma_sound_rest(v, depth);
    lemma_more_read(c.at(q), x.after, t, depth, none.push(j), e);
    assert(none.push(j) + forms::items_meant(t) =~= forms::items_meant(v));
}

/// An array gives what reading its elements gives.
proof fn lemma_array_of(c: Cursor, depth: int, gap: Seq<u8>)
    requires
        c.valid(),
        depth > 1,
        c.pos < c.bytes.len(),
        c.bytes[c.pos] == 0x5b,
        ({
            let o = grammar::elements(c.at(c.pos + 1), depth - 1, true, Seq::empty());
            !(o is Done) && stopped(c, o, gap)
        }),
    ensures
        grammar::value(c, depth) == passed_on(
            c,
            grammar::elements(c.at(c.pos + 1), depth - 1, true, Seq::empty()),
            gap,
            0x5d,
        ),
{
    reveal(grammar::value);
    assert(grammar::spaced(c) == c);
    let d = c.at(c.pos + 1);
    let o = grammar::elements(d, depth - 1, true, Seq::empty());
    progress::lemma_elements(d, depth - 1, true, Seq::empty());
    if let Outcome::Fail { code, place, pos } = o {
        steps::law_expected(c.at(pos), gap);
        assert(d.at(pos) == c.at(pos));
    }
}

/// An object gives what reading its members gives.
proof fn lemma_object_of(c: Cursor, depth: int, gap: Seq<u8>)
    requires
        c.valid(),
        depth > 1,
        c.pos < c.bytes.len(),
        c.bytes[c.pos] == 0x7b,
        ({
            let o = grammar::members(c.at(c.pos + 1), depth - 1, true, Seq::empty());
            !(o is Done) && stopped(c, o, gap)
        }),
    ensures
        grammar::value(c, depth) == passed_on(
            c,
            grammar::members(c.at(c.pos + 1), depth - 1, true, Seq::empty()),
            gap,
            0x7d,
        ),
{
    reveal(grammar::value);
    assert(grammar::spaced(c) == c);
    let d = c.at(c.pos + 1);
    let o = grammar::members(d, depth - 1, true, Seq::empty());
    progress::lemma_members(d, depth - 1, true, Seq::empty());
    if let Outcome::Fail { code, place, pos } = o {
        steps::law_expected(c.at(pos), gap);
        assert(d.at(pos) == c.at(pos));
    }
}

/// No element follows because the step before it refuses.
proof fn lemma_no_next(c: Cursor, depth: int, first: bool, sofar: Seq<Json>)
    requires
        !(grammar::next_element(c, first) is Done),
    ensures
        grammar::elements(c, depth, first, sofar) == grammar::next_element(c, first).recast::<
            Seq<Json>,
        >(),
{
}

proof fn lemma_no_next_key(c: Cursor, depth: int, first: bool, sofar: Seq<(Seq<char>, Json)>)
    requires
        !(grammar::next_key(c, first) is Done),
    ensures
        grammar::members(c, depth, first, sofar) == grammar::next_key(c, first).recast::<
            Seq<(Seq<char>, Json)>,
        >(),
{
}

/// The value of an element refuses.
proof fn lemma_no_value(c: Cursor, p: int, depth: int, first: bool, sofar: Seq<Json>)
    requires
        grammar::next_element(c, first) == (Outcome::Done { value: true, pos: p }),
        c.pos <= p <= c.bytes.len(),
        !(grammar::value(c.at(p), depth) is Done),
    ensures
        grammar::elements(c, depth, first, sofar) == grammar::value(c.at(p), depth).recast::<
            Seq<Json>,
        >(),
{
    reveal(grammar::value);
}

/// An array that breaks off behind its bracket or behind an element: where
/// neither a comma nor the closing bracket stands, the byte that does is
/// refused, or the end of the input.
pub proof fn law_array_breaks_off(c: Cursor, v: Seq<Item>, gap: Seq<u8>, depth: int)
    requires
        c.valid(),
        depth > 1,
        c.pos < c.bytes.len(),
        c.bytes[c.pos] == 0x5b,
        forms::sound_items(v, depth - 1),
        v.len() > 0 ==> gap == v[v.len() - 1].after && notation::holds(
            c.bytes,
            c.pos + 1,
            forms::items(v),
        ) && over(c, v[v.len() - 1].form, last_end(c.pos + 1, v)),
        ({
            let e = if v.len() == 0 {
                c.pos + 1
            } else {
                last_end(c.pos + 1, v)
            };
            &&& steps::gap_at(c.at(e), gap)
            &&& e + gap.len() < c.bytes.len() ==> v.len() > 0 && c.bytes[e + gap.len()] != 0x2c
                && c.bytes[e + gap.len()] != 0x5d
        }),
    ensures
        ({
            let p = if v.len() == 0 {
                c.pos + 1
            } else {
                last_end(c.pos + 1, v)
            } + gap.len();
            grammar::value(c, depth) == if p < c.bytes.len() {
                steps::refused::<Json>(ErrorCode::ExpectedListCommaOrEnd, p)
            } else if c.failure is None {
                steps::ended::<Json>(ErrorCode::EofWhileParsingList, p)
            } else {
                Outcome::Broken { placed: Placed::Behind, moved: true }
            }
        }),
{
    let d = c.at(c.pos + 1);
    let first = v.len() == 0;
    let e = if first {
        c.pos + 1
    } else {
        last_end(c.pos + 1, v)
    };
    let sofar = if first {
        Seq::empty()
    } else {
        forms::items_meant(v)
    };
    if !first {
        lemma_read(d, v, depth - 1);
    }
    let f = c.at(e);
    assert(d.at(e) == f);
    let p = e + gap.len();
    steps::law_next_element(f, gap, first);
    lemma_no_next(f, depth - 1, first, sofar);
    let none = Seq::<u8>::empty();
    assert(steps::gap_at(c.at(p), none));
    lemma_array_of(c, depth, none);
}

/// An array whose element is refused. The element is due behind the bracket,
/// or behind the elements `v` and a comma.
pub proof fn law_array_refused(c: Cursor, v: Seq<Item>, gap: Seq<u8>, depth: int)
    requires
        c.valid(),
        depth > 1,
        c.pos < c.bytes.len(),
        c.bytes[c.pos] == 0x5b,
        forms::sound_items(v, depth - 1),
        v.len() > 0 ==> notation::holds(
            c.bytes,
            c.pos + 1,
            forms::items(v) + seq![0x2cu8],
        ),
        ({
            let m = if v.len() == 0 {
                c.pos + 1
            } else {
                c.pos + 1 + forms::items(v).len() + 1
            };
            let o = grammar::value(c.at(m), depth - 1);
            &&& !(o is Done)
            &&& stopped(c, o, gap)
            &&& v.len() == 0 ==> exists|g: Seq<u8>| #[trigger]
                steps::gap_at(c.at(m), g) && m + g.len() < c.bytes.len() && c.bytes[m + g.len()]
                    != 0x5d
        }),
    ensures
        ({
            let m = if v.len() == 0 {
                c.pos + 1
            } else {
                c.pos + 1 + forms::items(v).len() + 1
            };
            grammar::value(c, depth) == passed_on(c, grammar::value(c.at(m), depth - 1), gap, 0x5d)
        }),
{
    let d = c.at(c.pos + 1);
    let none = Seq::<Json>::empty();
    if v.len() == 0 {
        let g = choose|g: Seq<u8>| #[trigger]
            steps::gap_at(d, g) && d.pos + g.len() < c.bytes.len() && c.bytes[d.pos + g.len()]
                != 0x5d;
        steps::law_next_element(d, g, true);
        documents::law_leading_space(d, depth - 1);
        steps::law_expected(d, g);
        lemma_no_value(d, d.pos + g.len(), depth - 1, true, none);
    } else {
        let x = v[v.len() - 1];
        let m = d.pos + forms::items(v).len();
        notation::lemma_split(c.bytes, d.pos, forms::items(v), seq![0x2cu8]);
        notation::lemma_first(c.bytes, m, seq![0x2cu8]);
        let e = last_end(d.pos, v);
        lemma_last(c.bytes, d.pos, v);
        assert(notation::holds(c.bytes, e, x.after));
        if x.after.len() > 0 {
            notation::lemma_first(c.bytes, e, x.after);
            assert(notation::white(x.after[0]));
        }
        lemma_read(d, v, depth - 1);
        let f = c.at(e);
        assert(d.at(e) == f);
        steps::law_next_element(f, x.after, false);
        lemma_no_value(f, m + 1, depth - 1, false, forms::items_meant(v));
    }
    lemma_array_of(c, depth, gap);
}

/// The blanks behind the last of some elements.
proof fn lemma_last(b: Seq<u8>, i: int, v: Seq<Item>)
    requires
        v.len() > 0,
        notation::holds(b, i, forms::items(v)),
    ensures
        i <= last_end(i, v),
        notation::holds(b, last_end(i, v), v[v.len() - 1].after),
    decreases v.len(),
{
    let x = v[0];
    let t = v.drop_first();
    let head = x.before + forms::written(x.form);
    assert(forms::items(v) =~= head + (x.after + forms::more_items(t)));
    notation::lemma_split(b, i, head, x.after + forms::more_items(t));
    notation::lemma_split(b, i + head.len(), x.after, forms::more_items(t));
    if t.len() > 0 {
        let p = i + head.len() + x.after.len();
        notation::lemma_split(b, p, seq![0x2cu8], forms::items(t));
        lemma_last(b, p + 1, t);
    }
}

/// How a member is written, without the blanks around it.
pub open spec fn member_text(x: Member) -> Seq<u8> {
    seq![0x22u8] + (forms::closed(x.key) + (x.behind_key + (seq![0x3au8] + (x.behind_colon
        + forms::written(x.form)))))
}

proof fn lemma_members_parts(v: Seq<Member>)
    requires
        v.len() > 0,
    ensures
        forms::members(v) == (v[0].before + member_text(v[0])) + (v[0].after
            + forms::more_members(v.drop_first())),
{
    let x = v[0];
    let m = forms::more_members(v.drop_first());
    let w = forms::written(x.form);
    let a1 = x.after + m;
    let a2 = w + a1;
    let a3 = x.behind_colon + a2;
    let a4 = seq![0x3au8] + a3;
    let a5 = x.behind_key + a4;
    let a6 = forms::closed(x.key) + a5;
    let a7 = seq![0x22u8] + a6;
    assert(forms::members(v) == x.before + a7);
    let b3 = x.behind_colon + w;
    let b4 = seq![0x3au8] + b3;
    let b5 = x.behind_key + b4;
    let b6 = forms::closed(x.key) + b5;
    assert(a3 =~= b3 + a1);
    assert(a4 =~= b4 + a1);
    assert(a5 =~= b5 + a1);
    assert(a6 =~= b6 + a1);
    assert(a7 =~= member_text(x) + a1);
    assert(x.before + a7 =~= (x.before + member_text(x)) + a1);
}

/// A member with blanks before it.
proof fn lemma_spaced_member(c: Cursor, x: Member, depth: int)
    requires
        c.valid(),
        documents::blank(x.before),
        forms::textual(x.key),
        documents::blank(x.behind_key),
        documents::blank(x.behind_colon),
        forms::sound(x.form, depth),
        notation::holds(c.bytes, c.pos, x.before + member_text(x)),
        over(c, x.form, c.pos + x.before.len() + member_text(x).len()),
    ensures
        ({
            let p = c.pos + x.before.len();
            let q = p + member_text(x).len();
            &&& grammar::spaced(c) == c.at(p)
            &&& p < q <= c.bytes.len()
            &&& c.bytes[p] == 0x22
            &&& grammar::member(c.at(p), depth) == (Outcome::Done {
                value: (forms::characters(x.key), forms::meant(x.form)),
                pos: q,
            })
        }),
{
    let w = x.behind_colon + forms::written(x.form);
    let behind = x.behind_key + (seq![0x3au8] + w);
    forms::lemma_member_key(c, x.before, x.key, behind);
    let p = c.pos + x.before.len();
    let k = p + 1 + forms::closed(x.key).len();
    notation::lemma_split(c.bytes, k, x.behind_key, seq![0x3au8] + w);
    let l = k + x.behind_key.len();
    notation::lemma_first(c.bytes, l, seq![0x3au8] + w);
    steps::law_expected(c.at(k), x.behind_key);
    notation::lemma_split(c.bytes, l, seq![0x3au8], w);
    lemma_spaced_value(c.at(l + 1), x.behind_colon, x.form, depth);
    let key = string::Text {
        chars: forms::characters(x.key),
        borrowed: c.lends && crate::laws::pieces::plain(x.key),
    };
    let q = p + member_text(x).len();
    forms::lemma_whole_member(c.at(p), key, k, l + 1, forms::meant(x.form), q, depth);
}

/// A member that others follow ends before its blanks or a comma.
proof fn lemma_member_ends(c: Cursor, x: Member, t: Seq<Member>, q: int)
    requires
        c.valid(),
        documents::blank(x.after),
        notation::holds(c.bytes, q, x.after + forms::more_members(t)),
        t.len() == 0 ==> over(c, x.form, q),
    ensures
        over(c, x.form, q),
{
    if t.len() > 0 {
        let tail = x.after + forms::more_members(t);
        notation::lemma_first(c.bytes, q, tail);
        if x.after.len() > 0 {
            assert(tail[0] == x.after[0]);
            assert(notation::white(x.after[0]));
        } else {
            assert(tail[0] == forms::more_members(t)[0]);
        }
    }
}

/// Members that have been read, each behind a comma.
#[verifier::rlimit(40)]
proof fn lemma_more_members_read(
    c: Cursor,
    gap: Seq<u8>,
    v: Seq<Member>,
    depth: int,
    sofar: Seq<(Seq<char>, Json)>,
    e: int,
)
    requires
        c.valid(),
        documents::blank(gap),
        forms::sound_members(v, depth),
        v.len() > 0 ==> notation::holds(c.bytes, c.pos, gap + forms::more_members(v)),
        e == if v.len() == 0 {
            c.pos
        } else {
            last_member_end(c.pos + gap.len() + 1, v)
        },
        v.len() > 0 ==> over(c, v[v.len() - 1].form, e),
    ensures
        c.pos <= e <= c.bytes.len(),
        grammar::members(c, depth, false, sofar) == grammar::members(
            c.at(e),
            depth,
            false,
            sofar + forms::members_meant(v),
        ),
    decreases v.len(),
{
    if v.len() == 0 {
        assert(sofar + forms::members_meant(v) =~= sofar);
        assert(c.at(e) == c);
    } else {
        let p = c.pos + gap.len();
        let x = v[0];
        let t = v.drop_first();
        let w = x.before + member_text(x);
        let tail = x.after + forms::more_members(t);
        notation::lemma_split(c.bytes, c.pos, gap, forms::more_members(v));
        notation::lemma_first(c.bytes, p, forms::more_members(v));
        notation::lemma_split(c.bytes, p, seq![0x2cu8], forms::members(v));
        let d = c.at(p + 1);
        lemma_members_parts(v);
        notation::lemma_split(c.bytes, d.pos, w, tail);
        let q = d.pos + w.len();
        lemma_member_ends(c, x, t, q);
        lemma_spaced_member(d, x, depth);
        forms::lemma_skip(c.bytes, c.pos, gap);
        let j = (forms::characters(x.key), forms::meant(x.form));
        forms::lemma_step_member(c, d.pos + x.before.len(), q, j, depth, false, sofar);
        forms::lemma_sound_rest_members(v, depth);
        lemma_more_members_read(c.at(q), x.after, t, depth, sofar.push(j), e);
        assert(sofar.push(j) + forms::members_meant(t) =~= sofar + forms::members_meant(v)) by {
            assert(forms::members_meant(v) =~= seq![j] + forms::members_meant(t));
        }
    }
}

/// Members that have been read, from behind the opening brace on.
proof fn lemma_members_read(c: Cursor, v: Seq<Member>, depth: int)
    requires
        c.valid(),
        v.len() > 0,
        forms::sound_members(v, depth),
        notation::holds(c.bytes, c.pos, forms::members(v)),
        over(c, v[v.len() - 1].form, last_member_end(c.pos, v)),
    ensures
        c.pos <= last_member_end(c.pos, v) <= c.bytes.len(),
        grammar::members(c, depth, true, Seq::empty()) == grammar::members(
            c.at(last_member_end(c.pos, v)),
            depth,
            false,
            forms::members_meant(v),
        ),
{
    let x = v[0];
    let t = v.drop_first();
    let w = x.before + member_text(x);
    let tail = x.after + forms::more_members(t);
    let none = Seq::<(Seq<char>, Json)>::empty();
    lemma_members_parts(v);
    notation::lemma_split(c.bytes, c.pos, w, tail);
    let q = c.pos + w.len();
    let e = last_member_end(c.pos, v);
    lemma_member_ends(c, x, t, q);
    lemma_spaced_member(c, x, depth);
    let j = (forms::characters(x.key), forms::meant(x.form));
    forms::lemma_step_member(c, c.pos + x.before.len(), q, j, depth, true, none);
    forms::lemma_sound_rest_members(v, depth);
    lemma_more_members_read(c.at(q), x.after, t, depth, none.push(j), e);
    assert(none.push(j) + forms::members_meant(t) =~= forms::members_meant(v));
}

/// The blanks behind the last of some members.
proof fn lemma_last_member(b: Seq<u8>, i: int, v: Seq<Member>)
    requires
        v.len() > 0,
        notation::holds(b, i, forms::members(v)),
    ensures
        i <= last_member_end(i, v),
        notation::holds(b, last_member_end(i, v), v[v.len() - 1].after),
    decreases v.len(),
{
    let x = v[0];
    let t = v.drop_first();
    let head = x.before + member_text(x);
    lemma_members_parts(v);
    notation::lemma_split(b, i, head, x.after + forms::more_members(t));
    notation::lemma_split(b, i + head.len(), x.after, forms::more_members(t));
    if t.len() > 0 {
        let p = i + head.len() + x.after.len();
        notation::lemma_split(b, p, seq![0x2cu8], forms::members(t));
        lemma_last_member(b, p + 1, t);
    }
}

/// The place where the next step of an object begins: behind its brace, or
/// behind the members `v`.
pub open spec fn due(c: Cursor, v: Seq<Member>) -> int {
    if v.len() == 0 {
        c.pos + 1
    } else {
        last_member_end(c.pos + 1, v)
    }
}

/// Whether an object begins at `c` with the members `v`.
pub open spec fn begins(c: Cursor, v: Seq<Member>, depth: int) -> bool {
    &&& c.valid()
    &&& depth > 1
    &&& c.pos < c.bytes.len()
    &&& c.bytes[c.pos] == 0x7b
    &&& forms::sound_members(v, depth - 1)
    &&& v.len() > 0 ==> notation::holds(c.bytes, c.pos + 1, forms::members(v)) && over(
        c,
        v[v.len() - 1].form,
        due(c, v),
    )
}

proof fn lemma_begun(c: Cursor, v: Seq<Member>, depth: int)
    requires
        begins(c, v, depth),
    ensures
        c.pos < due(c, v) <= c.bytes.len(),
        grammar::members(c.at(c.pos + 1), depth - 1, true, Seq::empty()) == grammar::members(
            c.at(due(c, v)),
            depth - 1,
            v.len() == 0,
            forms::members_meant(v),
        ),
{
    let d = c.at(c.pos + 1);
    if v.len() > 0 {
        lemma_members_read(d, v, depth - 1);
        assert(d.at(due(c, v)) == c.at(due(c, v)));
    } else {
        assert(forms::members_meant(v) =~= Seq::<(Seq<char>, Json)>::empty());
    }
}

/// An object that is refused where a key is due, or where neither a comma nor
/// the closing brace stands: it passes the refusal on.
pub proof fn law_object_breaks_off(c: Cursor, v: Seq<Member>, gap: Seq<u8>, depth: int)
    requires
        begins(c, v, depth),
        !(grammar::next_key(c.at(due(c, v)), v.len() == 0) is Done),
        stopped(c, grammar::next_key(c.at(due(c, v)), v.len() == 0), gap),
    ensures
        grammar::value(c, depth) == passed_on(
            c,
            grammar::next_key(c.at(due(c, v)), v.len() == 0),
            gap,
            0x7d,
        ),
{
    lemma_begun(c, v, depth);
    lemma_no_next_key(c.at(due(c, v)), depth - 1, v.len() == 0, forms::members_meant(v));
    lemma_object_of(c, depth, gap);
}

/// An object whose key, colon or value is refused passes that on. The key is
/// due at `p`, where its opening quote stands.
pub proof fn law_object_refused(c: Cursor, v: Seq<Member>, p: int, gap: Seq<u8>, depth: int)
    requires
        begins(c, v, depth),
        grammar::next_key(c.at(due(c, v)), v.len() == 0) == (Outcome::Done { value: true, pos: p }),
    ensures
        ({
            let key = string::text(c.at(p + 1));
            let o = grammar::value(c, depth);
            match key {
                Outcome::Done { value, pos: k } => match grammar::object_colon(c.at(k)) {
                    Outcome::Done { value: _, pos: l } => {
                        let x = grammar::value(c.at(l), depth - 1);
                        !(x is Done) && stopped(c, x, gap) ==> o == passed_on(c, x, gap, 0x7d)
                    },
                    x => stopped(c, x, gap) ==> o == passed_on(c, x, gap, 0x7d),
                },
                x => stopped(c, x, gap) ==> o == passed_on(c, x, gap, 0x7d),
            }
        }),
{
    lemma_begun(c, v, depth);
    let e = c.at(due(c, v));
    progress::lemma_between(e, v.len() == 0);
    progress::lemma_skip_space(e.bytes, e.pos);
    let s = grammar::spaced(e);
    if !s.spent() {
        progress::lemma_skip_space(e.bytes, s.pos + 1);
    }
    assert(p < c.bytes.len());
    lemma_member_passes(c.at(p), depth - 1);
    progress::lemma_member(c.at(p), depth - 1);
    let m = grammar::member(c.at(p), depth - 1);
    if !(m is Done) {
        lemma_no_member_value(e, p, depth - 1, v.len() == 0, forms::members_meant(v));
        if stopped(c, m, gap) {
            lemma_object_of(c, depth, gap);
        }
    }
}

/// A member is refused where its key, its colon or its value is.
proof fn lemma_member_passes(c: Cursor, depth: int)
    requires
        c.valid(),
        !c.spent(),
    ensures
        match string::text(c.at(c.pos + 1)) {
            Outcome::Done { value, pos: k } => match grammar::object_colon(c.at(k)) {
                Outcome::Done { value: _, pos: l } => !(grammar::value(c.at(l), depth) is Done)
                    ==> grammar::member(c, depth) == grammar::value(c.at(l), depth).recast::<
                    (Seq<char>, Json),
                >(),
                x => grammar::member(c, depth) == x.recast::<(Seq<char>, Json)>(),
            },
            x => grammar::member(c, depth) == x.recast::<(Seq<char>, Json)>(),
        },
{
    reveal(grammar::value);
    let d = c.at(c.pos + 1);
    progress::lemma_text(d);
    if let Outcome::Done { value, pos: k } = string::text(d) {
        progress::lemma_between(c.at(k), true);
    }
}

/// A member refuses.
proof fn lemma_no_member_value(
    c: Cursor,
    p: int,
    depth: int,
    first: bool,
    sofar: Seq<(Seq<char>, Json)>,
)
    requires
        grammar::next_key(c, first) == (Outcome::Done { value: true, pos: p }),
        c.pos <= p <= c.bytes.len(),
        !(grammar::member(c.at(p), depth) is Done),
    ensures
        grammar::members(c, depth, first, sofar) == grammar::member(c.at(p), depth).recast::<
            Seq<(Seq<char>, Json)>,
        >(),
{
    reveal(grammar::value);
}

} // verus!
