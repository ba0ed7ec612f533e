//! Laws of the forms that values are written in.
//!
//! A form is a value as it stands in a text: with every blank, every escape
//! sequence and every digit. It is written in one way and means one value.
use crate::laws::numerals::Numeral;
use crate::laws::pieces::Piece;
use crate::laws::{documents, notation, numbers, numerals, pieces};
use crate::outcome::Outcome;
use crate::read::Cursor;
use crate::value::Json;
use crate::{grammar, progress, string};
use vstd::prelude::*;
use vstd::utf8::*;

verus! {

/// A value as it is written.
pub enum Form {
    Null,
    True,
    False,
    Number(Numeral),
    String(Seq<Piece>),
    /// An array. The blanks stand between its brackets if it is empty.
    Array(Seq<u8>, Seq<Item>),
    /// An object. The blanks stand between its braces if it is empty.
    Object(Seq<u8>, Seq<Member>),
}

/// An element of an array, with the blanks around it.
pub struct Item {
    pub before: Seq<u8>,
    pub form: Form,
    pub after: Seq<u8>,
}

/// A member of an object, with the blanks around its parts.
pub struct Member {
    pub before: Seq<u8>,
    pub key: Seq<Piece>,
    pub behind_key: Seq<u8>,
    pub behind_colon: Seq<u8>,
    pub form: Form,
    pub after: Seq<u8>,
}

/// The letters of `null`.
pub open spec fn null() -> Seq<u8> {
    seq![0x6eu8, 0x75u8, 0x6cu8, 0x6cu8]
}

/// The letters of `true`.
pub open spec fn yes() -> Seq<u8> {
    seq![0x74u8, 0x72u8, 0x75u8, 0x65u8]
}

/// The letters of `false`.
pub open spec fn no() -> Seq<u8> {
    seq![0x66u8, 0x61u8, 0x6cu8, 0x73u8, 0x65u8]
}

/// How a string is written, from behind its opening quote.
pub open spec fn closed(p: Seq<Piece>) -> Seq<u8> {
    pieces::written(p) + seq![0x22u8]
}

/// How a value is written.
pub open spec fn written(f: Form) -> Seq<u8>
    decreases f, 0int,
{
    match f {
        Form::Null => null(),
        Form::True => yes(),
        Form::False => no(),
        Form::Number(n) => n.written(),
        Form::String(p) => seq![0x22u8] + closed(p),
        Form::Array(gap, v) => seq![0x5bu8] + ((if v.len() == 0 {
            gap
        } else {
            items(v)
        }) + seq![0x5du8]),
        Form::Object(gap, v) => seq![0x7bu8] + ((if v.len() == 0 {
            gap
        } else {
            members(v)
        }) + seq![0x7du8]),
    }
}

/// How elements are written, with commas between them.
pub open spec fn items(v: Seq<Item>) -> Seq<u8>
    decreases v, 0int,
{
    if v.len() == 0 {
        Seq::empty()
    } else {
        v[0].before + (written(v[0].form) + (v[0].after + more_items(v.drop_first())))
    }
}

/// How further elements are written, each behind a comma.
pub open spec fn more_items(v: Seq<Item>) -> Seq<u8>
    decreases v, 1int,
{
    if v.len() == 0 {
        Seq::empty()
    } else {
        seq![0x2cu8] + items(v)
    }
}

/// How members are written, with commas between them.
pub open spec fn members(v: Seq<Member>) -> Seq<u8>
    decreases v, 0int,
{
    if v.len() == 0 {
        Seq::empty()
    } else {
        v[0].before + (seq![0x22u8] + (closed(v[0].key) + (v[0].behind_key + (seq![0x3au8] + (
        v[0].behind_colon + (written(v[0].form) + (v[0].after + more_members(
            v.drop_first(),
        ))))))))
    }
}

/// How further members are written, each behind a comma.
pub open spec fn more_members(v: Seq<Member>) -> Seq<u8>
    decreases v, 1int,
{
    if v.len() == 0 {
        Seq::empty()
    } else {
        seq![0x2cu8] + members(v)
    }
}

/// The characters that pieces mean.
#[verifier::opaque]
pub open spec fn characters(p: Seq<Piece>) -> Seq<char> {
    decode_utf8(pieces::meant(p))
}

/// Whether pieces mean text.
#[verifier::opaque]
pub open spec fn textual(p: Seq<Piece>) -> bool {
    pieces::sound(p, true) && valid_utf8(pieces::meant(p))
}

/// The value that a form means.
pub open spec fn meant(f: Form) -> Json
    decreases f,
{
    match f {
        Form::Null => Json::Null,
        Form::True => Json::Bool(true),
        Form::False => Json::Bool(false),
        Form::Number(n) => Json::Number(n.meant()->0),
        Form::String(p) => Json::String(characters(p)),
        Form::Array(_, v) => Json::Array(
            Seq::new(
                v.len(),
                |i: int|
                    if 0 <= i < v.len() {
                        meant(v[i].form)
                    } else {
                        Json::Null
                    },
            ),
        ),
        Form::Object(_, v) => Json::Object(
            Seq::new(
                v.len(),
                |i: int|
                    if 0 <= i < v.len() {
                        (characters(v[i].key), meant(v[i].form))
                    } else {
                        (Seq::empty(), Json::Null)
                    },
            ),
        ),
    }
}

/// Whether a form is a value that is nested less than `depth` levels deep.
pub open spec fn sound(f: Form, depth: int) -> bool
    decreases f,
{
    match f {
        Form::Number(n) => n.sound() && n.meant() is Some,
        Form::String(p) => textual(p),
        Form::Array(gap, v) => {
            &&& depth > 1
            &&& documents::blank(gap)
            &&& forall|i: int|
                0 <= i < v.len() ==> documents::blank((#[trigger] v[i]).before)
                    && documents::blank(v[i].after) && sound(v[i].form, depth - 1)
        },
        Form::Object(gap, v) => {
            &&& depth > 1
            &&& documents::blank(gap)
            &&& forall|i: int|
                0 <= i < v.len() ==> documents::blank((#[trigger] v[i]).before) && textual(
                    v[i].key,
                ) && documents::blank(v[i].behind_key) && documents::blank(v[i].behind_colon)
                    && documents::blank(v[i].after) && sound(v[i].form, depth - 1)
        },
        _ => true,
    }
}

/// Whether a form ends where `b` follows: only a number may go on.
pub open spec fn ends(f: Form, b: u8) -> bool {
    f matches Form::Number(n) ==> n.ends(b)
}

/// Whether the elements may stand in an array.
pub open spec fn sound_items(v: Seq<Item>, depth: int) -> bool {
    forall|i: int|
        0 <= i < v.len() ==> documents::blank((#[trigger] v[i]).before) && documents::blank(
            v[i].after,
        ) && sound(v[i].form, depth)
}

/// Whether the members may stand in an object.
pub open spec fn sound_members(v: Seq<Member>, depth: int) -> bool {
    forall|i: int|
        0 <= i < v.len() ==> documents::blank((#[trigger] v[i]).before) && textual(v[i].key)
            && documents::blank(v[i].behind_key) && documents::blank(v[i].behind_colon)
            && documents::blank(v[i].after) && sound(v[i].form, depth)
}

/// The values that elements mean.
pub open spec fn items_meant(v: Seq<Item>) -> Seq<Json> {
    Seq::new(v.len(), |i: int| meant(v[i].form))
}

/// The keys and values that members mean.
pub open spec fn members_meant(v: Seq<Member>) -> Seq<(Seq<char>, Json)> {
    Seq::new(v.len(), |i: int| (characters(v[i].key), meant(v[i].form)))
}

/// Blanks are skipped.
pub proof fn lemma_skip(b: Seq<u8>, i: int, s: Seq<u8>)
    requires
        documents::blank(s),
        notation::holds(b, i, s),
        i + s.len() < b.len() ==> !notation::white(b[i + s.len()]),
    ensures
        grammar::skip_space(b, i) == i + s.len(),
    decreases s.len(),
{
    if s.len() > 0 {
        notation::lemma_first(b, i, s);
        assert(notation::white(s[0]));
        let t = s.drop_first();
        assert forall|k: int| 0 <= k < t.len() implies #[trigger] b[(i + 1) + k] == t[k] by {
            assert(b[i + (k + 1)] == s[k + 1]);
        }
        assert forall|k: int| 0 <= k < t.len() implies notation::white(#[trigger] t[k]) by {
            assert(notation::white(s[k + 1]));
        }
        lemma_skip(b, i + 1, t);
    }
}

/// The blanks at a place, and what they end at.
pub proof fn lemma_blank_found(c: Cursor) -> (s: Seq<u8>)
    requires
        c.valid(),
    ensures
        documents::blank(s),
        notation::holds(c.bytes, c.pos, s),
        grammar::skip_space(c.bytes, c.pos) == c.pos + s.len(),
        c.pos + s.len() < c.bytes.len() ==> !notation::white(c.bytes[c.pos + s.len()]),
{
    progress::lemma_skip_space(c.bytes, c.pos);
    let p = grammar::skip_space(c.bytes, c.pos);
    notation::lemma_between(c.bytes, c.pos, p);
    let s = c.bytes.subrange(c.pos, p);
    assert forall|k: int| 0 <= k < s.len() implies notation::white(#[trigger] s[k]) by {
        assert(s[k] == c.bytes[c.pos + k]);
    }
    s
}

/// A form begins with a byte that is neither blank nor a closing bracket nor a
/// comma.
pub proof fn lemma_head(f: Form, depth: int)
    requires
        sound(f, depth),
    ensures
        written(f).len() > 0,
        ({
            let b = written(f)[0];
            &&& !notation::white(b)
            &&& b != 0x5d
            &&& b != 0x7d
            &&& b != 0x2c
            &&& f is Array <==> b == 0x5b
            &&& f is Object <==> b == 0x7b
            &&& f is String <==> b == 0x22
        }),
{
    if let Form::Number(n) = f {
        let w = n.written();
        assert(notation::digit(n.whole[0]));
        if n.negative {
            assert(w[0] == 0x2d);
        } else {
            assert(w[0] == n.whole[0]);
        }
    }
}

/// A word is read letter by letter.
pub proof fn lemma_word(c: Cursor, word: Seq<u8>, k: int)
    requires
        c.valid(),
        0 <= k <= word.len(),
        notation::holds(c.bytes, c.pos - k, word),
        c.pos >= 0,
    ensures
        grammar::ident(c, word, k) == (Outcome::Done { value: (), pos: c.pos + word.len() - k }),
    decreases word.len() - k,
{
    if k < word.len() {
        assert(c.bytes[(c.pos - k) + k] == word[k]);
        lemma_word(c.at(c.pos + 1), word, k + 1);
    }
}

/// `null`, `true` and `false`.
proof fn lemma_words(c: Cursor, f: Form, depth: int)
    requires
        c.valid(),
        f is Null || f is True || f is False,
        notation::holds(c.bytes, c.pos, written(f)),
    ensures
        grammar::value(c, depth) == (Outcome::Done {
            value: meant(f),
            pos: c.pos + written(f).len(),
        }),
{
    reveal(grammar::value);
    let w = written(f);
    notation::lemma_first(c.bytes, c.pos, w);
    assert(grammar::spaced(c) == c);
    let t = w.drop_first();
    let d = c.at(c.pos + 1);
    assert forall|k: int| 0 <= k < t.len() implies #[trigger] c.bytes[d.pos + k] == t[k] by {
        assert(c.bytes[c.pos + (k + 1)] == w[k + 1]);
    }
    lemma_word(d, t, 0);
    match f {
        Form::Null => {
            assert(t =~= grammar::ull());
        },
        Form::True => {
            assert(t =~= grammar::rue());
        },
        _ => {
            assert(t =~= grammar::alse());
        },
    }
}

/// A string that means text is read as its characters.
pub proof fn lemma_textual(c: Cursor, p: Seq<Piece>)
    requires
        c.valid(),
        textual(p),
        notation::holds(c.bytes, c.pos, closed(p)),
    ensures
        string::text(c) == (Outcome::Done {
            value: string::Text {
                chars: characters(p),
                borrowed: c.lends && pieces::plain(p),
            },
            pos: c.pos + closed(p).len(),
        }),
{
    reveal(textual);
    reveal(characters);
    pieces::law_text(c, p);
}

/// A form is read as the value it means.
pub proof fn law_form(c: Cursor, f: Form, depth: int)
    requires
        c.valid(),
        sound(f, depth),
        notation::holds(c.bytes, c.pos, written(f)),
        f is Number ==> numbers::readable(c, c.pos + written(f).len()),
        c.pos + written(f).len() < c.bytes.len() ==> ends(
            f,
            c.bytes[c.pos + written(f).len()],
        ),
    ensures
        grammar::value(c, depth) == (Outcome::Done {
            value: meant(f),
            pos: c.pos + written(f).len(),
        }),
    decreases f, 0int,
{
    lemma_head(f, depth);
    notation::lemma_first(c.bytes, c.pos, written(f));
    assert(grammar::spaced(c) == c);
    match f {
        Form::Number(n) => {
            numerals::law_numeral(c, n, depth);
        },
        Form::String(p) => {
            reveal(grammar::value);
            notation::lemma_split(c.bytes, c.pos, seq![0x22u8], closed(p));
            lemma_textual(c.at(c.pos + 1), p);
        },
        Form::Array(gap, v) => {
            lemma_array(c, gap, v, depth);
        },
        Form::Object(gap, v) => {
            lemma_object(c, gap, v, depth);
        },
        _ => {
            lemma_words(c, f, depth);
        },
    }
}

/// A value with blanks before it.
proof fn lemma_spaced_form(c: Cursor, gap: Seq<u8>, f: Form, depth: int)
    requires
        c.valid(),
        documents::blank(gap),
        sound(f, depth),
        notation::holds(c.bytes, c.pos, gap + written(f)),
        grammar::value(c.at(c.pos + gap.len()), depth) == (Outcome::Done {
            value: meant(f),
            pos: c.pos + gap.len() + written(f).len(),
        }),
    ensures
        grammar::value(c, depth) == (Outcome::Done {
            value: meant(f),
            pos: c.pos + gap.len() + written(f).len(),
        }),
{
    lemma_head(f, depth);
    notation::lemma_split(c.bytes, c.pos, gap, written(f));
    notation::lemma_first(c.bytes, c.pos + gap.len(), written(f));
    lemma_skip(c.bytes, c.pos, gap);
    documents::law_leading_space(c, depth);
}

/// The first of some elements.
proof fn lemma_item(c: Cursor, v: Seq<Item>, depth: int)
    requires
        c.valid(),
        v.len() > 0,
        sound_items(v, depth),
        notation::holds(c.bytes, c.pos, items(v) + seq![0x5du8]),
    ensures
        ({
            let x = v[0];
            let p = c.pos + x.before.len();
            let q = p + written(x.form).len();
            &&& grammar::spaced(c) == c.at(p)
            &&& p < q <= c.bytes.len()
            &&& c.bytes[p] == written(x.form)[0]
            &&& grammar::value(c.at(p), depth) == (Outcome::Done {
                value: meant(x.form),
                pos: q,
            })
            &&& grammar::value(c, depth) == (Outcome::Done { value: meant(x.form), pos: q })
            &&& notation::holds(
                c.bytes,
                q,
                x.after + (more_items(v.drop_first()) + seq![0x5du8]),
            )
        }),
    decreases v, 0int,
{
    let x = v[0];
    let t = v.drop_first();
    let close = seq![0x5du8];
    let behind = x.after + (more_items(t) + close);
    let w = written(x.form);
    assert(items(v) + close =~= x.before + (w + behind));
    notation::lemma_split(c.bytes, c.pos, x.before, w + behind);
    let p = c.pos + x.before.len();
    notation::lemma_split(c.bytes, p, w, behind);
    let q = p + w.len();
    lemma_head(x.form, depth);
    notation::lemma_first(c.bytes, p, w);
    lemma_skip(c.bytes, c.pos, x.before);
    notation::lemma_first(c.bytes, q, behind);
    assert(behind[0] == 0x5d || behind[0] == 0x2c || notation::white(behind[0])) by {
        if x.after.len() > 0 {
            assert(behind[0] == x.after[0]);
            assert(notation::white(x.after[0]));
        }
    }
    law_form(c.at(p), x.form, depth);
    notation::lemma_join(c.bytes, c.pos, x.before, w);
    lemma_spaced_form(c, x.before, x.form, depth);
}

/// One more element has been read.
pub proof fn lemma_step_element(
    c: Cursor,
    p: int,
    q: int,
    j: Json,
    depth: int,
    first: bool,
    sofar: Seq<Json>,
)
    requires
        grammar::next_element(c, first) == (Outcome::Done { value: true, pos: p }),
        grammar::value(c.at(p), depth) == (Outcome::Done { value: j, pos: q }),
        c.pos <= p <= q <= c.bytes.len(),
        c.pos < q,
    ensures
        grammar::elements(c, depth, first, sofar) == grammar::elements(
            c.at(q),
            depth,
            false,
            sofar.push(j),
        ),
{
    reveal(grammar::value);
    reveal_with_fuel(grammar::elements, 2);
}

/// One more member has been read.
pub proof fn lemma_step_member(
    c: Cursor,
    p: int,
    q: int,
    j: (Seq<char>, Json),
    depth: int,
    first: bool,
    sofar: Seq<(Seq<char>, Json)>,
)
    requires
        grammar::next_key(c, first) == (Outcome::Done { value: true, pos: p }),
        grammar::member(c.at(p), depth) == (Outcome::Done { value: j, pos: q }),
        c.pos <= p <= q <= c.bytes.len(),
        c.pos < q,
    ensures
        grammar::members(c, depth, first, sofar) == grammar::members(
            c.at(q),
            depth,
            false,
            sofar.push(j),
        ),
{
    reveal(grammar::value);
    reveal_with_fuel(grammar::members, 2);
}

/// No element follows.
pub proof fn lemma_no_element(c: Cursor, p: int, depth: int, first: bool, sofar: Seq<Json>)
    requires
        grammar::next_element(c, first) == (Outcome::Done { value: false, pos: p }),
    ensures
        grammar::elements(c, depth, first, sofar) == (Outcome::Done { value: sofar, pos: p }),
{
}

/// No member follows.
pub proof fn lemma_no_member(
    c: Cursor,
    p: int,
    depth: int,
    first: bool,
    sofar: Seq<(Seq<char>, Json)>,
)
    requires
        grammar::next_key(c, first) == (Outcome::Done { value: false, pos: p }),
    ensures
        grammar::members(c, depth, first, sofar) == (Outcome::Done { value: sofar, pos: p }),
{
}

/// What stands behind a member.
proof fn lemma_behind_member(c: Cursor, gap: Seq<u8>, b: u8)
    requires
        c.valid(),
        documents::blank(gap),
        notation::holds(c.bytes, c.pos, gap),
        c.pos + gap.len() < c.bytes.len(),
        c.bytes[c.pos + gap.len()] == b,
        b == 0x2c || b == 0x7d,
    ensures
        ({
            let p = c.pos + gap.len();
            &&& b == 0x7d ==> grammar::next_key(c, false) == (Outcome::Done {
                value: false,
                pos: p,
            })
            &&& b == 0x2c ==> grammar::next_key(c, false) == grammar::key_start(
                grammar::spaced(c.at(p + 1)),
            )
        }),
{
    lemma_skip(c.bytes, c.pos, gap);
}

/// What stands behind an element.
proof fn lemma_behind_element(c: Cursor, gap: Seq<u8>, b: u8)
    requires
        c.valid(),
        documents::blank(gap),
        notation::holds(c.bytes, c.pos, gap),
        c.pos + gap.len() < c.bytes.len(),
        c.bytes[c.pos + gap.len()] == b,
        b == 0x2c || b == 0x5d,
    ensures
        grammar::next_element(c, false) == if b == 0x2c {
            Outcome::Done { value: true, pos: c.pos + gap.len() + 1 }
        } else {
            Outcome::Done { value: false, pos: c.pos + gap.len() }
        },
{
    lemma_skip(c.bytes, c.pos, gap);
}

/// The elements behind one that has been read.
proof fn lemma_more_items(c: Cursor, gap: Seq<u8>, v: Seq<Item>, depth: int, sofar: Seq<Json>)
    requires
        c.valid(),
        documents::blank(gap),
        sound_items(v, depth),
        notation::holds(c.bytes, c.pos, gap + (more_items(v) + seq![0x5du8])),
    ensures
        grammar::elements(c, depth, false, sofar) == (Outcome::Done {
            value: sofar + items_meant(v),
            pos: c.pos + gap.len() + more_items(v).len(),
        }),
        c.pos + gap.len() + more_items(v).len() < c.bytes.len(),
        c.bytes[c.pos + gap.len() + more_items(v).len()] == 0x5d,
    decreases v, 2int,
{
    let close = seq![0x5du8];
    let behind = more_items(v) + close;
    notation::lemma_split(c.bytes, c.pos, gap, behind);
    let p = c.pos + gap.len();
    notation::lemma_first(c.bytes, p, behind);
    lemma_behind_element(c, gap, behind[0]);
    notation::lemma_split(c.bytes, p, more_items(v), close);
    notation::lemma_first(c.bytes, p + more_items(v).len(), close);
    if v.len() == 0 {
        assert(sofar + items_meant(v) =~= sofar);
        lemma_no_element(c, p, depth, false, sofar);
    } else {
        let d = c.at(p + 1);
        let t = v.drop_first();
        assert(behind =~= seq![0x2cu8] + (items(v) + close));
        notation::lemma_split(c.bytes, p, seq![0x2cu8], items(v) + close);
        lemma_item(d, v, depth);
        let x = v[0];
        let q = d.pos + x.before.len() + written(x.form).len();
        let j = meant(x.form);
        lemma_sound_rest(v, depth);
        lemma_more_items(c.at(q), x.after, t, depth, sofar.push(j));
        assert(sofar.push(j) + items_meant(t) =~= sofar + items_meant(v)) by {
            assert(items_meant(v) =~= seq![j] + items_meant(t));
        }
        lemma_step_element(c, p + 1, q, j, depth, false, sofar);
    }
}

pub proof fn lemma_sound_rest(v: Seq<Item>, depth: int)
    requires
        v.len() > 0,
        sound_items(v, depth),
    ensures
        sound_items(v.drop_first(), depth),
{
    let t = v.drop_first();
    assert forall|i: int| 0 <= i < t.len() implies documents::blank((#[trigger] t[i]).before)
        && documents::blank(t[i].after) && sound(t[i].form, depth) by {
        assert(t[i] == v[i + 1]);
    }
}

pub proof fn lemma_sound_rest_members(v: Seq<Member>, depth: int)
    requires
        v.len() > 0,
        sound_members(v, depth),
    ensures
        sound_members(v.drop_first(), depth),
{
    let t = v.drop_first();
    assert forall|i: int| 0 <= i < t.len() implies documents::blank((#[trigger] t[i]).before)
        && textual(t[i].key) && documents::blank(t[i].behind_key) && documents::blank(
        t[i].behind_colon,
    ) && documents::blank(t[i].after) && sound(t[i].form, depth) by {
        assert(t[i] == v[i + 1]);
    }
}

/// An array from its opening bracket on.
proof fn lemma_array(c: Cursor, gap: Seq<u8>, v: Seq<Item>, depth: int)
    requires
        c.valid(),
        sound(Form::Array(gap, v), depth),
        notation::holds(c.bytes, c.pos, written(Form::Array(gap, v))),
    ensures
        grammar::value(c, depth) == (Outcome::Done {
            value: meant(Form::Array(gap, v)),
            pos: c.pos + written(Form::Array(gap, v)).len(),
        }),
    decreases v, 3int,
{
    reveal(grammar::value);
    let close = seq![0x5du8];
    let inner = if v.len() == 0 {
        gap
    } else {
        items(v)
    };
    notation::lemma_first(c.bytes, c.pos, written(Form::Array(gap, v)));
    notation::lemma_split(c.bytes, c.pos, seq![0x5bu8], inner + close);
    assert(grammar::spaced(c) == c);
    let d = c.at(c.pos + 1);
    let r = d.pos + inner.len();
    let none = Seq::<Json>::empty();
    let o = grammar::elements(d, depth - 1, true, none);
    notation::lemma_split(c.bytes, d.pos, inner, close);
    notation::lemma_first(c.bytes, r, close);
    assert(meant(Form::Array(gap, v))->Array_0 =~= items_meant(v));
    if v.len() == 0 {
        lemma_skip(c.bytes, d.pos, gap);
        assert(items_meant(v) =~= none);
        assert(o == (Outcome::Done { value: none, pos: r }));
    } else {
        let x = v[0];
        let t = v.drop_first();
        assert(sound_items(v, depth - 1));
        lemma_item(d, v, depth - 1);
        lemma_head(x.form, depth - 1);
        let p = d.pos + x.before.len();
        let q = p + written(x.form).len();
        let j = meant(x.form);
        lemma_sound_rest(v, depth - 1);
        lemma_more_items(c.at(q), x.after, t, depth - 1, none.push(j));
        assert(none.push(j) + items_meant(t) =~= items_meant(v));
        assert(grammar::next_element(d, true) == (Outcome::Done { value: true, pos: p }));
        assert(o == grammar::elements(d.at(q), depth - 1, false, none.push(j)));
        assert(items(v) =~= x.before + (written(x.form) + (x.after + more_items(t))));
    }
    assert(grammar::spaced(d.at(r)) == d.at(r));
    assert(grammar::end_seq(d.at(r)) == (Outcome::Done { value: (), pos: r + 1 }));
}

/// A member is its key, the colon and its value.
pub proof fn lemma_whole_member(
    c: Cursor,
    key: string::Text,
    k: int,
    l: int,
    j: Json,
    q: int,
    depth: int,
)
    requires
        string::text(c.at(c.pos + 1)) == (Outcome::Done { value: key, pos: k }),
        grammar::object_colon(c.at(k)) == (Outcome::Done { value: (), pos: l }),
        grammar::value(c.at(l), depth) == (Outcome::Done { value: j, pos: q }),
        c.pos <= l <= c.bytes.len(),
    ensures
        grammar::member(c, depth) == (Outcome::Done { value: (key.chars, j), pos: q }),
{
    reveal(grammar::value);
}

/// How a member is written behind its value.
spec fn behind_value(v: Seq<Member>) -> Seq<u8> {
    v[0].after + (more_members(v.drop_first()) + seq![0x7du8])
}

/// How it is written behind its key.
spec fn behind_key(v: Seq<Member>) -> Seq<u8> {
    v[0].behind_key + (seq![0x3au8] + (v[0].behind_colon + (written(v[0].form) + behind_value(v))))
}

proof fn lemma_members_split(v: Seq<Member>)
    requires
        v.len() > 0,
    ensures
        members(v) + seq![0x7du8] == v[0].before + (seq![0x22u8] + (closed(v[0].key)
            + behind_key(v))),
        members(v).len() == v[0].before.len() + 1 + closed(v[0].key).len()
            + v[0].behind_key.len() + 1 + v[0].behind_colon.len() + written(v[0].form).len()
            + v[0].after.len() + more_members(v.drop_first()).len(),
{
    let x = v[0];
    let m = more_members(v.drop_first());
    let close = seq![0x7du8];
    let w = written(x.form);
    let a1 = x.after + m;
    let a2 = w + a1;
    let a3 = x.behind_colon + a2;
    let a4 = seq![0x3au8] + a3;
    let a5 = x.behind_key + a4;
    let a6 = closed(x.key) + a5;
    let a7 = seq![0x22u8] + a6;
    assert(members(v) == x.before + a7);
    assert(a1 + close =~= behind_value(v));
    assert(a2 + close =~= w + (a1 + close));
    assert(a3 + close =~= x.behind_colon + (a2 + close));
    assert(a4 + close =~= seq![0x3au8] + (a3 + close));
    assert(a5 + close =~= x.behind_key + (a4 + close));
    assert(a6 + close =~= closed(x.key) + (a5 + close));
    assert(a7 + close =~= seq![0x22u8] + (a6 + close));
    assert((x.before + a7) + close =~= x.before + (a7 + close));
}

/// The colon and the value of a member.
proof fn lemma_member_value(c: Cursor, v: Seq<Member>, depth: int)
    requires
        c.valid(),
        v.len() > 0,
        sound_members(v, depth),
        notation::holds(c.bytes, c.pos, behind_key(v)),
    ensures
        ({
            let x = v[0];
            let l = c.pos + x.behind_key.len() + 1;
            let q = l + x.behind_colon.len() + written(x.form).len();
            &&& grammar::object_colon(c) == (Outcome::Done { value: (), pos: l })
            &&& grammar::value(c.at(l), depth) == (Outcome::Done {
                value: meant(x.form),
                pos: q,
            })
            &&& notation::holds(c.bytes, q, behind_value(v))
            &&& q <= c.bytes.len()
        }),
    decreases v, 0int,
{
    let x = v[0];
    let w = written(x.form);
    let behind = behind_value(v);
    let from_value = x.behind_colon + (w + behind);
    let from_colon = seq![0x3au8] + from_value;
    notation::lemma_split(c.bytes, c.pos, x.behind_key, from_colon);
    let l = c.pos + x.behind_key.len();
    notation::lemma_first(c.bytes, l, from_colon);
    lemma_skip(c.bytes, c.pos, x.behind_key);
    notation::lemma_split(c.bytes, l, seq![0x3au8], from_value);
    notation::lemma_split(c.bytes, l + 1, x.behind_colon, w + behind);
    let m = l + 1 + x.behind_colon.len();
    notation::lemma_split(c.bytes, m, w, behind);
    let q = m + w.len();
    notation::lemma_first(c.bytes, q, behind);
    assert(behind[0] == 0x7d || behind[0] == 0x2c || notation::white(behind[0])) by {
        if x.after.len() > 0 {
            assert(behind[0] == x.after[0]);
            assert(notation::white(x.after[0]));
        }
    }
    law_form(c.at(m), x.form, depth);
    notation::lemma_join(c.bytes, l + 1, x.behind_colon, w);
    lemma_spaced_form(c.at(l + 1), x.behind_colon, x.form, depth);
}

/// The key of the first of some members.
pub proof fn lemma_member_key(c: Cursor, before: Seq<u8>, key: Seq<Piece>, behind: Seq<u8>)
    requires
        c.valid(),
        documents::blank(before),
        textual(key),
        notation::holds(c.bytes, c.pos, before + (seq![0x22u8] + (closed(key) + behind))),
    ensures
        ({
            let p = c.pos + before.len();
            let k = p + 1 + closed(key).len();
            &&& grammar::spaced(c) == c.at(p)
            &&& p < k <= c.bytes.len()
            &&& c.bytes[p] == 0x22
            &&& string::text(c.at(p + 1)) == (Outcome::Done {
                value: string::Text {
                    chars: characters(key),
                    borrowed: c.lends && pieces::plain(key),
                },
                pos: k,
            })
            &&& notation::holds(c.bytes, k, behind)
        }),
{
    let from_key = closed(key) + behind;
    let from_quote = seq![0x22u8] + from_key;
    let p = c.pos + before.len();
    notation::lemma_split(c.bytes, c.pos, before, from_quote);
    notation::lemma_first(c.bytes, p, from_quote);
    lemma_skip(c.bytes, c.pos, before);
    notation::lemma_split(c.bytes, p, seq![0x22u8], from_key);
    notation::lemma_split(c.bytes, p + 1, closed(key), behind);
    lemma_textual(c.at(p + 1), key);
}

/// The place behind the value of the first of some members.
spec fn member_end(v: Seq<Member>) -> int {
    (v[0].before.len() + 1 + closed(v[0].key).len() + v[0].behind_key.len() + 1
        + v[0].behind_colon.len() + written(v[0].form).len()) as int
}

/// The first of some members, from its key on.
proof fn lemma_member(c: Cursor, v: Seq<Member>, depth: int)
    requires
        c.valid(),
        v.len() > 0,
        sound_members(v, depth),
        notation::holds(
            c.bytes,
            c.pos,
            v[0].before + (seq![0x22u8] + (closed(v[0].key) + behind_key(v))),
        ),
    ensures
        ({
            let x = v[0];
            let p = c.pos + x.before.len();
            let q = c.pos + member_end(v);
            &&& grammar::spaced(c) == c.at(p)
            &&& p < q <= c.bytes.len()
            &&& c.bytes[p] == 0x22
            &&& grammar::member(c.at(p), depth) == (Outcome::Done {
                value: (characters(x.key), meant(x.form)),
                pos: q,
            })
            &&& notation::holds(c.bytes, q, behind_value(v))
        }),
    decreases v, 1int,
{
    let x = v[0];
    let p = c.pos + x.before.len();
    lemma_member_key(c, x.before, x.key, behind_key(v));
    let k = p + 1 + closed(x.key).len();
    lemma_member_value(c.at(k), v, depth);
    let l = k + x.behind_key.len() + 1;
    let q = l + x.behind_colon.len() + written(x.form).len();
    let key = string::Text {
        chars: characters(x.key),
        borrowed: c.lends && pieces::plain(x.key),
    };
    lemma_whole_member(c.at(p), key, k, l, meant(x.form), q, depth);
}

/// The members behind one that has been read.
#[verifier::rlimit(40)]
proof fn lemma_more_members(
    c: Cursor,
    gap: Seq<u8>,
    v: Seq<Member>,
    depth: int,
    sofar: Seq<(Seq<char>, Json)>,
)
    requires
        c.valid(),
        documents::blank(gap),
        sound_members(v, depth),
        notation::holds(c.bytes, c.pos, gap + (more_members(v) + seq![0x7du8])),
    ensures
        grammar::members(c, depth, false, sofar) == (Outcome::Done {
            value: sofar + members_meant(v),
            pos: c.pos + gap.len() + more_members(v).len(),
        }),
    decreases v, 2int,
{
    let close = seq![0x7du8];
    let behind = more_members(v) + close;
    notation::lemma_split(c.bytes, c.pos, gap, behind);
    let p = c.pos + gap.len();
    notation::lemma_first(c.bytes, p, behind);
    lemma_behind_member(c, gap, behind[0]);
    if v.len() == 0 {
        assert(sofar + members_meant(v) =~= sofar);
        lemma_no_member(c, p, depth, false, sofar);
    } else {
        let d = c.at(p + 1);
        let t = v.drop_first();
        assert(behind =~= seq![0x2cu8] + (members(v) + close));
        notation::lemma_split(c.bytes, p, seq![0x2cu8], members(v) + close);
        lemma_members_split(v);
        lemma_member(d, v, depth);
        let x = v[0];
        let s = d.pos + x.before.len();
        let q = d.pos + member_end(v);
        let j = (characters(x.key), meant(x.form));
        lemma_sound_rest_members(v, depth);
        lemma_more_members(c.at(q), x.after, t, depth, sofar.push(j));
        assert(sofar.push(j) + members_meant(t) =~= sofar + members_meant(v)) by {
            assert(members_meant(v) =~= seq![j] + members_meant(t));
        }
        lemma_step_member(c, s, q, j, depth, false, sofar);
    }
}

/// An object from its opening brace on.
#[verifier::rlimit(40)]
proof fn lemma_object(c: Cursor, gap: Seq<u8>, v: Seq<Member>, depth: int)
    requires
        c.valid(),
        sound(Form::Object(gap, v), depth),
        notation::holds(c.bytes, c.pos, written(Form::Object(gap, v))),
    ensures
        grammar::value(c, depth) == (Outcome::Done {
            value: meant(Form::Object(gap, v)),
            pos: c.pos + written(Form::Object(gap, v)).len(),
        }),
    decreases v, 3int,
{
    reveal(grammar::value);
    let close = seq![0x7du8];
    let inner = if v.len() == 0 {
        gap
    } else {
        members(v)
    };
    notation::lemma_first(c.bytes, c.pos, written(Form::Object(gap, v)));
    notation::lemma_split(c.bytes, c.pos, seq![0x7bu8], inner + close);
    assert(grammar::spaced(c) == c);
    let d = c.at(c.pos + 1);
    let r = d.pos + inner.len();
    let none = Seq::<(Seq<char>, Json)>::empty();
    let o = grammar::members(d, depth - 1, true, none);
    notation::lemma_split(c.bytes, d.pos, inner, close);
    notation::lemma_first(c.bytes, r, close);
    assert(meant(Form::Object(gap, v))->Object_0 =~= members_meant(v));
    if v.len() == 0 {
        lemma_skip(c.bytes, d.pos, gap);
        assert(members_meant(v) =~= none);
        assert(o == (Outcome::Done { value: none, pos: r }));
    } else {
        let x = v[0];
        let t = v.drop_first();
        assert(sound_members(v, depth - 1));
        lemma_members_split(v);
        lemma_member(d, v, depth - 1);
        let p = d.pos + x.before.len();
        let q = d.pos + member_end(v);
        let j = (characters(x.key), meant(x.form));
        lemma_sound_rest_members(v, depth - 1);
        lemma_more_members(c.at(q), x.after, t, depth - 1, none.push(j));
        assert(none.push(j) + members_meant(t) =~= members_meant(v));
        assert(grammar::next_key(d, true) == (Outcome::Done { value: true, pos: p }));
        assert(o == grammar::members(d.at(q), depth - 1, false, none.push(j)));
    }
    assert(grammar::spaced(d.at(r)) == d.at(r));
    assert(grammar::end_map(d.at(r)) == (Outcome::Done { value: (), pos: r + 1 }));
}

} // verus!
