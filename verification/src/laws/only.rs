//! Nothing but the forms of values is read as a value.
use crate::laws::forms::{Form, Item, Member};
use crate::laws::pieces::Piece;
use crate::laws::{documents, forms, notation, numerals, pieces};
use crate::outcome::Outcome;
use crate::read::Cursor;
use crate::value::Json;
use crate::{grammar, progress, string};
use vstd::prelude::*;

verus! {

/// A word that was read stands there.
proof fn lemma_word_found(c: Cursor, word: Seq<u8>, k: int)
    requires
        c.valid(),
        0 <= k <= word.len(),
        grammar::ident(c, word, k) is Done,
    ensures
        notation::holds(c.bytes, c.pos, word.skip(k)),
    decreases word.len() - k,
{
    if k < word.len() {
        lemma_word_found(c.at(c.pos + 1), word, k + 1);
        assert(notation::holds(c.bytes, c.pos, seq![word[k]]));
        notation::lemma_join(c.bytes, c.pos, seq![word[k]], word.skip(k + 1));
        assert(word.skip(k) =~= seq![word[k]] + word.skip(k + 1));
    }
}

proof fn lemma_words_found(s: Cursor, depth: int) -> (f: Form)
    requires
        s.valid(),
        !s.spent(),
        s.bytes[s.pos] == 0x6e || s.bytes[s.pos] == 0x74 || s.bytes[s.pos] == 0x66,
        grammar::token(s, depth) is Done,
    ensures
        f is Null || f is True || f is False,
        notation::holds(s.bytes, s.pos, forms::written(f)),
{
    let b = s.bytes[s.pos];
    let t = s.at(s.pos + 1);
    assert(grammar::spaced(s) == s);
    assert(notation::holds(s.bytes, s.pos, seq![b]));
    if b == 0x6e {
        lemma_word_found(t, grammar::ull(), 0);
        assert(grammar::ull().skip(0) =~= grammar::ull());
        notation::lemma_join(s.bytes, s.pos, seq![b], grammar::ull());
        assert(forms::null() =~= seq![b] + grammar::ull());
        Form::Null
    } else if b == 0x74 {
        lemma_word_found(t, grammar::rue(), 0);
        assert(grammar::rue().skip(0) =~= grammar::rue());
        notation::lemma_join(s.bytes, s.pos, seq![b], grammar::rue());
        assert(forms::yes() =~= seq![b] + grammar::rue());
        Form::True
    } else {
        lemma_word_found(t, grammar::alse(), 0);
        assert(grammar::alse().skip(0) =~= grammar::alse());
        notation::lemma_join(s.bytes, s.pos, seq![b], grammar::alse());
        assert(forms::no() =~= seq![b] + grammar::alse());
        Form::False
    }
}

/// A string that was read as text is written in pieces that mean text.
pub proof fn law_text_only(c: Cursor) -> (p: Seq<Piece>)
    requires
        c.valid(),
        string::text(c) is Done,
    ensures
        forms::textual(p),
        notation::holds(c.bytes, c.pos, forms::closed(p)),
        string::text(c)->Done_pos == c.pos + forms::closed(p).len(),
        string::text(c)->Done_value.chars == forms::characters(p),
{
    reveal(string::text);
    reveal(forms::textual);
    let p = pieces::law_pieces_only(c, true);
    pieces::law_text(c, p);
    forms::lemma_textual(c, p);
    p
}

/// What is read as a value is a form, with blanks before it.
pub proof fn law_form_only(c: Cursor, depth: int) -> (r: (Seq<u8>, Form))
    requires
        c.valid(),
        !c.broken(),
        depth >= 1,
        grammar::value(c, depth) is Done,
    ensures
        documents::blank(r.0),
        forms::sound(r.1, depth),
        notation::holds(c.bytes, c.pos, r.0 + forms::written(r.1)),
        ({
            let end = c.pos + r.0.len() + forms::written(r.1).len();
            &&& end < c.bytes.len() ==> forms::ends(r.1, c.bytes[end])
            &&& grammar::value(c, depth) == (Outcome::Done { value: forms::meant(r.1), pos: end })
        }),
    decreases depth, c.bytes.len() - c.pos, 1int,
{
    let gap = forms::lemma_blank_found(c);
    let s = c.at(c.pos + gap.len());
    documents::law_leading_space(c, depth);
    assert(grammar::spaced(c) == s);
    let f = lemma_form_found(s, depth);
    forms::law_form(s, f, depth);
    notation::lemma_join(c.bytes, c.pos, gap, forms::written(f));
    (gap, f)
}

proof fn lemma_form_found(s: Cursor, depth: int) -> (f: Form)
    requires
        s.valid(),
        !s.broken(),
        depth >= 1,
        grammar::value(s, depth) is Done,
        grammar::spaced(s) == s,
    ensures
        forms::sound(f, depth),
        notation::holds(s.bytes, s.pos, forms::written(f)),
        ({
            let end = s.pos + forms::written(f).len();
            end < s.bytes.len() ==> forms::ends(f, s.bytes[end])
        }),
    decreases depth, s.bytes.len() - s.pos, 0int,
{
    reveal(grammar::value);
    let b = s.bytes[s.pos];
    let d = s.at(s.pos + 1);
    if b == 0x2d || notation::digit(b) {
        let n = numerals::law_numeral_only(s, depth);
        Form::Number(n)
    } else if b == 0x6e || b == 0x74 || b == 0x66 {
        lemma_words_found(s, depth)
    } else if b == 0x22 {
        let p = law_text_only(d);
        assert(notation::holds(s.bytes, s.pos, seq![0x22u8]));
        notation::lemma_join(s.bytes, s.pos, seq![0x22u8], forms::closed(p));
        Form::String(p)
    } else if b == 0x5b {
        assert(notation::holds(s.bytes, s.pos, seq![0x5bu8]));
        let (gap, v) = lemma_items_found(d, depth - 1);
        let f = Form::Array(gap, v);
        notation::lemma_join(
            s.bytes,
            s.pos,
            seq![0x5bu8],
            (if v.len() == 0 {
                gap
            } else {
                forms::items(v)
            }) + seq![0x5du8],
        );
        f
    } else {
        assert(notation::holds(s.bytes, s.pos, seq![0x7bu8]));
        let (gap, v) = lemma_members_found(d, depth - 1);
        let f = Form::Object(gap, v);
        notation::lemma_join(
            s.bytes,
            s.pos,
            seq![0x7bu8],
            (if v.len() == 0 {
                gap
            } else {
                forms::members(v)
            }) + seq![0x7du8],
        );
        f
    }
}

/// An element in front of others.
proof fn lemma_items_cons(b: Seq<u8>, i: int, x: Item, t: Seq<Item>, depth: int)
    requires
        documents::blank(x.before),
        documents::blank(x.after),
        forms::sound(x.form, depth),
        forms::sound_items(t, depth),
        notation::holds(b, i, x.before + forms::written(x.form)),
        notation::holds(
            b,
            i + x.before.len() + forms::written(x.form).len(),
            x.after + (forms::more_items(t) + seq![0x5du8]),
        ),
    ensures
        forms::sound_items(seq![x] + t, depth),
        notation::holds(b, i, forms::items(seq![x] + t) + seq![0x5du8]),
{
    let v = seq![x] + t;
    assert(v.drop_first() =~= t);
    assert forall|k: int| 0 <= k < v.len() implies documents::blank((#[trigger] v[k]).before)
        && documents::blank(v[k].after) && forms::sound(v[k].form, depth) by {
        if k > 0 {
            assert(v[k] == t[k - 1]);
        }
    }
    let head = x.before + forms::written(x.form);
    let tail = x.after + (forms::more_items(t) + seq![0x5du8]);
    notation::lemma_join(b, i, head, tail);
    assert(head + tail =~= forms::items(v) + seq![0x5du8]);
}

proof fn lemma_items_found(c: Cursor, depth: int) -> (r: (Seq<u8>, Seq<Item>))
    requires
        c.valid(),
        !c.broken(),
        depth >= 1,
        grammar::elements(c, depth, true, Seq::empty()) is Done,
    ensures
        documents::blank(r.0),
        forms::sound_items(r.1, depth),
        notation::holds(
            c.bytes,
            c.pos,
            (if r.1.len() == 0 {
                r.0
            } else {
                forms::items(r.1)
            }) + seq![0x5du8],
        ),
    decreases depth, c.bytes.len() - c.pos, 3int,
{
    reveal(grammar::value);
    let gap = forms::lemma_blank_found(c);
    progress::lemma_between(c, true);
    let more = grammar::next_element(c, true)->Done_value;
    let p = c.pos + gap.len();
    if more {
        documents::law_leading_space(c, depth);
        let (before, f) = law_form_only(c, depth);
        let j = grammar::value(c, depth)->Done_value;
        let q = grammar::value(c, depth)->Done_pos;
        progress::lemma_value(c, depth);
        let (after, t) = lemma_more_items_found(c.at(q), depth, Seq::empty().push(j));
        let x = Item { before, form: f, after };
        lemma_items_cons(c.bytes, c.pos, x, t, depth);
        (Seq::empty(), seq![x] + t)
    } else {
        assert(notation::holds(c.bytes, p, seq![0x5du8]));
        notation::lemma_join(c.bytes, c.pos, gap, seq![0x5du8]);
        (gap, Seq::empty())
    }
}

proof fn lemma_more_items_found(c: Cursor, depth: int, sofar: Seq<Json>) -> (r: (
    Seq<u8>,
    Seq<Item>,
))
    requires
        c.valid(),
        !c.broken(),
        depth >= 1,
        grammar::elements(c, depth, false, sofar) is Done,
    ensures
        documents::blank(r.0),
        forms::sound_items(r.1, depth),
        notation::holds(c.bytes, c.pos, r.0 + (forms::more_items(r.1) + seq![0x5du8])),
    decreases depth, c.bytes.len() - c.pos, 3int,
{
    reveal(grammar::value);
    let gap = forms::lemma_blank_found(c);
    progress::lemma_between(c, false);
    let more = grammar::next_element(c, false)->Done_value;
    let p = c.pos + gap.len();
    let close = seq![0x5du8];
    if more {
        let d = c.at(p + 1);
        assert(notation::holds(c.bytes, p, seq![0x2cu8]));
        let (before, f) = law_form_only(d, depth);
        let j = grammar::value(d, depth)->Done_value;
        let q = grammar::value(d, depth)->Done_pos;
        progress::lemma_value(d, depth);
        let (after, t) = lemma_more_items_found(c.at(q), depth, sofar.push(j));
        let x = Item { before, form: f, after };
        lemma_items_cons(c.bytes, d.pos, x, t, depth);
        let v = seq![x] + t;
        notation::lemma_join(c.bytes, p, seq![0x2cu8], forms::items(v) + close);
        assert(seq![0x2cu8] + (forms::items(v) + close) =~= forms::more_items(v) + close);
        notation::lemma_join(c.bytes, c.pos, gap, forms::more_items(v) + close);
        (gap, v)
    } else {
        let v = Seq::<Item>::empty();
        assert(notation::holds(c.bytes, p, close));
        assert(forms::more_items(v) + close =~= close);
        notation::lemma_join(c.bytes, c.pos, gap, close);
        (gap, v)
    }
}

/// A member that was read, from the opening quote of its key on, without the
/// blanks around it.
proof fn lemma_member_found(c: Cursor, depth: int) -> (m: Member)
    requires
        c.valid(),
        !c.broken(),
        !c.spent(),
        c.bytes[c.pos] == 0x22,
        depth >= 1,
        grammar::member(c, depth) is Done,
    ensures
        forms::textual(m.key),
        documents::blank(m.behind_key),
        documents::blank(m.behind_colon),
        forms::sound(m.form, depth),
        notation::holds(
            c.bytes,
            c.pos,
            seq![0x22u8] + (forms::closed(m.key) + (m.behind_key + (seq![0x3au8] + (m.behind_colon
                + forms::written(m.form))))),
        ),
        grammar::member(c, depth)->Done_pos == c.pos + 1 + forms::closed(m.key).len()
            + m.behind_key.len() + 1 + m.behind_colon.len() + forms::written(m.form).len(),
    decreases depth, c.bytes.len() - c.pos, 2int,
{
    reveal(grammar::value);
    let d = c.at(c.pos + 1);
    progress::lemma_text(d);
    let key = law_text_only(d);
    let e = c.at(string::text(d)->Done_pos);
    progress::lemma_between(e, true);
    let behind_key = forms::lemma_blank_found(e);
    let l = e.pos + behind_key.len();
    assert(notation::holds(c.bytes, l, seq![0x3au8]));
    let g = c.at(l + 1);
    let (behind_colon, form) = law_form_only(g, depth);
    let w = behind_colon + forms::written(form);
    notation::lemma_join(c.bytes, l, seq![0x3au8], w);
    notation::lemma_join(c.bytes, e.pos, behind_key, seq![0x3au8] + w);
    notation::lemma_join(
        c.bytes,
        d.pos,
        forms::closed(key),
        behind_key + (seq![0x3au8] + w),
    );
    assert(notation::holds(c.bytes, c.pos, seq![0x22u8]));
    notation::lemma_join(
        c.bytes,
        c.pos,
        seq![0x22u8],
        forms::closed(key) + (behind_key + (seq![0x3au8] + w)),
    );
    Member {
        before: Seq::empty(),
        key,
        behind_key,
        behind_colon,
        form,
        after: Seq::empty(),
    }
}

/// A member in front of others.
proof fn lemma_members_cons(b: Seq<u8>, i: int, x: Member, t: Seq<Member>, depth: int)
    requires
        documents::blank(x.before),
        forms::textual(x.key),
        documents::blank(x.behind_key),
        documents::blank(x.behind_colon),
        documents::blank(x.after),
        forms::sound(x.form, depth),
        forms::sound_members(t, depth),
        notation::holds(b, i, x.before),
        notation::holds(
            b,
            i + x.before.len(),
            seq![0x22u8] + (forms::closed(x.key) + (x.behind_key + (seq![0x3au8] + (x.behind_colon
                + forms::written(x.form))))),
        ),
        notation::holds(
            b,
            i + x.before.len() + 1 + forms::closed(x.key).len() + x.behind_key.len() + 1
                + x.behind_colon.len() + forms::written(x.form).len(),
            x.after + (forms::more_members(t) + seq![0x7du8]),
        ),
    ensures
        forms::sound_members(seq![x] + t, depth),
        notation::holds(b, i, forms::members(seq![x] + t) + seq![0x7du8]),
{
    let v = seq![x] + t;
    assert(v.drop_first() =~= t);
    assert forall|k: int| 0 <= k < v.len() implies documents::blank((#[trigger] v[k]).before)
        && forms::textual(v[k].key) && documents::blank(v[k].behind_key) && documents::blank(
        v[k].behind_colon,
    ) && documents::blank(v[k].after) && forms::sound(v[k].form, depth) by {
        if k > 0 {
            assert(v[k] == t[k - 1]);
        }
    }
    let close = seq![0x7du8];
    let m = forms::more_members(t);
    let w = forms::written(x.form);
    let mid = seq![0x22u8] + (forms::closed(x.key) + (x.behind_key + (seq![0x3au8] + (
    x.behind_colon + w))));
    notation::lemma_join(b, i, x.before, mid);
    notation::lemma_join(b, i, x.before + mid, x.after + (m + close));
    let a1 = x.after + m;
    let a2 = w + a1;
    let a3 = x.behind_colon + a2;
    let a4 = seq![0x3au8] + a3;
    let a5 = x.behind_key + a4;
    let a6 = forms::closed(x.key) + a5;
    let a7 = seq![0x22u8] + a6;
    assert(forms::members(v) == x.before + a7);
    assert(a3 =~= (x.behind_colon + w) + a1);
    assert(a4 =~= (seq![0x3au8] + (x.behind_colon + w)) + a1);
    assert(a5 =~= (x.behind_key + (seq![0x3au8] + (x.behind_colon + w))) + a1);
    assert(a6 =~= (forms::closed(x.key) + (x.behind_key + (seq![0x3au8] + (x.behind_colon + w))))
        + a1);
    assert(a7 =~= mid + a1);
    assert(x.before + a7 =~= (x.before + mid) + a1);
    assert(((x.before + mid) + a1) + close =~= (x.before + mid) + (x.after + (m + close)));
}

proof fn lemma_members_found(c: Cursor, depth: int) -> (r: (Seq<u8>, Seq<Member>))
    requires
        c.valid(),
        !c.broken(),
        depth >= 1,
        grammar::members(c, depth, true, Seq::empty()) is Done,
    ensures
        documents::blank(r.0),
        forms::sound_members(r.1, depth),
        notation::holds(
            c.bytes,
            c.pos,
            (if r.1.len() == 0 {
                r.0
            } else {
                forms::members(r.1)
            }) + seq![0x7du8],
        ),
    decreases depth, c.bytes.len() - c.pos, 4int,
{
    reveal(grammar::value);
    let gap = forms::lemma_blank_found(c);
    progress::lemma_between(c, true);
    let more = grammar::next_key(c, true)->Done_value;
    let p = c.pos + gap.len();
    if more {
        let d = c.at(p);
        let m = lemma_member_found(d, depth);
        progress::lemma_member(d, depth);
        let j = grammar::member(d, depth)->Done_value;
        let q = grammar::member(d, depth)->Done_pos;
        let (after, t) = lemma_more_members_found(c.at(q), depth, Seq::empty().push(j));
        let x = Member { before: gap, after, ..m };
        lemma_members_cons(c.bytes, c.pos, x, t, depth);
        (Seq::empty(), seq![x] + t)
    } else {
        assert(notation::holds(c.bytes, p, seq![0x7du8]));
        notation::lemma_join(c.bytes, c.pos, gap, seq![0x7du8]);
        (gap, Seq::empty())
    }
}

proof fn lemma_more_members_found(c: Cursor, depth: int, sofar: Seq<(Seq<char>, Json)>) -> (r: (
    Seq<u8>,
    Seq<Member>,
))
    requires
        c.valid(),
        !c.broken(),
        depth >= 1,
        grammar::members(c, depth, false, sofar) is Done,
    ensures
        documents::blank(r.0),
        forms::sound_members(r.1, depth),
        notation::holds(c.bytes, c.pos, r.0 + (forms::more_members(r.1) + seq![0x7du8])),
    decreases depth, c.bytes.len() - c.pos, 4int,
{
    reveal(grammar::value);
    let gap = forms::lemma_blank_found(c);
    progress::lemma_between(c, false);
    let more = grammar::next_key(c, false)->Done_value;
    let p = c.pos + gap.len();
    let close = seq![0x7du8];
    if more {
        assert(notation::holds(c.bytes, p, seq![0x2cu8]));
        let g = c.at(p + 1);
        let before = forms::lemma_blank_found(g);
        let d = c.at(g.pos + before.len());
        let m = lemma_member_found(d, depth);
        progress::lemma_member(d, depth);
        let j = grammar::member(d, depth)->Done_value;
        let q = grammar::member(d, depth)->Done_pos;
        let (after, t) = lemma_more_members_found(c.at(q), depth, sofar.push(j));
        let x = Member { before, after, ..m };
        lemma_members_cons(c.bytes, g.pos, x, t, depth);
        let v = seq![x] + t;
        notation::lemma_join(c.bytes, p, seq![0x2cu8], forms::members(v) + close);
        assert(seq![0x2cu8] + (forms::members(v) + close) =~= forms::more_members(v) + close);
        notation::lemma_join(c.bytes, c.pos, gap, forms::more_members(v) + close);
        (gap, v)
    } else {
        let v = Seq::<Member>::empty();
        assert(notation::holds(c.bytes, p, close));
        assert(forms::more_members(v) + close =~= close);
        notation::lemma_join(c.bytes, c.pos, gap, close);
        (gap, v)
    }
}

} // verus!
