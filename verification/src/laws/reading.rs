//! Laws of documents, bytes and enums.
use crate::error::ErrorCode;
use crate::laws::forms::Form;
use crate::laws::pieces::Piece;
use crate::laws::{documents, forms, notation, only, pieces, refusals, steps, strings};
use crate::outcome::Outcome;
use crate::read::Cursor;
use crate::string::Bytes;
use crate::value::Json;
use crate::{grammar, progress, string};
use vstd::prelude::*;
use vstd::utf8::*;

verus! {

/// A value with blanks before it is read as what it means.
pub proof fn law_spaced_form(c: Cursor, before: Seq<u8>, f: Form, depth: int)
    requires
        c.valid(),
        documents::blank(before),
        forms::sound(f, depth),
        notation::holds(c.bytes, c.pos, before + forms::written(f)),
        refusals::over(c, f, c.pos + before.len() + forms::written(f).len()),
    ensures
        grammar::value(c, depth) == (Outcome::Done {
            value: forms::meant(f),
            pos: c.pos + before.len() + forms::written(f).len(),
        }),
{
    let w = forms::written(f);
    notation::lemma_split(c.bytes, c.pos, before, w);
    let p = c.pos + before.len();
    forms::lemma_head(f, depth);
    notation::lemma_first(c.bytes, p, w);
    forms::lemma_skip(c.bytes, c.pos, before);
    forms::law_form(c.at(p), f, depth);
    documents::law_leading_space(c, depth);
}

/// Whether a text is a document: a value with blanks around it.
pub open spec fn document(text: Seq<u8>, before: Seq<u8>, f: Form, after: Seq<u8>) -> bool {
    &&& documents::blank(before)
    &&& documents::blank(after)
    &&& text == before + forms::written(f) + after
}

/// A document is read as what its value means.
pub proof fn law_document(c: Cursor, before: Seq<u8>, f: Form, after: Seq<u8>, depth: int)
    requires
        c.valid(),
        !c.broken(),
        c.pos == 0,
        forms::sound(f, depth),
        document(c.bytes, before, f, after),
    ensures
        grammar::document(c, depth) == (Outcome::Done {
            value: forms::meant(f),
            pos: c.bytes.len() as int,
        }),
{
    let w = before + forms::written(f);
    assert(notation::holds(c.bytes, 0, w + after));
    notation::lemma_split(c.bytes, 0, w, after);
    let e = w.len() as int;
    if after.len() > 0 {
        notation::lemma_first(c.bytes, e, after);
        assert(notation::white(after[0]));
    }
    law_spaced_form(c, before, f, depth);
    steps::law_expected(c.at(e), after);
}

/// Nothing else is accepted as a document.
pub proof fn law_document_only(c: Cursor, depth: int) -> (r: (Seq<u8>, Form, Seq<u8>))
    requires
        c.valid(),
        !c.broken(),
        c.pos == 0,
        depth >= 1,
        grammar::document(c, depth) is Done,
    ensures
        forms::sound(r.1, depth),
        document(c.bytes, r.0, r.1, r.2),
{
    let (before, f) = only::law_form_only(c, depth);
    let w = before + forms::written(f);
    let e = c.at(w.len() as int);
    let after = forms::lemma_blank_found(e);
    steps::law_expected(e, after);
    notation::lemma_join(c.bytes, 0, w, after);
    assert(c.bytes =~= w + after) by {
        assert forall|i: int| 0 <= i < c.bytes.len() implies c.bytes[i] == (w + after)[i] by {
            assert(c.bytes[0 + i] == (w + after)[i]);
        }
    }
    (before, f, after)
}

/// A document is refused where its value is, and for what follows its value.
pub proof fn law_document_refused(c: Cursor, gap: Seq<u8>, depth: int)
    requires
        c.valid(),
        grammar::value(c, depth) matches Outcome::Done { pos, .. } ==> steps::gap_at(
            c.at(pos),
            gap,
        ),
    ensures
        match grammar::value(c, depth) {
            Outcome::Done { value, pos } => grammar::document(c, depth) == steps::found(
                c,
                pos + gap.len(),
                steps::refused(ErrorCode::TrailingCharacters, pos + gap.len()),
                Outcome::Done { value, pos: pos + gap.len() },
            ),
            o => grammar::document(c, depth) == o,
        },
{
    if let Outcome::Done { value, pos } = grammar::value(c, depth) {
        progress::lemma_value(c, depth);
        steps::law_expected(c.at(pos), gap);
    }
}

/// Where bytes are wanted, a string gives the bytes that its pieces mean.
pub proof fn law_bytes(c: Cursor, gap: Seq<u8>, p: Seq<Piece>, depth: int)
    requires
        c.valid(),
        documents::blank(gap),
        pieces::sound(p, false),
        notation::holds(c.bytes, c.pos, gap + (seq![0x22u8] + forms::closed(p))),
    ensures
        ({
            let b = Bytes { bytes: pieces::meant(p), borrowed: c.lends && pieces::plain(p) };
            let end = c.pos + gap.len() + 1 + forms::closed(p).len();
            &&& grammar::bytes_start(c) == (Outcome::Done { value: Some(b), pos: end })
            &&& grammar::bytes(c, depth) == (Outcome::Done {
                value: grammar::BytesOr::Bytes(b),
                pos: end,
            })
        }),
{
    let q = seq![0x22u8] + forms::closed(p);
    notation::lemma_split(c.bytes, c.pos, gap, q);
    let i = c.pos + gap.len();
    notation::lemma_first(c.bytes, i, q);
    notation::lemma_split(c.bytes, i, seq![0x22u8], forms::closed(p));
    steps::law_starts(c, gap, depth);
    pieces::law_pieces(c.at(i + 1), p, false);
}

/// Bytes without quotes and backslashes between two quotes are given as they
/// are.
pub proof fn law_bytes_verbatim(c: Cursor, gap: Seq<u8>, s: Seq<u8>, depth: int)
    requires
        c.valid(),
        documents::blank(gap),
        forall|k: int| 0 <= k < s.len() ==> #[trigger] s[k] != 0x22 && s[k] != 0x5c,
        notation::holds(c.bytes, c.pos, gap + (seq![0x22u8] + (s + seq![0x22u8]))),
    ensures
        grammar::bytes(c, depth) == (Outcome::Done {
            value: grammar::BytesOr::Bytes(Bytes { bytes: s, borrowed: c.lends }),
            pos: c.pos + gap.len() + s.len() + 2,
        }),
{
    let p = Seq::new(s.len(), |i: int| Piece::Itself(s[i]));
    lemma_verbatim(s);
    assert forall|i: int| 0 <= i < p.len() implies (#[trigger] p[i]).sound(false) by {
        assert(s[i] != 0x22 && s[i] != 0x5c);
    }
    law_bytes(c, gap, p, depth);
}

proof fn lemma_verbatim(s: Seq<u8>)
    ensures
        pieces::written(Seq::new(s.len(), |i: int| Piece::Itself(s[i]))) == s,
        pieces::meant(Seq::new(s.len(), |i: int| Piece::Itself(s[i]))) == s,
    decreases s.len(),
{
    let p = Seq::new(s.len(), |i: int| Piece::Itself(s[i]));
    if s.len() > 0 {
        let t = s.drop_first();
        lemma_verbatim(t);
        assert(p.drop_first() =~= Seq::new(t.len(), |i: int| Piece::Itself(t[i])));
        assert(seq![s[0]] + t =~= s);
    } else {
        assert(pieces::written(p) =~= s);
        assert(pieces::meant(p) =~= s);
    }
}

/// Where a value is text, its bytes are the encoding of that and end at the
/// same place; any other value is what it is, and what is refused as a value
/// that is no string is refused.
pub proof fn law_bytes_or_value(c: Cursor, gap: Seq<u8>, depth: int)
    requires
        c.valid(),
        steps::gap_at(c, gap),
    ensures
        ({
            let p = c.pos + gap.len();
            let quoted = p < c.bytes.len() && c.bytes[p] == 0x22;
            let o = grammar::bytes(c, depth);
            let v = grammar::value(c, depth);
            &&& v matches Outcome::Done { value: Json::String(t), pos } ==> {
                &&& o matches Outcome::Done { value: grammar::BytesOr::Bytes(b), pos: q }
                &&& b.bytes == encode_utf8(t)
                &&& q == pos
            }
            &&& !quoted ==> match v {
                Outcome::Done { value, pos } => o == (Outcome::Done {
                    value: grammar::BytesOr::Other(value),
                    pos,
                }),
                Outcome::Fail { code, place, pos } => o == (Outcome::<grammar::BytesOr>::Fail {
                    code,
                    place,
                    pos,
                }),
                Outcome::Torn { code, place } => o == (Outcome::<grammar::BytesOr>::Torn {
                    code,
                    place,
                }),
                Outcome::Broken { placed, moved } => o == (Outcome::<grammar::BytesOr>::Broken {
                    placed,
                    moved,
                }),
            }
            &&& quoted ==> match string::raw_string(c.at(p + 1), false) {
                Outcome::Done { value, pos } => o == (Outcome::Done {
                    value: grammar::BytesOr::Bytes(value),
                    pos,
                }),
                x => o == x.recast::<grammar::BytesOr>(),
            }
        }),
{
    steps::law_starts(c, gap, depth);
    steps::law_head(c, gap, depth);
    steps::law_expected(c, gap);
    documents::law_leading_space(c, depth);
    let p = c.pos + gap.len();
    if p < c.bytes.len() && c.bytes[p] == 0x22 {
        strings::law_bytes_and_text(c.at(p + 1));
    } else if let Outcome::Done { value: Json::String(t), pos } = grammar::value(c, depth) {
        lemma_quoted(c, gap, depth);
    }
}

/// Only a quote begins a string.
proof fn lemma_quoted(c: Cursor, gap: Seq<u8>, depth: int)
    requires
        c.valid(),
        steps::gap_at(c, gap),
        grammar::value(c, depth) matches Outcome::Done { value: Json::String(_), .. },
    ensures
        c.pos + gap.len() < c.bytes.len(),
        c.bytes[c.pos + gap.len()] == 0x22,
{
    reveal(grammar::value);
    forms::lemma_skip(c.bytes, c.pos, gap);
}

/// An enum with data is a name and data between braces.
pub proof fn law_variant(
    c: Cursor,
    gap: Seq<u8>,
    before: Seq<u8>,
    name: Form,
    behind_name: Seq<u8>,
    behind_colon: Seq<u8>,
    data: Form,
    after: Seq<u8>,
    depth: int,
)
    requires
        c.valid(),
        depth > 1,
        documents::blank(gap),
        documents::blank(before),
        documents::blank(behind_name),
        documents::blank(behind_colon),
        documents::blank(after),
        forms::sound(name, depth - 1),
        forms::sound(data, depth - 1),
        notation::holds(
            c.bytes,
            c.pos,
            gap + (seq![0x7bu8] + ((before + forms::written(name)) + (behind_name + (seq![0x3au8]
                + ((behind_colon + forms::written(data)) + (after + seq![0x7du8])))))),
        ),
    ensures
        grammar::variant(c, depth) == (Outcome::Done {
            value: (forms::meant(name), Some(forms::meant(data))),
            pos: c.pos + gap.len() + 1 + before.len() + forms::written(name).len()
                + behind_name.len() + 1 + behind_colon.len() + forms::written(data).len()
                + after.len() + 1,
        }),
        grammar::depth_after_variant(c, depth) == depth,
{
    let t1 = after + seq![0x7du8];
    let d = behind_colon + forms::written(data);
    let t2 = d + t1;
    let t3 = seq![0x3au8] + t2;
    let t4 = behind_name + t3;
    let n = before + forms::written(name);
    let t5 = n + t4;
    let t6 = seq![0x7bu8] + t5;
    notation::lemma_split(c.bytes, c.pos, gap, t6);
    let i = c.pos + gap.len();
    notation::lemma_first(c.bytes, i, t6);
    steps::law_starts(c, gap, depth);
    notation::lemma_split(c.bytes, i, seq![0x7bu8], t5);
    let e = c.at(i + 1);
    notation::lemma_split(c.bytes, e.pos, n, t4);
    let p = e.pos + n.len();
    notation::lemma_first(c.bytes, p, t4);
    assert(t4[0] == 0x3a || notation::white(t4[0])) by {
        if behind_name.len() > 0 {
            assert(t4[0] == behind_name[0]);
            assert(notation::white(behind_name[0]));
        }
    }
    law_spaced_form(e, before, name, depth - 1);
    notation::lemma_split(c.bytes, p, behind_name, t3);
    let q = p + behind_name.len();
    notation::lemma_first(c.bytes, q, t3);
    steps::law_expected(c.at(p), behind_name);
    notation::lemma_split(c.bytes, q, seq![0x3au8], t2);
    notation::lemma_split(c.bytes, q + 1, d, t1);
    let r = q + 1 + d.len();
    notation::lemma_first(c.bytes, r, t1);
    assert(t1[0] == 0x7d || notation::white(t1[0])) by {
        if after.len() > 0 {
            assert(t1[0] == after[0]);
            assert(notation::white(after[0]));
        }
    }
    law_spaced_form(c.at(q + 1), behind_colon, data, depth - 1);
    notation::lemma_split(c.bytes, r, after, seq![0x7du8]);
    notation::lemma_first(c.bytes, r + after.len(), seq![0x7du8]);
    steps::law_expected(c.at(r), after);
    assert(e.at(p) == c.at(p));
    assert(e.at(q + 1) == c.at(q + 1));
}

/// An enum without data is a string; it passes on what is refused of that.
pub proof fn law_unit_variant(c: Cursor, gap: Seq<u8>, depth: int)
    requires
        c.valid(),
        steps::gap_at(c, gap),
        c.pos + gap.len() < c.bytes.len(),
        c.bytes[c.pos + gap.len()] == 0x22,
    ensures
        match grammar::value(c, depth) {
            Outcome::Done { value, pos } => grammar::variant(c, depth) == (Outcome::Done {
                value: (value, None::<Json>),
                pos,
            }),
            o => grammar::variant(c, depth) == o.recast::<(Json, Option<Json>)>(),
        },
        grammar::depth_after_variant(c, depth) == depth,
{
    steps::law_starts(c, gap, depth);
    steps::law_expected(c, gap);
    documents::law_leading_space(c, depth);
    let p = c.pos + gap.len();
    steps::law_head(c, gap, depth);
    progress::lemma_flat_scalars(c.at(p + 1));
}

/// An enum that is refused: where it begins with neither a brace nor a quote,
/// and between its braces where its name, its colon, its data or its closing
/// brace is. What is refused between the braces costs their level.
pub proof fn law_variant_refused(c: Cursor, gap: Seq<u8>, depth: int)
    requires
        c.valid(),
        steps::gap_at(c, gap),
    ensures
        ({
            let p = c.pos + gap.len();
            let b = c.bytes[p];
            let o = grammar::variant(c, depth);
            let left = grammar::depth_after_variant(c, depth);
            let d = c.at(p + 1);
            &&& p == c.bytes.len() && c.failure is None ==> o == steps::ended::<
                (Json, Option<Json>),
            >(ErrorCode::EofWhileParsingValue, p) && left == depth
            &&& p < c.bytes.len() && b != 0x7b && b != 0x22 ==> o == steps::refused::<
                (Json, Option<Json>),
            >(ErrorCode::ExpectedSomeValue, p) && left == depth
            &&& p < c.bytes.len() && b == 0x7b && depth <= 1 ==> o == steps::refused::<
                (Json, Option<Json>),
            >(ErrorCode::RecursionLimitExceeded, p) && left == depth - 1
            &&& p < c.bytes.len() && b == 0x7b && depth > 1 ==> match grammar::value(
                d,
                depth - 1,
            ) {
                Outcome::Done { value: name, pos: n } => match grammar::object_colon(c.at(n)) {
                    Outcome::Done { pos: l, .. } => match grammar::value(c.at(l), depth - 1) {
                        Outcome::Done { value: data, pos: e } => left == depth
                            && match grammar::enum_end(c.at(e)) {
                            Outcome::Done { pos, .. } => o == (Outcome::Done {
                                value: (name, Some(data)),
                                pos,
                            }),
                            x => o == x.recast::<(Json, Option<Json>)>(),
                        },
                        x => o == x.recast::<(Json, Option<Json>)>() && left == (if x.code()
                            == Some(ErrorCode::RecursionLimitExceeded) {
                            depth - 2
                        } else {
                            depth - 1
                        }),
                    },
                    x => o == x.recast::<(Json, Option<Json>)>() && left == depth - 1,
                },
                x => o == x.recast::<(Json, Option<Json>)>() && left == (if x.code() == Some(
                    ErrorCode::RecursionLimitExceeded,
                ) {
                    depth - 2
                } else {
                    depth - 1
                }),
            }
        }),
{
    steps::law_starts(c, gap, depth);
    let p = c.pos + gap.len();
    let d = c.at(p + 1);
    if p < c.bytes.len() && c.bytes[p] == 0x7b && depth > 1 {
        progress::lemma_value(d, depth - 1);
        if let Outcome::Done { value, pos } = grammar::value(d, depth - 1) {
            assert(d.at(pos) == c.at(pos));
            let g = forms::lemma_blank_found(c.at(pos));
            steps::law_expected(c.at(pos), g);
        }
    }
}

/// An option is `null` or the value that stands there.
pub proof fn law_option(c: Cursor, depth: int)
    requires
        c.valid(),
    ensures
        match grammar::value(c, depth) {
            Outcome::Done { value: Json::Null, pos } => grammar::option(c, depth) == (
            Outcome::Done { value: None::<Json>, pos }),
            Outcome::Done { value, pos } => grammar::option(c, depth) == (Outcome::Done {
                value: Some(value),
                pos,
            }),
            o => grammar::option(c, depth) == o.recast::<Option<Json>>(),
        },
{
    documents::law_option(c, depth);
}

} // verus!
