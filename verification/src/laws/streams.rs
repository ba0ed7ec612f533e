//! Laws of streams.
use crate::error::ErrorCode;
use crate::laws::forms::Form;
use crate::laws::{documents, forms, notation, steps};
use crate::outcome::Outcome;
use crate::read::Cursor;
use crate::stream::Run;
use crate::value::Json;
use crate::{extension, grammar, locality, progress, stream};
use vstd::prelude::*;

verus! {

/// What is left of a text from the `k`th byte on, with `more` joined to it.
pub open spec fn resumed(c: Cursor, k: int, more: Seq<u8>) -> Cursor {
    Cursor { bytes: c.bytes.skip(k) + more, pos: 0, ..c }
}

/// Skipping white space twice is skipping it once.
pub proof fn lemma_spaced_twice(c: Cursor, p: int)
    requires
        c.valid(),
        c.pos <= p <= grammar::skip_space(c.bytes, c.pos),
    ensures
        grammar::spaced(c.at(p)) == grammar::spaced(c),
    decreases p - c.pos,
{
    if c.pos < p {
        lemma_spaced_twice(c.at(c.pos + 1), p);
    }
}

/// A text that consists of white space up to its end stays so in a longer one.
proof fn lemma_space_to_end(c: Cursor, more: Seq<u8>)
    requires
        c.valid(),
        grammar::skip_space(c.bytes, c.pos) == c.bytes.len(),
    ensures
        grammar::spaced(extension::ahead(c, more)) == grammar::spaced(
            extension::ahead(c, more).at(c.bytes.len() as int),
        ),
    decreases c.bytes.len() - c.pos,
{
    if !c.spent() {
        assert((c.bytes + more)[c.pos] == c.bytes[c.pos]);
        lemma_space_to_end(c.at(c.pos + 1), more);
        assert(extension::ahead(c, more).at(c.pos + 1) == extension::ahead(
            c.at(c.pos + 1),
            more,
        ));
    }
}

/// A stream may start anywhere in the white space before its first value.
proof fn lemma_run_spaced(c: Cursor, d: Cursor, depth: int)
    requires
        c.valid(),
        d.valid(),
        d == c.at(d.pos),
        c.pos <= d.pos,
        grammar::spaced(c) == grammar::spaced(d),
    ensures
        stream::run(c, depth).values == stream::run(d, depth).values,
        stream::run(c, depth).ending == stream::run(d, depth).ending,
{
    progress::lemma_skip_space(c.bytes, c.pos);
    progress::lemma_skip_space(d.bytes, d.pos);
    progress::lemma_value(grammar::spaced(c), depth);
}

/// What a stream gives does not depend on what stands before it.
proof fn lemma_run_behind(a: Seq<u8>, c: Cursor, depth: int)
    requires
        c.valid(),
    ensures
        stream::run(locality::behind(a, c), depth) == (Run {
            values: stream::run(c, depth).values,
            offset: stream::run(c, depth).offset + a.len(),
            ending: locality::shift(stream::run(c, depth).ending, a.len() as int),
        }),
    decreases c.bytes.len() - c.pos,
{
    locality::lemma_between(a, c, true);
    progress::lemma_skip_space(c.bytes, c.pos);
    if let Outcome::Done { value: true, pos } = grammar::stream_start(c) {
        let d = c.at(pos);
        assert(locality::behind(a, c).at(a.len() + pos) == locality::behind(a, d));
        locality::lemma_value(a, d, depth);
        progress::lemma_value(d, depth);
        if let Outcome::Done { value, pos: q } = grammar::value(d, depth) {
            lemma_run_behind(a, c.at(q), depth);
            assert(locality::behind(a, c).at(a.len() + q) == locality::behind(a, c.at(q)));
        }
    }
}

proof fn lemma_run_ahead(c: Cursor, more: Seq<u8>, depth: int)
    requires
        c.valid(),
        !c.broken(),
        c.bytes.len() + more.len() <= usize::MAX,
    ensures
        c.pos <= stream::run(c, depth).offset <= c.bytes.len(),
        ({
            let first = stream::run(c, depth);
            let whole = stream::run(extension::ahead(c, more), depth);
            let rest = stream::run(extension::ahead(c, more).at(first.offset), depth);
            &&& whole.values == first.values + rest.values
            &&& whole.ending == rest.ending
        }),
    decreases c.bytes.len() - c.pos,
{
    let e = extension::ahead(c, more);
    extension::lemma_between(c, more, true);
    progress::lemma_skip_space(c.bytes, c.pos);
    let none = Seq::<Json>::empty();
    match grammar::stream_start(c) {
        Outcome::Done { value: false, pos } => {
            lemma_space_to_end(c, more);
            lemma_run_spaced(e, e.at(pos), depth);
            assert(none + stream::run(e.at(pos), depth).values =~= stream::run(e, depth).values);
        },
        Outcome::Done { value: true, pos } => {
            let d = c.at(pos);
            assert(e.at(pos) == extension::ahead(d, more));
            progress::lemma_value(d, depth);
            match grammar::value(d, depth) {
                Outcome::Done { value, pos: q } => {
                    assert(!(value is Number)) by {
                        reveal(grammar::value);
                        assert(grammar::spaced(d) == d);
                    }
                    extension::lemma_value(d, more, depth);
                    lemma_run_ahead(c.at(q), more, depth);
                    assert(e.at(q) == extension::ahead(c.at(q), more));
                    let first = stream::run(c, depth);
                    let rest = stream::run(e.at(first.offset), depth);
                    assert(stream::run(e, depth).values =~= first.values + rest.values);
                },
                o => {
                    lemma_spaced_twice(e, pos);
                    assert(grammar::spaced(e) == e.at(pos));
                    lemma_run_spaced(e, e.at(pos), depth);
                    assert(none + stream::run(e.at(pos), depth).values =~= stream::run(
                        e,
                        depth,
                    ).values);
                },
            }
        },
        o => {
            assert(e.at(c.pos) == e);
            assert(none + stream::run(e, depth).values =~= stream::run(e, depth).values);
        },
    }
}

/// A stream can be resumed. Where the text of a stream grows by `more`, its
/// values are those it had, followed by those of a stream that starts over
/// with the bytes behind the old offset and `more` joined to them. It ends as
/// that one does, at the same byte.
pub proof fn law_resumption(c: Cursor, more: Seq<u8>, depth: int)
    requires
        c.valid(),
        !c.broken(),
        c.bytes.len() + more.len() <= usize::MAX,
    ensures
        ({
            let first = stream::run(c, depth);
            let rest = stream::run(resumed(c, first.offset, more), depth);
            let whole = stream::run(extension::ahead(c, more), depth);
            &&& c.pos <= first.offset <= c.bytes.len()
            &&& whole.values == first.values + rest.values
            &&& whole.ending == locality::shift(rest.ending, first.offset)
        }),
{
    lemma_run_ahead(c, more, depth);
    let k = stream::run(c, depth).offset;
    let a = c.bytes.take(k);
    let r = resumed(c, k, more);
    assert(a + r.bytes =~= c.bytes + more);
    assert(locality::behind(a, r) == extension::ahead(c, more).at(k));
    lemma_run_behind(a, r, depth);
}

/// A document that is an array or an object is the only value of its stream.
pub proof fn law_single(c: Cursor, depth: int)
    requires
        c.valid(),
        grammar::document(c, depth) matches Outcome::Done { value, .. } && (value is Array
            || value is Object),
    ensures
        stream::run(c, depth).values == seq![grammar::document(c, depth)->Done_value],
        stream::run(c, depth).ending is Done,
{
    reveal(grammar::value);
    progress::lemma_skip_space(c.bytes, c.pos);
    let s = grammar::spaced(c);
    documents::law_leading_space(c, depth);
    progress::lemma_value(s, depth);
    let v = grammar::value(c, depth)->Done_value;
    let pos = grammar::value(c, depth)->Done_pos;
    assert(s.at(pos) == c.at(pos));
    progress::lemma_skip_space(c.bytes, pos);
    assert(stream::run(c.at(pos), depth).values =~= Seq::<Json>::empty());
    assert(seq![v] + Seq::<Json>::empty() =~= seq![v]);
}

/// A stream gives arrays and objects only.
pub proof fn law_containers_only(c: Cursor, depth: int, i: int)
    requires
        c.valid(),
        0 <= i < stream::run(c, depth).values.len(),
    ensures
        ({
            let v = stream::run(c, depth).values[i];
            v is Array || v is Object
        }),
    decreases c.bytes.len() - c.pos,
{
    reveal(grammar::value);
    progress::lemma_skip_space(c.bytes, c.pos);
    if let Outcome::Done { value: true, pos } = grammar::stream_start(c) {
        let d = c.at(pos);
        assert(grammar::spaced(d) == d);
        progress::lemma_value(d, depth);
        if let Outcome::Done { value, pos: q } = grammar::value(d, depth) {
            if i > 0 {
                law_containers_only(c.at(q), depth, i - 1);
            }
        }
    }
}

/// A value of a stream, with the blanks before it.
pub struct Entry {
    /// The blanks before it.
    pub before: Seq<u8>,
    /// The value.
    pub form: Form,
}

/// How values are written one behind the other.
pub open spec fn entries(v: Seq<Entry>) -> Seq<u8>
    decreases v.len(),
{
    if v.len() == 0 {
        Seq::empty()
    } else {
        v[0].before + forms::written(v[0].form) + entries(v.drop_first())
    }
}

/// Whether all of them are arrays and objects.
pub open spec fn sound_entries(v: Seq<Entry>, depth: int) -> bool {
    forall|i: int|
        0 <= i < v.len() ==> {
            &&& documents::blank((#[trigger] v[i]).before)
            &&& forms::sound(v[i].form, depth)
            &&& v[i].form is Array || v[i].form is Object
        }
}

/// What they mean.
pub open spec fn entries_meant(v: Seq<Entry>) -> Seq<Json> {
    Seq::new(v.len(), |i: int| forms::meant(v[i].form))
}

/// A stream gives what its arrays and objects mean, in their order, and goes
/// on behind them.
pub proof fn law_entries(c: Cursor, v: Seq<Entry>, depth: int)
    requires
        c.valid(),
        sound_entries(v, depth),
        notation::holds(c.bytes, c.pos, entries(v)),
    ensures
        ({
            let rest = stream::run(c.at(c.pos + entries(v).len()), depth);
            let whole = stream::run(c, depth);
            &&& whole.values == entries_meant(v) + rest.values
            &&& whole.offset == rest.offset
            &&& whole.ending == rest.ending
        }),
    decreases v.len(),
{
    if v.len() == 0 {
        assert(c.at(c.pos) == c);
        assert(entries_meant(v) + stream::run(c, depth).values =~= stream::run(c, depth).values);
    } else {
        let x = v[0];
        let t = v.drop_first();
        let w = forms::written(x.form);
        notation::lemma_split(c.bytes, c.pos, x.before + w, entries(t));
        notation::lemma_split(c.bytes, c.pos, x.before, w);
        let p = c.pos + x.before.len();
        let q = p + w.len();
        notation::lemma_first(c.bytes, p, w);
        forms::lemma_head(x.form, depth);
        forms::law_form(c.at(p), x.form, depth);
        steps::law_expected(c, x.before);
        assert(sound_entries(t, depth)) by {
            assert forall|i: int| 0 <= i < t.len() implies {
                &&& documents::blank((#[trigger] t[i]).before)
                &&& forms::sound(t[i].form, depth)
                &&& t[i].form is Array || t[i].form is Object
            } by {
                assert(t[i] == v[i + 1]);
            }
        }
        law_entries(c.at(q), t, depth);
        let rest = stream::run(c.at(c.pos + entries(v).len()), depth);
        assert(c.at(q).at(c.pos + entries(v).len()) == c.at(c.pos + entries(v).len()));
        assert(seq![forms::meant(x.form)] + (entries_meant(t) + rest.values) =~= entries_meant(v)
            + rest.values);
    }
}

/// A stream ends with the input, with a byte that begins neither an array nor
/// an object, or with one of those that is refused. What has been read into
/// values ends behind the blanks at the end of the input, behind the last
/// value, or before the value that is refused.
pub proof fn law_stream_end(c: Cursor, gap: Seq<u8>, depth: int)
    requires
        c.valid(),
        steps::gap_at(c, gap),
    ensures
        ({
            let p = c.pos + gap.len();
            let r = stream::run(c, depth);
            let b = c.bytes[p];
            let none = Seq::<Json>::empty();
            &&& p == c.bytes.len() && c.failure is None ==> r == (Run {
                values: none,
                offset: p,
                ending: Outcome::Done { value: (), pos: p },
            })
            &&& p == c.bytes.len() && c.failure is Some ==> r == (Run {
                values: none,
                offset: c.pos,
                ending: steps::cut(),
            })
            &&& p < c.bytes.len() && b != 0x5b && b != 0x7b ==> r == (Run {
                values: none,
                offset: c.pos,
                ending: steps::refused(ErrorCode::ExpectedObjectOrArray, p),
            })
            &&& p < c.bytes.len() && (b == 0x5b || b == 0x7b) ==> match grammar::value(c, depth) {
                Outcome::Done { value, pos } => {
                    let rest = stream::run(c.at(pos), depth);
                    r == (Run {
                        values: seq![value] + rest.values,
                        offset: rest.offset,
                        ending: rest.ending,
                    })
                },
                Outcome::Fail { code, place, pos } => r == (Run {
                    values: none,
                    offset: p,
                    ending: Outcome::Fail { code, place, pos },
                }),
                Outcome::Torn { code, place } => r == (Run {
                    values: none,
                    offset: p,
                    ending: Outcome::Torn { code, place },
                }),
                Outcome::Broken { placed, moved } => r == (Run {
                    values: none,
                    offset: p,
                    ending: Outcome::Broken { placed, moved },
                }),
            }
        }),
{
    steps::law_expected(c, gap);
    documents::law_leading_space(c, depth);
    progress::lemma_value(c.at(c.pos + gap.len()), depth);
}

/// A text of arrays and objects with blanks between them is a stream of those
/// and of nothing else, and is read to its end.
pub proof fn law_stream(c: Cursor, v: Seq<Entry>, after: Seq<u8>, depth: int)
    requires
        c.valid(),
        c.failure is None,
        sound_entries(v, depth),
        documents::blank(after),
        notation::holds(c.bytes, c.pos, entries(v) + after),
        c.pos + entries(v).len() + after.len() == c.bytes.len(),
    ensures
        stream::run(c, depth) == (Run {
            values: entries_meant(v),
            offset: c.bytes.len() as int,
            ending: Outcome::Done { value: (), pos: c.bytes.len() as int },
        }),
{
    notation::lemma_split(c.bytes, c.pos, entries(v), after);
    law_entries(c, v, depth);
    law_stream_end(c.at(c.pos + entries(v).len()), after, depth);
    assert(entries_meant(v) + Seq::<Json>::empty() =~= entries_meant(v));
}

} // verus!
