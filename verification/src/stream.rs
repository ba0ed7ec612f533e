//! Whole documents and streams of values.
use crate::ascii::{OPEN_BRACE, OPEN_BRACKET};
use crate::de::Deserializer;
use crate::error::{ErrorCode, Result};
use crate::laws::forms::Form;
use crate::laws::{forms, reading};
use crate::outcome::Outcome;
use crate::read::{Cursor, Read, SliceRead, StrRead};
use crate::value::{Json, Value};
use crate::{de, grammar, outcome, progress};
use core::marker::PhantomData;
use vstd::prelude::*;

verus! {

/// Reads a stream of JSON values one after the other.
///
/// The text must consist of arrays and objects, optionally separated by white
/// space. A `null`, a boolean, a number or a string at the top level is an
/// error.
#[derive(Debug)]
pub struct StreamDeserializer<'de, R> {
    de: Deserializer<R>,
    offset: usize,
    lifetime: PhantomData<&'de ()>,
}

/// What a stream gives up to the first call that gives no value.
pub struct Run {
    /// The values, in the order in which they come.
    pub values: Seq<Json>,
    /// The number of bytes up to the end of the last value, or up to the
    /// beginning of one that was refused.
    pub offset: int,
    /// How the stream ends: with the end of the input, or with an error.
    pub ending: Outcome<()>,
}

/// What repeated calls of [`StreamDeserializer::next`] give.
pub open spec fn run(c: Cursor, depth: int) -> Run
    decreases c.bytes.len() - c.pos,
{
    match grammar::stream_start(c) {
        Outcome::Done { value: false, pos } => Run {
            values: Seq::empty(),
            offset: pos,
            ending: Outcome::Done { value: (), pos },
        },
        Outcome::Done { value: true, pos } => match grammar::value(c.at(pos), depth) {
            Outcome::Done { value, pos: q } if c.pos < q <= c.bytes.len() => {
                let rest = run(c.at(q), depth);
                Run { values: seq![value] + rest.values, ..rest }
            },
            o => Run { values: Seq::empty(), offset: pos, ending: o.recast() },
        },
        o => Run { values: Seq::empty(), offset: c.pos, ending: o.recast() },
    }
}

impl<'de, R: Read<'de>> StreamDeserializer<'de, R> {
    /// The deserializer that the values are read with.
    pub closed spec fn inner(&self) -> Deserializer<R> {
        self.de
    }

    /// The state of the source.
    pub open spec fn cursor(&self) -> Cursor {
        self.inner().cursor()
    }

    /// The levels of nesting that are left.
    pub open spec fn depth(&self) -> int {
        self.inner().depth()
    }

    /// The number of bytes up to the end of the last value, or up to the
    /// beginning of one that was refused.
    pub closed spec fn offset(&self) -> int {
        self.offset as int
    }

    /// Whether the offset lies in what has been consumed.
    pub open spec fn in_order(&self) -> bool {
        0 <= self.offset() <= self.cursor().pos
    }

    /// A stream over one of the possible sources.
    pub fn new(read: R) -> (r: Self)
        requires
            read.view().valid(),
        ensures
            r.cursor() == read.view(),
            r.depth() == de::DEPTH_LIMIT,
            r.offset() == read.view().pos,
            r.in_order(),
    {
        let offset: usize = read.byte_offset();
        StreamDeserializer { de: Deserializer::new(read), offset, lifetime: PhantomData }
    }

    /// The number of bytes so far read into values.
    ///
    /// If the stream reports the end of the input inside a value, new data can
    /// be joined to the old data from here on to try again.
    pub fn byte_offset(&self) -> (r: usize)
        ensures
            r == self.offset(),
    {
        self.offset
    }

    /// The levels of nesting that are left for the next value.
    pub fn remaining_depth(&self) -> (r: u8)
        ensures
            r == self.depth(),
    {
        self.de.remaining_depth()
    }

    /// Goes to the next value and says whether there is one.
    pub fn begin(&mut self) -> (r: Result<bool>)
        requires
            old(self).cursor().valid(),
        ensures
            outcome::settles(
                old(self).cursor(),
                final(self).cursor(),
                r,
                grammar::stream_start(old(self).cursor()),
            ),
            final(self).depth() == old(self).depth(),
            final(self).offset() == (if r is Ok {
                final(self).cursor().pos
            } else {
                old(self).offset()
            }),
            old(self).in_order() ==> final(self).in_order() && final(self).offset() >= old(
                self,
            ).offset(),
    {
        proof {
            progress::lemma_skip_space(self.cursor().bytes, self.cursor().pos);
        }
        match self.de.parse_whitespace() {
            Ok(None) => {
                self.offset = self.de.byte_offset();
                Ok(false)
            },
            Ok(Some(b)) => {
                if b == OPEN_BRACE || b == OPEN_BRACKET {
                    self.offset = self.de.byte_offset();
                    Ok(true)
                } else {
                    Err(self.de.peek_error(ErrorCode::ExpectedObjectOrArray))
                }
            },
            Err(e) => Err(e),
        }
    }

    /// The deserializer to read the next value with.
    pub fn deserializer(&mut self) -> (r: &mut Deserializer<R>)
        ensures
            *r == old(self).inner(),
            final(self).inner() == *final(r),
            final(self).offset() == old(self).offset(),
    {
        &mut self.de
    }

    /// Notes that a value has been read to its end.
    pub fn finish(&mut self)
        requires
            old(self).cursor().valid(),
        ensures
            final(self).cursor() == old(self).cursor(),
            final(self).depth() == old(self).depth(),
            final(self).offset() == old(self).cursor().pos,
            final(self).in_order(),
    {
        self.offset = self.de.byte_offset();
    }

    /// Reads the next value; `None` at the end of the input.
    pub fn next(&mut self) -> (r: Option<Result<Value>>)
        requires
            old(self).cursor().valid(),
            old(self).depth() >= 1 || !grammar::opens(old(self).cursor()),
        ensures
            final(self).cursor().valid(),
            match grammar::stream_start(old(self).cursor()) {
                Outcome::Done { value: false, pos } => {
                    &&& r is None
                    &&& final(self).cursor() == old(self).cursor().at(pos)
                    &&& final(self).depth() == old(self).depth()
                    &&& final(self).offset() == pos
                },
                Outcome::Done { value: true, pos } => {
                    let c = old(self).cursor().at(pos);
                    let o = grammar::value(c, old(self).depth());
                    &&& r matches Some(v)
                    &&& outcome::settles_as(c, final(self).cursor(), v, |v: Value| v@, o)
                    &&& final(self).depth() == grammar::depth_after(old(self).depth(), o)
                    &&& final(self).offset() == (if v is Ok {
                        final(self).cursor().pos
                    } else {
                        pos
                    })
                },
                o => {
                    &&& r matches Some(v)
                    &&& outcome::settles_as(
                        old(self).cursor(),
                        final(self).cursor(),
                        v,
                        |v: Value| v@,
                        o.recast(),
                    )
                    &&& final(self).depth() == old(self).depth()
                    &&& final(self).offset() == old(self).offset()
                },
            },
            ({
                let whole = run(old(self).cursor(), old(self).depth());
                match r {
                    Some(Ok(v)) => {
                        let rest = run(final(self).cursor(), final(self).depth());
                        &&& whole == (Run { values: seq![v@] + rest.values, ..rest })
                        &&& final(self).offset() == final(self).cursor().pos
                    },
                    _ => {
                        &&& whole.values == Seq::<Json>::empty()
                        &&& old(self).offset() == old(self).cursor().pos ==> final(self).offset()
                            == whole.offset
                        &&& r is None <==> whole.ending is Done
                        &&& r matches Some(e) ==> outcome::gives_as(
                            old(self).cursor(),
                            e,
                            |v: Value| (),
                            whole.ending,
                        )
                    },
                }
            }),
            old(self).in_order() ==> final(self).in_order() && final(self).offset() >= old(
                self,
            ).offset(),
    {
        let ghost c = self.cursor();
        proof {
            progress::lemma_skip_space(c.bytes, c.pos);
            progress::lemma_value(grammar::spaced(c), self.depth());
        }
        match self.begin() {
            Ok(false) => None,
            Ok(true) => {
                let r: Result<Value> = self.de.parse_value();
                if r.is_ok() {
                    self.offset = self.de.byte_offset();
                }
                Some(r)
            },
            Err(e) => Some(Err(e)),
        }
    }
}

impl<'de, R: Read<'de>> Deserializer<R> {
    /// Turns a deserializer into a stream of values.
    pub fn into_iter(self) -> (r: StreamDeserializer<'de, R>)
        requires
            self.cursor().valid(),
        ensures
            r.cursor() == self.cursor(),
            r.depth() == self.depth(),
            r.inner() == self,
            r.offset() == self.cursor().pos,
            r.in_order(),
    {
        let offset: usize = self.byte_offset();
        StreamDeserializer { de: self, offset, lifetime: PhantomData }
    }
}

impl<'a> Deserializer<SliceRead<'a>> {
    /// A deserializer for the text in a byte slice.
    pub fn from_slice(bytes: &'a [u8]) -> (r: Self)
        ensures
            r.cursor() == slice_cursor(bytes@),
            r.cursor().valid(),
            r.depth() == de::DEPTH_LIMIT,
    {
        Deserializer::new(SliceRead::new(bytes))
    }
}

impl<'a> Deserializer<StrRead<'a>> {
    /// A deserializer for the text in a string slice.
    pub fn from_str(s: &'a str) -> (r: Self)
        ensures
            r.cursor() == slice_cursor(vstd::utf8::encode_utf8(s@)),
            r.cursor().valid(),
            r.depth() == de::DEPTH_LIMIT,
    {
        Deserializer::new(StrRead::new(s))
    }
}

/// The beginning of a text in memory.
pub open spec fn slice_cursor(bytes: Seq<u8>) -> Cursor {
    Cursor { bytes, pos: 0, failure: None, lends: true }
}

/// Reads the only value of a source.
pub fn from_trait<'de, R: Read<'de>>(read: R) -> (r: Result<Value>)
    requires
        read.view().valid(),
    ensures
        outcome::gives_as(
            read.view(),
            r,
            |v: Value| v@,
            grammar::document(read.view(), de::DEPTH_LIMIT as int),
        ),
{
    let mut de: Deserializer<R> = Deserializer::new(read);
    let value: Value = match de.parse_value() {
        Ok(v) => v,
        Err(e) => return Err(e),
    };
    // Make sure that the whole source has been consumed.
    match de.end() {
        Ok(_) => Ok(value),
        Err(e) => Err(e),
    }
}

/// Whether a text is a value with blanks around it, written out in full, whose
/// arrays and objects are nested less than one hundred and twenty-eight levels
/// deep.
pub open spec fn is_document(text: Seq<u8>) -> bool {
    exists|before: Seq<u8>, f: Form, after: Seq<u8>|
        forms::sound(f, 128) && #[trigger] reading::document(text, before, f, after)
}

proof fn lemma_documents(text: Seq<u8>)
    requires
        text.len() <= usize::MAX,
    ensures
        grammar::document(slice_cursor(text), de::DEPTH_LIMIT as int) is Done <==> is_document(
            text,
        ),
        forall|before: Seq<u8>, f: Form, after: Seq<u8>|
            forms::sound(f, 128) && #[trigger] reading::document(text, before, f, after)
                ==> grammar::document(slice_cursor(text), de::DEPTH_LIMIT as int) == (
            Outcome::Done { value: forms::meant(f), pos: text.len() as int }),
{
    let c = slice_cursor(text);
    assert forall|before: Seq<u8>, f: Form, after: Seq<u8>|
        forms::sound(f, 128) && #[trigger] reading::document(
            text,
            before,
            f,
            after,
        ) implies grammar::document(c, de::DEPTH_LIMIT as int) == (Outcome::Done {
        value: forms::meant(f),
        pos: text.len() as int,
    }) by {
        reading::law_document(c, before, f, after, 128);
    }
    if grammar::document(c, de::DEPTH_LIMIT as int) is Done {
        let (before, f, after) = reading::law_document_only(c, 128);
        assert(reading::document(text, before, f, after));
    }
}

/// Reads the only value of a text in a byte slice.
pub fn from_slice(v: &[u8]) -> (r: Result<Value>)
    ensures
        outcome::gives_as(
            slice_cursor(v@),
            r,
            |v: Value| v@,
            grammar::document(slice_cursor(v@), de::DEPTH_LIMIT as int),
        ),
        r is Ok <==> is_document(v@),
        forall|before: Seq<u8>, f: Form, after: Seq<u8>|
            forms::sound(f, 128) && #[trigger] reading::document(v@, before, f, after) ==> (
            r matches Ok(x) && x@ == forms::meant(f)),
{
    let source: SliceRead = SliceRead::new(v);
    proof {
        lemma_documents(v@);
    }
    from_trait(source)
}

/// Reads the only value of a text in a string slice.
pub fn from_str(s: &str) -> (r: Result<Value>)
    ensures
        outcome::gives_as(
            slice_cursor(vstd::utf8::encode_utf8(s@)),
            r,
            |v: Value| v@,
            grammar::document(
                slice_cursor(vstd::utf8::encode_utf8(s@)),
                de::DEPTH_LIMIT as int,
            ),
        ),
        r is Ok <==> is_document(vstd::utf8::encode_utf8(s@)),
        forall|before: Seq<u8>, f: Form, after: Seq<u8>|
            forms::sound(f, 128) && #[trigger] reading::document(
                vstd::utf8::encode_utf8(s@),
                before,
                f,
                after,
            ) ==> (r matches Ok(x) && x@ == forms::meant(f)),
{
    let source: StrRead = StrRead::new(s);
    proof {
        lemma_documents(vstd::utf8::encode_utf8(s@));
    }
    from_trait(source)
}

} // verus!
