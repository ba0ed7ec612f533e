//! Reading values.
use crate::ascii::{
    is_digit, CLOSE_BRACE, CLOSE_BRACKET, COMMA, LOWER_A, LOWER_E, LOWER_F, LOWER_L, LOWER_N,
    LOWER_R, LOWER_S, LOWER_T, LOWER_U, MINUS, OPEN_BRACE, OPEN_BRACKET, QUOTE,
};
use crate::de::Deserializer;
use crate::error::{Error, ErrorCode, Result};
use crate::number::Number;
use crate::outcome::{Outcome, Placed};
use crate::read::{Read, Reference};
use crate::value::{Json, Value};
use crate::{grammar, number, outcome, progress, read, string, value};
use vstd::prelude::*;

verus! {

/// The beginning of a value: all of it, or the bracket that opens it.
#[derive(Debug)]
pub enum Head<'de> {
    /// `null`
    Null,
    /// `true` or `false`
    Bool(bool),
    /// A number.
    Number(Number),
    /// A string.
    String(Reference<&'de str, String>),
    /// The beginning of an array.
    Array,
    /// The beginning of an object.
    Object,
}

impl<'de> Head<'de> {
    /// The beginning in the abstract.
    pub open spec fn token(self) -> grammar::Token {
        match self {
            Head::Null => grammar::Token::Null,
            Head::Bool(b) => grammar::Token::Bool(b),
            Head::Number(n) => grammar::Token::Number(n),
            Head::String(s) => grammar::Token::String(s.text()),
            Head::Array => grammar::Token::Array,
            Head::Object => grammar::Token::Object,
        }
    }
}

/// How far an array has been read.
#[derive(Debug)]
pub struct SeqAccess {
    first: bool,
}

impl SeqAccess {
    /// Whether no element has been read.
    pub closed spec fn first(&self) -> bool {
        self.first
    }

    /// An array of which nothing has been read but its bracket.
    pub fn new() -> (r: SeqAccess)
        ensures
            r.first(),
    {
        SeqAccess { first: true }
    }

    /// Whether another element follows; if so, what stands before it is
    /// consumed.
    pub fn next_element<'de, R: Read<'de>>(&mut self, de: &mut Deserializer<R>) -> (r: Result<bool>)
        requires
            old(de).cursor().valid(),
        ensures
            Deserializer::<R>::steps(
                *old(de),
                *final(de),
                r,
                grammar::next_element(old(de).cursor(), old(self).first()),
            ),
            final(self).first() == (old(self).first() && grammar::closes(
                old(de).cursor(),
                CLOSE_BRACKET,
            )),
    {
        match de.parse_whitespace() {
            Ok(Some(b)) => {
                if b == CLOSE_BRACKET {
                    Ok(false)
                } else if self.first {
                    self.first = false;
                    Ok(true)
                } else if b == COMMA {
                    de.eat_char();
                    Ok(true)
                } else {
                    Err(de.peek_error(ErrorCode::ExpectedListCommaOrEnd))
                }
            },
            Ok(None) => Err(de.peek_error(ErrorCode::EofWhileParsingList)),
            Err(e) => Err(e),
        }
    }
}

/// How far an object has been read.
#[derive(Debug)]
pub struct MapAccess {
    first: bool,
}

impl MapAccess {
    /// Whether no member has been read.
    pub closed spec fn first(&self) -> bool {
        self.first
    }

    /// An object of which nothing has been read but its brace.
    pub fn new() -> (r: MapAccess)
        ensures
            r.first(),
    {
        MapAccess { first: true }
    }

    /// Whether another member follows; if so, what stands before its key is
    /// consumed.
    pub fn next_key<'de, R: Read<'de>>(&mut self, de: &mut Deserializer<R>) -> (r: Result<bool>)
        requires
            old(de).cursor().valid(),
        ensures
            Deserializer::<R>::steps(
                *old(de),
                *final(de),
                r,
                grammar::next_key(old(de).cursor(), old(self).first()),
            ),
            final(self).first() == (old(self).first() && grammar::closes(
                old(de).cursor(),
                CLOSE_BRACE,
            )),
    {
        let peek: Option<u8> = match de.parse_whitespace() {
            Ok(Some(b)) => {
                if b == CLOSE_BRACE {
                    return Ok(false);
                } else if self.first {
                    self.first = false;
                    Some(b)
                } else if b == COMMA {
                    de.eat_char();
                    match de.parse_whitespace() {
                        Ok(b) => b,
                        Err(e) => return Err(e),
                    }
                } else {
                    return Err(de.peek_error(ErrorCode::ExpectedObjectCommaOrEnd));
                }
            },
            Ok(None) => return Err(de.peek_error(ErrorCode::EofWhileParsingObject)),
            Err(e) => return Err(e),
        };
        match peek {
            Some(b) => {
                if b == QUOTE {
                    Ok(true)
                } else {
                    Err(de.peek_error(ErrorCode::KeyMustBeAString))
                }
            },
            None => Err(de.peek_error(ErrorCode::EofWhileParsingValue)),
        }
    }

    /// Reads what stands between a key and its value.
    pub fn next_value<'de, R: Read<'de>>(&mut self, de: &mut Deserializer<R>) -> (r: Result<()>)
        requires
            old(de).cursor().valid(),
        ensures
            Deserializer::<R>::steps(
                *old(de),
                *final(de),
                r,
                grammar::object_colon(old(de).cursor()),
            ),
            *final(self) == *old(self),
    {
        de.parse_object_colon()
    }
}

impl<'de, R: Read<'de>> Deserializer<R> {
    /// Reads the beginning of a value. Where that is a bracket, the content is
    /// read with [`SeqAccess`] or [`MapAccess`], and then comes
    /// [`Deserializer::exit_seq`] or [`Deserializer::exit_map`].
    pub fn parse_head(&mut self) -> (r: Result<Head<'de>>)
        requires
            old(self).cursor().valid(),
            old(self).depth() >= 1 || !grammar::opens(old(self).cursor()),
        ensures
            outcome::settles_as(
                old(self).cursor(),
                final(self).cursor(),
                r,
                |h: Head<'de>| h.token(),
                grammar::token(old(self).cursor(), old(self).depth()),
            ),
            final(self).depth() == grammar::depth_within(
                old(self).depth(),
                grammar::token(old(self).cursor(), old(self).depth()),
            ),
    {
        let ghost c = self.cursor();
        let b: u8 = match self.parse_whitespace() {
            Ok(Some(b)) => b,
            Ok(None) => return Err(self.peek_error(ErrorCode::EofWhileParsingValue)),
            Err(e) => return Err(e),
        };
        proof {
            read::lemma_line_column_bounds_all();
            progress::lemma_flat_scalars(self.cursor());
            progress::lemma_flat_scalars(self.cursor().at(self.cursor().pos + 1));
        }
        if b == LOWER_N {
            self.eat_char();
            match self.parse_ident(&[LOWER_U, LOWER_L, LOWER_L]) {
                Ok(_) => Ok(Head::Null),
                Err(e) => Err(e),
            }
        } else if b == LOWER_T {
            self.eat_char();
            match self.parse_ident(&[LOWER_R, LOWER_U, LOWER_E]) {
                Ok(_) => Ok(Head::Bool(true)),
                Err(e) => Err(e),
            }
        } else if b == LOWER_F {
            self.eat_char();
            match self.parse_ident(&[LOWER_A, LOWER_L, LOWER_S, LOWER_E]) {
                Ok(_) => Ok(Head::Bool(false)),
                Err(e) => Err(e),
            }
        } else if b == MINUS {
            self.eat_char();
            match self.parse_integer(false) {
                Ok(n) => Ok(Head::Number(n)),
                Err(e) => {
                    proof {
                        if self.cursor().resumes(c.bytes) && self.cursor().pos == c.bytes.len() {
                            progress::lemma_stopped(c.bytes, self.cursor());
                        }
                    }
                    Err(self.fix_position(e))
                },
            }
        } else if is_digit(b) {
            match self.parse_integer(true) {
                Ok(n) => Ok(Head::Number(n)),
                Err(e) => {
                    proof {
                        if self.cursor().resumes(c.bytes) && self.cursor().pos == c.bytes.len() {
                            progress::lemma_stopped(c.bytes, self.cursor());
                        }
                    }
                    Err(self.fix_position(e))
                },
            }
        } else if b == QUOTE {
            self.eat_char();
            match self.parse_str() {
                Ok(s) => Ok(Head::String(s)),
                Err(e) => Err(e),
            }
        } else if b == OPEN_BRACKET {
            match self.enter() {
                Ok(_) => Ok(Head::Array),
                Err(e) => Err(e),
            }
        } else if b == OPEN_BRACE {
            match self.enter() {
                Ok(_) => Ok(Head::Object),
                Err(e) => Err(e),
            }
        } else {
            Err(self.peek_error(ErrorCode::ExpectedSomeValue))
        }
    }

    /// Gives back the level of an array and reads its closing bracket.
    pub fn exit_seq(&mut self) -> (r: Result<()>)
        requires
            old(self).cursor().valid(),
            old(self).depth() < u8::MAX,
        ensures
            outcome::settles(
                old(self).cursor(),
                final(self).cursor(),
                r,
                grammar::end_seq(old(self).cursor()),
            ),
            final(self).depth() == old(self).depth() + 1,
    {
        self.leave();
        self.end_seq()
    }

    /// Gives back the level of an object and reads its closing brace.
    pub fn exit_map(&mut self) -> (r: Result<()>)
        requires
            old(self).cursor().valid(),
            old(self).depth() < u8::MAX,
        ensures
            outcome::settles(
                old(self).cursor(),
                final(self).cursor(),
                r,
                grammar::end_map(old(self).cursor()),
            ),
            final(self).depth() == old(self).depth() + 1,
    {
        self.leave();
        self.end_map()
    }

    /// Reads a value, whatever it is.
    pub fn parse_value(&mut self) -> (r: Result<Value>)
        requires
            old(self).cursor().valid(),
            old(self).depth() >= 1 || !grammar::opens(old(self).cursor()),
        ensures
            outcome::settles_as(
                old(self).cursor(),
                final(self).cursor(),
                r,
                |v: Value| v@,
                grammar::value(old(self).cursor(), old(self).depth()),
            ),
            final(self).depth() == grammar::depth_after(
                old(self).depth(),
                grammar::value(old(self).cursor(), old(self).depth()),
            ),
        decreases old(self).depth(), 0int,
    {
        proof {
            self.lemma_depth_bounds();
            reveal(grammar::value);
        }
        let head: Head<'de> = match self.parse_head() {
            Ok(head) => head,
            Err(e) => return Err(e),
        };
        match head {
            Head::Null => Ok(Value::Null),
            Head::Bool(b) => Ok(Value::Bool(b)),
            Head::Number(n) => Ok(Value::Number(n)),
            Head::String(Reference::Borrowed(s)) => Ok(Value::String(s.to_owned())),
            Head::String(Reference::Copied(s)) => Ok(Value::String(s)),
            Head::Array => self.parse_array(),
            Head::Object => self.parse_object(),
        }
    }

    /// Reads an array from behind its opening bracket.
    fn parse_array(&mut self) -> (r: Result<Value>)
        requires
            old(self).cursor().valid(),
            1 <= old(self).depth() < u8::MAX,
        ensures
            outcome::settles_as(
                old(self).cursor(),
                final(self).cursor(),
                r,
                |v: Value| v@,
                grammar::array(old(self).cursor(), old(self).depth()),
            ),
            final(self).depth() == grammar::depth_after(
                old(self).depth() + 1,
                grammar::array(old(self).cursor(), old(self).depth()),
            ),
        decreases old(self).depth(), 2int,
    {
        let ghost c = self.cursor();
        let ret: Result<Vec<Value>> = self.parse_elements();
        let ghost d = self.cursor();
        // The closing bracket is read in any case.
        let end: Result<()> = self.exit_seq();
        proof {
            read::lemma_line_column_bounds_all();
            progress::lemma_between(d, true);
            if d.resumes(c.bytes) {
                progress::lemma_resumed(c.bytes, d, self.cursor(), grammar::end_seq(d));
            }
            if self.cursor().resumes(c.bytes) && self.cursor().pos == c.bytes.len() {
                progress::lemma_stopped(c.bytes, self.cursor());
            }
        }
        match ret {
            Ok(v) => match end {
                Ok(_) => {
                    proof {
                        value::lemma_containers(v, arbitrary());
                    }
                    Ok(Value::Array(v))
                },
                Err(e) => Err(self.fix_position(e)),
            },
            Err(e) => {
                let e: Error = self.fix_position(e);
                assert(grammar::array(c, old(self).depth()) matches Outcome::Broken {
                    placed: Placed::Behind,
                    ..
                } ==> outcome::behind(c.bytes, self.cursor(), e@));
                Err(e)
            },
        }
    }

    /// Reads an object from behind its opening brace.
    fn parse_object(&mut self) -> (r: Result<Value>)
        requires
            old(self).cursor().valid(),
            1 <= old(self).depth() < u8::MAX,
        ensures
            outcome::settles_as(
                old(self).cursor(),
                final(self).cursor(),
                r,
                |v: Value| v@,
                grammar::object(old(self).cursor(), old(self).depth()),
            ),
            final(self).depth() == grammar::depth_after(
                old(self).depth() + 1,
                grammar::object(old(self).cursor(), old(self).depth()),
            ),
        decreases old(self).depth(), 3int,
    {
        let ghost c = self.cursor();
        let ret: Result<Vec<(String, Value)>> = self.parse_members();
        let ghost d = self.cursor();
        // The closing brace is read in any case.
        let end: Result<()> = self.exit_map();
        proof {
            read::lemma_line_column_bounds_all();
            progress::lemma_between(d, true);
            if d.resumes(c.bytes) {
                progress::lemma_resumed(c.bytes, d, self.cursor(), grammar::end_map(d));
            }
            if self.cursor().resumes(c.bytes) && self.cursor().pos == c.bytes.len() {
                progress::lemma_stopped(c.bytes, self.cursor());
            }
        }
        match ret {
            Ok(v) => match end {
                Ok(_) => {
                    proof {
                        value::lemma_containers(arbitrary(), v);
                    }
                    Ok(Value::Object(v))
                },
                Err(e) => Err(self.fix_position(e)),
            },
            Err(e) => {
                let e: Error = self.fix_position(e);
                assert(grammar::object(c, old(self).depth()) matches Outcome::Broken {
                    placed: Placed::Behind,
                    ..
                } ==> outcome::behind(c.bytes, self.cursor(), e@));
                Err(e)
            },
        }
    }

    /// Reads the elements of an array, up to its closing bracket.
    fn parse_elements(&mut self) -> (r: Result<Vec<Value>>)
        requires
            old(self).cursor().valid(),
            old(self).depth() >= 1,
        ensures
            outcome::settles_as(
                old(self).cursor(),
                final(self).cursor(),
                r,
                |v: Vec<Value>| value::elements(v@),
                grammar::elements(old(self).cursor(), old(self).depth(), true, Seq::empty()),
            ),
            final(self).depth() == grammar::depth_after(
                old(self).depth(),
                grammar::elements(old(self).cursor(), old(self).depth(), true, Seq::empty()),
            ),
        decreases old(self).depth(), 1int,
    {
        let mut access: SeqAccess = SeqAccess::new();
        let mut out: Vec<Value> = Vec::new();
        assert(value::elements(out@) =~= Seq::<Json>::empty());
        loop
            invariant
                old(self).cursor().valid(),
                old(self).depth() >= 1,
                self.cursor().valid(),
                self.depth() == old(self).depth(),
                self.cursor() == old(self).cursor().at(self.cursor().pos),
                grammar::elements(old(self).cursor(), old(self).depth(), true, Seq::empty())
                    == grammar::elements(
                    self.cursor(),
                    self.depth(),
                    access.first(),
                    value::elements(out@),
                ),
            decreases self.cursor().bytes.len() - self.cursor().pos,
        {
            let ghost c = self.cursor();
            proof {
                reveal(grammar::value);
                progress::lemma_between(c, access.first());
            }
            match access.next_element(self) {
                Ok(true) => {},
                Ok(false) => return Ok(out),
                Err(e) => {
                    return Err(e);
                },
            }
            proof {
                progress::lemma_value(self.cursor(), self.depth());
            }
            match self.parse_value() {
                Ok(v) => {
                    let ghost before = out@;
                    out.push(v);
                    assert(value::elements(out@) =~= value::elements(before).push(v@));
                },
                Err(e) => return Err(e),
            }
        }
    }

    /// Reads the members of an object, up to its closing brace.
    fn parse_members(&mut self) -> (r: Result<Vec<(String, Value)>>)
        requires
            old(self).cursor().valid(),
            old(self).depth() >= 1,
        ensures
            outcome::settles_as(
                old(self).cursor(),
                final(self).cursor(),
                r,
                |v: Vec<(String, Value)>| value::members(v@),
                grammar::members(old(self).cursor(), old(self).depth(), true, Seq::empty()),
            ),
            final(self).depth() == grammar::depth_after(
                old(self).depth(),
                grammar::members(old(self).cursor(), old(self).depth(), true, Seq::empty()),
            ),
        decreases old(self).depth(), 2int,
    {
        let mut access: MapAccess = MapAccess::new();
        let mut out: Vec<(String, Value)> = Vec::new();
        assert(value::members(out@) =~= Seq::<(Seq<char>, Json)>::empty());
        loop
            invariant
                old(self).cursor().valid(),
                old(self).depth() >= 1,
                self.cursor().valid(),
                self.depth() == old(self).depth(),
                self.cursor() == old(self).cursor().at(self.cursor().pos),
                grammar::members(old(self).cursor(), old(self).depth(), true, Seq::empty())
                    == grammar::members(
                    self.cursor(),
                    self.depth(),
                    access.first(),
                    value::members(out@),
                ),
            decreases self.cursor().bytes.len() - self.cursor().pos,
        {
            let ghost c = self.cursor();
            proof {
                progress::lemma_between(c, access.first());
            }
            match access.next_key(self) {
                Ok(true) => {},
                Ok(false) => return Ok(out),
                Err(e) => {
                    return Err(e);
                },
            }
            proof {
                progress::lemma_member(self.cursor(), self.depth());
            }
            match self.parse_member(&mut access) {
                Ok(m) => {
                    let ghost before = out@;
                    out.push(m);
                    assert(value::members(out@) =~= value::members(before).push((m.0@, m.1@)));
                },
                Err(e) => return Err(e),
            }
        }
    }

    /// Reads a member of an object, from the opening quote of its key on.
    fn parse_member(&mut self, access: &mut MapAccess) -> (r: Result<(String, Value)>)
        requires
            old(self).cursor().valid(),
            old(self).depth() >= 1,
            number::faces(old(self).cursor(), QUOTE),
        ensures
            outcome::settles_as(
                old(self).cursor(),
                final(self).cursor(),
                r,
                |m: (String, Value)| (m.0@, m.1@),
                grammar::member(old(self).cursor(), old(self).depth()),
            ),
            final(self).depth() == grammar::depth_after(
                old(self).depth(),
                grammar::member(old(self).cursor(), old(self).depth()),
            ),
            *final(access) == *old(access),
        decreases old(self).depth(), 1int,
    {
        let ghost c = self.cursor();
        proof {
            reveal(grammar::value);
            progress::lemma_text(c.at(c.pos + 1));
            progress::lemma_flat_scalars(c.at(c.pos + 1));
        }
        match self.next_char() {
            Ok(_) => {},
            Err(e) => return Err(e),
        }
        let key: String = match self.parse_str() {
            Ok(Reference::Borrowed(s)) => s.to_owned(),
            Ok(Reference::Copied(s)) => s,
            Err(e) => return Err(e),
        };
        proof {
            progress::lemma_between(self.cursor(), true);
        }
        match access.next_value(self) {
            Ok(_) => {},
            Err(e) => return Err(e),
        }
        match self.parse_value() {
            Ok(v) => Ok((key, v)),
            Err(e) => Err(e),
        }
    }
}

/// A string as bytes, or any other value.
#[derive(Debug)]
pub enum BytesOr<'de> {
    /// The bytes of a string.
    Bytes(Reference<&'de [u8], Vec<u8>>),
    /// Any other value.
    Other(Value),
}

impl<'de> BytesOr<'de> {
    /// The same in the abstract.
    pub open spec fn bytes_or(self) -> grammar::BytesOr {
        match self {
            BytesOr::Bytes(b) => grammar::BytesOr::Bytes(b.bytes()),
            BytesOr::Other(v) => grammar::BytesOr::Other(v@),
        }
    }
}

/// A variant of an enum.
#[derive(Debug)]
pub struct Variant {
    /// Which variant it is.
    pub name: Value,
    /// The data of the variant, if it was written with any.
    pub data: Option<Value>,
}

impl Variant {
    /// The same in the abstract.
    pub open spec fn parts(self) -> (Json, Option<Json>) {
        (
            self.name@,
            match self.data {
                Some(v) => Some(v@),
                None => None,
            },
        )
    }
}

/// A value that may be missing, in the abstract.
pub open spec fn option_view(v: Option<Value>) -> Option<Json> {
    match v {
        Some(v) => Some(v@),
        None => None,
    }
}

/// Bytes that may be missing, in the abstract.
pub open spec fn bytes_view<'de>(b: Option<Reference<&'de [u8], Vec<u8>>>) -> Option<
    string::Bytes,
> {
    match b {
        Some(b) => Some(b.bytes()),
        None => None,
    }
}

impl<'de, R: Read<'de>> Deserializer<R> {
    /// Reads a value, whatever it is.
    pub fn deserialize_any(&mut self) -> (r: Result<Value>)
        requires
            old(self).cursor().valid(),
            old(self).depth() >= 1 || !grammar::opens(old(self).cursor()),
        ensures
            outcome::settles_as(
                old(self).cursor(),
                final(self).cursor(),
                r,
                |v: Value| v@,
                grammar::value(old(self).cursor(), old(self).depth()),
            ),
            final(self).depth() == grammar::depth_after(
                old(self).depth(),
                grammar::value(old(self).cursor(), old(self).depth()),
            ),
    {
        self.parse_value()
    }

    /// Reads a `null`, or finds out that another value follows.
    pub fn begin_option(&mut self) -> (r: Result<bool>)
        requires
            old(self).cursor().valid(),
        ensures
            Self::steps(*old(self), *final(self), r, grammar::option_start(old(self).cursor())),
    {
        match self.parse_whitespace() {
            Ok(Some(b)) => {
                if b == LOWER_N {
                    self.eat_char();
                    match self.parse_ident(&[LOWER_U, LOWER_L, LOWER_L]) {
                        Ok(_) => Ok(false),
                        Err(e) => Err(e),
                    }
                } else {
                    Ok(true)
                }
            },
            Ok(None) => Ok(true),
            Err(e) => Err(e),
        }
    }

    /// Reads a `null` as `None`, and any other value as `Some`.
    pub fn deserialize_option(&mut self) -> (r: Result<Option<Value>>)
        requires
            old(self).cursor().valid(),
            old(self).depth() >= 1 || !grammar::opens(old(self).cursor()),
        ensures
            outcome::settles_as(
                old(self).cursor(),
                final(self).cursor(),
                r,
                |v: Option<Value>| option_view(v),
                grammar::option(old(self).cursor(), old(self).depth()),
            ),
            final(self).depth() == grammar::depth_after(
                old(self).depth(),
                grammar::option(old(self).cursor(), old(self).depth()),
            ),
    {
        proof {
            let s = grammar::spaced(self.cursor());
            progress::lemma_flat_scalars(s.at(s.pos + 1));
            progress::lemma_skip_space(s.bytes, self.cursor().pos);
            assert(grammar::spaced(s) == s);
        }
        match self.begin_option() {
            Ok(true) => match self.parse_value() {
                Ok(v) => Ok(Some(v)),
                Err(e) => Err(e),
            },
            Ok(false) => Ok(None),
            Err(e) => Err(e),
        }
    }

    /// Reads a string as bytes, or finds out that another value follows.
    pub fn begin_bytes(&mut self) -> (r: Result<Option<Reference<&'de [u8], Vec<u8>>>>)
        requires
            old(self).cursor().valid(),
        ensures
            outcome::settles_as(
                old(self).cursor(),
                final(self).cursor(),
                r,
                |b: Option<Reference<&'de [u8], Vec<u8>>>| bytes_view(b),
                grammar::bytes_start(old(self).cursor()),
            ),
            final(self).depth() == old(self).depth(),
    {
        match self.parse_whitespace() {
            Ok(Some(b)) => {
                if b == QUOTE {
                    self.eat_char();
                    match self.parse_str_raw() {
                        Ok(b) => Ok(Some(b)),
                        Err(e) => Err(e),
                    }
                } else {
                    Ok(None)
                }
            },
            Ok(None) => Ok(None),
            Err(e) => Err(e),
        }
    }

    /// Reads a string as bytes, which need not be UTF-8; its escape sequences
    /// have to be valid all the same. Any other value is read as it is.
    pub fn deserialize_bytes(&mut self) -> (r: Result<BytesOr<'de>>)
        requires
            old(self).cursor().valid(),
            old(self).depth() >= 1 || !grammar::opens(old(self).cursor()),
        ensures
            outcome::settles_as(
                old(self).cursor(),
                final(self).cursor(),
                r,
                |b: BytesOr<'de>| b.bytes_or(),
                grammar::bytes(old(self).cursor(), old(self).depth()),
            ),
            final(self).depth() == grammar::depth_after(
                old(self).depth(),
                grammar::bytes(old(self).cursor(), old(self).depth()),
            ),
    {
        proof {
            let s = grammar::spaced(self.cursor());
            progress::lemma_flat_scalars(s.at(s.pos + 1));
            progress::lemma_skip_space(s.bytes, self.cursor().pos);
            assert(grammar::spaced(s) == s);
        }
        match self.begin_bytes() {
            Ok(Some(b)) => Ok(BytesOr::Bytes(b)),
            Ok(None) => match self.parse_value() {
                Ok(v) => Ok(BytesOr::Other(v)),
                Err(e) => Err(e),
            },
            Err(e) => Err(e),
        }
    }

    /// Reads a string as bytes, as [`Deserializer::deserialize_bytes`] does.
    pub fn deserialize_byte_buf(&mut self) -> (r: Result<BytesOr<'de>>)
        requires
            old(self).cursor().valid(),
            old(self).depth() >= 1 || !grammar::opens(old(self).cursor()),
        ensures
            outcome::settles_as(
                old(self).cursor(),
                final(self).cursor(),
                r,
                |b: BytesOr<'de>| b.bytes_or(),
                grammar::bytes(old(self).cursor(), old(self).depth()),
            ),
            final(self).depth() == grammar::depth_after(
                old(self).depth(),
                grammar::bytes(old(self).cursor(), old(self).depth()),
            ),
    {
        self.deserialize_bytes()
    }

    /// Reads the opening brace of an enum with data and says `true`, or finds
    /// the string of one without and says `false`.
    pub fn begin_enum(&mut self) -> (r: Result<bool>)
        requires
            old(self).cursor().valid(),
            old(self).depth() >= 1 || !grammar::opens_object(old(self).cursor()),
        ensures
            outcome::settles(
                old(self).cursor(),
                final(self).cursor(),
                r,
                grammar::enum_start(old(self).cursor(), old(self).depth()),
            ),
            final(self).depth() == (if r == Ok::<bool, Error>(true) {
                old(self).depth() - 1
            } else {
                grammar::depth_after(
                    old(self).depth(),
                    grammar::enum_start(old(self).cursor(), old(self).depth()),
                )
            }),
    {
        match self.parse_whitespace() {
            Ok(Some(b)) => {
                if b == OPEN_BRACE {
                    match self.enter() {
                        Ok(_) => Ok(true),
                        Err(e) => Err(e),
                    }
                } else if b == QUOTE {
                    Ok(false)
                } else {
                    Err(self.peek_error(ErrorCode::ExpectedSomeValue))
                }
            },
            Ok(None) => Err(self.peek_error(ErrorCode::EofWhileParsingValue)),
            Err(e) => Err(e),
        }
    }

    /// Gives back the level of an enum and reads its closing brace.
    pub fn end_enum(&mut self) -> (r: Result<()>)
        requires
            old(self).cursor().valid(),
            old(self).depth() < u8::MAX,
        ensures
            outcome::settles(
                old(self).cursor(),
                final(self).cursor(),
                r,
                grammar::enum_end(old(self).cursor()),
            ),
            final(self).depth() == old(self).depth() + 1,
    {
        self.leave();
        match self.parse_whitespace() {
            Ok(Some(b)) => {
                if b == CLOSE_BRACE {
                    self.eat_char();
                    Ok(())
                } else {
                    Err(self.error(ErrorCode::ExpectedSomeValue))
                }
            },
            Ok(None) => Err(self.error(ErrorCode::EofWhileParsingObject)),
            Err(e) => Err(e),
        }
    }

    /// Reads the name of a variant, the colon and the data of the variant.
    fn parse_variant_data(&mut self) -> (r: Result<Variant>)
        requires
            old(self).cursor().valid(),
            old(self).depth() >= 1,
        ensures
            outcome::settles_as(
                old(self).cursor(),
                final(self).cursor(),
                r,
                |v: Variant| v.parts(),
                grammar::variant_data(old(self).cursor(), old(self).depth()),
            ),
            final(self).depth() == grammar::depth_after(
                old(self).depth(),
                grammar::variant_data(old(self).cursor(), old(self).depth()),
            ),
    {
        let name: Value = match self.parse_value() {
            Ok(v) => v,
            Err(e) => return Err(e),
        };
        match self.parse_object_colon() {
            Ok(_) => {},
            Err(e) => return Err(e),
        }
        match self.parse_value() {
            Ok(v) => Ok(Variant { name, data: Some(v) }),
            Err(e) => Err(e),
        }
    }

    /// Reads an enum: an object like `{"$KEY":$VALUE}`, or a string.
    pub fn deserialize_enum(&mut self) -> (r: Result<Variant>)
        requires
            old(self).cursor().valid(),
            old(self).depth() >= 1 || !grammar::opens_object(old(self).cursor()),
        ensures
            outcome::settles_as(
                old(self).cursor(),
                final(self).cursor(),
                r,
                |v: Variant| v.parts(),
                grammar::variant(old(self).cursor(), old(self).depth()),
            ),
            final(self).depth() == grammar::depth_after_variant(
                old(self).cursor(),
                old(self).depth(),
            ),
    {
        proof {
            self.lemma_depth_bounds();
        }
        match self.begin_enum() {
            Ok(true) => {
                let v: Variant = match self.parse_variant_data() {
                    Ok(v) => v,
                    Err(e) => return Err(e),
                };
                match self.end_enum() {
                    Ok(_) => Ok(v),
                    Err(e) => Err(e),
                }
            },
            Ok(false) => match self.parse_value() {
                Ok(v) => Ok(Variant { name: v, data: None }),
                Err(e) => Err(e),
            },
            Err(e) => Err(e),
        }
    }
}

} // verus!
