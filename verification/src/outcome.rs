//! How a reading step ends.
use crate::error::{ErrorCode, ErrorView, Result};
use crate::read;
use crate::read::Cursor;
use vstd::prelude::*;

verus! {

/// Where the error of a source is put on its way to the caller.
pub enum Placed {
    /// It concerns no known place.
    Nowhere,
    /// At the last byte that came before it.
    AtEnd,
    /// At the last byte consumed when the closing bracket of a container had
    /// been looked for: the last one that came before the error, or one that
    /// the source delivered after it.
    Behind,
}

/// How a reading step ends, as a function of the text and the place in it.
pub enum Outcome<T> {
    /// It gives a value and leaves `pos` bytes consumed.
    Done { value: T, pos: int },
    /// It refuses the text for the reason `code`, points at the last of the
    /// first `place` bytes and leaves `pos` bytes consumed.
    Fail { code: ErrorCode, place: int, pos: int },
    /// It refuses the text in the same way; then the source broke where the
    /// closing bracket of a container was looked for.
    Torn { code: ErrorCode, place: int },
    /// It needs more than a broken source delivers. `moved` says whether the
    /// source was asked for more after that.
    Broken { placed: Placed, moved: bool },
}

impl<T> Outcome<T> {
    /// The same ending for a step of another type that gives no value.
    pub open spec fn recast<U>(self) -> Outcome<U> {
        match self {
            Outcome::Fail { code, place, pos } => Outcome::Fail { code, place, pos },
            Outcome::Torn { code, place } => Outcome::Torn { code, place },
            Outcome::Broken { placed, moved } => Outcome::Broken { placed, moved },
            Outcome::Done { .. } => broken(),
        }
    }

    /// The same ending, where an error of the source that concerns no known
    /// place is put at the last byte that came before it.
    pub open spec fn placed(self) -> Outcome<T> {
        match self {
            Outcome::Broken { placed: Placed::Nowhere, moved } => Outcome::Broken {
                placed: Placed::AtEnd,
                moved,
            },
            _ => self,
        }
    }

    /// Why the text is refused, if it is.
    pub open spec fn code(self) -> Option<ErrorCode> {
        match self {
            Outcome::Fail { code, .. } => Some(code),
            Outcome::Torn { code, .. } => Some(code),
            _ => None,
        }
    }

    /// The same ending with its value changed.
    pub open spec fn map<U>(self, f: spec_fn(T) -> U) -> Outcome<U> {
        match self {
            Outcome::Done { value, pos } => Outcome::Done { value: f(value), pos },
            _ => self.recast(),
        }
    }

    /// Goes on with `next`, which gets the value and the place.
    pub open spec fn and_then<U>(self, next: spec_fn(T, int) -> Outcome<U>) -> Outcome<U> {
        match self {
            Outcome::Done { value, pos } => next(value, pos),
            _ => self.recast(),
        }
    }
}

/// The ending of a step whose source breaks.
pub open spec fn broken<T>() -> Outcome<T> {
    Outcome::Broken { placed: Placed::Nowhere, moved: false }
}

/// Whether an error stands at a byte that a source, now at `after`, has
/// consumed since it failed behind `text`, or at the last byte of that.
pub open spec fn behind(text: Seq<u8>, after: Cursor, e: ErrorView) -> bool {
    &&& after.resumes(text)
    &&& exists|n: int|
        text.len() <= n <= after.pos && #[trigger] read::line_column(after.bytes, n) == (
            e.line,
            e.column,
        )
}

/// Whether `r`, its value taken by `view`, is what `o` says of a source that
/// was at `c`.
pub open spec fn gives_as<T, U>(
    c: Cursor,
    r: Result<T>,
    view: spec_fn(T) -> U,
    o: Outcome<U>,
) -> bool {
    match o {
        Outcome::Done { value, pos } => {
            &&& r matches Ok(v)
            &&& view(v) == value
        },
        Outcome::Fail { code, place, .. } | Outcome::Torn { code, place } => {
            &&& r matches Err(e)
            &&& e@.code == code
            &&& (e@.line, e@.column) == read::line_column(c.bytes, place)
        },
        Outcome::Broken { placed, .. } => {
            &&& r matches Err(e)
            &&& c.failure matches Some(failure)
            &&& e@.code == ErrorCode::Io(failure)
            &&& match placed {
                Placed::Nowhere => (e@.line, e@.column) == (0nat, 0nat),
                Placed::AtEnd => (e@.line, e@.column) == read::line_column(
                    c.bytes,
                    c.bytes.len() as int,
                ),
                Placed::Behind => exists|after: Cursor| #[trigger] behind(c.bytes, after, e@),
            }
        },
    }
}

/// Whether a source that was at `before` is where `o` leaves it.
pub open spec fn moves<T>(before: Cursor, after: Cursor, o: Outcome<T>) -> bool {
    &&& after.valid()
    &&& match o {
        Outcome::Done { value, pos } => after == before.at(pos),
        Outcome::Fail { code, place, pos } => after == before.at(pos),
        Outcome::Torn { .. } => after.resumes(before.bytes),
        Outcome::Broken { moved, .. } => {
            &&& after.resumes(before.bytes)
            &&& !moved ==> after.pos == before.bytes.len()
        },
    }
}

/// Whether a step did what `o` says: it gave `r`, its value taken by `view`,
/// and moved the source from `before` to `after`.
pub open spec fn settles_as<T, U>(
    before: Cursor,
    after: Cursor,
    r: Result<T>,
    view: spec_fn(T) -> U,
    o: Outcome<U>,
) -> bool {
    &&& gives_as(before, r, view, o)
    &&& moves(before, after, o)
    &&& o matches Outcome::Broken { placed: Placed::Behind, .. } ==> r matches Err(e) && behind(
        before.bytes,
        after,
        e@,
    )
}

/// The same, for a result that is taken as it is.
pub open spec fn settles<T>(before: Cursor, after: Cursor, r: Result<T>, o: Outcome<T>) -> bool {
    settles_as(before, after, r, |v: T| v, o)
}

/// The next byte, which stays where it is; `None` at the end of the input.
pub open spec fn look(c: Cursor) -> Outcome<Option<u8>> {
    if !c.spent() {
        Outcome::Done { value: Some(c.bytes[c.pos]), pos: c.pos }
    } else if c.broken() {
        broken()
    } else {
        Outcome::Done { value: None, pos: c.pos }
    }
}

/// The next byte, which is consumed; `None` at the end of the input.
pub open spec fn take(c: Cursor) -> Outcome<Option<u8>> {
    if !c.spent() {
        Outcome::Done { value: Some(c.bytes[c.pos]), pos: c.pos + 1 }
    } else if c.broken() {
        broken()
    } else {
        Outcome::Done { value: None, pos: c.pos }
    }
}

/// A byte that is zero where there is none.
pub open spec fn or_null(b: Option<u8>) -> u8 {
    match b {
        Some(b) => b,
        None => 0,
    }
}

} // verus!
