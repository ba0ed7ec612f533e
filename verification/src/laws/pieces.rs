//! Laws of the pieces that strings are written in.
//!
//! Between its quotes a string is a sequence of pieces. Each piece means some
//! bytes, and the string means what its pieces mean, one after the other.
use crate::error::ErrorCode;
use crate::laws::notation;
use crate::outcome::{Outcome, Placed};
use crate::read::Cursor;
use crate::string::{Bytes, Literal, Text};
use crate::{progress, string};
use vstd::prelude::*;
use vstd::utf8::*;

verus! {

/// A piece of a string.
pub enum Piece {
    /// A byte that means itself.
    Itself(u8),
    /// A backslash and a letter.
    Letter(u8),
    /// A backslash, a `u` and four hexadecimal digits.
    Unit(Seq<u8>),
    /// Two of those, the halves of a surrogate pair.
    Pair(Seq<u8>, Seq<u8>),
}

/// The byte that a backslash and a letter stand for.
pub open spec fn letter_means(l: u8) -> Option<u8> {
    if l == 0x22 {
        Some(0x22)
    } else if l == 0x5c {
        Some(0x5c)
    } else if l == 0x2f {
        Some(0x2f)
    } else if l == 0x62 {
        Some(0x08)
    } else if l == 0x66 {
        Some(0x0c)
    } else if l == 0x6e {
        Some(0x0a)
    } else if l == 0x72 {
        Some(0x0d)
    } else if l == 0x74 {
        Some(0x09)
    } else {
        None
    }
}

/// Four hexadecimal digits.
pub open spec fn four(h: Seq<u8>) -> bool {
    h.len() == 4 && forall|i: int| 0 <= i < 4 ==> notation::hex(#[trigger] h[i])
}

/// The number that four hexadecimal digits write.
pub open spec fn hexadecimal(h: Seq<u8>) -> nat {
    ((notation::hex_counts(h[0]) * 16 + notation::hex_counts(h[1])) * 16 + notation::hex_counts(
        h[2],
    )) * 16 + notation::hex_counts(h[3])
}

/// A backslash and a `u`.
pub open spec fn unit_mark() -> Seq<u8> {
    seq![0x5cu8, 0x75u8]
}

impl Piece {
    /// How the piece is written.
    pub open spec fn written(self) -> Seq<u8> {
        match self {
            Piece::Itself(b) => seq![b],
            Piece::Letter(l) => seq![0x5cu8, l],
            Piece::Unit(h) => unit_mark() + h,
            Piece::Pair(h, l) => unit_mark() + h + (unit_mark() + l),
        }
    }

    /// The bytes that the piece means.
    pub open spec fn meant(self) -> Seq<u8> {
        match self {
            Piece::Itself(b) => seq![b],
            Piece::Letter(l) => match letter_means(l) {
                Some(b) => seq![b],
                None => Seq::empty(),
            },
            Piece::Unit(h) => encode_scalar(hexadecimal(h) as u32),
            Piece::Pair(h, l) => encode_scalar(
                (0x1_0000 + (hexadecimal(h) - 0xD800) * 0x400 + (hexadecimal(l) - 0xDC00)) as u32,
            ),
        }
    }

    /// Whether the piece may stand in a string; in text no control character
    /// may stand for itself.
    pub open spec fn sound(self, text: bool) -> bool {
        match self {
            Piece::Itself(b) => b != 0x22 && b != 0x5c && (text ==> b >= 0x20),
            Piece::Letter(l) => letter_means(l) is Some,
            Piece::Unit(h) => four(h) && !(0xD800 <= hexadecimal(h) <= 0xDFFF),
            Piece::Pair(h, l) => {
                &&& four(h)
                &&& four(l)
                &&& 0xD800 <= hexadecimal(h) <= 0xDBFF
                &&& 0xDC00 <= hexadecimal(l) <= 0xDFFF
            },
        }
    }
}

/// How pieces are written, one after the other.
pub open spec fn written(p: Seq<Piece>) -> Seq<u8>
    decreases p.len(),
{
    if p.len() == 0 {
        Seq::empty()
    } else {
        p[0].written() + written(p.drop_first())
    }
}

/// What pieces mean, one after the other.
pub open spec fn meant(p: Seq<Piece>) -> Seq<u8>
    decreases p.len(),
{
    if p.len() == 0 {
        Seq::empty()
    } else {
        p[0].meant() + meant(p.drop_first())
    }
}

/// Whether all pieces may stand in a string.
pub open spec fn sound(p: Seq<Piece>, text: bool) -> bool {
    forall|i: int| 0 <= i < p.len() ==> (#[trigger] p[i]).sound(text)
}

/// Whether all pieces mean themselves.
pub open spec fn plain(p: Seq<Piece>) -> bool {
    forall|i: int| 0 <= i < p.len() ==> (#[trigger] p[i]) is Itself
}

/// A step that refuses the text behind the byte it has just consumed.
pub open spec fn refused_at<T>(code: ErrorCode, n: int) -> Outcome<T> {
    Outcome::Fail { code, place: n, pos: n }
}

proof fn lemma_four(c: Cursor, h: Seq<u8>)
    requires
        c.valid(),
        four(h),
        notation::holds(c.bytes, c.pos, h),
    ensures
        string::hex_digits(c, 4, 0) == (Outcome::Done { value: hexadecimal(h), pos: c.pos + 4 }),
{
    reveal_with_fuel(string::hex_digits, 5);
    assert(c.bytes[c.pos + 0] == h[0]);
    assert(c.bytes[c.pos + 1] == h[1]);
    assert(c.bytes[c.pos + 2] == h[2]);
    assert(c.bytes[c.pos + 3] == h[3]);
    assert(notation::hex(h[0]) && notation::hex(h[1]) && notation::hex(h[2]) && notation::hex(
        h[3],
    ));
}

/// A piece is read as what it means.
proof fn lemma_piece(c: Cursor, p: Piece, text: bool, sofar: Literal)
    requires
        c.valid(),
        p.sound(text),
        notation::holds(c.bytes, c.pos, p.written()),
    ensures
        p.written().len() > 0,
        string::literal(c, text, sofar) == string::literal(
            c.at(c.pos + p.written().len()),
            text,
            Literal { bytes: sofar.bytes + p.meant(), escaped: sofar.escaped || !(p is Itself) },
        ),
{
    let w = p.written();
    assert(c.bytes[c.pos + 0] == w[0]);
    match p {
        Piece::Itself(b) => {
            assert(sofar.bytes.push(b) =~= sofar.bytes + seq![b]);
        },
        Piece::Letter(l) => {
            assert(c.bytes[c.pos + 1] == w[1]);
        },
        Piece::Unit(h) => {
            assert(c.bytes[c.pos + 1] == w[1]);
            notation::lemma_split(c.bytes, c.pos, unit_mark(), h);
            lemma_four(c.at(c.pos + 2), h);
        },
        Piece::Pair(h, l) => {
            assert(c.bytes[c.pos + 1] == w[1]);
            notation::lemma_split(c.bytes, c.pos, unit_mark() + h, unit_mark() + l);
            notation::lemma_split(c.bytes, c.pos, unit_mark(), h);
            notation::lemma_split(c.bytes, c.pos + 6, unit_mark(), l);
            assert(c.bytes[(c.pos + 6) + 0] == unit_mark()[0]);
            assert(c.bytes[(c.pos + 6) + 1] == unit_mark()[1]);
            lemma_four(c.at(c.pos + 2), h);
            lemma_four(c.at(c.pos + 8), l);
        },
    }
}

/// Pieces are read as what they mean.
proof fn lemma_pieces(c: Cursor, p: Seq<Piece>, text: bool, sofar: Literal)
    requires
        c.valid(),
        sound(p, text),
        notation::holds(c.bytes, c.pos, written(p)),
    ensures
        string::literal(c, text, sofar) == string::literal(
            c.at(c.pos + written(p).len()),
            text,
            Literal { bytes: sofar.bytes + meant(p), escaped: sofar.escaped || !plain(p) },
        ),
    decreases p.len(),
{
    if p.len() == 0 {
        assert(sofar.bytes + meant(p) =~= sofar.bytes);
        assert(c.at(c.pos + 0) == c);
    } else {
        let q = p.drop_first();
        notation::lemma_split(c.bytes, c.pos, p[0].written(), written(q));
        lemma_piece(c, p[0], text, sofar);
        let next = Literal {
            bytes: sofar.bytes + p[0].meant(),
            escaped: sofar.escaped || !(p[0] is Itself),
        };
        assert forall|i: int| 0 <= i < q.len() implies (#[trigger] q[i]).sound(text) by {
            assert(p[i + 1].sound(text));
        }
        lemma_pieces(c.at(c.pos + p[0].written().len()), q, text, next);
        assert(next.bytes + meant(q) =~= sofar.bytes + meant(p));
        assert(plain(p) <==> p[0] is Itself && plain(q)) by {
            if p[0] is Itself && plain(q) {
                assert forall|i: int| 0 <= i < p.len() implies (#[trigger] p[i]) is Itself by {
                    if i > 0 {
                        assert(q[i - 1] is Itself);
                    }
                }
            }
            if plain(p) {
                assert forall|i: int| 0 <= i < q.len() implies (#[trigger] q[i]) is Itself by {
                    assert(p[i + 1] is Itself);
                }
            }
        }
    }
}

/// A string means what its pieces mean, one after the other. It is a piece of
/// the input where the source lends those and nothing had to be replaced.
pub proof fn law_pieces(c: Cursor, p: Seq<Piece>, text: bool)
    requires
        c.valid(),
        sound(p, text),
        notation::holds(c.bytes, c.pos, written(p) + seq![0x22u8]),
    ensures
        string::raw_string(c, text) == (Outcome::Done {
            value: Bytes { bytes: meant(p), borrowed: c.lends && plain(p) },
            pos: c.pos + written(p).len() + 1,
        }),
{
    reveal(string::raw_string);
    notation::lemma_split(c.bytes, c.pos, written(p), seq![0x22u8]);
    notation::lemma_first(c.bytes, c.pos + written(p).len(), seq![0x22u8]);
    lemma_pieces(c, p, text, string::no_literal());
    assert(string::no_literal().bytes + meant(p) =~= meant(p));
}

/// As text, it has to mean UTF-8, and then it is the characters that those
/// bytes encode.
pub proof fn law_text(c: Cursor, p: Seq<Piece>)
    requires
        c.valid(),
        sound(p, true),
        notation::holds(c.bytes, c.pos, written(p) + seq![0x22u8]),
    ensures
        ({
            let end = c.pos + written(p).len() + 1;
            string::text(c) == if valid_utf8(meant(p)) {
                Outcome::Done {
                    value: Text { chars: decode_utf8(meant(p)), borrowed: c.lends && plain(p) },
                    pos: end,
                }
            } else {
                refused_at(ErrorCode::InvalidUnicodeCodePoint, end)
            }
        }),
{
    reveal(string::text);
    law_pieces(c, p, true);
}

/// What is refused as bytes without control characters is refused as text, in
/// the same way.
pub proof fn law_text_refused(c: Cursor)
    requires
        c.valid(),
    ensures
        match string::raw_string(c, true) {
            Outcome::Done { .. } => true,
            Outcome::Fail { code, place, pos } => string::text(c) == (Outcome::<Text>::Fail {
                code,
                place,
                pos,
            }),
            Outcome::Torn { .. } => false,
            Outcome::Broken { placed, moved } => string::text(c) == (Outcome::<Text>::Broken {
                placed,
                moved,
            }),
        },
{
    reveal(string::text);
    reveal(string::raw_string);
    progress::lemma_flat_literal(c, true, string::no_literal());
}

/// The same said of characters: pieces that mean the encoding of some
/// characters are read as those.
pub proof fn law_characters(c: Cursor, p: Seq<Piece>, s: Seq<char>)
    requires
        c.valid(),
        sound(p, true),
        meant(p) == encode_utf8(s),
        notation::holds(c.bytes, c.pos, written(p) + seq![0x22u8]),
    ensures
        string::text(c) == (Outcome::Done {
            value: Text { chars: s, borrowed: c.lends && plain(p) },
            pos: c.pos + written(p).len() + 1,
        }),
{
    broadcast use {encode_utf8_valid_utf8, encode_utf8_decode_utf8};

    law_text(c, p);
}

/// A string that the input ends in is refused there; a source that fails there
/// gives its own error.
pub open spec fn cut_off<T>(c: Cursor) -> Outcome<T> {
    if c.failure is None {
        refused_at(ErrorCode::EofWhileParsingString, c.bytes.len() as int)
    } else {
        Outcome::Broken { placed: Placed::Nowhere, moved: false }
    }
}

proof fn lemma_hex_found(c: Cursor) -> (h: Seq<u8>)
    requires
        c.valid(),
        string::hex_digits(c, 4, 0) is Done,
    ensures
        four(h),
        notation::holds(c.bytes, c.pos, h),
        string::hex_digits(c, 4, 0) == (Outcome::Done { value: hexadecimal(h), pos: c.pos + 4 }),
{
    reveal_with_fuel(string::hex_digits, 5);
    progress::lemma_hex_digits(c, 4, 0);
    let h = c.bytes.subrange(c.pos, c.pos + 4);
    notation::lemma_between(c.bytes, c.pos, c.pos + 4);
    assert(four(h));
    lemma_four(c, h);
    h
}

proof fn lemma_piece_found(c: Cursor) -> (p: Piece)
    requires
        c.valid(),
        !c.spent(),
        c.bytes[c.pos] == 0x5c,
        string::escape(c.at(c.pos + 1)) is Done,
    ensures
        !(p is Itself),
        p.sound(true),
        p.sound(false),
        notation::holds(c.bytes, c.pos, p.written()),
        string::escape(c.at(c.pos + 1)) == (Outcome::Done {
            value: p.meant(),
            pos: c.pos + p.written().len(),
        }),
{
    let d = c.at(c.pos + 1);
    let l = c.bytes[d.pos];
    if l == 0x75 {
        let e = c.at(c.pos + 2);
        let h = lemma_hex_found(e);
        assert(notation::holds(c.bytes, c.pos, unit_mark()));
        notation::lemma_join(c.bytes, c.pos, unit_mark(), h);
        if string::is_leading_surrogate(hexadecimal(h)) {
            let low = lemma_hex_found(c.at(c.pos + 8));
            assert(notation::holds(c.bytes, c.pos + 6, unit_mark()));
            notation::lemma_join(c.bytes, c.pos + 6, unit_mark(), low);
            notation::lemma_join(c.bytes, c.pos, unit_mark() + h, unit_mark() + low);
            Piece::Pair(h, low)
        } else {
            Piece::Unit(h)
        }
    } else {
        assert(notation::holds(c.bytes, c.pos, seq![0x5cu8, l]));
        Piece::Letter(l)
    }
}

/// A piece in front of others.
proof fn lemma_cons(b: Seq<u8>, i: int, first: Piece, rest: Seq<Piece>, text: bool)
    requires
        first.sound(text),
        sound(rest, text),
        notation::holds(b, i, first.written()),
        notation::holds(b, i + first.written().len(), written(rest) + seq![0x22u8]),
    ensures
        sound(seq![first] + rest, text),
        written(seq![first] + rest) == first.written() + written(rest),
        meant(seq![first] + rest) == first.meant() + meant(rest),
        notation::holds(b, i, written(seq![first] + rest) + seq![0x22u8]),
{
    let p = seq![first] + rest;
    assert(p.drop_first() =~= rest);
    notation::lemma_join(b, i, first.written(), written(rest) + seq![0x22u8]);
    assert(first.written() + (written(rest) + seq![0x22u8]) =~= written(p) + seq![0x22u8]);
    assert forall|k: int| 0 <= k < p.len() implies (#[trigger] p[k]).sound(text) by {
        if k > 0 {
            assert(rest[k - 1].sound(text));
        }
    }
}

/// The first piece of a string that is read to its end, and what is left.
proof fn lemma_first_found(c: Cursor, text: bool, sofar: Literal) -> (p: Piece)
    requires
        c.valid(),
        string::literal(c, text, sofar) is Done,
        c.bytes[c.pos] != 0x22,
    ensures
        !c.spent(),
        p.sound(text),
        p.written().len() > 0,
        notation::holds(c.bytes, c.pos, p.written()),
        string::literal(c, text, sofar) == string::literal(
            c.at(c.pos + p.written().len()),
            text,
            Literal { bytes: sofar.bytes + p.meant(), escaped: sofar.escaped || !(p is Itself) },
        ),
{
    let b = c.bytes[c.pos];
    let p = if b == 0x5c {
        lemma_piece_found(c)
    } else {
        assert(notation::holds(c.bytes, c.pos, seq![b]));
        Piece::Itself(b)
    };
    lemma_piece(c, p, text, sofar);
    p
}

proof fn lemma_pieces_found(c: Cursor, text: bool, sofar: Literal) -> (p: Seq<Piece>)
    requires
        c.valid(),
        string::literal(c, text, sofar) is Done,
    ensures
        sound(p, text),
        notation::holds(c.bytes, c.pos, written(p) + seq![0x22u8]),
    decreases c.bytes.len() - c.pos,
{
    if c.bytes[c.pos] == 0x22 {
        let none = Seq::<Piece>::empty();
        assert(written(none) + seq![0x22u8] =~= seq![0x22u8]);
        assert(notation::holds(c.bytes, c.pos, seq![0x22u8]));
        none
    } else {
        let first = lemma_first_found(c, text, sofar);
        let next = Literal {
            bytes: sofar.bytes + first.meant(),
            escaped: sofar.escaped || !(first is Itself),
        };
        let rest = lemma_pieces_found(c.at(c.pos + first.written().len()), text, next);
        lemma_cons(c.bytes, c.pos, first, rest, text);
        seq![first] + rest
    }
}

/// Nothing else is a string: what is read as one is written in pieces.
pub proof fn law_pieces_only(c: Cursor, text: bool) -> (p: Seq<Piece>)
    requires
        c.valid(),
        string::raw_string(c, text) is Done,
    ensures
        sound(p, text),
        notation::holds(c.bytes, c.pos, written(p) + seq![0x22u8]),
{
    reveal(string::raw_string);
    lemma_pieces_found(c, text, string::no_literal())
}

/// What is refused behind pieces that are sound: the end of the input, a
/// control character in text, and a backslash that begins no piece.
pub proof fn law_refused(c: Cursor, p: Seq<Piece>, text: bool)
    requires
        c.valid(),
        sound(p, text),
        notation::holds(c.bytes, c.pos, written(p)),
    ensures
        ({
            let n = c.pos + written(p).len();
            let o = string::raw_string(c, text);
            let len = c.bytes.len();
            let eof = cut_off::<Bytes>(c);
            &&& n == len ==> o == eof
            &&& n < len && text && c.bytes[n] < 0x20 ==> o == refused_at::<Bytes>(
                ErrorCode::InvalidUnicodeCodePoint,
                n + 1,
            )
            &&& n + 1 == len && c.bytes[n] == 0x5c ==> o == eof
            &&& n + 1 < len && c.bytes[n] == 0x5c && c.bytes[n + 1] != 0x75 && letter_means(
                c.bytes[n + 1],
            ) is None ==> o == refused_at::<Bytes>(ErrorCode::InvalidEscape, n + 2)
        }),
{
    reveal(string::raw_string);
    lemma_pieces(c, p, text, string::no_literal());
}

proof fn lemma_hex_short(c: Cursor, k: int)
    requires
        c.valid(),
        0 <= k < 4,
        c.pos + k <= c.bytes.len(),
        forall|i: int| c.pos <= i < c.pos + k ==> notation::hex(#[trigger] c.bytes[i]),
        c.pos + k < c.bytes.len() ==> !notation::hex(c.bytes[c.pos + k]),
    ensures
        string::hex_digits(c, 4, 0) == if c.pos + k == c.bytes.len() {
            cut_off::<nat>(c)
        } else {
            refused_at::<nat>(ErrorCode::InvalidEscape, c.pos + k + 1)
        },
{
    reveal_with_fuel(string::hex_digits, 5);
    if k > 0 {
        assert(notation::hex(c.bytes[c.pos]));
    }
    if k > 1 {
        assert(notation::hex(c.bytes[c.pos + 1]));
    }
    if k > 2 {
        assert(notation::hex(c.bytes[c.pos + 2]));
    }
}

/// Fewer than four hexadecimal digits behind `\u`, in the first or the second
/// half: the byte that is no such digit is refused, or the end of the input.
pub proof fn law_refused_digits(c: Cursor, p: Seq<Piece>, text: bool, half: Option<Seq<u8>>, k: int)
    requires
        c.valid(),
        sound(p, text),
        half matches Some(h) ==> four(h) && 0xD800 <= hexadecimal(h) <= 0xDBFF,
        ({
            let before = match half {
                Some(h) => unit_mark() + h + unit_mark(),
                None => unit_mark(),
            };
            let n = c.pos + written(p).len() + before.len();
            &&& notation::holds(c.bytes, c.pos, written(p) + before)
            &&& 0 <= k < 4
            &&& n + k <= c.bytes.len()
            &&& forall|i: int| n <= i < n + k ==> notation::hex(#[trigger] c.bytes[i])
            &&& n + k < c.bytes.len() ==> !notation::hex(c.bytes[n + k])
        }),
    ensures
        ({
            let n = c.pos + written(p).len() + if half is Some {
                8int
            } else {
                2int
            };
            string::raw_string(c, text) == if n + k == c.bytes.len() {
                cut_off::<Bytes>(c)
            } else {
                refused_at::<Bytes>(ErrorCode::InvalidEscape, n + k + 1)
            }
        }),
{
    reveal(string::raw_string);
    let n = c.pos + written(p).len();
    match half {
        Some(h) => {
            let before = unit_mark() + h + unit_mark();
            notation::lemma_split(c.bytes, c.pos, written(p), before);
            notation::lemma_split(c.bytes, n, unit_mark() + h, unit_mark());
            notation::lemma_split(c.bytes, n, unit_mark(), h);
            assert(c.bytes[(n + 6) + 0] == unit_mark()[0]);
            assert(c.bytes[(n + 6) + 1] == unit_mark()[1]);
            lemma_four(c.at(n + 2), h);
            lemma_hex_short(c.at(n + 8), k);
        },
        None => {
            notation::lemma_split(c.bytes, c.pos, written(p), unit_mark());
            lemma_hex_short(c.at(n + 2), k);
        },
    }
    assert(c.bytes[n + 0] == unit_mark()[0]);
    assert(c.bytes[n + 1] == unit_mark()[1]);
    lemma_pieces(c, p, text, string::no_literal());
}

/// Halves of surrogate pairs that are on their own.
pub proof fn law_refused_halves(c: Cursor, p: Seq<Piece>, text: bool, h: Seq<u8>)
    requires
        c.valid(),
        sound(p, text),
        four(h),
        notation::holds(c.bytes, c.pos, written(p) + (unit_mark() + h)),
    ensures
        ({
            let n = c.pos + written(p).len() + 6;
            let o = string::raw_string(c, text);
            let len = c.bytes.len();
            let leads = 0xD800 <= hexadecimal(h) <= 0xDBFF;
            let eof = cut_off::<Bytes>(c);
            let missing = ErrorCode::UnexpectedEndOfHexEscape;
            let lone = ErrorCode::LoneLeadingSurrogateInHexEscape;
            &&& 0xDC00 <= hexadecimal(h) <= 0xDFFF ==> o == refused_at::<Bytes>(lone, n)
            &&& leads && n == len ==> o == eof
            &&& leads && n < len && c.bytes[n] != 0x5c ==> o == refused_at::<Bytes>(missing, n + 1)
            &&& leads && n + 1 == len && c.bytes[n] == 0x5c ==> o == eof
            &&& leads && n + 1 < len && c.bytes[n] == 0x5c && c.bytes[n + 1] != 0x75 ==> o
                == refused_at::<Bytes>(missing, n + 2)
        }),
{
    reveal(string::raw_string);
    let m = c.pos + written(p).len();
    notation::lemma_split(c.bytes, c.pos, written(p), unit_mark() + h);
    notation::lemma_split(c.bytes, m, unit_mark(), h);
    assert(c.bytes[m + 0] == unit_mark()[0]);
    assert(c.bytes[m + 1] == unit_mark()[1]);
    lemma_four(c.at(m + 2), h);
    lemma_pieces(c, p, text, string::no_literal());
}

/// Two units in a row of which the first is the leading half of a pair and the
/// second is not the trailing half.
pub proof fn law_refused_pair(c: Cursor, p: Seq<Piece>, text: bool, h: Seq<u8>, l: Seq<u8>)
    requires
        c.valid(),
        sound(p, text),
        four(h),
        four(l),
        0xD800 <= hexadecimal(h) <= 0xDBFF,
        !(0xDC00 <= hexadecimal(l) <= 0xDFFF),
        notation::holds(c.bytes, c.pos, written(p) + ((unit_mark() + h) + (unit_mark() + l))),
    ensures
        string::raw_string(c, text) == refused_at::<Bytes>(
            ErrorCode::LoneLeadingSurrogateInHexEscape,
            c.pos + written(p).len() + 12,
        ),
{
    reveal(string::raw_string);
    let m = c.pos + written(p).len();
    let n = m + 6;
    notation::lemma_split(c.bytes, c.pos, written(p), (unit_mark() + h) + (unit_mark() + l));
    notation::lemma_split(c.bytes, m, unit_mark() + h, unit_mark() + l);
    notation::lemma_split(c.bytes, m, unit_mark(), h);
    notation::lemma_split(c.bytes, n, unit_mark(), l);
    assert(c.bytes[m + 0] == unit_mark()[0]);
    assert(c.bytes[m + 1] == unit_mark()[1]);
    assert(c.bytes[n + 0] == unit_mark()[0]);
    assert(c.bytes[n + 1] == unit_mark()[1]);
    lemma_four(c.at(m + 2), h);
    lemma_four(c.at(n + 2), l);
    lemma_pieces(c, p, text, string::no_literal());
}

} // verus!
