//! Glyph metrics read from a parsed font face.
//!
//! The face is one of `ttf_parser`. Its tables stay opaque here. What the
//! face holds is named by three spec functions: its units per em, its
//! character map and the horizontal advances of its glyphs. Everything else
//! is defined over those.

use std::collections::HashMap;
use ttf_parser::{Face, FaceParsingError, GlyphId};
use vstd::prelude::*;
use crate::metrics::{glyph_width, lemma_text_width_push, measured_width};
use crate::text::is_scalar_value;

verus! {

broadcast use vstd::std_specs::hash::group_hash_axioms;

/// A parsed font face of `ttf_parser`.
#[verifier::external_type_specification]
#[verifier::external_body]
pub struct ExFace<'a>(Face<'a>);

/// The error with which `ttf_parser` refuses font data.
#[verifier::external_type_specification]
#[verifier::external_body]
pub struct ExFaceParsingError(FaceParsingError);

/// Why font data could not be parsed.
#[derive(Clone, Copy, Debug, PartialEq, Eq)]
pub enum FontError {
    /// A read went out of bounds.
    MalformedFont,
    /// The data does not start with the magic of a font or a collection.
    UnknownMagic,
    /// The face index is beyond the faces of the font.
    FaceIndexOutOfBounds,
    /// The `head` table is missing or malformed.
    NoHeadTable,
    /// The `hhea` table is missing or malformed.
    NoHheaTable,
    /// The `maxp` table is missing or malformed.
    NoMaxpTable,
}

/// The units per em of a face.
pub uninterp spec fn face_units_per_em(face: &Face) -> u16;

/// The character map of a face: the number of the glyph of each character
/// that has one.
pub uninterp spec fn face_char_map(face: &Face) -> Map<char, u16>;

/// The horizontal advances of a face: the advance in font units of each
/// glyph that has one, by the glyph's number.
pub uninterp spec fn face_hor_advances(face: &Face) -> Map<u16, u16>;

/// The variant of `FontError` that has the name of the variant of `error`.
pub uninterp spec fn parsing_error_kind(error: FaceParsingError) -> FontError;

/// The error, if any, with which `Face::parse` refuses face `index` of
/// `data`.
pub uninterp spec fn face_parse_failure(data: Seq<u8>, index: u32) -> Option<FontError>;

/// `Face::units_per_em`: the face's units per em. The parser accepts a `head`
/// table only with a value from 16 to 16384, so every face has one in that
/// range.
#[verifier::external_body]
fn units_per_em(face: &Face) -> (upem: u16)
    ensures
        upem == face_units_per_em(face),
        16 <= upem <= 16384,
{
    face.units_per_em()
}

/// `Face::glyph_index`: the glyph that the face's character map gives to
/// `ch`, by its number, or `None` where it gives none.
#[verifier::external_body]
fn glyph_index(face: &Face, ch: char) -> (glyph: Option<u16>)
    ensures
        glyph == face_char_map(face).get(ch),
{
    face.glyph_index(ch).map(|id| id.0)
}

/// `Face::glyph_hor_advance`: the horizontal advance of a glyph in font
/// units, or `None` where the face has no horizontal metrics for it.
#[verifier::external_body]
fn glyph_hor_advance(face: &Face, glyph: u16) -> (advance: Option<u16>)
    ensures
        advance == face_hor_advances(face).get(glyph),
{
    face.glyph_hor_advance(GlyphId(glyph))
}

/// Tells the variants of `FaceParsingError` apart, each to the variant
/// of `FontError` with the same name.
#[verifier::external_body]
fn error_kind(error: FaceParsingError) -> (kind: FontError)
    ensures
        kind == parsing_error_kind(error),
{
    match error {
        FaceParsingError::MalformedFont => FontError::MalformedFont,
        FaceParsingError::UnknownMagic => FontError::UnknownMagic,
        FaceParsingError::FaceIndexOutOfBounds => FontError::FaceIndexOutOfBounds,
        FaceParsingError::NoHeadTable => FontError::NoHeadTable,
        FaceParsingError::NoHheaTable => FontError::NoHheaTable,
        FaceParsingError::NoMaxpTable => FontError::NoMaxpTable,
    }
}

/// `Face::parse`: parses face `index` of the font in `data`. Whether it
/// succeeds, and with which error it fails, depends on the bytes and the index
/// alone.
#[verifier::external_body]
fn face_parse<'a>(data: &'a [u8], index: u32) -> (parsed: Result<Face<'a>, FaceParsingError>)
    ensures
        match parsed {
            Ok(_) => face_parse_failure(data@, index) is None,
            Err(error) => face_parse_failure(data@, index) == Some(parsing_error_kind(error)),
        },
{
    Face::parse(data, index)
}

/// The advance of `ch` in font units: that of the glyph which the face gives
/// to `ch`, or `None` where it gives no glyph or the glyph has no advance.
pub open spec fn face_advance(face: &Face, ch: char) -> Option<u16> {
    match face_char_map(face).get(ch) {
        Some(glyph) => face_hor_advances(face).get(glyph),
        None => None,
    }
}

/// An advance in font units at `px_size`: the advance times the size, divided
/// by the units per em and rounded down. Size and result are in thousandths
/// of a pixel.
pub open spec fn scaled_advance(advance: u16, px_size: u32, units_per_em: u16) -> nat {
    (advance as nat * px_size as nat) / (units_per_em as nat)
}

/// The width of `ch` at `px_size`, or `None` where the face has no advance
/// for it.
pub open spec fn face_char_width(face: &Face, px_size: u32, ch: char) -> Option<u64> {
    match face_advance(face, ch) {
        Some(advance) => Some(scaled_advance(advance, px_size, face_units_per_em(face)) as u64),
        None => None,
    }
}

/// The glyph table of the whole face at `px_size`: an entry for the code of
/// each character for which the face has an advance.
pub open spec fn face_glyph_table(face: &Face, px_size: u32) -> Map<u32, u64> {
    Map::new(
        |code: u32| is_scalar_value(code) && face_char_width(face, px_size, code as char) is Some,
        |code: u32| face_char_width(face, px_size, code as char)->0,
    )
}

/// Whether `code` is one of the characters that `build_glyph_widths` looks
/// up: printable ASCII, the Cyrillic capitals and small letters from U+0410
/// to U+044F, and the two letters U+0401 and U+0451.
pub open spec fn in_charset(code: u32) -> bool {
    ||| 0x20 <= code <= 0x7E
    ||| 0x410 <= code <= 0x42F
    ||| 0x430 <= code <= 0x44F
    ||| code == 0x401
    ||| code == 0x451
}

/// In the table of the face a character has its width at the face, and zero
/// where the face has none for it.
pub proof fn lemma_face_glyph_width(face: &Face, px_size: u32, ch: char)
    ensures
        glyph_width(face_glyph_table(face, px_size), ch) == match face_char_width(
            face,
            px_size,
            ch,
        ) {
            Some(w) => w as nat,
            None => 0,
        },
{
    assert((ch as u32) as char == ch);
    assert(is_scalar_value(ch as u32));
}

/// The width of `ch` at `px_size`, or `None` where the face has no advance
/// for it.
pub fn char_width(face: &Face, px_size: u32, ch: char) -> (w: Option<u64>)
    ensures
        w == face_char_width(face, px_size, ch),
{
    let upem = units_per_em(face);
    match glyph_index(face, ch) {
        Some(glyph) => match glyph_hor_advance(face, glyph) {
            Some(advance) => {
                assert(advance as nat * px_size as nat <= 0xFFFF * 0xFFFF_FFFF) by (nonlinear_arith)
                    requires
                        advance <= 0xFFFF,
                        px_size <= 0xFFFF_FFFF,
                ;
                Some((advance as u64 * px_size as u64) / (upem as u64))
            },
            None => None,
        },
        None => None,
    }
}

/// Parses the first face of the font in `data`.
pub fn parse_font<'a>(data: &'a [u8]) -> (parsed: Result<Face<'a>, FontError>)
    ensures
        parsed is Ok <==> face_parse_failure(data@, 0) is None,
        parsed is Err ==> face_parse_failure(data@, 0) == Some(parsed->Err_0),
{
    font_result(face_parse(data, 0))
}

/// Turns a parser's result into the library's: the face as it is, the error
/// by its kind.
pub fn font_result<'a>(parsed: Result<Face<'a>, FaceParsingError>) -> (result: Result<
    Face<'a>,
    FontError,
>)
    ensures
        match parsed {
            Ok(face) => result == Ok::<Face<'a>, FontError>(face),
            Err(error) => result == Err::<Face<'a>, FontError>(parsing_error_kind(error)),
        },
{
    match parsed {
        Ok(face) => Ok(face),
        Err(error) => Err(error_kind(error)),
    }
}

/// Measures `text` at the face itself: the sum of the widths of its
/// characters at `px_size`, where a character for which the face has no
/// advance counts as zero. The glyph table is not consulted. The sum
/// saturates at `u64::MAX`.
pub fn measure_text_kerning(
    text: &str,
    face: &Face,
    _glyphs: &HashMap<u32, u64>,
    px_size: u32,
) -> (w: u64)
    ensures
        w == measured_width(text@, face_glyph_table(face, px_size)),
{
    let ghost table = face_glyph_table(face, px_size);
    let mut total: u64 = 0;
    for ch in it: text.chars()
        invariant
            it.seq() == text@,
            table == face_glyph_table(face, px_size),
            total == measured_width(it.seq().take(it.index() as int), table),
    {
        proof {
            let done = it.seq().take(it.index() as int);
            assert(it.seq().take(it.index() + 1) =~= done.push(ch));
            lemma_text_width_push(done, ch, table);
            lemma_face_glyph_width(face, px_size, ch);
        }
        let w = match char_width(face, px_size, ch) {
            Some(w) => w,
            None => 0,
        };
        total = total.saturating_add(w);
    }
    proof {
        assert(text@.take(text@.len() as int) =~= text@);
    }
    total
}

/// The codes from `first` up to, not including, `end`.
pub open spec fn code_range(first: u32, end: int) -> Set<u32> {
    Set::new(|code: u32| first <= code < end)
}

/// Adds to `map` the width of every character with a code from `first` to
/// `last` for which the face has an advance.
fn add_code_range(
    map: &mut HashMap<u32, u64>,
    face: &Face,
    px_size: u32,
    first: u32,
    last: u32,
)
    requires
        first <= last < u32::MAX,
    ensures
        final(map)@ == old(map)@.union_prefer_right(
            face_glyph_table(face, px_size).restrict(code_range(first, last + 1)),
        ),
{
    let ghost table = face_glyph_table(face, px_size);
    let mut code: u32 = first;
    proof {
        assert(map@ =~= old(map)@.union_prefer_right(table.restrict(code_range(first, first as int))));
    }
    while code <= last
        invariant
            first <= code <= last + 1,
            last < u32::MAX,
            table == face_glyph_table(face, px_size),
            map@ == old(map)@.union_prefer_right(table.restrict(code_range(first, code as int))),
        decreases last + 1 - code,
    {
        let ghost before = map@;
        match char::from_u32(code) {
            Some(ch) => {
                assert(ch as u32 == code);
                match char_width(face, px_size, ch) {
                    Some(w) => {
                        map.insert(code, w);
                    },
                    None => {},
                }
            },
            None => {},
        }
        proof {
            assert(map@ =~= old(map)@.union_prefer_right(
                table.restrict(code_range(first, code + 1)),
            ));
        }
        code += 1;
    }
}

/// Builds the glyph table of the face at `px_size` for the characters of
/// `in_charset`: each character for which the face has an advance gets its
/// advance times `px_size` divided by the units per em; the others get no
/// entry.
pub fn build_glyph_widths(face: &Face, px_size: u32) -> (glyphs: HashMap<u32, u64>)
    ensures
        glyphs@ == face_glyph_table(face, px_size).restrict(Set::new(|code: u32| in_charset(code))),
{
    let mut map: HashMap<u32, u64> = HashMap::new();
    add_code_range(&mut map, face, px_size, 0x20, 0x7E);
    add_code_range(&mut map, face, px_size, 0x410, 0x42F);
    add_code_range(&mut map, face, px_size, 0x430, 0x44F);
    add_code_range(&mut map, face, px_size, 0x401, 0x401);
    add_code_range(&mut map, face, px_size, 0x451, 0x451);
    proof {
        assert(map@ =~= face_glyph_table(face, px_size).restrict(
            Set::new(|code: u32| in_charset(code)),
        ));
    }
    map
}

} // verus!
