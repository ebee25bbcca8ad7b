use std::collections::HashMap;

use restore_watermark::font::char_width;
use restore_watermark::{
    beam_search, beam_search_glyphs, build_glyph_widths, measure_text_kerning, measure_width,
    parse_font, Beam, FontError, ScoreWeights,
};

fn be16(out: &mut Vec<u8>, v: u16) {
    out.extend_from_slice(&v.to_be_bytes());
}

fn be32(out: &mut Vec<u8>, v: u32) {
    out.extend_from_slice(&v.to_be_bytes());
}

fn head(units_per_em: u16) -> Vec<u8> {
    let mut t = Vec::new();
    be32(&mut t, 0x0001_0000);
    be32(&mut t, 0);
    be32(&mut t, 0);
    be32(&mut t, 0x5F0F_3CF5);
    be16(&mut t, 0);
    be16(&mut t, units_per_em);
    t.extend_from_slice(&[0; 16]);
    t.extend_from_slice(&[0; 8]);
    be16(&mut t, 0);
    be16(&mut t, 8);
    be16(&mut t, 2);
    be16(&mut t, 0);
    be16(&mut t, 0);
    t
}

fn hhea(number_of_metrics: u16) -> Vec<u8> {
    let mut t = Vec::new();
    be32(&mut t, 0x0001_0000);
    t.extend_from_slice(&[0; 30]);
    be16(&mut t, number_of_metrics);
    t
}

fn maxp(number_of_glyphs: u16) -> Vec<u8> {
    let mut t = Vec::new();
    be32(&mut t, 0x0000_5000);
    be16(&mut t, number_of_glyphs);
    t
}

fn hmtx(advances: &[u16]) -> Vec<u8> {
    let mut t = Vec::new();
    for &advance in advances {
        be16(&mut t, advance);
        be16(&mut t, 0);
    }
    t
}

/// A character map with one segment per character, in the order given, which
/// has to be the order of the codes.
fn cmap(glyph_of: &[(char, u16)]) -> Vec<u8> {
    let mut t = Vec::new();
    be16(&mut t, 0);
    be16(&mut t, 1);
    be16(&mut t, 0);
    be16(&mut t, 4);
    be32(&mut t, 12);
    be16(&mut t, 12);
    be16(&mut t, 0);
    be32(&mut t, 16 + 12 * glyph_of.len() as u32);
    be32(&mut t, 0);
    be32(&mut t, glyph_of.len() as u32);
    for &(ch, glyph) in glyph_of {
        be32(&mut t, ch as u32);
        be32(&mut t, ch as u32);
        be32(&mut t, glyph as u32);
    }
    t
}

fn font_of(tables: &[(&[u8; 4], Vec<u8>)]) -> Vec<u8> {
    let mut out = Vec::new();
    be32(&mut out, 0x0001_0000);
    be16(&mut out, tables.len() as u16);
    be16(&mut out, 0);
    be16(&mut out, 0);
    be16(&mut out, 0);
    let mut offset = 12 + 16 * tables.len();
    for (tag, data) in tables {
        out.extend_from_slice(&tag[..]);
        be32(&mut out, 0);
        be32(&mut out, offset as u32);
        be32(&mut out, data.len() as u32);
        offset += data.len();
    }
    for (_, data) in tables {
        out.extend_from_slice(data);
    }
    out
}

/// A face with 2048 units per em. Glyph 0 is the missing glyph; the glyphs
/// from 1 on are given to the characters out of the order of their codes. The
/// character `z` has a glyph beyond the metrics, so no advance.
fn sample_font() -> Vec<u8> {
    let advances: [u16; 12] = [2000, 1024, 1139, 569, 1000, 455, 682, 1139, 1024, 1139, 1479, 1366];
    let glyph_of: [(char, u16); 12] = [
        (' ', 3),
        ('a', 2),
        ('e', 7),
        ('i', 5),
        ('n', 9),
        ('r', 6),
        ('s', 1),
        ('v', 8),
        ('z', 500),
        ('é', 4),
        ('Ё', 11),
        ('Я', 10),
    ];
    font_of(&[
        (b"cmap", cmap(&glyph_of)),
        (b"head", head(2048)),
        (b"hhea", hhea(advances.len() as u16)),
        (b"hmtx", hmtx(&advances)),
        (b"maxp", maxp(advances.len() as u16)),
    ])
}

fn triples(beams: &[Beam]) -> Vec<(&str, u64, i128)> {
    beams.iter().map(|b| (b.text.as_str(), b.width, b.score)).collect()
}

#[test]
fn sample_font_parses() {
    let data = sample_font();
    assert!(parse_font(&data).is_ok());
}

#[test]
fn char_width_scales_the_advance() {
    let data = sample_font();
    let face = parse_font(&data).unwrap();
    assert_eq!(char_width(&face, 16_000, 'a'), Some(8_898));
    assert_eq!(char_width(&face, 16_000, 'i'), Some(3_554));
    assert_eq!(char_width(&face, 16_000, 'r'), Some(5_328));
    assert_eq!(char_width(&face, 16_000, ' '), Some(4_445));
    assert_eq!(char_width(&face, 16_000, 'é'), Some(7_812));
    assert_eq!(char_width(&face, 2_048, 'a'), Some(1_139));
    assert_eq!(char_width(&face, 2_048_000, 's'), Some(1_024_000));
    assert_eq!(char_width(&face, 0, 'a'), Some(0));
    assert_eq!(char_width(&face, u32::MAX, 'Я'), Some(1479 * (u32::MAX as u64) / 2048));
}

#[test]
fn char_width_is_none_without_glyph_or_advance() {
    let data = sample_font();
    let face = parse_font(&data).unwrap();
    assert_eq!(char_width(&face, 16_000, 'b'), None);
    assert_eq!(char_width(&face, 16_000, 'z'), None);
    assert_eq!(char_width(&face, 16_000, 'я'), None);
}

#[test]
fn units_per_em_divide_the_width() {
    let tables = |upem: u16| {
        font_of(&[
            (b"cmap", cmap(&[('a', 1)])),
            (b"head", head(upem)),
            (b"hhea", hhea(2)),
            (b"hmtx", hmtx(&[0, 600])),
            (b"maxp", maxp(2)),
        ])
    };
    let data = tables(1000);
    let face = parse_font(&data).unwrap();
    assert_eq!(char_width(&face, 12_000, 'a'), Some(7_200));
    let data = tables(16);
    let face = parse_font(&data).unwrap();
    assert_eq!(char_width(&face, 12_000, 'a'), Some(450_000));
    let data = tables(16_384);
    let face = parse_font(&data).unwrap();
    assert_eq!(char_width(&face, 12_000, 'a'), Some(439));
}

#[test]
fn glyph_table_holds_the_charset_of_the_face() {
    let data = sample_font();
    let face = parse_font(&data).unwrap();
    let glyphs = build_glyph_widths(&face, 16_000);
    let mut expected: HashMap<u32, u64> = HashMap::new();
    for (ch, w) in [
        (' ', 4_445u64),
        ('a', 8_898),
        ('e', 8_898),
        ('i', 3_554),
        ('n', 8_898),
        ('r', 5_328),
        ('s', 8_000),
        ('v', 8_000),
        ('Ё', 10_671),
        ('Я', 11_554),
    ] {
        expected.insert(ch as u32, w);
    }
    assert_eq!(glyphs, expected);
    assert!(!glyphs.contains_key(&('é' as u32)));
    assert!(!glyphs.contains_key(&('z' as u32)));
}

#[test]
fn glyph_table_covers_every_range() {
    let glyph_of: [(char, u16); 9] = [
        (' ', 1),
        ('~', 1),
        ('\u{7f}', 1),
        ('Ё', 1),
        ('Џ', 1),
        ('А', 1),
        ('я', 1),
        ('ѐ', 1),
        ('ё', 1),
    ];
    let data = font_of(&[
        (b"cmap", cmap(&glyph_of)),
        (b"head", head(1000)),
        (b"hhea", hhea(2)),
        (b"hmtx", hmtx(&[0, 500])),
        (b"maxp", maxp(2)),
    ]);
    let face = parse_font(&data).unwrap();
    let glyphs = build_glyph_widths(&face, 10_000);
    let mut keys: Vec<u32> = glyphs.keys().copied().collect();
    keys.sort();
    assert_eq!(keys, vec![0x20, 0x7E, 0x401, 0x410, 0x44F, 0x451]);
    assert!(glyphs.values().all(|w| *w == 5_000));
}

#[test]
fn face_without_metrics_gives_an_empty_table() {
    let data = font_of(&[
        (b"cmap", cmap(&[('a', 1)])),
        (b"head", head(1000)),
        (b"hhea", hhea(2)),
        (b"maxp", maxp(2)),
    ]);
    let face = parse_font(&data).unwrap();
    assert!(build_glyph_widths(&face, 16_000).is_empty());
    assert_eq!(measure_text_kerning("aaa", &face, &HashMap::new(), 16_000), 0);
}

#[test]
fn text_is_measured_at_the_face() {
    let data = sample_font();
    let face = parse_font(&data).unwrap();
    let glyphs = build_glyph_widths(&face, 16_000);
    let none = HashMap::new();
    assert_eq!(measure_text_kerning("inverse", &face, &glyphs, 16_000), 51_576);
    assert_eq!(measure_text_kerning("inverse", &face, &none, 16_000), 51_576);
    assert_eq!(measure_text_kerning("", &face, &glyphs, 16_000), 0);
    assert_eq!(measure_text_kerning("zzz", &face, &glyphs, 16_000), 0);
    assert_eq!(measure_text_kerning("a b", &face, &glyphs, 16_000), 8_898 + 4_445);
    assert_eq!(measure_text_kerning("inverse", &face, &glyphs, 2_048), 455 + 1139 + 1024 + 1139 + 682 + 1024 + 1139);
}

#[test]
fn face_and_table_differ_outside_the_charset() {
    let data = sample_font();
    let face = parse_font(&data).unwrap();
    let glyphs = build_glyph_widths(&face, 16_000);
    assert_eq!(measure_text_kerning("é", &face, &glyphs, 16_000), 7_812);
    assert_eq!(measure_width("é", &glyphs), 0);
    assert_eq!(measure_width("inverse", &glyphs), 51_576);
}

#[test]
fn beam_search_measures_at_the_face() {
    let data = sample_font();
    let face = parse_font(&data).unwrap();
    let weights = ScoreWeights { width: 1_000, word_len: 100, spaces: 0 };
    let none = HashMap::new();
    let beams = beam_search(&face, &none, 16_000, 20_000, &['a', 'é', 'i'], &weights, 3, 2);
    assert_eq!(
        triples(&beams),
        vec![("aa", 17_796, -2_404_000), ("aé", 16_710, -3_490_000), ("éa", 16_710, -3_490_000)]
    );
    let beams = beam_search(&face, &none, 16_000, 20_000, &['a', 'é', 'i'], &weights, 2, 3);
    assert_eq!(triples(&beams), vec![("aéi", 20_264, -564_000), ("aai", 21_350, -1_650_000)]);
}

#[test]
fn beam_search_at_the_face_agrees_with_its_table() {
    let data = sample_font();
    let face = parse_font(&data).unwrap();
    let glyphs = build_glyph_widths(&face, 16_000);
    let weights = ScoreWeights { width: 2_000, word_len: 1_000, spaces: 3_000 };
    let alphabet = ['a', ' ', 'n', 'z', 'i'];
    let at_face = beam_search(&face, &glyphs, 16_000, 30_000, &alphabet, &weights, 6, 4);
    let at_table = beam_search_glyphs(&glyphs, 30_000, &alphabet, &weights, 6, 4);
    assert_eq!(triples(&at_face), triples(&at_table));
    assert_eq!(at_face.len(), 6);
}

#[test]
fn garbage_is_refused_by_its_magic() {
    assert_eq!(parse_font(&[]).err(), Some(FontError::UnknownMagic));
    assert_eq!(parse_font(b"not a font at all").err(), Some(FontError::UnknownMagic));
    assert_eq!(parse_font(&[0, 1, 0]).err(), Some(FontError::UnknownMagic));
}

#[test]
fn truncated_font_is_malformed() {
    assert_eq!(parse_font(&[0, 1, 0, 0]).err(), Some(FontError::MalformedFont));
    let data = sample_font();
    assert_eq!(parse_font(&data[..40]).err(), Some(FontError::MalformedFont));
}

#[test]
fn missing_tables_are_named() {
    let none: [(&[u8; 4], Vec<u8>); 0] = [];
    assert_eq!(parse_font(&font_of(&none)).err(), Some(FontError::NoHeadTable));
    assert_eq!(parse_font(&font_of(&[(b"head", head(2048))])).err(), Some(FontError::NoHheaTable));
    assert_eq!(
        parse_font(&font_of(&[(b"head", head(2048)), (b"hhea", hhea(1))])).err(),
        Some(FontError::NoMaxpTable)
    );
    assert_eq!(
        parse_font(&font_of(&[(b"head", head(8)), (b"hhea", hhea(1)), (b"maxp", maxp(1))])).err(),
        Some(FontError::NoHeadTable)
    );
}

#[test]
fn empty_collection_has_no_first_face() {
    let mut data = Vec::new();
    data.extend_from_slice(b"ttcf");
    be32(&mut data, 0x0001_0000);
    be32(&mut data, 0);
    assert_eq!(parse_font(&data).err(), Some(FontError::FaceIndexOutOfBounds));
}
