//! Tables packed and read back, and the CMAP subtables of a font cut down to a few characters.
use pdfrs::otf::tables::cmap::format12::{Format12, SequentialMapGroup};
use pdfrs::otf::tables::cmap::format4::Format4;
use pdfrs::otf::tables::cmap::{CmapTable, EncodingRecord, Subtable};
use pdfrs::otf::tables::glyf::table::GlyfTable;
use pdfrs::otf::tables::glyf::{GlyphData, GlyphDescription};
use pdfrs::otf::tables::head::HeadTable;
use pdfrs::otf::tables::hhea::HheaTable;
use pdfrs::otf::tables::hmtx::{HmtxTable, LongHorMetric};
use pdfrs::otf::tables::loca::{Format, LocaTable};
use pdfrs::otf::tables::maxp::{CffMaxpTable, MaxpTable};
use pdfrs::otf::tables::name::{Format0NameTable, NameRecord, NameTable};
use pdfrs::otf::tables::Glyph;

/// The characters that the subset tests ask for.
const CHARS: [char; 7] = ['a', 'b', '₨', '❶', '❷', '❸', 'ɸ'];

/// A format 4 subtable with 211 segments that maps the characters of `CHARS`, and 206 more
/// single characters from U+3000 on.
fn format4() -> Format4 {
    // (start, end, first glyph)
    let mut segments: Vec<(u16, u16, u16)> =
        vec![(0x61, 0x62, 68), (0x278, 0x278, 500), (0x20A8, 0x20A8, 1200), (0x2776, 0x2778, 1500)];
    for k in 0..206u16 {
        segments.push((0x3000 + 2 * k, 0x3000 + 2 * k, 2000 + k));
    }
    segments.push((0xFFFF, 0xFFFF, 0));
    let n = segments.len() as u16;
    Format4 {
        language: 0,
        seg_count_x2: 2 * n,
        search_range: 256,
        entry_selector: 7,
        range_shift: 2 * n - 256,
        end_code: segments.iter().map(|s| s.1).collect(),
        reserved_pad: 0,
        start_code: segments.iter().map(|s| s.0).collect(),
        id_delta: segments
            .iter()
            .map(|s| if s.0 == 0xFFFF { 1 } else { s.2.wrapping_sub(s.0) as i16 })
            .collect(),
        id_range_offset: vec![0; segments.len()],
        glyph_id_array: Vec::new(),
    }
}

/// A format 12 subtable that maps the characters of `CHARS` among others.
fn format12() -> Format12 {
    Format12 {
        language: 0,
        num_groups: 6,
        sequential_map_groups: vec![
            SequentialMapGroup { start_char_code: 13, end_char_code: 13, start_glyph_id: 2 },
            SequentialMapGroup { start_char_code: 97, end_char_code: 98, start_glyph_id: 68 },
            SequentialMapGroup { start_char_code: 400, end_char_code: 8693, start_glyph_id: 338 },
            SequentialMapGroup { start_char_code: 10102, end_char_code: 10104, start_glyph_id: 1500 },
            SequentialMapGroup { start_char_code: 129989, end_char_code: 129990, start_glyph_id: 3557 },
            SequentialMapGroup { start_char_code: 130030, end_char_code: 130041, start_glyph_id: 3561 },
        ],
    }
}

#[test]
fn test_cmap_table_encode_decode() {
    let cmap_table = CmapTable {
        version: 0,
        encoding_records: vec![
            EncodingRecord { platform_id: 0, encoding_id: 3, subtable: 0 },
            EncodingRecord { platform_id: 0, encoding_id: 4, subtable: 1 },
            EncodingRecord { platform_id: 3, encoding_id: 1, subtable: 0 },
            EncodingRecord { platform_id: 3, encoding_id: 10, subtable: 1 },
        ],
        subtables: vec![Subtable::Format4(format4()), Subtable::Format12(format12())],
    };

    assert_eq!(cmap_table.version, 0);
    assert_eq!(cmap_table.encoding_records.len(), 4);

    assert_eq!(cmap_table.encoding_records[0].platform_id, 0);
    assert_eq!(cmap_table.encoding_records[0].encoding_id, 3);

    assert_eq!(cmap_table.encoding_records[1].platform_id, 0);
    assert_eq!(cmap_table.encoding_records[1].encoding_id, 4);

    assert_eq!(cmap_table.encoding_records[2].platform_id, 3);
    assert_eq!(cmap_table.encoding_records[2].encoding_id, 1);

    assert_eq!(cmap_table.encoding_records[3].platform_id, 3);
    assert_eq!(cmap_table.encoding_records[3].encoding_id, 10);

    // re-pack and compare
    let mut buffer = Vec::new();
    cmap_table.pack(&mut buffer).unwrap();
    assert_eq!(CmapTable::unpack(&buffer[..]).unwrap(), cmap_table);
}

#[test]
fn test_cmap_subtable_format4_encode_decode() {
    let format4 = format4();

    let seg_count = format4.seg_count_x2 as usize / 2;
    assert_eq!(format4.end_code.len(), seg_count);
    assert_eq!(format4.start_code.len(), seg_count);
    assert_eq!(format4.id_delta.len(), seg_count);
    assert_eq!(format4.id_range_offset.len(), seg_count);

    // re-pack and compare
    let mut buffer = Vec::new();
    format4.pack(&mut buffer);
    assert_eq!(Format4::unpack(&buffer[..]).unwrap(), format4);
}

#[test]
fn test_cmap_subtable_format4_subset() {
    let format4 = format4();

    let glyphs = CHARS
        .iter()
        .map(|c| Glyph { index: format4.glyph_id(u32::from(*c)).unwrap(), code_points: vec![u32::from(*c)] })
        .chain(std::iter::once(Glyph { index: 40, code_points: vec![3] }))
        .collect::<Vec<_>>();
    let subset = format4.subset(&glyphs);

    assert_eq!(subset.start_code.len(), 6);

    for (i, g) in glyphs.iter().enumerate() {
        for c in &g.code_points {
            // i + 1, since 0 should be the missing glyph
            assert_eq!(subset.glyph_id(*c), Some((i + 1) as u16));
        }
    }

    assert_eq!(subset.glyph_id(0), None);
    assert_eq!(subset.glyph_id(u16::MAX as u32), None);

    // should update header
    assert_eq!(subset.seg_count_x2, 12);
    assert_eq!(subset.search_range, 256);
    assert_eq!(subset.entry_selector, 7);
    assert_eq!(subset.range_shift, 166);
}

#[test]
fn test_cmap_subtable_format12_encode_decode() {
    let format12 = format12();

    assert_eq!(format12.sequential_map_groups.len(), format12.num_groups as usize);

    // re-pack and compare
    let mut buffer = Vec::new();
    format12.pack(&mut buffer);
    assert_eq!(Format12::unpack(&buffer[..]).unwrap(), format12);
}

#[test]
fn test_cmap_subtable_format12_subset() {
    let format12 = format12();

    let glyphs = CHARS
        .iter()
        .map(|c| Glyph { index: format12.glyph_id(u32::from(*c)).unwrap(), code_points: vec![u32::from(*c)] })
        .chain(std::iter::once(Glyph { index: 40, code_points: vec![3] }))
        .collect::<Vec<_>>();
    let subset = format12.subset(&glyphs);

    assert_eq!(subset.sequential_map_groups.len(), 5);

    for (i, g) in glyphs.iter().enumerate() {
        for c in &g.code_points {
            // i + 1, since 0 should be the missing glyph
            assert_eq!(subset.glyph_id(*c), Some((i + 1) as u16));
        }
    }

    assert_eq!(subset.glyph_id(0), None);
    assert_eq!(subset.glyph_id(u16::MAX as u32), None);
}

fn simple_glyph(n: i16, len: usize) -> GlyphData {
    GlyphData {
        number_of_contours: n,
        x_min: n,
        y_min: -n,
        x_max: 10 * n,
        y_max: 20 * n,
        description: GlyphDescription::Simple(vec![5; len]),
    }
}

/// Three glyphs of 20, 0 and 12 bytes, with the loca table that places them.
fn glyf_and_loca() -> (GlyfTable, LocaTable) {
    let glyf = GlyfTable { glyphs: vec![Some(simple_glyph(1, 10)), None, Some(simple_glyph(2, 2))] };
    let loca = LocaTable { offsets: vec![0, 20, 20, 32], format: Format::Short };
    (glyf, loca)
}

fn head() -> HeadTable {
    HeadTable { major_version: 1, magic_number: 0x5F0F3CF5, units_per_em: 1000, index_to_loc_format: 0, ..HeadTable::default() }
}

fn maxp() -> MaxpTable {
    MaxpTable::CFF(CffMaxpTable { num_glyphs: 3 })
}

#[test]
fn test_glyf_table_encode_decode() {
    let (glyf_table, loca_table) = glyf_and_loca();

    assert_eq!(glyf_table.glyphs.len(), loca_table.offsets.len() - 1);

    // re-pack and compare
    let mut buffer = Vec::new();
    glyf_table.pack(&mut buffer);

    let new_table = GlyfTable::unpack(&buffer[..], &loca_table.offsets).unwrap();
    assert_eq!(new_table.glyphs.len(), glyf_table.glyphs.len());
    for (i, (l, r)) in new_table.glyphs.iter().zip(&glyf_table.glyphs).enumerate() {
        assert_eq!(l, r, "Glyphs at index {} don't matchs", i);
    }
}

#[test]
fn test_hmtx_table_encode_decode() {
    let hhea_table = HheaTable { major_version: 1, number_of_h_metrics: 2, ..HheaTable::default() };
    let maxp_table = maxp();
    let hmtx_table = HmtxTable {
        h_metrics: vec![
            LongHorMetric { advance_width: 500, lsb: 10 },
            LongHorMetric { advance_width: 620, lsb: -4 },
        ],
        left_side_bearings: vec![7],
    };

    assert_eq!(hmtx_table.h_metrics.len(), hhea_table.number_of_h_metrics as usize);
    assert_eq!(
        hmtx_table.left_side_bearings.len(),
        (maxp_table.num_glyphs() - hhea_table.number_of_h_metrics) as usize
    );

    // re-pack and compare
    let mut buffer = Vec::new();
    hmtx_table.pack(&mut buffer).unwrap();
    assert_eq!(HmtxTable::unpack(&buffer[..], &hhea_table, &maxp_table).unwrap(), hmtx_table);
}

#[test]
fn test_loca_table_encode_decode() {
    let head_table = head();
    let maxp_table = maxp();
    let (glyf_table, loca_table) = glyf_and_loca();

    assert_eq!(loca_table.offsets.len(), (maxp_table.num_glyphs() as usize) + 1);
    assert_eq!(loca_table.format, if head_table.index_to_loc_format == 0 { Format::Short } else { Format::Long });

    // re-pack and compare
    let mut buffer = Vec::new();
    loca_table.pack(&mut buffer, &glyf_table);
    assert_eq!(LocaTable::unpack(&buffer[..], &head_table, &maxp_table).unwrap(), loca_table);
}

#[test]
fn test_name_table_encode_decode() {
    let name_table = NameTable::Format0(Format0NameTable {
        count: 2,
        offset: 30,
        name_records: vec![
            NameRecord { platform_id: 3, encoding_id: 1, language_id: 0x409, name_id: 1, length: 4, offset: 0 },
            NameRecord { platform_id: 3, encoding_id: 1, language_id: 0x409, name_id: 6, length: 4, offset: 4 },
        ],
        string_data: vec![0, 0x41, 0, 0x42, 0, 0x43, 0, 0x44],
    });
    let format0 = match &name_table {
        NameTable::Format0(format0) => format0,
        NameTable::Format1(_) => panic!("Expected name table format 0"),
    };
    assert_eq!(format0.name_records.len(), format0.count as usize);

    // re-pack and compare
    let mut buffer = Vec::new();
    name_table.pack(&mut buffer);
    assert_eq!(NameTable::unpack(&buffer[..]).unwrap(), name_table);
}
