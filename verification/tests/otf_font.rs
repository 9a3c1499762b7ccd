use pdfrs::otf::error::FontError;
use pdfrs::otf::font::OpenTypeFont;
use pdfrs::otf::tables::cmap::format4::Format4;
use pdfrs::otf::tables::cmap::{CmapTable, EncodingRecord, Subtable};
use pdfrs::otf::tables::glyf::table::GlyfTable;
use pdfrs::otf::tables::glyf::{GlyphData, GlyphDescription};
use pdfrs::otf::tables::head::HeadTable;
use pdfrs::otf::tables::hhea::HheaTable;
use pdfrs::otf::tables::hmtx::{HmtxTable, LongHorMetric};
use pdfrs::otf::tables::loca::{Format, LocaTable};
use pdfrs::otf::tables::maxp::{CffMaxpTable, MaxpTable};
use pdfrs::otf::tables::name::{Format0NameTable, NameRecord, NameTable};
use pdfrs::otf::tables::offset::SfntVersion;
use pdfrs::otf::tables::os2::Os2Table;
use pdfrs::otf::tables::post::PostTable;
use pdfrs::otf::tables::Glyph;

fn glyph(n: i16, len: usize) -> GlyphData {
    GlyphData {
        number_of_contours: n,
        x_min: n,
        y_min: -n,
        x_max: 10 * n,
        y_max: 20 * n,
        description: GlyphDescription::Simple(vec![7; len]),
    }
}

fn os2() -> Os2Table {
    Os2Table {
        version: 5,
        x_avg_char_width: 500,
        us_weight_class: 400,
        us_width_class: 5,
        fs_type: 8,
        y_subscript_x_size: 650,
        y_subscript_y_size: 600,
        y_subscript_x_offset: 0,
        y_subscript_y_offset: 75,
        y_superscript_x_size: 650,
        y_superscript_y_size: 600,
        y_superscript_x_offset: 0,
        y_superscript_y_offset: 350,
        y_strikeout_size: 50,
        y_strikeout_position: 300,
        s_family_class: 0,
        panose: [2, 11, 5, 3, 3, 4, 3, 2, 2, 4],
        ul_unicode_range: [1, 2, 3, 4],
        ach_vend_id: *b"ADBE",
        fs_selection: 64,
        us_first_char_index: 32,
        us_last_char_index: 0xFFFF,
        s_typo_ascender: 750,
        s_typo_descender: -250,
        s_typo_line_gap: 0,
        us_win_ascent: 984,
        us_win_descent: 273,
        ul_code_page_range: [1, 0],
        sx_height: 486,
        s_cap_height: 660,
        us_default_char: 0,
        us_break_char: 32,
        us_max_context: 3,
        us_lower_optical_point_size: 8,
        us_upper_optical_point_size: 72,
    }
}

fn font() -> OpenTypeFont {
    let cmap = CmapTable {
        version: 0,
        encoding_records: vec![EncodingRecord { platform_id: 3, encoding_id: 1, subtable: 0 }],
        subtables: vec![Subtable::Format4(Format4 {
            language: 0,
            seg_count_x2: 4,
            search_range: 4,
            entry_selector: 1,
            range_shift: 0,
            end_code: vec![66, 0xFFFF],
            reserved_pad: 0,
            start_code: vec![65, 0xFFFF],
            id_delta: vec![-64, 1],
            id_range_offset: vec![0, 0],
            glyph_id_array: Vec::new(),
        })],
    };
    let name = NameTable::Format0(Format0NameTable {
        count: 1,
        offset: 18,
        name_records: vec![NameRecord {
            platform_id: 3,
            encoding_id: 1,
            language_id: 0x409,
            name_id: 1,
            length: 4,
            offset: 0,
        }],
        string_data: vec![0x41, 0x42],
    });
    OpenTypeFont {
        sfnt_version: SfntVersion::TrueType,
        os2_table: os2(),
        cmap_table: cmap,
        glyf_table: GlyfTable { glyphs: vec![Some(glyph(1, 10)), None, Some(glyph(2, 2))] },
        head_table: HeadTable {
            major_version: 1,
            magic_number: 0x5F0F3CF5,
            units_per_em: 1000,
            x_min: 1,
            y_min: -2,
            x_max: 20,
            y_max: 40,
            index_to_loc_format: 0,
            ..HeadTable::default()
        },
        hhea_table: HheaTable { major_version: 1, ascent: 750, descent: -250, number_of_h_metrics: 2, ..HheaTable::default() },
        hmtx_table: HmtxTable {
            h_metrics: vec![
                LongHorMetric { advance_width: 500, lsb: 1 },
                LongHorMetric { advance_width: 600, lsb: 2 },
            ],
            left_side_bearings: vec![3],
        },
        // the glyphs padded to four bytes: 20, 0 and 12 bytes
        loca_table: LocaTable { offsets: vec![0, 20, 20, 32], format: Format::Short },
        maxp_table: MaxpTable::CFF(CffMaxpTable { num_glyphs: 3 }),
        name_table: name,
        post_table: PostTable {
            major_version: 3,
            minor_version: 0,
            italic_angle: -0x000C_8000,
            underline_position: -100,
            underline_thickness: 50,
            is_fixed_path: 0,
            min_mem_type42: 0,
            max_mem_type42: 0,
            min_mem_type1: 0,
            max_mem_type1: 0,
            addition: Vec::new(),
        },
    }
}

#[test]
fn font_write_read_round_trip() {
    let font = font();
    let (directory, tables) = font.to_vec(false).unwrap();
    // 12 bytes of header and 16 bytes for each of the ten tables
    assert_eq!(directory.len(), 172);
    let mut bytes = directory;
    bytes.extend_from_slice(&tables);
    let read = OpenTypeFont::from_slice(&bytes).unwrap();
    let expected = OpenTypeFont {
        head_table: HeadTable { check_sum_adjustment: read.head_table.check_sum_adjustment, ..font.head_table },
        ..font.clone()
    };
    assert_eq!(read, expected);
}

#[test]
fn font_write_pdf_subset_has_seven_tables() {
    let font = font();
    let (directory, _) = font.to_vec(true).unwrap();
    assert_eq!(directory.len(), 12 + 16 * 7);
    // the number of tables
    assert_eq!(&directory[4..6], &[0, 7]);
}

fn read_u32(bytes: &[u8], at: usize) -> u32 {
    u32::from_be_bytes([bytes[at], bytes[at + 1], bytes[at + 2], bytes[at + 3]])
}

#[test]
fn font_check_sum_adjustment_balances_the_font() {
    let (directory, tables) = font().to_vec(false).unwrap();
    let mut bytes = directory;
    bytes.extend_from_slice(&tables);
    // find the head table's record in the directory
    let n = u16::from_be_bytes([bytes[4], bytes[5]]) as usize;
    let head_offset = (0..n)
        .map(|i| 12 + 16 * i)
        .find(|&r| &bytes[r..r + 4] == b"head")
        .map(|r| read_u32(&bytes, r + 8) as usize)
        .unwrap();
    let adjustment = read_u32(&bytes, head_offset + 8);
    let mut zeroed = bytes.clone();
    for b in &mut zeroed[head_offset + 8..head_offset + 12] {
        *b = 0;
    }
    let sum = (0..zeroed.len() / 4).fold(0u32, |s, i| s.wrapping_add(read_u32(&zeroed, 4 * i)));
    assert_eq!(zeroed.len() % 4, 0);
    assert_eq!(adjustment, 0xB1B0AFBAu32.wrapping_sub(sum));
}

#[test]
fn test_cff_font_error() {
    // a font directory with CFF outlines ('OTTO') and no tables
    let bytes = vec![0x4F, 0x54, 0x54, 0x4F, 0, 0, 0, 0, 0, 0, 0, 0];
    let err = OpenTypeFont::from_slice(&bytes).unwrap_err();
    assert_eq!(err, FontError::CffNotSupported);
}

#[test]
fn test_reparse_subset() {
    let font = font();
    let subset = font.subset(&['a', 'b', 'A']);

    let (directory, tables) = subset.to_vec(false).unwrap();
    let mut data = directory;
    data.extend_from_slice(&tables);
    let mut rewritten_subset = OpenTypeFont::from_slice(&data).unwrap();

    assert_ne!(rewritten_subset.head_table.check_sum_adjustment, font.head_table.check_sum_adjustment);
    rewritten_subset.head_table.check_sum_adjustment = font.head_table.check_sum_adjustment;
    let OpenTypeFont {
        sfnt_version,
        os2_table,
        cmap_table,
        glyf_table,
        head_table,
        hhea_table,
        hmtx_table,
        loca_table,
        maxp_table,
        name_table,
        post_table,
    } = rewritten_subset;
    assert_eq!(sfnt_version, subset.sfnt_version);
    assert_eq!(os2_table, subset.os2_table);
    assert_eq!(cmap_table, subset.cmap_table);
    assert_eq!(glyf_table, subset.glyf_table);
    assert_eq!(head_table, subset.head_table);
    assert_eq!(hhea_table, subset.hhea_table);
    assert_eq!(hmtx_table, subset.hmtx_table);
    assert_eq!(loca_table, subset.loca_table);
    assert_eq!(maxp_table, subset.maxp_table);
    assert_eq!(name_table, subset.name_table);
    assert_eq!(post_table, subset.post_table);
}

#[test]
fn font_with_slack_in_loca_writes_back_padded_offsets() {
    // the offsets leave two bytes after each glyph; the written loca holds the padded sizes
    let mut font = font();
    font.loca_table = LocaTable { offsets: vec![0, 22, 22, 36], format: Format::Short };
    let (directory, tables) = font.to_vec(false).unwrap();
    let mut bytes = directory;
    bytes.extend_from_slice(&tables);
    let read = OpenTypeFont::from_slice(&bytes).unwrap();
    assert_eq!(read.glyf_table, font.glyf_table);
    assert_eq!(read.loca_table, LocaTable { offsets: vec![0, 20, 20, 32], format: Format::Short });
    assert_eq!(read.cmap_table, font.cmap_table);
    assert_eq!(read.hmtx_table, font.hmtx_table);
}

#[test]
fn font_table_past_the_data_is_an_unexpected_end() {
    let (directory, tables) = font().to_vec(false).unwrap();
    let mut bytes = directory;
    bytes.extend_from_slice(&tables);
    // cut the font in the middle of its last table
    bytes.truncate(bytes.len() - 8);
    assert_eq!(OpenTypeFont::from_slice(&bytes), Err(FontError::UnexpectedEof));
}

fn format4_mapping_65(delta: i16) -> Subtable {
    Subtable::Format4(Format4 {
        language: 0,
        seg_count_x2: 4,
        search_range: 4,
        entry_selector: 1,
        range_shift: 0,
        end_code: vec![65, 0xFFFF],
        reserved_pad: 0,
        start_code: vec![65, 0xFFFF],
        id_delta: vec![delta, 1],
        id_range_offset: vec![0, 0],
        glyph_id_array: Vec::new(),
    })
}

#[test]
fn cmap_lookup_follows_encoding_priority() {
    let cmap = CmapTable {
        version: 0,
        encoding_records: vec![
            EncodingRecord { platform_id: 0, encoding_id: 3, subtable: 0 },
            EncodingRecord { platform_id: 0, encoding_id: 4, subtable: 1 },
        ],
        subtables: vec![format4_mapping_65(-64), format4_mapping_65(-63)],
    };
    // (0, 4) comes before (0, 3)
    assert_eq!(cmap.glyph_id(65), Some(2));
    assert_eq!(cmap.glyph_id(66), None);
}

#[test]
fn cmap_unpack_ignores_unsupported_subtable_formats() {
    let mut sub = Vec::new();
    format4_mapping_65(-64).pack(&mut sub).unwrap();
    let mut bytes = vec![0, 0, 0, 2];
    // (0, 3) points at the format 4 subtable, (3, 1) at a format 6 subtable
    bytes.extend_from_slice(&[0, 0, 0, 3, 0, 0, 0, 20]);
    bytes.extend_from_slice(&[0, 3, 0, 1]);
    bytes.extend_from_slice(&(20 + sub.len() as u32).to_be_bytes());
    bytes.extend_from_slice(&sub);
    bytes.extend_from_slice(&[0, 6, 0, 10, 0, 0, 0, 65, 0, 0]);
    let cmap = CmapTable::unpack(&bytes).unwrap();
    assert_eq!(cmap.encoding_records, vec![EncodingRecord { platform_id: 0, encoding_id: 3, subtable: 0 }]);
    assert_eq!(cmap.subtables, vec![format4_mapping_65(-64)]);
    assert_eq!(cmap.glyph_id(65), Some(1));
}

#[test]
fn font_subset_keeps_outlines_and_counts() {
    let font = font();
    let subset = font.subset_from_glyphs(&[Glyph { index: 2, code_points: vec![66] }]);
    // glyph 0, then glyph 2
    assert_eq!(subset.glyf_table.glyphs, vec![font.glyf_table.glyphs[0].clone(), font.glyf_table.glyphs[2].clone()]);
    assert_eq!(subset.maxp_table.num_glyphs() as usize, subset.glyf_table.glyphs.len());
    assert_eq!(subset.loca_table.offsets.len(), subset.glyf_table.glyphs.len() + 1);
    // the character keeps its outline
    assert_eq!(subset.glyph_id(66), Some(1));
    assert_eq!(subset.glyf_table.glyphs[1], font.glyf_table.glyphs[2]);
    assert_eq!(subset.glyph_id(65), None);

    // the subset reads back
    let (directory, tables) = subset.to_vec(false).unwrap();
    let mut bytes = directory;
    bytes.extend_from_slice(&tables);
    let read = OpenTypeFont::from_slice(&bytes).unwrap();
    assert_eq!(read.glyf_table, subset.glyf_table);
    assert_eq!(read.maxp_table, subset.maxp_table);
    assert_eq!(read.cmap_table, subset.cmap_table);
    assert_eq!(read.hmtx_table, subset.hmtx_table);
    assert_eq!(read.hhea_table, subset.hhea_table);
}

#[test]
fn font_subset_of_chars_groups_by_glyph() {
    let font = font();
    let subset = font.subset(&['B', 'A', 'B', 'z']);
    assert_eq!(
        subset,
        font.subset_from_glyphs(&[
            Glyph { index: 2, code_points: vec![66, 66] },
            Glyph { index: 1, code_points: vec![65] },
        ])
    );
    assert_eq!(subset.glyph_id(66), Some(1));
    assert_eq!(subset.glyph_id(65), Some(2));
}

#[test]
fn written_tables_start_on_word_boundaries() {
    let (directory, tables) = font().to_vec(false).unwrap();
    assert_eq!(tables.len() % 4, 0);
    let n = u16::from_be_bytes([directory[4], directory[5]]) as usize;
    for i in 0..n {
        let r = 12 + 16 * i;
        let offset = read_u32(&directory, r + 8) as usize;
        let length = read_u32(&directory, r + 12) as usize;
        assert_eq!(offset % 4, 0);
        assert!(offset >= directory.len());
        assert!(offset - directory.len() + length <= tables.len());
    }
}

#[test]
fn font_reader_tells_where_it_cannot_read() {
    let (directory, tables) = font().to_vec(false).unwrap();
    let mut bytes = directory;
    bytes.extend_from_slice(&tables);
    assert_eq!(OpenTypeFont::try_from_slice(&bytes), Some(OpenTypeFont::from_slice(&bytes)));
    // cut the font before the start of its last table: its record starts past the data
    let n = u16::from_be_bytes([bytes[4], bytes[5]]) as usize;
    let last_start = (0..n).map(|i| read_u32(&bytes, 12 + 16 * i + 8) as usize).max().unwrap();
    bytes.truncate(last_start - 4);
    assert_eq!(OpenTypeFont::try_from_slice(&bytes), None);
}
