//! The table values of the Iosevka font's tables, written as tables, packed and read back.
use pdfrs::otf::error::FontError;
use pdfrs::otf::tables::cmap::format12::{Format12, SequentialMapGroup};
use pdfrs::otf::tables::cmap::format4::Format4;
use pdfrs::otf::tables::cmap::Subtable;
use pdfrs::otf::tables::head::HeadTable;
use pdfrs::otf::tables::hhea::HheaTable;
use pdfrs::otf::tables::maxp::{MaxpTable, TrueTypeMaxpTable};
use pdfrs::otf::tables::name::{Format0NameTable, NameRecord, NameTable};
use pdfrs::otf::tables::offset::{OffsetTable, SfntVersion, TableRecord};
use pdfrs::otf::tables::os2::Os2Table;
use pdfrs::otf::tables::post::PostTable;

fn format12() -> Format12 {
    Format12 {
        language: 0,
        num_groups: 4,
        sequential_map_groups: vec![
            SequentialMapGroup { start_char_code: 13, end_char_code: 13, start_glyph_id: 2 },
            SequentialMapGroup { start_char_code: 400, end_char_code: 8693, start_glyph_id: 338 },
            SequentialMapGroup { start_char_code: 129989, end_char_code: 129990, start_glyph_id: 3557 },
            SequentialMapGroup { start_char_code: 130030, end_char_code: 130041, start_glyph_id: 3561 },
        ],
    }
}

#[test]
fn test_cmap_subtable_format12_codepoint_to_glyph_id() {
    let format12 = format12();
    assert_eq!(format12.glyph_id(12), None);
    assert_eq!(format12.glyph_id(13), Some(2));
    assert_eq!(format12.glyph_id(422), Some(360));
    assert_eq!(format12.glyph_id(8694), None);
    assert_eq!(format12.glyph_id(129989), Some(3557));
    assert_eq!(format12.glyph_id(130041), Some(3572));
    assert_eq!(format12.glyph_id(130042), None);
}

#[test]
fn test_cmap_subtable_encode_decode() {
    let subtables = vec![
        Subtable::Format12(format12()),
        Subtable::Format4(Format4 {
            language: 0,
            seg_count_x2: 4,
            search_range: 4,
            entry_selector: 1,
            range_shift: 0,
            end_code: vec![12, 0xFFFF],
            reserved_pad: 0,
            start_code: vec![10, 0xFFFF],
            id_delta: vec![0, 1],
            id_range_offset: vec![4, 0],
            glyph_id_array: vec![0x00, 0x01, 0x00, 0x02, 0x00, 0x03],
        }),
    ];
    for subtable in &subtables {
        // re-pack and compare
        let mut buffer = Vec::new();
        subtable.pack(&mut buffer).unwrap();
        assert_eq!(&Subtable::unpack(&buffer[..]).unwrap(), subtable);
    }
}

#[test]
fn test_head_table_encode_decode() {
    let head_table = HeadTable {
        major_version: 1,
        minor_version: 0,
        font_revision: (3, 2032),
        check_sum_adjustment: 3547005195,
        magic_number: 1594834165,
        flags: 13,
        units_per_em: 1000,
        created: 3562553439,
        modified: 3678044538,
        x_min: -1000,
        y_min: -505,
        x_max: 1134,
        y_max: 1188,
        mac_style: 0,
        lowest_rec_ppem: 8,
        font_direction_hint: 0,
        index_to_loc_format: 1,
        glyph_data_format: 0,
    };
    let mut buffer = Vec::new();
    head_table.pack(&mut buffer);
    let head_table = HeadTable::unpack(&buffer).unwrap();

    assert_eq!(head_table.major_version, 1);
    assert_eq!(head_table.minor_version, 0);
    // font_revision = 3.031
    assert_eq!(head_table.font_revision.0, 3);
    assert!((head_table.font_revision.1 as f32 / 65535.0 - 0.031).abs() < 0.00001);
    assert_eq!(head_table.check_sum_adjustment, 3547005195);
    assert_eq!(head_table.magic_number, 1594834165);
    assert_eq!(head_table.flags, 13);
    assert_eq!(head_table.units_per_em, 1000);
    assert_eq!(head_table.created, 3562553439);
    assert_eq!(head_table.modified, 3678044538);
    assert_eq!(head_table.x_min, -1000);
    assert_eq!(head_table.y_min, -505);
    assert_eq!(head_table.x_max, 1134);
    assert_eq!(head_table.y_max, 1188);
    assert_eq!(head_table.mac_style, 0);
    assert_eq!(head_table.lowest_rec_ppem, 8);
    assert_eq!(head_table.font_direction_hint, 0);
    assert_eq!(head_table.index_to_loc_format, 1);
    assert_eq!(head_table.glyph_data_format, 0);

    // re-pack and compare
    let mut again = Vec::new();
    head_table.pack(&mut again);
    assert_eq!(HeadTable::unpack(&again).unwrap(), head_table);
}

#[test]
fn test_hhea_table_encode_decode() {
    let hhea_table = HheaTable {
        major_version: 1,
        minor_version: 0,
        ascent: 977,
        descent: -205,
        line_gap: 67,
        advance_width_max: 1000,
        min_left_side_bearing: -1000,
        min_right_side_bearing: -1000,
        x_max_extent: 1134,
        caret_slope_rise: 1,
        caret_slope_run: 0,
        caret_offset: 0,
        metric_data_format: 0,
        number_of_h_metrics: 8575,
        ..HheaTable::default()
    };
    let mut buffer = Vec::new();
    hhea_table.pack(&mut buffer);
    let hhea_table = HheaTable::unpack(&buffer).unwrap();

    assert_eq!(hhea_table.major_version, 1);
    assert_eq!(hhea_table.minor_version, 0);
    assert_eq!(hhea_table.ascent, 977);
    assert_eq!(hhea_table.descent, -205);
    assert_eq!(hhea_table.line_gap, 67);
    assert_eq!(hhea_table.advance_width_max, 1000);
    assert_eq!(hhea_table.min_left_side_bearing, -1000);
    assert_eq!(hhea_table.min_right_side_bearing, -1000);
    assert_eq!(hhea_table.x_max_extent, 1134);
    assert_eq!(hhea_table.caret_slope_rise, 1);
    assert_eq!(hhea_table.caret_slope_run, 0);
    assert_eq!(hhea_table.caret_offset, 0);
    assert_eq!(hhea_table.metric_data_format, 0);
    assert_eq!(hhea_table.number_of_h_metrics, 8575);

    let mut again = Vec::new();
    hhea_table.pack(&mut again);
    assert_eq!(HheaTable::unpack(&again).unwrap(), hhea_table);
}

#[test]
fn test_maxp_table_true_type_encode_decode() {
    let maxp = MaxpTable::TrueType(TrueTypeMaxpTable {
        num_glyphs: 8898,
        max_points: 288,
        max_contours: 41,
        max_component_points: 152,
        max_component_contours: 13,
        max_zones: 2,
        max_twilight_points: 144,
        max_storage: 240,
        max_function_defs: 141,
        max_instruction_defs: 0,
        max_stack_elements: 373,
        max_size_of_instructions: 3596,
        max_component_elements: 5,
        max_component_depth: 4,
    });
    let mut buffer = Vec::new();
    maxp.pack(&mut buffer);
    let maxp_table = MaxpTable::unpack(&buffer).unwrap();
    match &maxp_table {
        MaxpTable::CFF(_) => panic!("Expected TrueType maxp table"),
        MaxpTable::TrueType(table) => {
            assert_eq!(table.num_glyphs, 8898);
            assert_eq!(table.max_points, 288);
            assert_eq!(table.max_contours, 41);
            assert_eq!(table.max_component_points, 152);
            assert_eq!(table.max_component_contours, 13);
            assert_eq!(table.max_zones, 2);
            assert_eq!(table.max_twilight_points, 144);
            assert_eq!(table.max_storage, 240);
            assert_eq!(table.max_function_defs, 141);
            assert_eq!(table.max_instruction_defs, 0);
            assert_eq!(table.max_stack_elements, 373);
            assert_eq!(table.max_size_of_instructions, 3596);
            assert_eq!(table.max_component_elements, 5);
            assert_eq!(table.max_component_depth, 4);
        },
    }
    let mut again = Vec::new();
    maxp_table.pack(&mut again);
    assert_eq!(MaxpTable::unpack(&again).unwrap(), maxp_table);
}

#[test]
fn test_offset_table_encode_decode() {
    let tags: [&[u8; 4]; 17] = [
        b"DSIG", b"GDEF", b"GPOS", b"GSUB", b"OS/2", b"cmap", b"cvt ", b"fpgm", b"gasp", b"glyf", b"head",
        b"hhea", b"hmtx", b"loca", b"maxp", b"name", b"post",
    ];
    let records: Vec<TableRecord> = tags
        .iter()
        .enumerate()
        .map(|(i, t)| TableRecord { tag: **t, check_sum: i as u32, offset: 300 + 16 * i as u32, length: 16 })
        .collect();
    let written = OffsetTable {
        sfnt_version: SfntVersion::TrueType,
        num_tables: 17,
        search_range: 256,
        entry_selector: 4,
        range_shift: 16,
        tables: records,
    };
    let mut buffer = Vec::new();
    written.pack(&mut buffer);
    let table = OffsetTable::unpack(&buffer).unwrap();
    assert_eq!(table.sfnt_version, SfntVersion::TrueType);
    assert_eq!(table.num_tables, 17);
    assert_eq!(table.search_range, 256);
    assert_eq!(table.entry_selector, 4);
    assert_eq!(table.range_shift, 16);

    // should include at least the minimal necessary tables for a font to function correctly
    for tag in [b"OS/2", b"cmap", b"glyf", b"head", b"hhea", b"hmtx", b"loca", b"maxp", b"name", b"post"] {
        assert!(table.tables.iter().any(|t| &t.tag == tag), "{} table missing", String::from_utf8_lossy(tag));
    }

    // re-pack and compare
    let mut again = Vec::new();
    table.pack(&mut again);
    assert_eq!(OffsetTable::unpack(&again).unwrap(), table);
}

#[test]
fn test_os2_table_encode_decode() {
    let expected = Os2Table {
        version: 4,
        x_avg_char_width: 500,
        us_weight_class: 400,
        us_width_class: 5,
        fs_type: 0,
        y_subscript_x_size: 665,
        y_subscript_y_size: 716,
        y_subscript_x_offset: 0,
        y_subscript_y_offset: 143,
        y_superscript_x_size: 0,
        y_superscript_y_size: 0,
        y_superscript_x_offset: 0,
        y_superscript_y_offset: 0,
        y_strikeout_size: 51,
        y_strikeout_position: 265,
        s_family_class: 2057,
        panose: [2, 0, 5, 9, 0, 0, 0, 0, 0, 0],
        ul_unicode_range: [3758097151, 1379991039, 262144, 0],
        ach_vend_id: *b"BE5N",
        fs_selection: 192,
        us_first_char_index: 13,
        us_last_char_index: 65535,
        s_typo_ascender: 977,
        s_typo_descender: -272,
        s_typo_line_gap: 0,
        us_win_ascent: 977,
        us_win_descent: 272,
        ul_code_page_range: [536871199, 3288334336],
        sx_height: 530,
        s_cap_height: 735,
        us_default_char: 0,
        us_break_char: 32,
        us_max_context: 8,
        us_lower_optical_point_size: 0,
        us_upper_optical_point_size: 0,
    };
    let mut buffer = Vec::new();
    expected.pack(&mut buffer);
    let os2_table = Os2Table::unpack(&buffer).unwrap();
    assert_eq!(os2_table, expected);

    // re-pack and compare
    let mut again = Vec::new();
    os2_table.pack(&mut again);
    assert_eq!(Os2Table::unpack(&again).unwrap(), os2_table);
}

#[test]
fn test_post_table_encode_decode() {
    let written = PostTable {
        major_version: 3,
        minor_version: 0,
        italic_angle: 0,
        underline_position: -50,
        underline_thickness: 50,
        is_fixed_path: 1,
        min_mem_type42: 0,
        max_mem_type42: 8898,
        min_mem_type1: 0,
        max_mem_type1: 1,
        addition: Vec::new(),
    };
    let mut buffer = Vec::new();
    written.pack(&mut buffer);
    let post_table = PostTable::unpack(&buffer).unwrap();

    assert_eq!(post_table.major_version, 3);
    assert_eq!(post_table.minor_version, 0);
    assert_eq!(post_table.italic_angle, 0);
    assert_eq!(post_table.underline_position, -50);
    assert_eq!(post_table.underline_thickness, 50);
    assert_eq!(post_table.is_fixed_path, 1);
    assert_eq!(post_table.min_mem_type42, 0);
    assert_eq!(post_table.max_mem_type42, 8898);
    assert_eq!(post_table.min_mem_type1, 0);
    assert_eq!(post_table.max_mem_type1, 1);

    let mut again = Vec::new();
    post_table.pack(&mut again);
    assert_eq!(PostTable::unpack(&again).unwrap(), post_table);
}

fn name_table() -> NameTable {
    let iosevka: Vec<u16> = "Iosevka".encode_utf16().collect();
    let record = |name_id: u16| NameRecord {
        platform_id: 3,
        encoding_id: 1,
        language_id: 0x409,
        name_id,
        length: 14,
        offset: 0,
    };
    let written = NameTable::Format0(Format0NameTable {
        count: 2,
        offset: 30,
        name_records: vec![record(1), record(6)],
        string_data: iosevka,
    });
    let mut buffer = Vec::new();
    written.pack(&mut buffer);
    NameTable::unpack(&buffer).unwrap()
}

#[test]
fn test_name_table_font_family_name() {
    let name_table = name_table();
    assert_eq!(name_table.font_family_name().as_deref(), Some("Iosevka"));
}

#[test]
fn test_name_table_post_script_name() {
    let name_table = name_table();
    assert_eq!(name_table.post_script_name().as_deref(), Some("Iosevka"));
}

#[test]
fn required_table_past_the_data_is_an_unexpected_end() {
    let table = OffsetTable {
        sfnt_version: SfntVersion::TrueType,
        num_tables: 2,
        search_range: 32,
        entry_selector: 1,
        range_shift: 0,
        tables: vec![
            TableRecord { tag: *b"head", check_sum: 0, offset: 44, length: 4 },
            TableRecord { tag: *b"name", check_sum: 0, offset: 46, length: 8 },
        ],
    };
    let data: Vec<u8> = (0..50u8).collect();
    assert_eq!(table.unpack_required_table(&data, b"head").unwrap(), vec![44, 45, 46, 47]);
    assert_eq!(table.unpack_required_table(&data, b"name"), Err(FontError::UnexpectedEof));
    assert_eq!(table.unpack_required_table(&data, b"post"), Err(FontError::TableMissing(*b"post")));
}
