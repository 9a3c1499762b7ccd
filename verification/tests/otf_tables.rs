use pdfrs::otf::tables::cmap::format4::Format4;
use pdfrs::otf::tables::cmap::format12::{Format12, SequentialMapGroup};
use pdfrs::otf::tables::glyf::{Args, Component, CompositeDescription, GlyphData, GlyphDescription, Scale};
use pdfrs::otf::tables::glyf::table::GlyfTable;
use pdfrs::otf::tables::head::HeadTable;
use pdfrs::otf::tables::hhea::HheaTable;
use pdfrs::otf::tables::hmtx::{HmtxTable, LongHorMetric};
use pdfrs::otf::tables::loca::{Format, LocaTable};
use pdfrs::otf::tables::maxp::{CffMaxpTable, MaxpTable, TrueTypeMaxpTable};
use pdfrs::otf::tables::Glyph;
use pdfrs::otf::utils::align_write::AlignWrite;
use pdfrs::otf::utils::limit_read::{LimitRead, ReadError};

fn simple_glyph(n: i16, len: usize) -> GlyphData {
    GlyphData {
        number_of_contours: n,
        x_min: n,
        y_min: n,
        x_max: n,
        y_max: n,
        description: GlyphDescription::Simple(vec![0; len]),
    }
}

#[test]
fn test_cmap_subtable_format4_codepoint_to_glyph_id_without_range_offset() {
    let format4 = Format4 {
        language: 0,
        seg_count_x2: 8,
        search_range: 8,
        entry_selector: 4,
        range_shift: 0,
        end_code: vec![20, 90, 480, 0xFFFF],
        reserved_pad: 0,
        start_code: vec![10, 30, 153, 0xFFFF],
        id_delta: vec![-9, -18, -27, 1],
        id_range_offset: vec![0, 0, 0, 0],
        glyph_id_array: Vec::new(),
    };

    assert_eq!(format4.glyph_id(10), Some(1));
    assert_eq!(format4.glyph_id(20), Some(11));
    assert_eq!(format4.glyph_id(30), Some(12));
    assert_eq!(format4.glyph_id(90), Some(72));
}

#[test]
fn test_cmap_subtable_format4_codepoint_to_glyph_id_with_range_offset() {
    let format4 = Format4 {
        language: 0,
        seg_count_x2: 4,
        search_range: 4,
        entry_selector: 1,
        range_shift: 0,
        end_code: vec![12, 0xFFFF],
        reserved_pad: 0,
        start_code: vec![10, 0xFFFF],
        id_delta: vec![0, 1],
        id_range_offset: vec![4, 0],
        glyph_id_array: vec![
            0x00, 0x01, // glyph_id_array 0: 1
            0x00, 0x02, // glyph_id_array 1: 2
            0x00, 0x03, // glyph_id_array 2: 3
        ],
    };

    assert_eq!(format4.glyph_id(0), None);
    assert_eq!(format4.glyph_id(10), Some(1));
    assert_eq!(format4.glyph_id(11), Some(2));
    assert_eq!(format4.glyph_id(12), Some(3));
    assert_eq!(format4.glyph_id(13), None);

    // re-pack and compare
    let mut buffer = Vec::new();
    format4.pack(&mut buffer);
    assert_eq!(Format4::unpack(&buffer[..]).unwrap(), format4);
}

#[test]
fn format4_glyph_id_above_u16_is_none() {
    let format4 = Format4 {
        language: 0,
        seg_count_x2: 2,
        search_range: 2,
        entry_selector: 0,
        range_shift: 0,
        end_code: vec![0xFFFF],
        reserved_pad: 0,
        start_code: vec![0],
        id_delta: vec![1],
        id_range_offset: vec![0],
        glyph_id_array: Vec::new(),
    };
    assert_eq!(format4.glyph_id(0x10000), None);
    assert_eq!(format4.glyph_id(5), Some(6));
}

#[test]
fn format4_subset_maps_glyph_positions() {
    let format4 = Format4 {
        language: 0,
        seg_count_x2: 2,
        search_range: 2,
        entry_selector: 0,
        range_shift: 0,
        end_code: vec![0xFFFF],
        reserved_pad: 0,
        start_code: vec![0],
        id_delta: vec![0],
        id_range_offset: vec![0],
        glyph_id_array: Vec::new(),
    };
    let glyphs = vec![
        Glyph { index: 97, code_points: vec![97] },
        Glyph { index: 98, code_points: vec![98] },
        Glyph { index: 40, code_points: vec![3] },
    ];
    let subset = format4.subset(&glyphs);
    for (i, g) in glyphs.iter().enumerate() {
        for c in &g.code_points {
            assert_eq!(subset.glyph_id(*c), Some((i + 1) as u16));
        }
    }
    assert_eq!(subset.glyph_id(0), None);
    assert_eq!(subset.glyph_id(99), None);
    // a, b are one segment; 3 another; plus the closing segment
    assert_eq!(subset.seg_count_x2, 6);
    let mut buffer = Vec::new();
    subset.pack(&mut buffer);
    assert_eq!(Format4::unpack(&buffer[..]).unwrap(), subset);
}

#[test]
fn format4_subset_wraps_far_deltas() {
    let format4 = Format4 {
        language: 0,
        seg_count_x2: 2,
        search_range: 2,
        entry_selector: 0,
        range_shift: 0,
        end_code: vec![0xFFFF],
        reserved_pad: 0,
        start_code: vec![0],
        id_delta: vec![0],
        id_range_offset: vec![0],
        glyph_id_array: Vec::new(),
    };
    let glyphs = vec![
        Glyph { index: 7, code_points: vec![40000, 0x10000] },
        Glyph { index: 8, code_points: vec![65] },
    ];
    let subset = format4.subset(&glyphs);
    // the delta from 40000 to glyph 1 is taken modulo 65536; 0x10000 is above the BMP
    assert_eq!(subset.glyph_id(40000), Some(1));
    assert_eq!(subset.glyph_id(0x10000), None);
    assert_eq!(subset.glyph_id(65), Some(2));
    assert_eq!(subset.glyph_id(0xFFFF), None);
    assert_eq!(subset.start_code, vec![65, 40000, 0xFFFF]);
    assert_eq!(subset.id_delta, vec![-63, 25537, 0]);
    assert_eq!(subset.id_range_offset, vec![0, 0, 2]);
}

#[test]
fn format4_subset_maps_hangul_syllable() {
    let format4 = Format4 {
        language: 0,
        seg_count_x2: 8,
        search_range: 8,
        entry_selector: 4,
        range_shift: 0,
        end_code: vec![20, 90, 480, 0xFFFF],
        reserved_pad: 0,
        start_code: vec![10, 30, 153, 0xFFFF],
        id_delta: vec![-9, -18, -27, 1],
        id_range_offset: vec![0, 0, 0, 0],
        glyph_id_array: Vec::new(),
    };
    let subset = format4.subset(&[Glyph { index: 5, code_points: vec![0xAC00] }]);
    assert_eq!(subset.glyph_id(0xAC00), Some(1));
    assert_eq!(subset.glyph_id(0xAC01), None);
}

#[test]
fn expansion_holds_glyph_zero_once() {
    let g = GlyphData {
        number_of_contours: 0,
        x_min: 0,
        y_min: 0,
        x_max: 0,
        y_max: 0,
        description: GlyphDescription::Simple(vec![]),
    };
    let table = GlyfTable { glyphs: vec![Some(g.clone()), Some(g)] };
    let expanded = table.expand_composite_glyphs(&[Glyph { index: 1, code_points: vec![65] }]);
    assert_eq!(expanded, vec![Glyph::new(0), Glyph { index: 1, code_points: vec![65] }]);
}

#[test]
fn expansion_adds_components_after_the_glyphs() {
    let simple = simple_glyph(1, 4);
    let composite = GlyphData {
        number_of_contours: -1,
        x_min: 0,
        y_min: 0,
        x_max: 0,
        y_max: 0,
        description: GlyphDescription::Composite(CompositeDescription {
            components: vec![Component {
                flags: 0,
                glyph_index: 3,
                args: Args::U8(1, 2),
                scale: None,
            }],
            instructions: None,
        }),
    };
    let table = GlyfTable { glyphs: vec![None, None, Some(composite), Some(simple)] };
    let expanded = table.expand_composite_glyphs(&[Glyph::new(2), Glyph::new(2)]);
    let indices: Vec<u16> = expanded.iter().map(|g| g.index).collect();
    assert_eq!(indices, vec![0, 2, 3]);
}

#[test]
fn format12_glyph_id_and_subset() {
    let format12 = Format12 {
        language: 0,
        num_groups: 2,
        sequential_map_groups: vec![
            SequentialMapGroup { start_char_code: 13, end_char_code: 20, start_glyph_id: 2 },
            SequentialMapGroup { start_char_code: 400, end_char_code: 500, start_glyph_id: 338 },
        ],
    };
    assert_eq!(format12.glyph_id(12), None);
    assert_eq!(format12.glyph_id(13), Some(2));
    assert_eq!(format12.glyph_id(422), Some(360));
    assert_eq!(format12.glyph_id(501), None);

    let mut buffer = Vec::new();
    format12.pack(&mut buffer);
    assert_eq!(Format12::unpack(&buffer[..]).unwrap(), format12);

    let glyphs = vec![
        Glyph { index: 2, code_points: vec![13] },
        Glyph { index: 3, code_points: vec![14] },
        Glyph { index: 360, code_points: vec![422] },
        Glyph { index: 40, code_points: vec![3] },
    ];
    let subset = format12.subset(&glyphs);
    // 3, then 13 and 14 merged, then 422
    assert_eq!(subset.sequential_map_groups.len(), 3);
    for (i, g) in glyphs.iter().enumerate() {
        for c in &g.code_points {
            assert_eq!(subset.glyph_id(*c), Some((i + 1) as u16));
        }
    }
    assert_eq!(subset.glyph_id(0), None);
    assert_eq!(subset.glyph_id(u16::MAX as u32), None);
}

#[test]
fn test_simple_glyph_size_in_bytes() {
    let g = GlyphData {
        number_of_contours: 1,
        x_min: 1,
        y_min: 1,
        x_max: 1,
        y_max: 1,
        description: GlyphDescription::Simple(vec![0; 10]),
    };
    assert_eq!(g.size_in_byte(), 20);
}

#[test]
fn test_composite_glyph_size_in_bytes() {
    let g = GlyphData {
        number_of_contours: 1,
        x_min: 1,
        y_min: 1,
        x_max: 1,
        y_max: 1,
        description: GlyphDescription::Composite(CompositeDescription {
            components: vec![
                Component {
                    flags: 0,
                    glyph_index: 0,
                    args: Args::U16(1, 2),
                    scale: Some(Scale::XY { x: 3, y: 4 }),
                },
                Component {
                    flags: 0,
                    glyph_index: 0,
                    args: Args::I8(1, 2),
                    scale: Some(Scale::Simple(3)),
                },
            ],
            instructions: Some(vec![0; 10]),
        }),
    };
    assert_eq!(g.size_in_byte(), 44);
}

#[test]
fn test_glyf_table_subset() {
    let table = GlyfTable {
        glyphs: vec![
            Some(simple_glyph(0, 0)),
            Some(simple_glyph(1, 0)),
            Some(simple_glyph(2, 0)),
            Some(simple_glyph(3, 0)),
            None,
        ],
    };
    assert_eq!(
        table.subset(&[Glyph::new(2), Glyph::new(4)]),
        GlyfTable { glyphs: vec![Some(simple_glyph(2, 0)), None] }
    )
}

#[test]
fn glyf_table_pack_unpack() {
    let table = GlyfTable {
        glyphs: vec![Some(simple_glyph(1, 10)), None, Some(simple_glyph(2, 2))],
    };
    let mut buffer = Vec::new();
    table.pack(&mut buffer);
    // each glyph padded to a multiple of four bytes: 20, 0, 12 bytes
    assert_eq!(buffer.len(), 32);
    let offsets = vec![0u32, 20, 20, 32];
    assert_eq!(GlyfTable::unpack(&buffer, &offsets).unwrap(), table);
}

#[test]
fn test_loca_table_subset() {
    let glyf = GlyfTable {
        glyphs: vec![
            Some(simple_glyph(0, 5)),
            Some(simple_glyph(1, 10)),
            None,
            None,
            Some(simple_glyph(3, 20)),
            None,
        ],
    };

    let loca = LocaTable { offsets: Vec::new(), format: Format::Long };
    let subset = loca.subset(&glyf);
    assert_eq!(
        subset,
        LocaTable { offsets: vec![0, 15, 35, 35, 35, 65, 65], format: Format::Long }
    )
}

#[test]
fn loca_table_pack_unpack() {
    let glyf = GlyfTable {
        glyphs: vec![Some(simple_glyph(0, 5)), None, Some(simple_glyph(3, 20))],
    };
    let maxp = MaxpTable::CFF(CffMaxpTable { num_glyphs: 3 });
    for (format, index_to_loc_format) in [(Format::Short, 0i16), (Format::Long, 1)] {
        // glyphs padded to four bytes: 16, 0, 32 bytes
        let loca = LocaTable { offsets: vec![0, 16, 16, 48], format };
        let head = HeadTable { index_to_loc_format, ..HeadTable::default() };
        let mut buffer = Vec::new();
        loca.pack(&mut buffer, &glyf);
        assert_eq!(buffer.len(), if format == Format::Short { 8 } else { 16 });
        assert_eq!(LocaTable::unpack(&buffer, &head, &maxp).unwrap(), loca);
    }
}

#[test]
fn test_head_table_subset() {
    let g2 = GlyphData {
        number_of_contours: 1,
        x_min: 1,
        y_min: 2,
        x_max: 3,
        y_max: 4,
        description: GlyphDescription::Simple(Vec::new()),
    };
    let g4 = GlyphData {
        number_of_contours: 2,
        x_min: 4,
        y_min: 3,
        x_max: 2,
        y_max: 1,
        description: GlyphDescription::Simple(Vec::new()),
    };
    let glyf = GlyfTable { glyphs: vec![None, Some(g2), None, Some(g4), None] };
    let loca = LocaTable { offsets: Vec::new(), format: Format::Long };

    let head = HeadTable::default();
    let subset = head.subset(&glyf, &loca);
    assert_eq!(
        subset,
        HeadTable { x_min: 1, y_min: 2, x_max: 3, y_max: 4, index_to_loc_format: 1, ..Default::default() }
    )
}

#[test]
fn head_table_pack_unpack() {
    let head = HeadTable {
        major_version: 1,
        font_revision: (1, 0x8000),
        magic_number: 0x5F0F3CF5,
        units_per_em: 1000,
        created: 3547005195,
        modified: -5,
        x_min: -20,
        y_max: 300,
        index_to_loc_format: 1,
        ..Default::default()
    };
    let mut buffer = Vec::new();
    head.pack(&mut buffer);
    assert_eq!(buffer.len(), 54);
    assert_eq!(HeadTable::unpack(&buffer).unwrap(), head);
}

#[test]
fn test_hhea_table_subset() {
    let head = HeadTable { x_min: 10, x_max: 20, ..Default::default() };
    let hmtx = HmtxTable {
        h_metrics: vec![
            LongHorMetric { advance_width: 50, lsb: 3 },
            LongHorMetric { advance_width: 70, lsb: 6 },
        ],
        left_side_bearings: vec![-3, 9],
    };
    let hhea = HheaTable::default();
    let subset = hhea.subset(&head, &hmtx);
    assert_eq!(
        subset,
        HheaTable {
            advance_width_max: 70,
            min_left_side_bearing: -3,
            min_right_side_bearing: 37,
            x_max_extent: 19,
            number_of_h_metrics: 2,
            ..hhea
        }
    );
}

#[test]
fn test_hmtx_table_subset() {
    let m = |v: u16| LongHorMetric { advance_width: v, lsb: v as i16 };
    let hmtx = HmtxTable {
        h_metrics: vec![m(1), m(2), m(3), m(4), m(5)],
        left_side_bearings: vec![6, 7, 8],
    };
    assert_eq!(
        hmtx.subset(&[Glyph::new(1), Glyph::new(3), Glyph::new(6)]),
        HmtxTable { h_metrics: vec![m(2), m(4)], left_side_bearings: vec![7] }
    );
}

#[test]
fn test_maxp_table_cff_encode_decode() {
    let data = vec![
        0x00, 0x00, 0x50, 0x00, // version
        0x22, 0xC2, // number glyphs
    ];
    let maxp_table = MaxpTable::unpack(&data[..]).unwrap();

    match &maxp_table {
        MaxpTable::CFF(table) => {
            assert_eq!(table.num_glyphs, 8898);
        }
        MaxpTable::TrueType(_) => panic!("Expected CFF maxp table"),
    }

    // re-pack and compare
    let mut buffer = Vec::new();
    maxp_table.pack(&mut buffer);
    assert_eq!(MaxpTable::unpack(&buffer[..]).unwrap(), maxp_table);
}

#[test]
fn maxp_table_unknown_version() {
    let data = vec![0x00, 0x02, 0x00, 0x00, 0x00, 0x01];
    assert!(MaxpTable::unpack(&data[..]).is_err());
    assert!(MaxpTable::unpack(&data[..2]).is_err());
}

fn true_type_maxp() -> TrueTypeMaxpTable {
    TrueTypeMaxpTable {
        num_glyphs: 8898,
        max_points: 288,
        max_contours: 41,
        max_component_points: 152,
        max_component_contours: 13,
        max_zones: 2,
        max_twilight_points: 144,
        max_storage: 240,
        max_function_defs: 141,
        max_instruction_defs: 0,
        max_stack_elements: 373,
        max_size_of_instructions: 3596,
        max_component_elements: 5,
        max_component_depth: 4,
    }
}

#[test]
fn test_maxp_true_type_subset() {
    let maxp = true_type_maxp();
    let glyphs = &[Glyph::new(1), Glyph::new(2), Glyph::new(3)];
    let subset = maxp.subset(glyphs);
    // 4 since glyph 0 is always included
    assert_eq!(subset.num_glyphs, 4);
    assert_eq!(subset, TrueTypeMaxpTable { num_glyphs: 4, ..maxp });

    let maxp_table = MaxpTable::TrueType(maxp);
    assert_eq!(maxp_table.subset(glyphs), MaxpTable::TrueType(subset));

    let mut buffer = Vec::new();
    maxp_table.pack(&mut buffer);
    assert_eq!(buffer.len(), 32);
    assert_eq!(MaxpTable::unpack(&buffer[..]).unwrap(), maxp_table);
}

#[test]
fn test_maxp_cff_subset() {
    let maxp = MaxpTable::CFF(CffMaxpTable { num_glyphs: 10 });
    let subset = maxp.subset(&[Glyph::new(1), Glyph::new(2), Glyph::new(3)]);
    // 4 since glyph 0 is always included
    assert_eq!(subset.num_glyphs(), 4)
}

#[test]
fn test_limit_read() {
    let data = b"foobar".to_vec();
    let mut rd = LimitRead::new(data, 5);

    let mut buf = vec![0u8; 2];
    assert_eq!((rd.read(&mut buf).unwrap(), &buf[..]), (2, &b"fo"[..]));
    assert_eq!((rd.read(&mut buf).unwrap(), &buf[..]), (2, &b"ob"[..]));
    assert_eq!((rd.read(&mut buf).unwrap(), &buf[..1]), (1, &b"a"[..]));
    assert_eq!(rd.read(&mut buf).unwrap_err(), ReadError::UnexpectedEof);
}

#[test]
fn limit_read_from_cursor_and_discard() {
    let data = b"0123456789";
    let rd = LimitRead::from_cursor(&data[..], 4, 3);
    assert_eq!(rd.as_bytes(), b"456".to_vec());
    assert_eq!(rd.discard(), Ok(()));

    let mut rd = LimitRead::from_cursor(&data[..], 8, 5);
    let mut buf = vec![0u8; 4];
    assert_eq!(rd.read(&mut buf), Ok(2));
    assert_eq!(&buf[..2], b"89");
    assert_eq!(rd.discard(), Err(ReadError::UnexpectedEof));
}

#[test]
fn align_write_pads_to_alignment() {
    let mut w = AlignWrite::new(vec![7u8], 4);
    assert_eq!(w.write(&[1, 2, 3, 4, 5]), 5);
    let (bytes, written) = w.end_aligned();
    assert_eq!(written, 8);
    assert_eq!(bytes, vec![7, 1, 2, 3, 4, 5, 0, 0, 0]);

    let mut w = AlignWrite::new(Vec::new(), 4);
    w.write(&[1, 2, 3, 4]);
    assert_eq!(w.end_aligned(), (vec![1, 2, 3, 4], 4));
}

#[test]
fn glyph_reader_tells_where_it_cannot_read() {
    assert_eq!(GlyphData::try_unpack(&[0; 9]), Some(Err(pdfrs::otf::error::FontError::UnexpectedEof)));
    // a composite glyph whose components all announce one more: the tenth is not read
    let mut data = vec![0xFF, 0xFF, 0, 0, 0, 0, 0, 0, 0, 0];
    for k in 0..10u8 {
        data.extend_from_slice(&[0x00, 0x20, 0, k, 0, 0]);
    }
    assert_eq!(GlyphData::try_unpack(&data), None);
    // with the ninth component the last, the glyph reads
    data[10 + 8 * 6 + 1] = 0x00;
    let glyph = GlyphData::try_unpack(&data).unwrap().unwrap();
    match glyph.description {
        GlyphDescription::Composite(c) => assert_eq!(c.components.len(), 9),
        GlyphDescription::Simple(_) => panic!("expected a composite glyph"),
    }
}
