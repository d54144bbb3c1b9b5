use maroontre::bits::ByteWriter;
use maroontre::headers::{
    frame_header, leb128, obu, sequence_header, CcsoConfig, CcsoPlane, Config, GuidedDeblock,
};
use maroontre::layout::Layout;

fn plain(layout: Layout) -> Config {
    Config {
        layout,
        base_q: 120,
        deblock: false,
        db_apply: (false, false, false, false),
        db_delta: (0, 0, 0, 0),
        tx_switchable: true,
        guided_deblock: None,
        cdef: None,
        ccso: None,
        bit_depth: 8,
        lossless: false,
        cfl: true,
        updating_cdf: true,
        aq: false,
        aq_res_log2: 0,
    }
}

#[test]
fn bits_are_packed_from_the_top() {
    let mut w = ByteWriter::new();
    w.write_bit(1);
    w.write_bits(0b0110, 4);
    w.write_bit(3); // only the lowest bit counts
    w.align_with_zero();
    assert_eq!(w.into_bytes(), vec![0b1011_0100]);

    let mut w = ByteWriter::new();
    w.write_bits(0xabc, 12);
    assert_eq!(w.into_bytes(), vec![0xab]); // an unfinished byte is dropped

    let mut w = ByteWriter::new();
    w.align_with_one();
    w.align_with_zero();
    assert_eq!(w.into_bytes(), vec![0x80]);
}

#[test]
fn variable_length_codes() {
    // 0 is 1, 1 is 010, 2 is 011, 6 is 00111
    let mut w = ByteWriter::new();
    w.write_uvlc(0);
    w.write_uvlc(1);
    w.write_uvlc(2);
    w.write_uvlc(6);
    w.align_with_zero();
    assert_eq!(w.into_bytes(), vec![0b1010_0110, 0b0111_0000]);

    // three symbols: 0, 10, 11
    let mut w = ByteWriter::new();
    w.write_uniform(0, 3);
    w.write_uniform(1, 3);
    w.write_uniform(2, 3);
    w.align_with_zero();
    assert_eq!(w.into_bytes(), vec![0b0101_1000]);
}

#[test]
fn lengths_are_base_128() {
    assert_eq!(leb128(0), vec![0]);
    assert_eq!(leb128(127), vec![127]);
    assert_eq!(leb128(128), vec![0x80, 1]);
    assert_eq!(leb128(300), vec![0xac, 2]);
    assert_eq!(leb128(u64::MAX).len(), 10);
}

#[test]
fn units_carry_their_size() {
    assert_eq!(obu(1, &[7, 8]), vec![3, 4, 7, 8]);
    assert_eq!(obu(2, &[]), vec![1, 8]);
    let long = obu(4, &[0u8; 200]);
    assert_eq!(long[..3], [0xc9, 1, 16]);
    assert_eq!(long.len(), 203);
}

#[test]
fn headers_of_an_8_bit_444_picture() {
    let c = plain(Layout::I444);
    assert_eq!(
        sequence_header(&c, 100, 60),
        vec![0x93, 0xf6, 0x99, 0x71, 0xf6, 0x00, 0x20, 0x80, 0x03, 0x70, 0x01]
    );
    assert_eq!(frame_header(&c, 100, 60, (0, 0, 1)), vec![0xe2, 0x78, 0x04]);
}

#[test]
fn headers_of_a_lossless_pixel() {
    let mut c = plain(Layout::I420);
    c.bit_depth = 10;
    c.lossless = true;
    c.base_q = 0;
    c.cfl = false;
    c.updating_cdf = false;
    c.tx_switchable = false;
    assert_eq!(
        sequence_header(&c, 1, 1),
        vec![0x83, 0xfc, 0x00, 0x00, 0x00, 0x40, 0x01, 0xb8, 0x00, 0x80]
    );
    assert_eq!(frame_header(&c, 1, 1, (0, 0, 1)), vec![0xe6, 0x00, 0x00]);
}

#[test]
fn headers_with_every_filter_and_tiles() {
    let mut c = plain(Layout::I444);
    c.bit_depth = 12;
    c.deblock = true;
    c.db_apply = (true, true, true, false);
    c.db_delta = (1, 0, -2, 0);
    c.guided_deblock = Some(GuidedDeblock { qp_offset: 2, scale_minus_one: 1 });
    c.cdef = Some((5, 2, 4));
    c.aq = true;
    c.aq_res_log2 = 2;
    c.updating_cdf = false;
    let mut bands = vec![0i32; 17];
    bands[0] = 3;
    bands[16] = -10;
    c.ccso = Some(CcsoConfig {
        enable: [false, true, true],
        planes: [
            None,
            Some(CcsoPlane {
                bo_only: true,
                scale_idx: 1,
                quant_idx: 0,
                ext_filter_support: 0,
                edge_clf: 0,
                max_band_log2: 1,
                offsets: bands,
            }),
            Some(CcsoPlane {
                bo_only: false,
                scale_idx: 0,
                quant_idx: 3,
                ext_filter_support: 5,
                edge_clf: 1,
                max_band_log2: 0,
                offsets: vec![1, -1, 0, 0, 7, -3],
            }),
        ],
    });
    assert_eq!(
        sequence_header(&c, 1000, 500),
        vec![0x93, 0xf6, 0xe6, 0x3e, 0x7f, 0x98, 0x00, 0x82, 0x00, 0x0d, 0xcc, 0xc1]
    );
    assert_eq!(
        frame_header(&c, 1000, 500, (2, 1, 3)),
        vec![
            0xe7, 0xa8, 0xf0, 0x6e, 0xe8, 0x94, 0x02, 0xe6, 0x9e, 0xff, 0x1d, 0x2d, 0xf7, 0xa0
        ]
    );
}

#[test]
fn headers_of_a_wide_monochrome_picture() {
    let mut c = plain(Layout::Monochrome);
    c.base_q = 255;
    c.cdef = Some((63, 1, 6));
    c.tx_switchable = false;
    assert_eq!(
        sequence_header(&c, 5000, 64),
        vec![0x83, 0xf4, 0xb1, 0x67, 0x0f, 0xf8, 0x01, 0x10, 0x02, 0x80, 0x40]
    );
    assert_eq!(frame_header(&c, 5000, 64, (0, 0, 1)), vec![0xe2, 0xff, 0x06, 0x0f, 0xc0]);
}

#[test]
fn layouts_have_codes_and_profiles() {
    let all = [Layout::I420, Layout::Monochrome, Layout::I444, Layout::I422];
    for (i, l) in all.iter().enumerate() {
        assert_eq!(l.header_uvlc(), i as u32);
        assert_eq!(l.has_chroma(), *l != Layout::Monochrome);
    }
    assert_eq!(all.map(|l| l.profile()), [0, 0, 4, 3]);
}
