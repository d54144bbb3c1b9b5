use maroontre::encoder::{
    av2_map_quality, Av2Encoder, BitDepth, ChromaFormat, Cicp, Speed, Tuning, TxPart,
};
use maroontre::entropy::RangeEncoder;
use maroontre::frame::{
    assemble_multitile, lossy_native_mi, lossy_needs_partition, mi_extent, native_420_mi,
    native_422_mi, Av2Color, ContentLightLevel, Orientation,
};
use maroontre::headers::{frame_header, obu, sequence_header, CcsoPlane};
use maroontre::layout::Layout;
use maroontre::simple::{
    encode_gray10, encode_gray12, encode_gray8, encode_gray_alpha10, encode_gray_alpha12,
    encode_gray_alpha8, encode_rgb10, encode_rgb12, encode_rgb8, encode_rgba10,
    encode_rgba10_with_alpha, encode_rgba12, encode_rgba12_with_alpha, encode_rgba8,
    encode_rgba8_with_alpha, encode_yuv10, encode_yuv12, encode_yuv8, encode_yuva10_with_alpha,
    encode_yuva12_with_alpha, encode_yuva8_with_alpha, AlphaPlane, Check, Checks, EncodeConfig,
    EncodeError, Entry, PlanarImage,
};

fn image<T>(bit_depth: BitDepth) -> PlanarImage<T> {
    PlanarImage {
        width: 2,
        height: 2,
        bit_depth,
        planes: [Vec::new(), Vec::new(), Vec::new(), Vec::new()],
    }
}

fn options(quality: u8) -> EncodeConfig {
    EncodeConfig {
        quality,
        chroma: ChromaFormat::Yuv444,
        speed: Speed::Medium,
        threads: 3,
        adaptive_quant: false,
        color_encoding: None,
        icc: None,
        exif: Some(vec![1, 2]),
        orientation: Orientation { code: 6 },
        content_light_level: Some(ContentLightLevel { max_content: 1000, max_average: 400 }),
    }
}

fn all_well() -> Checks {
    Checks { config: Ok(()), planes: [Ok(()); 4], sampling: Ok(()) }
}

#[test]
fn quality_maps_to_a_quantizer() {
    assert_eq!(av2_map_quality(1), 254);
    assert_eq!(av2_map_quality(50), 128);
    assert_eq!(av2_map_quality(99), 2);
    assert_eq!(av2_map_quality(100), 1);
    for q in 1..100u8 {
        assert!(av2_map_quality(q + 1) < av2_map_quality(q));
    }
}

#[test]
fn a_plain_request_becomes_a_job() {
    let cfg = options(50);
    let img: PlanarImage<u8> = image(BitDepth::Eight);
    let checks = all_well();
    let job = encode_rgb8(&img, &cfg, &checks).unwrap();
    assert_eq!(job.encoder.base_q_idx(), 128);
    assert_eq!(job.encoder.bit_depth(), 8);
    assert_eq!(job.encoder.speed(), Speed::Medium);
    assert_eq!(job.encoder.threads(), 3);
    let tune = job.encoder.tuning();
    assert_eq!((tune.tile_cols, tune.tile_rows, tune.aq), (8, 8, false));
    assert_eq!(job.entry, Entry::Image(ChromaFormat::Yuv444));
    assert_eq!(job.color, Cicp::SrgbYcbcr);
    assert!(job.alpha.is_none());
    assert!(job.icc.is_none());
    assert_eq!(job.exif, Some(&[1u8, 2][..]));
    assert_eq!(job.orientation, Orientation { code: 6 });
    assert_eq!(job.clli, cfg.content_light_level);
}

#[test]
fn quality_zero_is_lossless() {
    let cfg = options(0);
    let img: PlanarImage<u16> = image(BitDepth::Twelve);
    let job = encode_yuv12(&img, &cfg, &all_well()).unwrap();
    assert_eq!(job.encoder.base_q_idx(), 0);
    let c = job.encoder.config(Layout::I444);
    assert!(c.lossless && !c.cfl && !c.aq && !c.updating_cdf);
    assert_eq!(c.bit_depth, 12);
    assert!(!job.encoder.uses_mhccp(Layout::I444));
}

#[test]
fn alpha_is_lossless_and_has_its_plane() {
    let cfg = options(80);
    let img: PlanarImage<u8> = image(BitDepth::Eight);
    let checks = all_well();
    let job = encode_rgba8_with_alpha(&img, &cfg, &checks).unwrap();
    let alpha = job.alpha.unwrap();
    assert_eq!(alpha.plane, AlphaPlane::Fourth);
    assert_eq!(alpha.encoder.base_q_idx(), 0);
    assert_eq!(alpha.encoder.threads(), 3);
    let job = encode_gray_alpha8(&img, &cfg, &checks).unwrap();
    assert_eq!(job.alpha.unwrap().plane, AlphaPlane::Second);
    assert_eq!(job.entry, Entry::Image(ChromaFormat::Monochrome));
    let job = encode_yuva8_with_alpha(&img, &cfg, &checks).unwrap();
    assert_eq!(job.entry, Entry::Yuv(ChromaFormat::Yuv444));
    assert!(job.alpha.is_some());
    let job = encode_rgba8(&img, &cfg, &checks).unwrap();
    assert!(job.alpha.is_none());
}

#[test]
fn wrong_bit_depths_are_refused_first() {
    let cfg = options(80);
    let checks = all_well();
    let mut img: PlanarImage<u16> = image(BitDepth::Ten);
    img.width = 16384;
    assert_eq!(
        encode_rgb12(&img, &cfg, &checks).err(),
        Some(EncodeError::UnsupportedChromaBitDepth(BitDepth::Ten))
    );
    assert_eq!(
        encode_rgb10(&img, &cfg, &checks).err(),
        Some(EncodeError::DimensionsOutOfRange)
    );
    img.width = 16383;
    assert!(encode_rgb10(&img, &cfg, &checks).is_ok());
    img.height = 0;
    assert_eq!(
        encode_rgb10(&img, &cfg, &checks).err(),
        Some(EncodeError::DimensionsOutOfRange)
    );
}

#[test]
fn checks_are_made_in_order() {
    let cfg = options(80);
    let img: PlanarImage<u8> = image(BitDepth::Eight);
    let mut checks = all_well();
    let config = EncodeError::Rejected(Check::Config);
    let plane = |k: u32| Err(EncodeError::Invalid(k));
    checks.config = Err(config);
    checks.planes[0] = plane(70);
    assert_eq!(encode_gray8(&img, &cfg, &checks).err(), Some(config));
    checks.config = Ok(());
    assert_eq!(encode_gray8(&img, &cfg, &checks).err(), Some(EncodeError::Invalid(70)));
    checks.planes = [Ok(()), Ok(()), Ok(()), plane(73)];
    assert_eq!(encode_rgba8(&img, &cfg, &checks).err(), Some(EncodeError::Invalid(73)));
    assert!(encode_rgb8(&img, &cfg, &checks).is_ok());
    checks.sampling = Err(EncodeError::Rejected(Check::Sampling));
    assert_eq!(
        encode_yuv8(&img, &cfg, &checks).err(),
        Some(EncodeError::Rejected(Check::Sampling))
    );
    let deep: PlanarImage<u16> = image(BitDepth::Twelve);
    assert_eq!(encode_rgba12(&deep, &cfg, &checks).err(), Some(EncodeError::Invalid(73)));
    checks.planes = [Ok(()), plane(71), Ok(()), Ok(())];
    let ten: PlanarImage<u16> = image(BitDepth::Ten);
    assert_eq!(encode_gray_alpha10(&ten, &cfg, &checks).err(), Some(EncodeError::Invalid(71)));
}

#[test]
fn builders_change_one_knob() {
    let e = Av2Encoder::new(140)
        .with_tiles(2, 4)
        .with_txpart(TxPart::Vert4)
        .with_deblock(false)
        .with_cdef(true)
        .with_cfl(false)
        .with_aq(false)
        .with_ccso(true)
        .with_mhccp(false)
        .with_updating_cdf(false)
        .with_chroma_mode_search(false)
        .with_variance_boost(3, false)
        .with_speed(Speed::Fast)
        .with_threads(7);
    let t = e.tuning();
    assert_eq!((t.tile_cols, t.tile_rows), (2, 4));
    assert_eq!(t.txpart, TxPart::Vert4);
    assert!(!t.deblock && t.cdef && !t.cfl && !t.aq && t.ccso && !t.mhccp && !t.updating_cdf);
    assert!(!t.chroma_mode_search && t.chroma_split);
    assert_eq!((t.vb_octile, t.vb_boost_only), (3, false));
    assert_eq!((e.speed(), e.threads(), e.base_q_idx()), (Speed::Fast, 7, 140));
    let c = e.config(Layout::I420);
    assert_eq!(c.cdef, Some((8, 8, 3)));
    assert_eq!(c.db_apply, (false, false, false, false));
    assert_eq!(c.db_delta, (1, 1, 0, 0));
    let e = e.with_tuning(Tuning::default());
    assert!(e.tuning().deblock && !e.tuning().vb_boost_only);
    assert_eq!(e.threads(), 7);
}

#[test]
fn configuration_follows_the_quantizer() {
    assert_eq!(Av2Encoder::new(47).config(Layout::I444).db_delta.0, 0);
    assert_eq!(Av2Encoder::new(48).config(Layout::I444).db_delta.0, 1);
    let cdef = |q: u8| Av2Encoder::new(q).with_cdef(true).config(Layout::I444).cdef;
    assert_eq!(cdef(127), None);
    assert_eq!(cdef(128), Some((4, 4, 3)));
    assert_eq!(cdef(207), Some((40, 40, 3)));
    assert_eq!(cdef(208), Some((44, 44, 3)));
    assert_eq!(cdef(255), Some((44, 44, 3)));
    assert_eq!(Av2Encoder::new(60).dc_neutral(), 128);
    assert_eq!(Av2Encoder::with_bit_depth(60, 10).dc_neutral(), 512);
    assert!(!Av2Encoder::new(60).uses_mhccp(Layout::Monochrome));
    assert!(Av2Encoder::new(60).uses_mhccp(Layout::I422));
    assert_eq!(Av2Encoder::resolve_threads(5, None), 5);
    assert_eq!(Av2Encoder::resolve_threads(0, Some(12)), 12);
    assert_eq!(Av2Encoder::resolve_threads(0, None), 1);
}

#[test]
fn frames_are_measured_in_units() {
    assert_eq!(mi_extent(1), 2);
    assert_eq!(mi_extent(8), 2);
    assert_eq!(mi_extent(9), 4);
    assert_eq!(lossy_native_mi(100, 60), Some((26, 16)));
    assert_eq!(native_420_mi(1, 64), Some((2, 16)));
    assert_eq!(lossy_native_mi(96, 64), None); // 8 of 16 units in the last superblock
    assert_eq!(lossy_native_mi(64, 8), None);
    assert_eq!(native_422_mi(33, 17), None);
    assert_eq!(native_422_mi(33, 40), Some((10, 10)));
    assert!(!lossy_needs_partition(64, 128));
    assert!(!lossy_needs_partition(48, 40)); // residues 12 and 10
    assert!(lossy_needs_partition(32, 64));
    assert!(lossy_needs_partition(64, 8));
}

#[test]
fn a_finished_frame_is_a_stream_of_three_units() {
    let e = Av2Encoder::new(120);
    let config = e.config(Layout::I444);
    let (seq, fh) = (sequence_header(&config, 100, 60), frame_header(&config, 100, 60, (0, 0, 1)));
    let mut coder = RangeEncoder::new();
    coder.encode_bool(16384, 1);
    let mut payload = fh.clone();
    payload.push(0xc0);
    let frame = e.finish(
        coder,
        e.config(Layout::I444),
        128,
        64,
        100,
        60,
        Cicp::SrgbYcbcr,
        None,
        None,
    );
    let bytes = frame.view().to_vec();
    assert_eq!(frame.size(), (100, 60));
    assert_eq!(frame.coded_size(), (100, 60));
    assert!(bytes.ends_with(&payload));
    let seq_obu = obu(1, &seq);
    assert!(bytes.windows(seq_obu.len()).any(|w| w == &seq_obu[..]));
}

#[test]
fn chroma_offsets_enter_the_headers() {
    let plane = || CcsoPlane {
        bo_only: true,
        scale_idx: 0,
        quant_idx: 0,
        ext_filter_support: 0,
        edge_clf: 0,
        max_band_log2: 0,
        offsets: vec![1],
    };
    let e = Av2Encoder::new(120);
    let run = |u: Option<CcsoPlane>| {
        e.finish(
            RangeEncoder::new(),
            e.config(Layout::I444),
            64,
            64,
            64,
            64,
            Cicp::SrgbYcbcr,
            u,
            None,
        )
        .view()
        .to_vec()
    };
    assert!(run(Some(plane())) != run(None));
}

#[test]
fn tiles_are_joined_behind_their_sizes() {
    let e = Av2Encoder::new(120);
    let config = e.config(Layout::I444);
    let tiles = vec![vec![1u8, 2, 3], vec![9u8]];
    let frame = assemble_multitile(
        &config,
        128,
        64,
        120,
        60,
        Cicp::SrgbYcbcr,
        1,
        0,
        8,
        ChromaFormat::Yuv444,
        &tiles,
    );
    let bytes = frame.view().to_vec();
    assert!(bytes.ends_with(&[2, 0, 0, 0, 1, 2, 3, 9]));
    assert_eq!(frame.size(), (120, 60));
    assert_eq!(frame.coded_size(), (128, 64));
}

#[test]
fn containers_declare_the_frame() {
    let cfg = options(50);
    let img: PlanarImage<u8> = image(BitDepth::Eight);
    let checks = all_well();
    let job = encode_rgb8(&img, &cfg, &checks).unwrap();
    let e = job.encoder;
    let frame = e.finish(
        RangeEncoder::new(),
        e.config(Layout::I420),
        64,
        64,
        64,
        64,
        job.color,
        None,
        None,
    );
    let c = job.container(&frame, None);
    assert_eq!(c.format.bit_depth, 8);
    assert!(!c.format.monochrome && c.format.chroma_sub_x && c.format.chroma_sub_y);
    assert!(matches!(c.color, Av2Color::Cicp(Cicp::SrgbYcbcr)));
    assert_eq!(c.exif, Some(&[1u8, 2][..]));
    assert_eq!(c.clli, cfg.content_light_level);
    assert!(c.alpha.is_none());
    let icc = [7u8, 7];
    let a = Av2Encoder::new(0);
    let alpha = a.finish(
        RangeEncoder::new(),
        a.config(Layout::Monochrome),
        64,
        64,
        20,
        10,
        job.color,
        None,
        None,
    );
    let c = Av2Encoder::wrap_avif_alpha(&frame, &alpha, Some(&icc), None, cfg.orientation, None);
    assert!(matches!(c.color, Av2Color::Both { icc: &[7, 7], .. }));
    let item = c.alpha.unwrap();
    assert_eq!(item.data, alpha.view());
    assert_ne!(item.data, frame.view());
    assert_eq!((item.width, item.height), (20, 10));
    assert_eq!((item.coded_width, item.coded_height), alpha.coded_size());
    assert_eq!(job.container(&frame, Some(&alpha)).alpha.unwrap().data, alpha.view());
}

#[test]
fn speeds_trade_effort() {
    assert!(Speed::Fast.reduced_modes() && !Speed::Medium.reduced_modes());
    assert!(Speed::Slow.per_candidate_rdoq() && !Speed::Medium.per_candidate_rdoq());
    assert!(Speed::Slow.try_angle_deltas() && !Speed::Fast.try_angle_deltas());
}

#[test]
fn deep_requests_differ_in_depth_alone() {
    let cfg = options(80);
    let checks = all_well();
    let ten: PlanarImage<u16> = image(BitDepth::Ten);
    let twelve: PlanarImage<u16> = image(BitDepth::Twelve);
    let rgb = Entry::Image(ChromaFormat::Yuv444);
    let gray = Entry::Image(ChromaFormat::Monochrome);
    let yuv = Entry::Yuv(ChromaFormat::Yuv444);
    let (fourth, second) = (Some(AlphaPlane::Fourth), Some(AlphaPlane::Second));
    let cases = [
        (encode_rgb10(&ten, &cfg, &checks), 10, rgb, None),
        (encode_rgb12(&twelve, &cfg, &checks), 12, rgb, None),
        (encode_rgba10(&ten, &cfg, &checks), 10, rgb, None),
        (encode_rgba12(&twelve, &cfg, &checks), 12, rgb, None),
        (encode_rgba10_with_alpha(&ten, &cfg, &checks), 10, rgb, fourth),
        (encode_rgba12_with_alpha(&twelve, &cfg, &checks), 12, rgb, fourth),
        (encode_gray10(&ten, &cfg, &checks), 10, gray, None),
        (encode_gray12(&twelve, &cfg, &checks), 12, gray, None),
        (encode_gray_alpha10(&ten, &cfg, &checks), 10, gray, second),
        (encode_gray_alpha12(&twelve, &cfg, &checks), 12, gray, second),
        (encode_yuv10(&ten, &cfg, &checks), 10, yuv, None),
        (encode_yuv12(&twelve, &cfg, &checks), 12, yuv, None),
        (encode_yuva10_with_alpha(&ten, &cfg, &checks), 10, yuv, fourth),
        (encode_yuva12_with_alpha(&twelve, &cfg, &checks), 12, yuv, fourth),
    ];
    for (i, (job, depth, entry, alpha)) in cases.into_iter().enumerate() {
        let job = job.unwrap();
        assert_eq!(job.encoder.bit_depth(), depth, "request {i}");
        assert_eq!(job.encoder.base_q_idx(), av2_map_quality(80), "request {i}");
        assert_eq!(job.entry, entry, "request {i}");
        assert_eq!(job.alpha.as_ref().map(|a| a.plane), alpha, "request {i}");
        if let Some(a) = job.alpha {
            assert_eq!((a.encoder.bit_depth(), a.encoder.base_q_idx()), (depth, 0));
        }
    }
}

#[test]
fn unsafe_sizes_are_signaled_padded() {
    let e = Av2Encoder::new(120);
    let size = |layout: Layout, w: usize, h: usize| {
        let f = e.finish(
            RangeEncoder::new(),
            e.config(layout),
            128,
            64,
            w,
            h,
            Cicp::SrgbYcbcr,
            None,
            None,
        );
        (f.size(), f.coded_size())
    };
    assert_eq!(size(Layout::I444, 96, 64), ((96, 64), (128, 64)));
    assert_eq!(size(Layout::I422, 96, 64), ((96, 64), (128, 64)));
    assert_eq!(size(Layout::I420, 96, 64), ((96, 64), (96, 64)));
    assert_eq!(size(Layout::I444, 100, 64), ((100, 64), (100, 64)));
}

#[test]
fn jobs_depend_on_quality_and_workers_as_stated() {
    let img: PlanarImage<u8> = image(BitDepth::Eight);
    let checks = all_well();
    let (low, high) = (options(20), options(90));
    let a = encode_rgba8_with_alpha(&img, &low, &checks).unwrap().alpha.unwrap();
    let b = encode_rgba8_with_alpha(&img, &high, &checks).unwrap().alpha.unwrap();
    let all = |e: &Av2Encoder| (e.base_q_idx(), e.bit_depth(), e.speed(), e.threads());
    assert_eq!(all(&a.encoder), all(&b.encoder));
    let mut more = options(20);
    more.threads = 11;
    let a = encode_yuv8(&img, &low, &checks).unwrap();
    let b = encode_yuv8(&img, &more, &checks).unwrap();
    assert_eq!((a.encoder.threads(), b.encoder.threads()), (3, 11));
    assert_eq!(a.encoder.base_q_idx(), b.encoder.base_q_idx());
    assert_eq!((a.entry, a.color), (b.entry, b.color));
}

#[test]
fn options_are_set_one_by_one() {
    let c = options(10).with_quality(60).with_chroma(ChromaFormat::Yuv420);
    assert_eq!((c.quality, c.chroma, c.threads), (60, ChromaFormat::Yuv420, 3));
    assert!(c.color_encoding.is_none());
    let cicp = Cicp::SrgbYcbcr;
    let c = c.with_cicp(cicp);
    assert_eq!(c.color_encoding, Some(cicp));
    assert_eq!((c.quality, c.chroma), (60, ChromaFormat::Yuv420));
}
