use arrayvec::ArrayVec;
use hevc_grain::error::Error;
use hevc_grain::grain::FilmGrainParams;
use hevc_grain::nal::{find_nals, PacketFormat};
use hevc_grain::packet::{
    build_afgs1_nal, hevc_grain_batch_has_grain, is_afgs1_sei, is_grain_readable,
    is_packet_modifiable, is_packet_readable, is_packet_scannable, modify_packet,
    packet_has_vcl, parse_hevc_grain_batch, parse_packet_afgs1_params,
};
use hevc_grain::sei::are_messages_fit;
use hevc_grain::video::ChromaSubsampling;

fn points<const N: usize>(list: &[[u8; 2]]) -> ArrayVec<[u8; 2], N> {
    list.iter().copied().collect()
}

fn coeffs<const N: usize>(list: &[i8]) -> ArrayVec<i8, N> {
    list.iter().copied().collect()
}

fn plain() -> FilmGrainParams {
    FilmGrainParams {
        grain_seed: 0x1234,
        scaling_points_y: ArrayVec::new(),
        scaling_points_cb: ArrayVec::new(),
        scaling_points_cr: ArrayVec::new(),
        scaling_shift: 8,
        ar_coeff_lag: 0,
        ar_coeffs_y: ArrayVec::new(),
        ar_coeffs_cb: ArrayVec::new(),
        ar_coeffs_cr: ArrayVec::new(),
        ar_coeff_shift: 6,
        cb_mult: 0,
        cb_luma_mult: 0,
        cb_offset: 0,
        cr_mult: 0,
        cr_luma_mult: 0,
        cr_offset: 0,
        chroma_scaling_from_luma: false,
        grain_scale_shift: 0,
        overlap_flag: true,
        clip_to_restricted_range: false,
    }
}

fn luma() -> FilmGrainParams {
    FilmGrainParams {
        grain_seed: 99,
        scaling_points_y: points(&[[0, 20], [100, 40]]),
        ar_coeffs_y: coeffs(&[0; 24]),
        ..plain()
    }
}

const YUV: ChromaSubsampling = ChromaSubsampling::Yuv420;

fn edit(data: &[u8], params: Option<&FilmGrainParams>, replace: bool) -> Result<Vec<u8>, Error> {
    assert!(is_packet_readable(data));
    modify_packet(data, params, replace, 1920, 1080, YUV)
}

fn grain(data: &[u8]) -> Option<FilmGrainParams> {
    assert!(is_grain_readable(data));
    parse_packet_afgs1_params(data).unwrap()
}

fn with_lengths() -> Vec<u8> {
    vec![0, 0, 0, 3, 0x40, 1, 5, 0, 0, 0, 4, 0x02, 1, 8, 9, 0, 0, 0, 3, 0x50, 1, 0x80]
}

fn with_codes() -> Vec<u8> {
    vec![0, 0, 0, 1, 0x40, 1, 5, 0, 0, 1, 0x02, 1, 8, 9, 0, 0, 1, 0x50, 1, 0x80]
}

#[test]
fn a_nal_unit_is_built_for_either_format() {
    let nal = vec![
        0x4e, 0x01, 0x04, 0x0f, 0xb5, 0x58, 0x90, 0x01, 0x80, 0x05, 0x88, 0x91,
        0xa4, 0xc3, 0xc0, 0x21, 0xe0, 0x00, 0x50, 0x80,
    ];
    let coded = build_afgs1_nal(&plain(), PacketFormat::AnnexB, 1920, 1080, YUV).unwrap();
    assert_eq!(coded[..4], [0, 0, 0, 1]);
    assert_eq!(coded[4..], nal[..]);
    let format = PacketFormat::LengthPrefixed { length_size: 2 };
    let framed = build_afgs1_nal(&plain(), format, 1920, 1080, YUV).unwrap();
    assert_eq!(framed[..2], [0, nal.len() as u8]);
    assert_eq!(framed[2..], nal[..]);
    assert!(is_afgs1_sei(&nal));
}

#[test]
fn a_nal_unit_that_cannot_be_built_is_refused() {
    let mut params = plain();
    params.chroma_scaling_from_luma = true;
    assert_eq!(
        build_afgs1_nal(&params, PacketFormat::AnnexB, 0, 0, YUV),
        Err(Error::ChromaFromLuma)
    );
    let format = PacketFormat::LengthPrefixed { length_size: 5 };
    assert_eq!(
        build_afgs1_nal(&plain(), format, 16, 16, YUV),
        Err(Error::InvalidLengthPrefix { length_size: 5 })
    );
}

#[test]
fn grain_goes_in_front_of_the_first_picture_data() {
    for (packet, format) in [
        (with_lengths(), PacketFormat::LengthPrefixed { length_size: 4 }),
        (with_codes(), PacketFormat::AnnexB),
    ] {
        let out = edit(&packet, Some(&luma()), false).unwrap();
        let nals = find_nals(&out).unwrap();
        assert_eq!(nals.len(), 4);
        assert_eq!(nals[0].data, &[0x40, 1, 5]);
        assert!(is_afgs1_sei(nals[1].data));
        assert_eq!(nals[1].format, format);
        assert_eq!(nals[2].data, &[0x02, 1, 8, 9]);
        assert_eq!(nals[3].data, &[0x50, 1, 0x80]);
        assert_eq!(grain(&out), Some(luma()));
        assert_eq!(packet_has_vcl(&out), Ok(true));
    }
}

#[test]
fn grain_that_does_not_fit_is_refused() {
    let mut params = luma();
    params.grain_scale_shift = 4;
    let error = Error::ValueTooWide { value: 4, bits: 2 };
    assert_eq!(edit(&with_lengths(), Some(&params), false), Err(error));
    params.grain_scale_shift = 3;
    params.chroma_scaling_from_luma = true;
    assert_eq!(edit(&with_codes(), Some(&params), false), Err(Error::ChromaFromLuma));
    params.chroma_scaling_from_luma = false;
    assert!(edit(&with_codes(), Some(&params), false).is_ok());
}

#[test]
fn grain_that_was_put_in_can_be_taken_out_again() {
    for packet in [with_lengths(), with_codes()] {
        let out = edit(&packet, Some(&luma()), false).unwrap();
        assert_ne!(out, packet);
        assert_eq!(edit(&out, None, false).unwrap(), packet);
        assert_eq!(grain(&edit(&out, None, false).unwrap()), None);
    }
}

#[test]
fn grain_is_replaced_only_on_request() {
    for packet in [with_lengths(), with_codes()] {
        let first = edit(&packet, Some(&luma()), false).unwrap();
        assert_eq!(edit(&first, Some(&plain()), false), Err(Error::GrainExists));
        let second = edit(&first, Some(&plain()), true).unwrap();
        assert_eq!(grain(&second), Some(plain()));
        assert_eq!(second, edit(&packet, Some(&plain()), true).unwrap());
    }
}

#[test]
fn a_packet_without_grain_stays_as_it_is() {
    for packet in [with_lengths(), with_codes(), Vec::new()] {
        assert_eq!(edit(&packet, None, false).unwrap(), packet);
        assert_eq!(grain(&packet), None);
    }
}

#[test]
fn a_packet_without_picture_data_gets_no_grain() {
    let packet = vec![0, 0, 0, 3, 0x40, 1, 5];
    assert_eq!(packet_has_vcl(&packet), Ok(false));
    assert_eq!(edit(&packet, Some(&luma()), false).unwrap(), packet);
    assert_eq!(packet_has_vcl(&with_lengths()), Ok(true));
}

#[test]
fn a_zero_byte_may_go_over_to_the_next_start_code() {
    let mut packet = vec![0, 0, 0, 1, 0x40, 1, 5, 0];
    packet.extend(build_afgs1_nal(&plain(), PacketFormat::AnnexB, 16, 16, YUV).unwrap());
    packet.extend([0, 0, 1, 0x02, 1, 8]);
    assert_eq!(grain(&packet), Some(plain()));
    let out = edit(&packet, None, false).unwrap();
    assert_eq!(out, vec![0, 0, 0, 1, 0x40, 1, 5, 0, 0, 0, 1, 0x02, 1, 8]);
    assert_eq!(grain(&out), None);
    let again = edit(&packet, Some(&luma()), true).unwrap();
    assert_eq!(grain(&again), Some(luma()));
}

#[test]
fn a_picture_of_a_bare_header_is_kept() {
    let mut packet = vec![0, 0, 0, 1, 0x40, 1, 5, 0, 0, 1, 0x02, 1];
    packet.extend(build_afgs1_nal(&plain(), PacketFormat::AnnexB, 16, 16, YUV).unwrap());
    packet.extend([0, 0, 1, 0x02, 1]);
    let out = edit(&packet, None, false).unwrap();
    assert_eq!(out, vec![0, 0, 0, 1, 0x40, 1, 5, 0, 0, 1, 0x02, 1, 0, 0, 1, 0x02, 1]);
    assert_eq!(packet_has_vcl(&out), Ok(true));
    let first = edit(&packet, Some(&plain()), true).unwrap();
    let second = edit(&first, Some(&luma()), true).unwrap();
    assert_eq!(second, edit(&packet, Some(&luma()), true).unwrap());
    assert_eq!(grain(&second), Some(luma()));
    assert_eq!(packet_has_vcl(&second), Ok(true));
}

#[test]
fn broken_packets_are_refused() {
    let packet = [0, 0, 0, 9, 1];
    let error = Error::InvalidNalLength { len: 9 };
    assert_eq!(edit(&packet, None, false), Err(error));
    assert_eq!(packet_has_vcl(&packet), Err(error));
    assert_eq!(parse_packet_afgs1_params(&packet), Err(error));
}

#[test]
fn packets_that_cannot_be_read_are_told_apart() {
    let mut packet = vec![0, 0, 1, 4, 0x4e, 1];
    packet.resize(4 + 260, 0);
    assert!(!is_packet_readable(&packet));
    packet[100] = 1;
    assert!(is_packet_readable(&packet));
    assert!(is_grain_readable(&packet));
}

#[test]
fn nothing_behind_the_first_grain_is_looked_at_where_grain_is_looked_for() {
    let format = PacketFormat::LengthPrefixed { length_size: 4 };
    let mut packet = build_afgs1_nal(&plain(), format, 16, 16, YUV).unwrap();
    packet.extend([0, 0, 1, 4, 0x4e, 1]);
    packet.resize(packet.len() + 258, 0);
    packet.extend([0, 0, 0, 3, 0x02, 1, 8]);
    assert!(!is_packet_readable(&packet));
    assert!(is_packet_scannable(&packet));
    assert_eq!(grain(&packet), Some(plain()));
    assert_eq!(hevc_grain_batch_has_grain(&[packet.clone()]), Ok(true));
    let params = luma();
    let can_modify = |params: Option<&FilmGrainParams>, replace: bool, width: usize| {
        is_packet_modifiable(&packet, params, replace, width, 16, YUV)
    };
    assert!(!can_modify(None, false, 16));
    assert!(!can_modify(Some(&params), true, 16));
    assert!(can_modify(Some(&params), false, 16));
    assert_eq!(
        modify_packet(&packet, Some(&params), false, 16, 16, YUV),
        Err(Error::GrainExists)
    );
    assert!(can_modify(Some(&params), true, 0));
    assert_eq!(
        modify_packet(&packet, Some(&params), true, 0, 16, YUV),
        Err(Error::ZeroSizedPicture)
    );
    packet.truncate(packet.len() - 7);
    let behind = packet.len() - 264;
    assert!(!is_packet_scannable(&packet[behind..]));
}

#[test]
fn long_runs_in_messages_are_counted() {
    for bytes in [vec![], vec![0xff; 1000], vec![4, 0xff, 0xff, 7], vec![0xff, 0xff, 0, 0, 0x80]] {
        assert!(are_messages_fit(&bytes));
    }
}

#[test]
fn batches_are_parsed_in_order() {
    let grained = edit(&with_lengths(), Some(&luma()), false).unwrap();
    let batch = vec![with_lengths(), grained.clone(), with_codes()];
    assert_eq!(
        parse_hevc_grain_batch(&batch),
        Ok(vec![None, Some(luma()), None])
    );
    assert_eq!(hevc_grain_batch_has_grain(&batch), Ok(true));
    assert_eq!(hevc_grain_batch_has_grain(&[with_codes()]), Ok(false));
    assert_eq!(hevc_grain_batch_has_grain(&[]), Ok(false));
    let broken = vec![grained, vec![1]];
    assert_eq!(
        parse_hevc_grain_batch(&broken),
        Err(Error::IncompleteNalLength)
    );
    assert_eq!(
        hevc_grain_batch_has_grain(&broken),
        Err(Error::IncompleteNalLength)
    );
}
