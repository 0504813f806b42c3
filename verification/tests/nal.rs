use hevc_grain::error::Error;
use hevc_grain::escape::{are_runs_countable, ebsp_to_rbsp, rbsp_to_ebsp};
use hevc_grain::nal::{
    find_annex_b_nals, find_length_prefixed_nals, find_nals, is_vcl_nal, nal_type,
    starts_with_annex_b, write_length_prefix, PacketFormat,
};
use hevc_grain::sei::{is_afgs1_payload, parse_sei_messages, write_sei_message_header};

#[test]
fn find_nals_prefers_valid_length_prefix_over_annex_b_lookalike() {
    let mut packet = vec![0x00, 0x00, 0x01, 0xe6, 0x02, 0x01];
    packet.resize(490, 0);

    let nals = find_nals(&packet).expect("length-prefixed packet should parse");

    assert_eq!(nals.len(), 1);
    assert_eq!(nals[0].format, PacketFormat::LengthPrefixed { length_size: 4 });
    assert_eq!(nal_type(nals[0].data).unwrap(), 1);
}

#[test]
fn lengths_delimit_nal_units() {
    let packet = [0, 0, 0, 2, 0x40, 1, 0, 0, 0, 3, 0x02, 1, 9];
    let nals = find_length_prefixed_nals(&packet, 4).unwrap();
    assert_eq!(nals.len(), 2);
    assert_eq!(nals[0].prefix, &[0, 0, 0, 2]);
    assert_eq!(nals[0].data, &[0x40, 1]);
    assert_eq!(nals[1].data, &[0x02, 1, 9]);
}

#[test]
fn lengths_may_be_shorter() {
    let packet = [1, 0x40, 0, 2];
    assert_eq!(
        find_length_prefixed_nals(&packet, 2).err(),
        Some(Error::InvalidNalLength { len: 0x140 })
    );
    let nals = find_length_prefixed_nals(&packet[..2], 1).unwrap();
    assert_eq!(nals[0].data, &[0x40]);
}

#[test]
fn broken_lengths_are_refused() {
    assert_eq!(find_nals(&[0, 0, 0]).err(), Some(Error::IncompleteNalLength));
    assert_eq!(
        find_nals(&[0, 0, 0, 0, 5]).err(),
        Some(Error::InvalidNalLength { len: 0 })
    );
    assert_eq!(
        find_nals(&[0, 0, 0, 9, 5]).err(),
        Some(Error::InvalidNalLength { len: 9 })
    );
    assert!(find_nals(&[]).unwrap().is_empty());
}

#[test]
fn start_codes_delimit_nal_units() {
    let packet = [0, 0, 0, 1, 0x40, 1, 7, 0, 0, 1, 0x02, 1, 0, 0, 0, 0, 1, 0x4e];
    assert!(starts_with_annex_b(&packet));
    let nals = find_nals(&packet).unwrap();
    assert_eq!(nals.len(), 3);
    assert_eq!(nals[0].prefix, &[0, 0, 0, 1]);
    assert_eq!(nals[0].data, &[0x40, 1, 7]);
    assert_eq!(nals[1].prefix, &[0, 0, 1]);
    assert_eq!(nals[1].data, &[0x02, 1, 0]);
    assert_eq!(nals[2].prefix, &[0, 0, 0, 1]);
    assert_eq!(nals[2].data, &[0x4e]);
    assert_eq!(nals[2].format, PacketFormat::AnnexB);
}

#[test]
fn taking_a_packet_apart_loses_nothing() {
    let with_lengths = vec![0, 0, 0, 2, 0x40, 1, 0, 0, 0, 1, 9];
    let with_codes = vec![0, 0, 1, 0x40, 1, 0, 0, 0, 1, 9, 0, 0, 1];
    for packet in [with_lengths, with_codes] {
        let mut again = Vec::new();
        for nal in find_nals(&packet).unwrap() {
            again.extend_from_slice(nal.prefix);
            again.extend_from_slice(nal.data);
        }
        assert_eq!(again, packet);
    }
}

#[test]
fn bytes_in_front_of_the_first_start_code_are_passed_over() {
    let packet = [5, 6, 0, 0, 1, 0x40, 1];
    assert!(!starts_with_annex_b(&packet));
    let nals = find_annex_b_nals(&packet);
    assert_eq!(nals.len(), 1);
    assert_eq!(nals[0].data, &[0x40, 1]);
}

#[test]
fn nal_types_come_from_the_header() {
    assert_eq!(nal_type(&[0x4e, 1]), Ok(39));
    assert_eq!(nal_type(&[0xff, 1]), Ok(63));
    assert_eq!(nal_type(&[0x4e]), Err(Error::MissingNalHeader));
    assert!(is_vcl_nal(31));
    assert!(!is_vcl_nal(32));
}

#[test]
fn length_prefixes_are_big_endian() {
    let mut out = vec![9];
    assert_eq!(write_length_prefix(0x0102, 4, &mut out), Ok(()));
    assert_eq!(write_length_prefix(0x0102, 2, &mut out), Ok(()));
    assert_eq!(out, vec![9, 0, 0, 1, 2, 1, 2]);
    assert_eq!(
        write_length_prefix(0x100, 1, &mut out),
        Err(Error::InvalidLengthPrefix { length_size: 1 })
    );
    assert_eq!(
        write_length_prefix(1, 0, &mut out),
        Err(Error::InvalidLengthPrefix { length_size: 0 })
    );
    assert_eq!(
        write_length_prefix(1, 5, &mut out),
        Err(Error::InvalidLengthPrefix { length_size: 5 })
    );
    assert_eq!(out.len(), 7);
}

#[test]
fn emulation_is_prevented_and_undone() {
    let rbsp = vec![0, 0, 0, 0, 0, 1, 0, 0, 3, 0, 0, 4];
    let ebsp = rbsp_to_ebsp(&rbsp);
    assert_eq!(ebsp, vec![0, 0, 3, 0, 0, 3, 0, 1, 0, 0, 3, 3, 0, 0, 4]);
    assert_eq!(ebsp_to_rbsp(&ebsp), rbsp);
}

#[test]
fn long_runs_of_zeros_are_told_apart() {
    assert!(are_runs_countable(&[0u8; 255]));
    assert!(!are_runs_countable(&[0u8; 256]));
    assert_eq!(ebsp_to_rbsp(&[0u8; 255]).len(), 255);
}

#[test]
fn sei_headers_count_in_steps_of_255() {
    let mut out = Vec::new();
    assert_eq!(write_sei_message_header(4, 600, &mut out), Ok(()));
    assert_eq!(out, vec![4, 255, 255, 90]);
}

#[test]
fn sei_messages_are_read_up_to_the_stop_bit() {
    let nal = [0x4e, 1, 255, 2, 2, 8, 9, 4, 1, 7, 0x80];
    let messages = parse_sei_messages(&nal).unwrap();
    assert_eq!(messages, vec![(257, vec![8, 9]), (4, vec![7])]);
    assert_eq!(parse_sei_messages(&[0x4e, 1, 0x80, 0, 0]), Ok(Vec::new()));
    assert_eq!(parse_sei_messages(&[0x4e, 1, 4, 9, 1]), Ok(Vec::new()));
    assert_eq!(parse_sei_messages(&[0x4e]), Err(Error::MissingSeiHeader));
}

#[test]
fn payloads_are_recognised_by_their_codes() {
    assert!(is_afgs1_payload(&[0xb5, 0x58, 0x90, 0x01, 0x80]));
    assert!(!is_afgs1_payload(&[0xb5, 0x58, 0x90, 0x01, 0x7f]));
    assert!(!is_afgs1_payload(&[0xb5, 0x58, 0x90, 0x01]));
    assert!(!is_afgs1_payload(&[0xb5, 0x58, 0x90, 0x02, 0x80]));
}
