use slip_datagrams::{SlipDatagrams, SlipError};

const END: u8 = SlipDatagrams::END;
const ESC: u8 = SlipDatagrams::ESC;
const ESC_END: u8 = SlipDatagrams::ESC_END;
const ESC_ESC: u8 = SlipDatagrams::ESC_ESC;

fn encode(payload: &[u8]) -> SlipDatagrams {
    let mut framer = SlipDatagrams::new();
    assert_eq!(framer.serialize(payload), Ok(()));
    framer
}

#[test]
fn constants_have_slip_values() {
    assert_eq!(END, 0xC0);
    assert_eq!(ESC, 0xDB);
    assert_eq!(ESC_END, 0xDC);
    assert_eq!(ESC_ESC, 0xDD);
    assert_eq!(SlipDatagrams::MAX_DATAGRAM_SIZE, 1066);
}

#[test]
fn new_framer_is_empty() {
    let framer = SlipDatagrams::new();
    assert_eq!(framer.datagram_count(), 0);
    assert!(framer.get_datagram(0).is_none());
    assert!(framer.get_data_vector().is_empty());
}

#[test]
fn encode_empty_gives_single_end() {
    let framer = encode(&[]);
    assert_eq!(framer.datagram_count(), 1);
    assert_eq!(framer.get_datagram(0).unwrap(), &vec![END]);
}

#[test]
fn encode_escapes_esc() {
    let framer = encode(&[0x01, ESC, 0x02]);
    assert_eq!(framer.datagram_count(), 1);
    assert_eq!(framer.get_datagram(0).unwrap(), &vec![0x01, ESC, ESC_ESC, 0x02, END]);
}

#[test]
fn encode_output_has_end_only_last() {
    let framer = encode(&[END, ESC, END, 0x10, ESC]);
    let d = framer.get_datagram(0).unwrap();
    assert_eq!(d.last(), Some(&END));
    for i in 0..d.len() - 1 {
        assert_ne!(d[i], END);
        if d[i] == ESC {
            assert!(d[i + 1] == ESC_END || d[i + 1] == ESC_ESC);
        }
    }
}

#[test]
fn encode_splits_at_threshold() {
    let framer = encode(&vec![0x11u8; 2000]);
    assert_eq!(framer.datagram_count(), 2);
    assert_eq!(framer.get_datagram(0).unwrap().len(), 1065);
    assert_eq!(framer.get_datagram(0).unwrap()[1064], END);
    assert_eq!(framer.get_datagram(1).unwrap().len(), 2000 - 1064 + 1);
}

#[test]
fn encode_exact_threshold_leaves_end_only_datagram() {
    let framer = encode(&vec![0x00u8; 1064]);
    assert_eq!(framer.datagram_count(), 2);
    assert_eq!(framer.get_datagram(0).unwrap().len(), 1065);
    assert_eq!(framer.get_datagram(1).unwrap(), &vec![END]);
}

#[test]
fn encode_below_threshold_is_one_datagram() {
    let framer = encode(&vec![0x00u8; 1063]);
    assert_eq!(framer.datagram_count(), 1);
    assert_eq!(framer.get_datagram(0).unwrap().len(), 1064);
}

#[test]
fn encode_escape_pair_across_threshold() {
    let mut payload = vec![0x00u8; 1063];
    payload.push(END);
    let framer = encode(&payload);
    assert_eq!(framer.datagram_count(), 2);
    let first = framer.get_datagram(0).unwrap();
    assert_eq!(first.len(), 1066);
    assert_eq!(&first[1063..], &[ESC, ESC_END, END]);
    assert_eq!(framer.get_datagram(1).unwrap(), &vec![END]);
}

#[test]
fn encode_appends_to_held_datagrams() {
    let mut framer = SlipDatagrams::new();
    assert_eq!(framer.serialize(&[0x01]), Ok(()));
    assert_eq!(framer.serialize(&[0x02]), Ok(()));
    assert_eq!(framer.datagram_count(), 2);
    assert_eq!(framer.get_data_vector(), vec![0x01, END, 0x02, END]);
}

#[test]
fn round_trip_with_special_bytes() {
    let payload: Vec<u8> = vec![0x01, END, ESC, 0x7F, END];
    let encoded = encode(&payload).get_data_vector();
    let mut decoder = SlipDatagrams::new();
    assert_eq!(decoder.deserialize(&encoded), Ok(payload));
    assert_eq!(decoder.datagram_count(), 1);
}

#[test]
fn round_trip_across_split() {
    let payload: Vec<u8> = (0..3000u32).map(|i| (i % 0xDB) as u8).collect();
    let encoder = encode(&payload);
    assert_eq!(encoder.datagram_count(), 3);
    let mut decoder = SlipDatagrams::new();
    assert_eq!(decoder.deserialize(&encoder.get_data_vector()), Ok(payload));
    assert_eq!(decoder.datagram_count(), 3);
}

#[test]
fn round_trip_loses_unescaped_partner_bytes() {
    let encoded = encode(&[0x01, ESC_END, ESC_ESC]).get_data_vector();
    assert_eq!(encoded, vec![0x01, ESC_END, ESC_ESC, END]);
    let mut decoder = SlipDatagrams::new();
    assert_eq!(decoder.deserialize(&encoded), Ok(vec![0x01]));
}

#[test]
fn decode_two_frames() {
    let mut framer = SlipDatagrams::new();
    let r = framer.deserialize(&[0x01, 0x02, END, 0x03, ESC, ESC_ESC, END]);
    assert_eq!(r, Ok(vec![0x01, 0x02, 0x03, ESC]));
    assert_eq!(framer.datagram_count(), 2);
    assert_eq!(framer.get_datagram(0).unwrap(), &vec![0x01, 0x02]);
    assert_eq!(framer.get_datagram(1).unwrap(), &vec![0x03, ESC]);
}

#[test]
fn decode_empty_frame() {
    let mut framer = SlipDatagrams::new();
    assert_eq!(framer.deserialize(&[END]), Ok(vec![]));
    assert_eq!(framer.datagram_count(), 1);
    assert_eq!(framer.get_datagram(0).unwrap(), &Vec::<u8>::new());
}

#[test]
fn decode_empty_input_fails() {
    let mut framer = SlipDatagrams::new();
    assert_eq!(framer.deserialize(&[]), Err(SlipError::InvalidSlipSequence));
    assert_eq!(framer.datagram_count(), 0);
}

#[test]
fn decode_drops_unescaped_partner_bytes() {
    let mut framer = SlipDatagrams::new();
    assert_eq!(framer.deserialize(&[ESC_END, 0x05, ESC_ESC, END]), Ok(vec![0x05]));
}

#[test]
fn decode_end_discards_dangling_escape() {
    let mut framer = SlipDatagrams::new();
    assert_eq!(framer.deserialize(&[0x01, ESC, END]), Ok(vec![0x01]));
    assert_eq!(framer.datagram_count(), 1);
}

#[test]
fn decode_tolerates_escape_before_plain_byte() {
    let mut framer = SlipDatagrams::new();
    assert_eq!(framer.deserialize(&[ESC, 0x41, END]), Ok(vec![0x41]));
}

#[test]
fn decode_error_keeps_completed_frames() {
    let mut framer = SlipDatagrams::new();
    let r = framer.deserialize(&[0x01, END, 0x02, ESC, ESC, END]);
    assert_eq!(r, Err(SlipError::InvalidSlipSequence));
    assert_eq!(framer.datagram_count(), 1);
    assert_eq!(framer.get_datagram(0).unwrap(), &vec![0x01]);
}

#[test]
fn decode_missing_end_keeps_completed_frames() {
    let mut framer = SlipDatagrams::new();
    let r = framer.deserialize(&[0x01, END, ESC, ESC_END]);
    assert_eq!(r, Err(SlipError::InvalidSlipSequence));
    assert_eq!(framer.datagram_count(), 1);
}

#[test]
fn decode_plain_bytes_after_end_keep_boundary() {
    // only the escape marker and completed escapes leave the frame boundary
    let mut framer = SlipDatagrams::new();
    assert_eq!(framer.deserialize(&[0x01, END, 0x02]), Ok(vec![0x01]));
    assert_eq!(framer.datagram_count(), 1);
}

#[test]
fn decode_returns_all_held_datagrams() {
    let mut framer = SlipDatagrams::new();
    assert_eq!(framer.deserialize(&[0x01, END]), Ok(vec![0x01]));
    assert_eq!(framer.deserialize(&[0x02, END]), Ok(vec![0x01, 0x02]));
    assert_eq!(framer.datagram_count(), 2);
}

#[test]
fn set_max_datagram_size_limits() {
    let mut framer = SlipDatagrams::new();
    assert_eq!(framer.set_max_datagram_size(0), Err(SlipError::InvalidConfig));
    assert_eq!(framer.set_max_datagram_size(1), Err(SlipError::InvalidConfig));
    assert_eq!(framer.set_max_datagram_size(2), Ok(()));
    assert_eq!(
        SlipError::InvalidConfig.message(),
        "max_datagram_size must be at least 2".to_string()
    );
}

#[test]
fn configured_size_does_not_move_split_point() {
    let mut framer = SlipDatagrams::new();
    assert_eq!(framer.set_max_datagram_size(4), Ok(()));
    assert_eq!(framer.serialize(&[0x01, 0x02, 0x03, 0x04, 0x05]), Ok(()));
    assert_eq!(framer.datagram_count(), 1);
}

#[test]
fn get_datagram_out_of_range() {
    let framer = encode(&[0x01]);
    assert!(framer.get_datagram(1).is_none());
    assert!(framer.get_datagram(usize::MAX).is_none());
}
