use easegress_sdk::marshal::{
    data_framed, fits, marshal_data, marshal_string, marshal_string_vec, text_framed,
    text_list_framed, unmarshal_data, unmarshal_string, unmarshal_string_vec,
};
use easegress_sdk::wire::{get_le, put_le};
use easegress_sdk::LogLevel;

#[test]
fn data_frame_is_length_then_bytes() {
    assert_eq!(marshal_data(vec![1, 2, 3]), vec![3, 0, 0, 0, 1, 2, 3]);
}

#[test]
fn empty_data_frame_is_a_zero_length() {
    assert_eq!(marshal_data(Vec::new()), vec![0, 0, 0, 0]);
}

#[test]
fn data_length_is_little_endian() {
    let buf = marshal_data(vec![7u8; 300]);
    assert_eq!(buf.len(), 304);
    assert_eq!(&buf[0..4], &[44, 1, 0, 0]);
    assert_eq!(get_le(&buf, 0), 300);
}

#[test]
fn length_field_round_trip() {
    let mut buf = vec![9u8];
    put_le(&mut buf, 0x0102_0304);
    assert_eq!(buf, vec![9, 4, 3, 2, 1]);
    assert_eq!(get_le(&buf, 1), 0x0102_0304);
    let mut top = Vec::new();
    put_le(&mut top, 0x7fff_ffff);
    assert_eq!(top, vec![0xff, 0xff, 0xff, 0x7f]);
    assert_eq!(get_le(&top, 0), 0x7fff_ffff);
}

#[test]
fn data_round_trip() {
    let data = vec![0u8, 255, 10, 13, 0, 1];
    let buf = marshal_data(data.clone());
    assert_eq!(unmarshal_data(&buf, 0), data);
}

#[test]
fn empty_data_round_trip() {
    let buf = marshal_data(Vec::new());
    assert_eq!(unmarshal_data(&buf, 0), Vec::<u8>::new());
}

#[test]
fn data_is_read_at_an_offset() {
    let mut mem = vec![0xaau8; 5];
    mem.extend(marshal_data(vec![4, 5]));
    mem.extend(vec![0xbbu8; 3]);
    assert_eq!(unmarshal_data(&mem, 5), vec![4, 5]);
    assert_eq!(mem.len(), 14);
}

#[test]
fn text_frame_counts_the_closing_zero() {
    assert_eq!(marshal_string("hi".to_string()), vec![3, 0, 0, 0, b'h', b'i', 0]);
}

#[test]
fn empty_text_frame() {
    assert_eq!(marshal_string(String::new()), vec![1, 0, 0, 0, 0]);
}

#[test]
fn text_round_trip() {
    let s = "h\u{e9}llo \u{2713} \u{1f600}".to_string();
    let buf = marshal_string(s.clone());
    assert_eq!(buf.len(), s.len() + 5);
    assert_eq!(unmarshal_string(&buf, 0), s);
}

#[test]
fn empty_text_round_trip() {
    let buf = marshal_string(String::new());
    assert_eq!(unmarshal_string(&buf, 0), "");
}

#[test]
fn text_is_read_at_an_offset() {
    let mut mem = vec![1u8, 2, 3];
    mem.extend(marshal_string("abc".to_string()));
    assert_eq!(unmarshal_string(&mem, 3), "abc");
}

#[test]
fn invalid_utf8_is_replaced() {
    let mem = vec![3u8, 0, 0, 0, 0xff, b'a', 0];
    assert_eq!(unmarshal_string(&mem, 0), "\u{fffd}a");
}

#[test]
fn text_list_frame() {
    let items = vec!["a".to_string(), "bc".to_string(), String::new()];
    assert_eq!(
        marshal_string_vec(&items),
        vec![3, 0, 0, 0, 2, 0, 0, 0, b'a', 0, 3, 0, 0, 0, b'b', b'c', 0, 1, 0, 0, 0, 0]
    );
}

#[test]
fn empty_text_list_frame() {
    let buf = marshal_string_vec(&Vec::new());
    assert_eq!(buf, vec![0, 0, 0, 0]);
    assert_eq!(unmarshal_string_vec(&buf, 0), Vec::<String>::new());
}

#[test]
fn text_list_round_trip() {
    let items = vec![
        "key".to_string(),
        "value".to_string(),
        String::new(),
        "\u{4e2d}\u{6587}".to_string(),
    ];
    let mut mem = vec![0u8; 2];
    mem.extend(marshal_string_vec(&items));
    assert_eq!(unmarshal_string_vec(&mem, 2), items);
}

#[test]
fn log_levels_have_their_codes() {
    assert_eq!(LogLevel::Debug.code(), 0);
    assert_eq!(LogLevel::Info.code(), 1);
    assert_eq!(LogLevel::Warning.code(), 2);
    assert_eq!(LogLevel::Error.code(), 3);
}

#[test]
fn data_frames_are_recognised() {
    let buf = marshal_data(vec![1, 2, 3]);
    assert!(data_framed(&buf, 0));
    assert!(!data_framed(&buf[..6], 0));
    assert!(!data_framed(&buf, -1));
    assert!(!data_framed(&buf, 4));
    assert!(!data_framed(&buf[..3], 0));
    assert!(data_framed(&[0, 0, 0, 0], 0));
    assert!(!data_framed(&[0xff, 0xff, 0xff, 0xff], 0));
    let mut mem = vec![0u8; 3];
    mem.extend(buf);
    assert!(data_framed(&mem, 3));
}

#[test]
fn text_frames_are_recognised() {
    let buf = marshal_string("ab".to_string());
    assert!(text_framed(&buf, 0));
    assert!(!text_framed(&buf[..6], 0));
    assert!(!text_framed(&buf, -4));
    assert!(!text_framed(&[0, 0, 0, 0, 0], 0));
    assert!(text_framed(&[1, 0, 0, 0, 0], 0));
    assert!(!text_framed(&[1, 0, 0, 0], 0));
    assert!(!text_framed(&[], 0));
}

#[test]
fn text_list_frames_are_recognised() {
    let items = vec!["a".to_string(), "bc".to_string()];
    let buf = marshal_string_vec(&items);
    assert!(text_list_framed(&buf, 0));
    assert!(!text_list_framed(&buf[..buf.len() - 1], 0));
    assert!(!text_list_framed(&buf, -1));
    assert!(text_list_framed(&[0, 0, 0, 0], 0));
    assert!(!text_list_framed(&[1, 0, 0, 0], 0));
    assert!(!text_list_framed(&[1, 0, 0, 0, 0, 0, 0, 0, 0], 0));
    assert!(!text_list_framed(&[0, 0, 0], 0));
    let mut mem = vec![7u8];
    mem.extend(buf);
    assert!(text_list_framed(&mem, 1));
}

#[test]
fn long_texts_still_fit() {
    assert!(fits(""));
    assert!(fits("abc"));
    let long = "x".repeat(70000);
    assert!(fits(&long));
    let buf = marshal_string(long.clone());
    assert_eq!(&buf[0..4], &[0x71, 0x11, 0x01, 0x00]);
    assert_eq!(unmarshal_string(&buf, 0), long);
}
