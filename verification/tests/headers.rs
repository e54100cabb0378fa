use easegress_sdk::headers::HeaderMap;
use easegress_sdk::marshal::{marshal_all_header, marshal_string, unmarshal_all_header};

fn sample() -> HeaderMap {
    let mut m = HeaderMap::new();
    m.add("X-A".to_string(), "1".to_string());
    m.add("X-B".to_string(), "3".to_string());
    m.add("X-A".to_string(), "2".to_string());
    m
}

#[test]
fn values_stay_in_order_under_their_name() {
    let m = sample();
    assert_eq!(m.entries().len(), 2);
    assert_eq!(m.get(&"X-A".to_string()).unwrap(), &vec!["1".to_string(), "2".to_string()]);
    assert_eq!(m.get(&"X-B".to_string()).unwrap(), &vec!["3".to_string()]);
    assert!(m.get(&"X-C".to_string()).is_none());
    assert_eq!(m.position(&"X-B".to_string()), 1);
    assert_eq!(m.position(&"x-b".to_string()), 2);
}

#[test]
fn header_text_has_one_line_per_value() {
    assert_eq!(sample().to_text(), "X-A:1\r\nX-A:2\r\nX-B:3\r\n");
    assert_eq!(HeaderMap::new().to_text(), "");
}

#[test]
fn header_round_trip_keeps_the_order_of_each_name() {
    let buf = marshal_all_header(sample());
    assert_eq!(buf, marshal_string("X-A:1\r\nX-A:2\r\nX-B:3\r\n".to_string()));
    let back = unmarshal_all_header(&buf, 0);
    assert_eq!(back.entries().len(), 2);
    assert_eq!(back.get(&"X-A".to_string()).unwrap(), &vec!["1".to_string(), "2".to_string()]);
    assert_eq!(back.get(&"X-B".to_string()).unwrap(), &vec!["3".to_string()]);
}

#[test]
fn line_without_colon_is_skipped() {
    let buf = marshal_string("no colon here\r\nX-B:3\r\n".to_string());
    let m = unmarshal_all_header(&buf, 0);
    assert_eq!(m.entries().len(), 1);
    assert_eq!(m.entries()[0].name, "X-B");
    assert_eq!(m.entries()[0].values, vec!["3".to_string()]);
}

#[test]
fn name_ends_at_the_first_colon() {
    let m = HeaderMap::from_text("Location:http://example.com/\r\nEmpty:\r\n:v");
    assert_eq!(m.get(&"Location".to_string()).unwrap(), &vec!["http://example.com/".to_string()]);
    assert_eq!(m.get(&"Empty".to_string()).unwrap(), &vec![String::new()]);
    assert_eq!(m.get(&String::new()).unwrap(), &vec!["v".to_string()]);
}

#[test]
fn empty_text_gives_no_headers() {
    assert_eq!(HeaderMap::from_text("").entries().len(), 0);
    assert_eq!(HeaderMap::from_text("\r\n\r\n").entries().len(), 0);
}

#[test]
fn lone_line_feed_does_not_end_a_line() {
    let m = HeaderMap::from_text("A:1\nB:2\r\nC:3");
    assert_eq!(m.entries().len(), 2);
    assert_eq!(m.get(&"A".to_string()).unwrap(), &vec!["1\nB:2".to_string()]);
    assert_eq!(m.get(&"C".to_string()).unwrap(), &vec!["3".to_string()]);
}
