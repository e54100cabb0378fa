use easegress_sdk::cookie::{Cookie, CookieError, SameSite};
use easegress_sdk::marshal::{
    marshal_cookie, marshal_string, marshal_string_vec, try_unmarshal_cookie, unmarshal_cookie,
    unmarshal_cookie_vec,
};

fn sample() -> Cookie {
    let mut c = Cookie::default();
    c.set_name("id".to_string());
    c.set_value("42".to_string());
    c.set_path("/".to_string());
    c.set_secure(true);
    c.set_same_site(SameSite::LaxMode);
    c
}

#[test]
fn default_cookie_is_empty() {
    let c = Cookie::default();
    assert_eq!(c.get_name(), "");
    assert_eq!(c.get_value(), "");
    assert_eq!(c.get_path(), "");
    assert_eq!(c.get_domain(), "");
    assert_eq!(c.get_raw_expires(), "");
    assert_eq!(c.get_max_age(), 0);
    assert!(!c.get_secure());
    assert!(!c.get_http_only());
    assert_eq!(*c.get_same_site(), SameSite::DefaultMode);
}

#[test]
fn setters_change_one_field() {
    let mut c = sample();
    c.set_domain("example.com".to_string());
    c.set_raw_expires("Wed, 21 Oct 2015 07:28:00 GMT".to_string());
    c.set_max_age(-1);
    c.set_http_only(true);
    assert_eq!(c.get_name(), "id");
    assert_eq!(c.get_value(), "42");
    assert_eq!(c.get_path(), "/");
    assert_eq!(c.get_domain(), "example.com");
    assert_eq!(c.get_raw_expires(), "Wed, 21 Oct 2015 07:28:00 GMT");
    assert_eq!(c.get_max_age(), -1);
    assert!(c.get_secure());
    assert!(c.get_http_only());
    assert_eq!(*c.get_same_site(), SameSite::LaxMode);
}

#[test]
fn cookie_line_of_the_sample() {
    assert_eq!(sample().marshal(), "id=42; Path=/; Secure; SameSite=Lax");
}

#[test]
fn cookie_line_round_trip() {
    let c = Cookie::unmarshal("id=42; Path=/; Secure; SameSite=Lax".to_string()).unwrap();
    assert_eq!(c.get_name(), "id");
    assert_eq!(c.get_value(), "42");
    assert_eq!(c.get_path(), "/");
    assert!(c.get_secure());
    assert_eq!(*c.get_same_site(), SameSite::LaxMode);
    assert_eq!(c.get_domain(), "");
    assert_eq!(c.get_raw_expires(), "");
    assert_eq!(c.get_max_age(), 0);
    assert!(!c.get_http_only());
    assert_eq!(c.marshal(), sample().marshal());
}

#[test]
fn cookie_line_with_every_attribute() {
    let mut c = Cookie::default();
    c.set_name("a".to_string());
    c.set_value("b".to_string());
    c.set_path("/p".to_string());
    c.set_domain("d.com".to_string());
    c.set_raw_expires("Wed".to_string());
    c.set_max_age(3600);
    c.set_secure(true);
    c.set_http_only(true);
    c.set_same_site(SameSite::StrictMode);
    let line = c.marshal();
    assert_eq!(
        line,
        "a=b; Path=/p; Domain=d.com; Expires=Wed; Max-Age=3600; Secure; HttpOnly; SameSite=Strict"
    );
    let back = Cookie::parse(&line).unwrap().unwrap();
    assert_eq!(back.get_path(), "/p");
    assert_eq!(back.get_domain(), "d.com");
    assert_eq!(back.get_raw_expires(), "Wed");
    assert_eq!(back.get_max_age(), 3600);
    assert!(back.get_secure());
    assert!(back.get_http_only());
    assert_eq!(*back.get_same_site(), SameSite::StrictMode);
}

#[test]
fn max_age_is_written_as_its_own_number() {
    let mut c = Cookie::default();
    c.set_name("n".to_string());
    c.set_raw_expires("never".to_string());
    c.set_max_age(7);
    assert_eq!(c.marshal(), "n=; Expires=never; Max-Age=7");
    c.set_max_age(2147483647);
    c.set_raw_expires(String::new());
    assert_eq!(c.marshal(), "n=; Max-Age=2147483647");
    c.set_max_age(10);
    assert_eq!(c.marshal(), "n=; Max-Age=10");
}

#[test]
fn max_age_not_positive_is_left_out() {
    let mut c = Cookie::default();
    c.set_name("n".to_string());
    c.set_value("v".to_string());
    c.set_max_age(0);
    assert_eq!(c.marshal(), "n=v");
    c.set_max_age(-5);
    assert_eq!(c.marshal(), "n=v");
}

#[test]
fn same_site_none_is_written() {
    let mut c = Cookie::default();
    c.set_name("n".to_string());
    c.set_same_site(SameSite::NoneMode);
    assert_eq!(c.marshal(), "n=; SameSite=None");
}

#[test]
fn empty_line_gives_no_cookie() {
    assert!(matches!(Cookie::parse(""), Ok(None)));
    assert!(Cookie::unmarshal(String::new()).is_none());
}

#[test]
fn first_segment_without_pair_gives_no_cookie() {
    assert!(matches!(Cookie::parse("novalue"), Ok(None)));
    assert!(Cookie::unmarshal("novalue".to_string()).is_none());
    assert!(matches!(Cookie::parse("a=b=c"), Ok(None)));
    assert!(matches!(Cookie::parse("; a=b"), Ok(None)));
    assert!(matches!(Cookie::parse("novalue; Max-Age=x"), Ok(None)));
}

#[test]
fn malformed_max_age_is_an_error() {
    assert!(matches!(
        Cookie::parse("a=b; Max-Age=notanumber"),
        Err(CookieError::MalformedMaxAge)
    ));
    assert!(matches!(Cookie::parse("a=b; max-age="), Err(CookieError::MalformedMaxAge)));
    assert!(matches!(
        Cookie::parse("a=b; Path=/; Max-Age=2147483648; Secure"),
        Err(CookieError::MalformedMaxAge)
    ));
}

#[test]
fn max_age_numbers() {
    assert_eq!(Cookie::parse("a=b; Max-Age=+7").unwrap().unwrap().get_max_age(), 7);
    assert_eq!(Cookie::parse("a=b; Max-Age=-12").unwrap().unwrap().get_max_age(), -12);
    assert_eq!(Cookie::parse("a=b; Max-Age=0007").unwrap().unwrap().get_max_age(), 7);
    assert_eq!(
        Cookie::parse("a=b; Max-Age=-2147483648").unwrap().unwrap().get_max_age(),
        i32::MIN
    );
    assert_eq!(
        Cookie::parse("a=b; Max-Age=2147483647").unwrap().unwrap().get_max_age(),
        i32::MAX
    );
}

#[test]
fn attribute_names_ignore_case() {
    let c = Cookie::parse("a=b; PATH=/x; DoMaIn=d; EXPIRES=e; max-AGE=5; SECURE; httponly; SAMESITE=NONE")
        .unwrap()
        .unwrap();
    assert_eq!(c.get_path(), "/x");
    assert_eq!(c.get_domain(), "d");
    assert_eq!(c.get_raw_expires(), "e");
    assert_eq!(c.get_max_age(), 5);
    assert!(c.get_secure());
    assert!(c.get_http_only());
    assert_eq!(*c.get_same_site(), SameSite::NoneMode);
}

#[test]
fn unknown_segments_are_ignored() {
    let c = Cookie::parse("a=b; Foo=bar; Baz; x=y=z; ; SameSite=weird").unwrap().unwrap();
    assert_eq!(c.get_name(), "a");
    assert_eq!(c.get_value(), "b");
    assert_eq!(c.marshal(), "a=b");
}

#[test]
fn segments_are_trimmed() {
    let c = Cookie::parse("  a=b \t;   Path=/q  ;Secure ").unwrap().unwrap();
    assert_eq!(c.get_name(), "a");
    assert_eq!(c.get_value(), "b");
    assert_eq!(c.get_path(), "/q");
    assert!(c.get_secure());
}

#[test]
fn later_attribute_wins() {
    let c = Cookie::parse("a=b; Path=/1; Path=/2").unwrap().unwrap();
    assert_eq!(c.get_path(), "/2");
}

#[test]
fn framed_cookie_round_trip() {
    let buf = marshal_cookie(sample());
    assert_eq!(buf, marshal_string("id=42; Path=/; Secure; SameSite=Lax".to_string()));
    let c = unmarshal_cookie(&buf, 0).unwrap();
    assert_eq!(c.marshal(), "id=42; Path=/; Secure; SameSite=Lax");
}

#[test]
fn framed_empty_line_gives_no_cookie() {
    let buf = marshal_string(String::new());
    assert!(unmarshal_cookie(&buf, 0).is_none());
    assert!(matches!(try_unmarshal_cookie(&buf, 0), Ok(None)));
}

#[test]
fn framed_malformed_max_age_is_an_error() {
    let buf = marshal_string("a=b; Max-Age=notanumber".to_string());
    assert!(matches!(try_unmarshal_cookie(&buf, 0), Err(CookieError::MalformedMaxAge)));
    let good = marshal_string("a=b; Max-Age=3".to_string());
    assert_eq!(try_unmarshal_cookie(&good, 0).unwrap().unwrap().get_max_age(), 3);
}

#[test]
fn cookie_lists_leave_out_what_gives_none() {
    let lines = vec!["a=1".to_string(), "junk".to_string(), "b=2; HttpOnly".to_string()];
    let cookies = Cookie::parse_all(&lines).unwrap();
    assert_eq!(cookies.len(), 2);
    assert_eq!(cookies[0].get_name(), "a");
    assert_eq!(cookies[1].get_name(), "b");
    assert!(cookies[1].get_http_only());
    let buf = marshal_string_vec(&lines);
    assert_eq!(unmarshal_cookie_vec(&buf, 0).unwrap().len(), 2);
}

#[test]
fn cookie_lists_fail_on_malformed_max_age() {
    let lines = vec!["a=1".to_string(), "b=2; Max-Age=soon".to_string(), "c=3".to_string()];
    assert!(matches!(Cookie::parse_all(&lines), Err(CookieError::MalformedMaxAge)));
}
