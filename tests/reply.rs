use sftool_lib::command::Response;
use sftool_lib::reply::{classify_stream, TokenScanner};

#[test]
fn token_in_noise_is_found() {
    let s = b"garbage...RX_WAITmore";
    assert_eq!(classify_stream(s), Some((Response::RxWait, 17)));
}

#[test]
fn each_token() {
    assert_eq!(classify_stream(b"OK"), Some((Response::Okay, 2)));
    assert_eq!(classify_stream(b"\x00\xffFail\r\n"), Some((Response::Fail, 6)));
    assert_eq!(classify_stream(b"RX_WAIT"), Some((Response::RxWait, 7)));
}

#[test]
fn first_token_wins() {
    assert_eq!(classify_stream(b"..Fail..OK"), Some((Response::Fail, 6)));
    assert_eq!(classify_stream(b"RX_WAITOK"), Some((Response::RxWait, 7)));
}

#[test]
fn no_token_means_no_reply() {
    assert_eq!(classify_stream(b""), None);
    assert_eq!(classify_stream(b"O K Fai RX_WAI ok fail"), None);
}

#[test]
fn scanner_one_byte_at_a_time() {
    let mut s = TokenScanner::new();
    let mut got = None;
    for (i, b) in b"xxRX_WAIT".iter().enumerate() {
        got = s.push(*b);
        if i < 8 {
            assert_eq!(got, None);
        }
    }
    assert_eq!(got, Some(Response::RxWait));
}
