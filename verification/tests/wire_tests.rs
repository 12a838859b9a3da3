use spotsync::status::{publish_status, SyncStatus};
use spotsync::wire::{decode_status, encode_status};

fn status(playing: bool, track: &str, start_time: i64) -> SyncStatus {
    SyncStatus { playing, track: track.to_owned(), start_time }
}

#[test]
fn encode_exact_form() {
    let e = encode_status(&status(true, "ab12", 1000));
    assert_eq!(e, "{\"playing\":true,\"track\":\"ab12\",\"start_time\":1000}");
    let e2 = encode_status(&status(false, "", -45));
    assert_eq!(e2, "{\"playing\":false,\"track\":\"\",\"start_time\":-45}");
}

#[test]
fn publish_then_encode() {
    // The master back-computes start_time from the measured position.
    let st = publish_status(true, "ab12".to_owned(), 1500, 2500);
    assert_eq!(st.start_time, 1000);
    let e = encode_status(&st);
    assert_eq!(e, "{\"playing\":true,\"track\":\"ab12\",\"start_time\":1000}");
}

#[test]
fn decode_round_trip() {
    let cases = [
        status(true, "ab12", 1000),
        status(false, "", 0),
        status(true, "deadbeef00112233", i64::MAX),
        status(false, "00", i64::MIN),
    ];
    for case in cases {
        let e = encode_status(&case);
        let d = decode_status(&e).expect("canonical encoding must decode");
        assert_eq!(d.playing, case.playing);
        assert_eq!(d.track, case.track);
        assert_eq!(d.start_time, case.start_time);
    }
}

#[test]
fn decode_accepts_only_canonical_text() {
    assert!(decode_status("{\"playing\":true,\"track\":\"ab12\",\"start_time\":1000}").is_some());
    // spacing, field order, case and quoting must be exact
    assert!(decode_status("{\"playing\": true,\"track\":\"ab12\",\"start_time\":1000}").is_none());
    assert!(decode_status("{\"track\":\"ab12\",\"playing\":true,\"start_time\":1000}").is_none());
    assert!(decode_status("{\"playing\":True,\"track\":\"ab12\",\"start_time\":1000}").is_none());
    assert!(decode_status("").is_none());
    assert!(decode_status("{}").is_none());
}

#[test]
fn decode_rejects_malformed_numbers() {
    assert!(decode_status("{\"playing\":true,\"track\":\"ab12\",\"start_time\":007}").is_none());
    assert!(decode_status("{\"playing\":true,\"track\":\"ab12\",\"start_time\":-0}").is_none());
    assert!(decode_status("{\"playing\":true,\"track\":\"ab12\",\"start_time\":}").is_none());
    assert!(decode_status("{\"playing\":true,\"track\":\"ab12\",\"start_time\":1e3}").is_none());
    // one past i64::MAX
    assert!(
        decode_status("{\"playing\":true,\"track\":\"ab12\",\"start_time\":9223372036854775808}")
            .is_none()
    );
    // i64::MIN itself is fine
    assert_eq!(
        decode_status("{\"playing\":true,\"track\":\"ab12\",\"start_time\":-9223372036854775808}")
            .unwrap()
            .start_time,
        i64::MIN
    );
}

#[test]
fn decode_rejects_broken_track_field() {
    // an unterminated or escaped track cannot come from the encoder
    assert!(decode_status("{\"playing\":true,\"track\":\"ab12,\"start_time\":1000}").is_none());
    assert!(decode_status("{\"playing\":true,\"track\":\"a\\b\",\"start_time\":1000}").is_none());
}

#[test]
fn decode_rejects_trailing_text() {
    assert!(decode_status("{\"playing\":true,\"track\":\"ab12\",\"start_time\":1000} ").is_none());
    assert!(decode_status("{\"playing\":true,\"track\":\"ab12\",\"start_time\":1000}}").is_none());
}
