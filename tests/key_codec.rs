use session_store::key::{KeyDecodeError, SessionId};
use session_store::shim::{route, Route};

#[test]
fn key_text_form() {
    let id = SessionId { timestamp: 1700000000123, random: 42 };
    assert_eq!(id.to_string(), "{\"t\":1700000000123,\"r\":42}");
    let neg = SessionId { timestamp: -5, random: 0 };
    assert_eq!(neg.to_string(), "{\"t\":-5,\"r\":0}");
}

#[test]
fn key_round_trip_extremes() {
    let ids = [
        SessionId { timestamp: 0, random: 0 },
        SessionId { timestamp: i64::MAX, random: u64::MAX },
        SessionId { timestamp: i64::MIN, random: 1 },
        SessionId { timestamp: -1, random: 10 },
        SessionId { timestamp: 1700000000000, random: 18446744073709551615 },
    ];
    for id in ids {
        let text = id.to_string();
        assert_eq!(SessionId::parse(&text), Ok(id));
    }
    assert_eq!(
        SessionId { timestamp: i64::MIN, random: u64::MAX }.to_string(),
        "{\"t\":-9223372036854775808,\"r\":18446744073709551615}"
    );
}

#[test]
fn key_parse_rejects_other_shapes() {
    let bad = [
        "",
        "{\"t\":1,\"r\":2",
        "{\"t\":1,\"r\":2} ",
        " {\"t\":1,\"r\":2}",
        "{\"t\":01,\"r\":2}",
        "{\"t\":1,\"r\":02}",
        "{\"t\":-0,\"r\":2}",
        "{\"t\":+1,\"r\":2}",
        "{\"t\":1, \"r\":2}",
        "{\"r\":2,\"t\":1}",
        "{\"t\":9223372036854775808,\"r\":2}",
        "{\"t\":-9223372036854775809,\"r\":2}",
        "{\"t\":1,\"r\":18446744073709551616}",
        "{\"t\":1,\"r\":}",
        "{\"t\":,\"r\":1}",
        "{\"sqlite\":\"false\"}",
        "{\"t\":\"1\",\"r\":\"2\"}",
        "0123456789abcdef",
        "{\"t\":1,\"r\":2}é",
    ];
    for raw in bad {
        assert_eq!(SessionId::parse(raw), Err(KeyDecodeError), "{}", raw);
    }
}

#[test]
fn key_parse_accepts_exact_form() {
    assert_eq!(
        SessionId::parse("{\"t\":1700000000000,\"r\":7}"),
        Ok(SessionId { timestamp: 1700000000000, random: 7 })
    );
    assert_eq!(SessionId::parse("{\"t\":-42,\"r\":0}"), Ok(SessionId { timestamp: -42, random: 0 }));
}

#[test]
fn generated_keys_parse_and_differ() {
    let a = SessionId::generate();
    let b = SessionId::generate();
    assert_ne!(a, b);
    assert_eq!(SessionId::parse(&a.to_string()), Ok(a));
    assert!(a.timestamp > 1_500_000_000_000);
}

#[test]
fn routing_by_key_shape() {
    let id = SessionId { timestamp: 3, random: 4 };
    assert_eq!(route(&id.to_string()), Route::Primary(id));
    assert_eq!(route("{\"sqlite\":\"false\"}"), Route::Legacy);
    assert_eq!(route("abc"), Route::Legacy);
}
