use xks::decisions::{fnv64, marks, utc};

#[test]
fn decisions_utc_formats() {
    assert_eq!(utc(0), "1970-01-01T00:00:00Z");
    assert_eq!(utc(1_790_000_000), "2026-09-21T14:13:20Z");
}

#[test]
fn fnv64_is_the_published_fnv1a() {
    // FNV-1a 64 test vectors (the empty string and "a").
    assert_eq!(fnv64(b""), "cbf29ce484222325");
    assert_eq!(fnv64(b"a"), "af63dc4c8601ec8c");
}

#[test]
fn a_mark_is_sixteen_lowercase_hex_digits() {
    for text in ["", "a", "Help! My payouts have been failing for 3 days.", "\u{0}\u{1}"] {
        let m = fnv64(text.as_bytes());
        assert_eq!(m.len(), 16);
        assert!(m.chars().all(|c| c.is_ascii_digit() || ('a'..='f').contains(&c)), "{m}");
    }
    // The same text marks the same, another text otherwise.
    assert_eq!(fnv64(b"state"), fnv64(b"state"));
    assert_ne!(fnv64(b"state"), fnv64(b"states"));
}

#[test]
fn leap_days_and_the_end_of_a_day_are_written_right() {
    assert_eq!(utc(951_782_400), "2000-02-29T00:00:00Z");
    assert_eq!(utc(86_399), "1970-01-01T23:59:59Z");
    assert_eq!(utc(4_102_444_800), "2100-01-01T00:00:00Z");
}

#[test]
fn times_are_written_in_the_order_they_come() {
    let times: [u64; 8] = [0, 59, 60, 86_399, 86_400, 951_782_400, 1_709_164_800, 253_402_300_799];
    for w in times.windows(2) {
        assert!(utc(w[0]) < utc(w[1]), "{} then {}", w[0], w[1]);
    }
    assert_eq!(utc(253_402_300_799), "9999-12-31T23:59:59Z");
    assert_eq!(utc(951_782_400), "2000-02-29T00:00:00Z");
}

#[test]
fn a_line_keeps_marks_of_what_was_sent() {
    let state = "\"the payout is urgent\"";
    let q = "{\"type\":\"noul\",\"instructions\":\"urgent?\"}";
    let m = marks(
        state.as_bytes(),
        "the payout is urgent",
        &vec![("is_urgent".to_string(), Some("\"noul\"".to_string()), q.as_bytes().to_vec())],
    );
    assert_eq!(m.state_fnv64, fnv64(state.as_bytes()));
    assert_eq!(m.state_chars, 20);
    assert_eq!(m.questions.len(), 1);
    assert_eq!(m.questions[0].id, "is_urgent");
    assert_eq!(m.questions[0].kind.as_deref(), Some("\"noul\""));
    assert_eq!(m.questions[0].fnv64, fnv64(q.as_bytes()));
    assert_eq!(m.state_fnv64.len(), 16);
    assert!(!m.state_fnv64.contains("payout"));
}
