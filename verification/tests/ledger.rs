use xks::ledger::{reading, LineTexts};

fn readings(log: &str) -> Vec<LineTexts> {
    log.lines().filter_map(|l| reading(l)).collect()
}

fn ms(t: &str) -> f64 {
    t.parse().unwrap()
}

#[test]
fn reads_the_payload_format() {
    let log = "ggml-phi: multiply 1: host part 82.632 ms, waited 1.532 ms more; card 0 rows 1728: 19.698 ms (pull 1.226, compute 16.938, push 1.350); card 1 rows 1728: 19.855 ms (pull 1.617, compute 15.550, push 2.492); the cards' rows read by the host so far 0.0 MB\n\
ggml-phi: multiply 2: host part 1.027 ms, waited 0.001 ms more; ; the cards' rows read by the host so far 0.0 MB\n\
something else\n";
    let rs = readings(log);
    assert_eq!(rs.len(), 2);
    assert_eq!(rs.iter().filter(|r| !r.cards.is_empty()).count(), 1);
    let host: f64 = rs.iter().map(|r| ms(&r.host)).sum();
    assert!((host - 83.659).abs() < 1e-9);
    let c0 = &rs[0].cards[0];
    assert_eq!(c0.id, "0");
    assert_eq!(c0.rows.parse::<u64>().unwrap(), 1728);
    assert!((ms(&c0.compute) - 16.938).abs() < 1e-9);
    let c1 = &rs[0].cards[1];
    assert_eq!(c1.id, "1");
    assert!((ms(&c1.push) - 2.492).abs() < 1e-9);
}

#[test]
fn a_line_gives_each_number_as_written() {
    let r = reading("12:00 ggml-phi: multiply 7: host part 3.5 ms, waited 0 ms more; card 1 rows 64: 2.25 ms (pull 0.5, compute 1.5, push 0.25)").unwrap();
    assert_eq!(r.host, "3.5");
    assert_eq!(r.wait, "0");
    assert_eq!(r.cards.len(), 1);
    let c = &r.cards[0];
    assert_eq!(
        (c.id.as_str(), c.rows.as_str(), c.total.as_str()),
        ("1", "64", "2.25")
    );
    assert_eq!(
        (c.pull.as_str(), c.compute.as_str(), c.push.as_str()),
        ("0.5", "1.5", "0.25")
    );
}

#[test]
fn a_line_without_a_multiply_or_its_numbers_says_nothing() {
    assert!(reading("something else").is_none());
    assert!(reading("").is_none());
    assert!(reading("ggml-phi: multiply 1: waited 1 ms more").is_none());
    assert!(reading("ggml-phi: multiply 1: host part . ms, waited 1 ms more").is_none());
    assert!(reading("ggml-phi: multiply 1: host part 1.2.3 ms, waited 1 ms more").is_none());
    assert!(reading("ggml-phi: multiply 1: host part - ms, waited 1 ms more").is_none());
}

#[test]
fn numbers_read_as_floats_do() {
    let r = reading("ggml-phi: multiply 1: host part -.5 ms, waited 2. ms more").unwrap();
    assert_eq!(r.host, "-.5");
    assert_eq!(r.wait, "2.");
    assert!(r.cards.is_empty());
}

#[test]
fn a_card_segment_that_does_not_read_whole_is_left_out() {
    let r = reading("ggml-phi: multiply 1: host part 1 ms, waited 1 ms more;   card 2 rows 8: 1 ms (pull 1, compute x, push 1); card 3 rows 8: 1 ms (pull 1, compute 1, push 1); cards 4").unwrap();
    assert_eq!(r.cards.len(), 1);
    assert_eq!(r.cards[0].id, "3");
}
