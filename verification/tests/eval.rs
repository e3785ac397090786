use xks::eval::{case_error, case_file, case_lines, gold_index, Gold};

fn keys(v: &[&str]) -> Vec<String> {
    v.iter().map(|s| s.to_string()).collect()
}

fn num(n: u64) -> Gold {
    Gold::Number { text: n.to_string(), index: Some(n) }
}

fn text(s: &str) -> Gold {
    Gold::Text(s.to_string())
}

#[test]
fn a_gold_label_names_an_option_or_nothing() {
    let yn = keys(&["yes", "no"]);
    let lv = keys(&["0", "1", "2"]);
    let num_keys = keys(&["16", "32", "64"]);
    assert_eq!(gold_index(&Gold::Bool(true), &yn), Some(0));
    assert_eq!(gold_index(&text("false"), &yn), Some(1));
    assert_eq!(gold_index(&text("no"), &yn), Some(1));
    assert_eq!(gold_index(&num(2), &lv), Some(2));
    assert_eq!(gold_index(&text("2"), &lv), Some(2));
    // 1-based or stray labels are not options, never an index past the end.
    assert_eq!(gold_index(&num(3), &lv), None);
    assert_eq!(gold_index(&text("5"), &lv), None);
    // A number that is a key is that key, not an index.
    assert_eq!(gold_index(&num(32), &num_keys), Some(1));
    assert_eq!(gold_index(&Gold::Bool(true), &lv), None);
}

#[test]
fn a_gold_label_of_another_shape_names_nothing() {
    let yn = keys(&["yes", "no"]);
    assert_eq!(gold_index(&Gold::Other, &yn), None);
    assert_eq!(gold_index(&Gold::Number { text: "0.5".into(), index: None }, &yn), None);
    assert_eq!(gold_index(&text("+1"), &yn), Some(1));
    assert_eq!(gold_index(&text("true"), &keys(&["a", "b"])), None);
}

#[test]
fn comments_and_blank_lines_are_not_cases() {
    let t = "{\"a\":1}\n\n   # a note\n  {\"b\":2}  \n\t\n";
    // Each case with the line number an editor shows.
    assert_eq!(
        case_lines(t),
        vec![(1, "{\"a\":1}".to_string()), (4, "  {\"b\":2}  ".to_string())]
    );
    assert!(case_lines("# only\n").is_empty());
}

#[test]
fn a_case_file_without_a_case_is_an_error_naming_it() {
    assert_eq!(
        case_file("dev.jsonl", "# only comments\n\n   \n"),
        Err("dev.jsonl: no case (JSON Lines, each a state, questions and gold)".to_string())
    );
    assert_eq!(
        case_file("dev.jsonl", "# a\n{\"state\": 1}\n"),
        Ok(vec![(2, "{\"state\": 1}".to_string())])
    );
    assert_eq!(case_error("dev.jsonl", 7, "expected value"), "dev.jsonl, line 7: expected value");
}
