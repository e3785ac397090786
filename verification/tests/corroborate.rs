use xks::corroborate::match_rows;

fn keys(v: &[(usize, &str)]) -> Vec<(usize, String)> {
    v.iter().map(|(c, id)| (*c, id.to_string())).collect()
}

#[test]
fn rows_are_matched_by_case_and_question() {
    let a = keys(&[(0, "u"), (0, "v"), (1, "u"), (2, "w")]);
    let b = keys(&[(1, "u"), (0, "u"), (0, "u"), (3, "w")]);
    // (0, "u") is matched with b's last row of that key.
    assert_eq!(match_rows(&a, &b), vec![(0, 2), (2, 0)]);
    assert!(match_rows(&a, &vec![]).is_empty());
}
