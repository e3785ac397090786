use xks::subproject::{all, find, pick, record_path, rows, utc, Ctx};

#[test]
fn subproject_utc_formats() {
    assert_eq!(utc(0), "1970-01-01T00:00:00Z");
    assert_eq!(utc(1_790_000_000), "2026-09-21T14:13:20Z");
}

#[test]
fn a_subproject_is_found_by_number_name_or_both() {
    assert_eq!(all().len(), 7);
    // `all` leaves out the one that runs by name only.
    let every: Vec<&str> = find("all").iter().map(|s| s.id).collect();
    assert_eq!(every, vec!["01", "02", "03", "04", "05", "07"]);
    assert_eq!(find("06").len(), 1);
    let by_id = find("03");
    assert_eq!(by_id.len(), 1);
    assert_eq!(by_id[0].name, "dev-eval-sites");
    assert_eq!(find("polygraph")[0].id, "02");
    assert_eq!(find("05-wide-choice-trie")[0].id, "05");
    assert_eq!(find("long-sessions-cards")[0].id, "07");
    assert!(find("08").is_empty());
}

#[test]
fn running_needs_a_subproject_that_exists() {
    assert_eq!(pick(None).unwrap_err(), "which subproject? an id, a name, or all");
    assert_eq!(pick(Some("9")).unwrap_err(), "no subproject `9` (xks subproject list)");
    assert_eq!(pick(Some("06")).unwrap()[0].name, "avx512-parity");
}

#[test]
fn a_subproject_writes_beside_the_repository() {
    let ctx = Ctx::at("/r/target/release/xks".into(), "/r".into(), "big.gguf".into(), "small.gguf".into());
    assert_eq!(ctx.logs, "/r/target/subprojects");
    assert_eq!(ctx.example("dev_tasks.jsonl"), "/r/examples/dev_tasks.jsonl");
    assert_eq!(rows(&ctx, "03-x86-rows.jsonl"), "/r/target/subprojects/03-x86-rows.jsonl");
    let sp = find("01")[0];
    assert_eq!(record_path("/r", &sp), "/r/docs/subprojects/results/01-bluebird-baseline.json");
}
