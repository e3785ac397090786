use xks::cli::reexecs;
use xks::cli::pid_of;
use xks::cli::request_from_flags;
use xks::cli::{
    check_subject, choice_flag, expand_home, first_key, is_server_cmdline, items, noul_flag,
    relayed, score_flag, split_once, subject_verdict, Relay,
};

#[test]
fn detach_shows_xks_lines_and_leaves_llama_cpp_in_the_log() {
    assert!(relayed("xks: loading m.gguf (21.7 GB)"));
    assert!(relayed("xks listening on http://127.0.0.1:8090  (subject s)"));
    assert!(relayed("error: the subject /m.gguf does not exist"));
    assert!(!relayed("llama_context: n_ctx_seq (16384) > n_ctx_train"));
    assert!(!relayed("load: control-looking token"));
}

#[test]
fn only_a_detached_xks_server_is_recognised() {
    let is = |args: &[&str]| is_server_cmdline(args.join("\0").as_bytes());
    assert!(is(&["/r/target/release/xks", "serve", "--bind", "127.0.0.1:8090"]));
    assert!(is(&["/r/target/release/xks", "--site", "cards", "serve"]));
    assert!(is(&[
        "/bin/bash",
        "scripts/phi512.sh",
        "--card",
        "0",
        "/r/target/avx512/release/xks",
        "serve"
    ]));
    // A recycled pid: some other program, or xks doing something else.
    assert!(!is(&["/usr/bin/firefox", "serve"]));
    assert!(!is(&["/r/target/release/xks", "eval", "cases.jsonl"]));
    assert!(!is(&[]));
}

#[test]
fn detach_relays_whole_lines_once_and_the_last_at_the_end() {
    let mut r = Relay::default();
    let first = b"xks: site x86\nxks: loa".to_vec();
    assert_eq!(r.more(&first), b"xks: site x86\n".to_vec());
    assert_eq!(r.seen, "xks: site x86\n".len());
    let second = b"xks: site x86\nxks: loading\nerror: x".to_vec();
    assert_eq!(r.more(&second), b"xks: loading\n".to_vec());
    assert_eq!(r.seen, "xks: site x86\nxks: loading\n".len());
    assert_eq!(r.rest(&second), b"error: x".to_vec());
    assert_eq!(r.seen, second.len());
    // A log shorter than what was seen (rewritten) gives nothing.
    assert!(r.take(&b"x".to_vec(), true).is_empty());
}

#[test]
fn a_flag_is_cut_at_its_first_separator_and_trimmed() {
    assert_eq!(split_once(" a = b=c ", '=').unwrap(), ("a".to_string(), "b=c".to_string()));
    assert_eq!(split_once("abc", '=').unwrap_err(), "expected `=` in `abc`");
    assert_eq!(noul_flag("u=Is it urgent?").unwrap(), ("u".to_string(), "Is it urgent?".to_string()));
}

#[test]
fn a_trailing_comma_adds_no_level() {
    let (id, instr, levels) = score_flag("r=how much|low,high,").unwrap();
    assert_eq!(id, "r");
    assert_eq!(instr, "how much");
    assert_eq!(levels, vec!["low", "high"]);
    assert_eq!(score_flag("r=how much").unwrap_err(), "expected `|` in `how much`");
}

#[test]
fn choice_options_keep_their_order_and_blank_descriptions_are_none() {
    let (id, instr, opts) = choice_flag("c=pick one| a: first , b ,, c:").unwrap();
    assert_eq!(id, "c");
    assert_eq!(instr, "pick one");
    assert_eq!(
        opts,
        vec![
            ("a".to_string(), Some("first".to_string())),
            ("b".to_string(), None),
            ("c".to_string(), None),
        ]
    );
    let (_, _, none) = choice_flag("c=pick|").unwrap();
    assert!(none.is_empty());
}

#[test]
fn the_first_api_key_is_sent() {
    assert_eq!(items(" k1 , ,k2,"), vec!["k1", "k2"]);
    assert_eq!(first_key(" , k1,k2"), Some("k1".to_string()));
    assert_eq!(first_key(""), None);
}

#[test]
fn a_home_prefix_is_expanded() {
    assert_eq!(expand_home("~/.local", "/home/u"), "/home/u/.local");
    assert_eq!(expand_home("/opt/x", "/home/u"), "/opt/x");
}

#[test]
fn a_subject_that_is_not_a_file_is_said_with_where_to_set_it() {
    assert!(subject_verdict("/m.gguf", true, true).is_ok());
    assert_eq!(
        subject_verdict("/m.gguf", false, false).unwrap_err(),
        "the subject /m.gguf does not exist: set XKS_SUBJECT=/path/to/model.gguf in xks.local.conf, or pass --subject"
    );
    assert!(subject_verdict("/tmp", false, true).unwrap_err().contains("is not a file"));
    // Against the disk: a directory exists but is no file.
    assert!(check_subject("/").unwrap_err().contains("/ is not a file"));
    assert!(check_subject("/nonexistent/xks/m.gguf").unwrap_err().contains("does not exist"));
}

#[test]
fn a_pid_file_holds_a_number() {
    assert_eq!(pid_of("4242\n"), Some(4242));
    assert_eq!(pid_of(" 17 "), Some(17));
    assert_eq!(pid_of("x"), None);
    assert_eq!(pid_of(""), None);
}

#[test]
fn only_the_outer_avx512_engine_reexecutes() {
    assert!(reexecs(true, "artichoke", "avx512", false));
    assert!(!reexecs(true, "artichoke", "avx512", true));
    assert!(!reexecs(true, "bluebird", "avx512", false));
    assert!(!reexecs(false, "artichoke", "avx512", false));
    assert!(!reexecs(true, "artichoke", "cards", false));
}

#[test]
fn a_request_from_flags_needs_its_state_and_reads_every_flag() {
    let v = |xs: &[&str]| xs.iter().map(|s| s.to_string()).collect::<Vec<String>>();
    let e = request_from_flags(None, &v(&["a=b"]), &v(&[]), &v(&[])).err().unwrap();
    assert_eq!(e, "--state is required with --noul/--choice/--score");
    let r = request_from_flags(
        Some("s"),
        &v(&["urgent = is it urgent?"]),
        &v(&["size=how big|s:small, l"]),
        &v(&["risk=how risky|0,1,,2"]),
    )
    .unwrap();
    assert_eq!(r.state, "s");
    assert_eq!(r.noul, vec![("urgent".to_string(), "is it urgent?".to_string())]);
    assert_eq!(r.choice.len(), 1);
    assert_eq!(r.choice[0].2, vec![("s".to_string(), Some("small".to_string())), ("l".to_string(), None)]);
    assert_eq!(r.score[0].2, v(&["0", "1", "2"]));
    // The first flag that does not read is the error, nouls first.
    let e = request_from_flags(Some("s"), &v(&["ok=x", "bad"]), &v(&["worse"]), &v(&[])).err().unwrap();
    assert_eq!(e, "expected `=` in `bad`");
    let e = request_from_flags(Some("s"), &v(&[]), &v(&["c=no options"]), &v(&[])).err().unwrap();
    assert_eq!(e, "expected `|` in `no options`");
}
