use xks::doctor::{kb_value, link_message, need_level, needs_cards, tail, Level, LinkState, Report};

#[test]
fn missing_is_what_makes_a_report_not_ready() {
    let mut r = Report::default();
    r.ok("a", "fine");
    r.note("b", "worth knowing", Some("do this".into()));
    assert!(r.ready());
    assert!(r.text().contains("ready: xks can answer"));
    r.missing("c", "absent", "fix it");
    assert!(!r.ready());
    let t = r.text();
    assert!(t.contains("MISS  c"), "{t}");
    assert!(t.contains("fix: fix it"), "{t}");
    assert!(t.contains("not ready: 1 to fix"), "{t}");
}

#[test]
fn a_report_prints_each_finding_padded_with_its_fix_under_it() {
    let mut r = Report::default();
    r.site = Some("x86");
    r.ok("subject", "m.gguf (1.0 GiB)");
    r.note("server", "none", Some("xks serve --detach".into()));
    assert_eq!(
        r.text(),
        "  ok    subject      m.gguf (1.0 GiB)\n  note  server       none\n                     fix: xks serve --detach\nready: xks can answer (site x86)\n"
    );
    r.add(Level::Missing, "a-long-what-here", "x".into(), None);
    r.missing("b", "y", "z");
    assert!(r.text().ends_with("not ready: 2 to fix (MISS above)\n"));
    assert!(r.text().contains("  MISS  a-long-what-here x\n"));
}

#[test]
fn a_file_is_never_replaced_by_a_link() {
    assert_eq!(link_message("/b/xks", &LinkState::Ours).unwrap(), "/b/xks already links here");
    assert!(link_message("/b/xks", &LinkState::File).unwrap_err().contains("is a file, not a link: left alone"));
    assert_eq!(
        link_message("/b/xks", &LinkState::Other("/o/xks".into())).unwrap(),
        "/b/xks now links here (it linked /o/xks)"
    );
    assert_eq!(
        link_message("/b/xks", &LinkState::Dangling("/gone".into())).unwrap(),
        "/b/xks now links here (it linked /gone, which is gone)"
    );
    assert_eq!(link_message("/b/xks", &LinkState::Absent).unwrap(), "/b/xks links here");
}

#[test]
fn the_cards_are_needed_by_name_or_by_auto_with_a_card_up() {
    assert!(needs_cards("cards", false));
    assert!(needs_cards("phi", false));
    assert!(needs_cards("avx512", false));
    assert!(needs_cards("auto", true));
    assert!(!needs_cards("auto", false));
    assert!(!needs_cards("x86", true));
    assert_eq!(need_level(true), Level::Missing);
    assert_eq!(need_level(false), Level::Note);
}

#[test]
fn a_build_failure_shows_its_last_lines() {
    let out = "a\n\n  b  \n\t\nc\nd\n";
    assert_eq!(tail(out, 2), "c\n        d");
    assert_eq!(tail(out, 10), "a\n          b  \n        c\n        d");
    assert_eq!(tail("", 3), "");
}

#[test]
fn kilobytes_are_read_from_proc_texts() {
    let meminfo = "MemTotal:       32768000 kB\nMemFree: 1 kB\nMemAvailable:   1024 kB\n";
    assert_eq!(kb_value(meminfo, "MemTotal:"), Some(32_768_000));
    assert_eq!(kb_value(meminfo, "MemAvailable:"), Some(1024));
    assert_eq!(kb_value(meminfo, "Swap:"), None);
    let status = "Name:\txks\nVmPeak:\t 9999999 kB\nVmHWM:\t 2097152 kB\nVmRSS:\t 1048576 kB\n";
    assert_eq!(kb_value(status, "VmHWM:"), Some(2_097_152));
    assert_eq!(kb_value("VmHWM: lots kB\n", "VmHWM:"), None);
}

#[test]
fn the_peak_is_read_from_vmhwm() {
    let peak_gib = |status: &str| kb_value(status, "VmHWM:").map(|kb| kb as f64 / 1048576.0);
    let status = "Name:\txks\nVmPeak:\t 9999999 kB\nVmHWM:\t 2097152 kB\nVmRSS:\t 1048576 kB\n";
    assert_eq!(peak_gib(status), Some(2.0));
    assert_eq!(peak_gib("Name:\txks\n"), None);
}
