use xks::site::{
    card_list, cards_busy, config_matches, control_socket, find_sibling, first_present,
    holder_line, payload_pick, cards_ready,
    holder_name, keep_worker, lock_path, marker, payload, payload_cards, resolve, retired,
    served_url, unnamed_holder, window_cards, workers_marked, xks_workers, Placed, Site,
    WorkerConfig,
};

#[test]
fn a_worker_is_kept_only_when_the_card_holds_what_xks_asked_for() {
    let cards = WorkerConfig { hugepages: 2400, args: "-e 0".into() };
    assert!(config_matches("hugepages 2400\nworker -v -e 0 57\n", &cards));
    // Restarted by phi512.sh with its defaults, or not running at all.
    assert!(!config_matches("hugepages 768\nworker -v 57\n", &cards));
    assert!(!config_matches("hugepages 2400\nworker none\n", &cards));
    assert!(!config_matches("", &cards));
    let plain = WorkerConfig { hugepages: 768, args: String::new() };
    assert!(config_matches("hugepages 768\nworker -v 57\n", &plain));
}

#[test]
fn a_worker_is_kept_when_marker_polling_and_card_agree() {
    let cfg = WorkerConfig::for_payload();
    assert_eq!(cfg.tag(), "hugepages=2400 args=-e 0");
    let out = "hugepages 2400\nworker -v -e 0 57\n";
    assert!(keep_worker(Some("hugepages=2400 args=-e 0"), &cfg, true, Some(out)));
    assert!(!keep_worker(None, &cfg, true, Some(out)));
    assert!(!keep_worker(Some("hugepages=2400 args=-e 0"), &cfg, false, Some(out)));
    assert!(!keep_worker(Some("hugepages=2400 args=-e 0"), &cfg, true, None));
    assert!(!keep_worker(Some("hugepages=768 args="), &cfg, true, Some(out)));
    assert_eq!(WorkerConfig::for_phi512().tag(), "hugepages=768 args=");
}

#[test]
fn auto_is_the_cards_when_one_is_up() {
    assert_eq!(resolve("auto", true).unwrap(), Site::Cards);
    assert_eq!(resolve("auto", false).unwrap(), Site::X86);
    assert_eq!(resolve("host", true).unwrap(), Site::X86);
    assert_eq!(resolve("phi", false).unwrap(), Site::Cards);
    assert_eq!(resolve("avx512", false).unwrap(), Site::Avx512);
    assert_eq!(resolve("gpu", false).unwrap_err(), "unknown site `gpu` (auto|x86|cards|avx512)");
    assert_eq!(Site::Avx512.name(), "avx512");
}

#[test]
fn each_site_has_its_threads_and_flash_attention() {
    let x = Placed::on(Site::X86, vec![]);
    assert_eq!((x.threads, x.flash_attn, x.repack), (16, true, false));
    let c = Placed::on(Site::Cards, vec![0, 1]);
    assert_eq!((c.threads, c.flash_attn, c.cards.clone()), (12, true, vec![0, 1]));
    let a = Placed::on(Site::Avx512, vec![0, 1]);
    assert_eq!((a.threads, a.flash_attn), (1, false));
    assert_eq!(payload_cards(&vec![0, 1, 2]), vec![1, 2]);
    assert!(payload_cards(&vec![0]).is_empty());
}

#[test]
fn the_stacks_paths_are_under_the_runtime_directory() {
    assert_eq!(control_socket("/run/user/1", 0), "/run/user/1/phictl/control.sock");
    assert_eq!(control_socket("/run/user/1", 2), "/run/user/1/phictl/2/control.sock");
    assert_eq!(lock_path("/tmp"), "/tmp/xks/cards.lock");
    assert_eq!(marker("/tmp", 1), "/tmp/xks/worker-1");
}

#[test]
fn the_lock_names_its_holder_and_where_it_serves() {
    let text = "4242 xks --site cards serve\nserves http://127.0.0.1:8095\n";
    let (pid, cmd) = holder_line(text).unwrap();
    assert_eq!(pid, 4242);
    assert_eq!(cmd, "xks --site cards serve");
    assert_eq!(holder_name(pid, &cmd), "pid 4242 (`xks --site cards serve`)");
    assert_eq!(served_url(text).as_deref(), Some("http://127.0.0.1:8095"));
    assert_eq!(served_url("4242 xks serve\n"), None);
    assert_eq!(holder_line(""), None);
    assert_eq!(holder_line("nopid here"), None);
    assert_eq!(unnamed_holder("/l"), "another process (`fuser -v /l` names it)");
    let e = cards_busy("pid 1 (`xks`)", Some("http://h:1"));
    assert!(e.contains("ask that server at http://h:1 (a plain `xks query` does)"), "{e}");
    assert!(cards_busy("x", None).contains("wait for it"));
}

#[test]
fn card_windows_are_listed_in_order_once_each() {
    let names: Vec<String> = ["phi-hostmem-2", "other", "phi-hostmem-1", "phi-hostmem-x", "phi-hostmem-2"]
        .iter()
        .map(|s| s.to_string())
        .collect();
    assert_eq!(window_cards(true, &names), vec![0, 1, 2]);
    assert_eq!(window_cards(false, &names), vec![1, 2]);
    assert_eq!(card_list(&vec![0, 1, 3]), "0,1,3");
    assert_eq!(card_list(&vec![]), "");
}

#[test]
fn only_xks_workers_of_used_cards_are_retired() {
    assert_eq!(workers_marked(&vec![0, 1, 2], &vec![true, false, true]), vec![0, 2]);
    assert_eq!(retired(&vec![0, 1, 2], &vec![2, 0]), vec![0, 2]);
    assert!(retired(&vec![0, 1], &vec![]).is_empty());
    // No marker under a runtime directory that does not exist.
    assert!(xks_workers(&vec![0, 1], "/nonexistent/xks-run").is_empty());
}

#[test]
fn a_missing_payload_says_how_to_build_it() {
    let e = payload("/nonexistent/sibling").unwrap_err();
    assert_eq!(
        e,
        "the payload is not built: (cd \"/nonexistent/sibling/host\" && cargo build --release -p phi-ggml)"
    );
    let none = find_sibling(&vec!["/nonexistent".into()], &vec!["Intel-Phi-AVX512".into()], "scripts/phi-vpu.sh");
    assert_eq!(none, None);
    // The first base and name holding the probe.
    let found = find_sibling(&vec!["/nonexistent".into(), "/".into()], &vec!["nope".into(), "etc".into()], "passwd");
    assert_eq!(found.as_deref(), Some("/etc"));
}

#[test]
fn the_release_build_is_preferred_and_the_error_comes_only_without_either() {
    let rel = "/s/host/target/release/libggml_phi.so".to_string();
    let dbg = "/s/host/target/debug/libggml_phi.so".to_string();
    assert_eq!(payload_pick("/s", true, true), Ok(rel.clone()));
    assert_eq!(payload_pick("/s", true, false), Ok(rel));
    assert_eq!(payload_pick("/s", false, true), Ok(dbg));
    assert_eq!(
        payload_pick("/s", false, false),
        Err("the payload is not built: (cd \"/s/host\" && cargo build --release -p phi-ggml)".to_string())
    );
}

#[test]
fn the_first_present_candidate_wins() {
    let cands: Vec<String> = vec!["/near/Intel-Phi-AVX512".into(), "/near/Intel Phi AVX-512".into(), "/home/Intel-Phi-AVX512".into(), "/home/Intel Phi AVX-512".into()];
    assert_eq!(first_present(&cands, &vec![false, false, true, true]).as_deref(), Some("/home/Intel-Phi-AVX512"));
    assert_eq!(first_present(&cands, &vec![false, true, true, false]).as_deref(), Some("/near/Intel Phi AVX-512"));
    assert_eq!(first_present(&cands, &vec![true, true, true, true]).as_deref(), Some("/near/Intel-Phi-AVX512"));
    assert_eq!(first_present(&cands, &vec![false, false, false, false]), None);
    assert_eq!(first_present(&vec![], &vec![]), None);
}

#[test]
fn a_site_refuses_when_its_cards_are_not_up() {
    assert_eq!(cards_ready(Site::X86, &vec![]), Ok(()));
    assert_eq!(cards_ready(Site::Cards, &vec![1]), Ok(()));
    assert_eq!(
        cards_ready(Site::Cards, &vec![]),
        Err("no card is up (no /dev/shm/phi-hostmem*); phi status".to_string())
    );
    assert_eq!(cards_ready(Site::Avx512, &vec![1, 0]), Ok(()));
    assert_eq!(
        cards_ready(Site::Avx512, &vec![1]),
        Err("phi512 runs on card 0, which is not up; phi status".to_string())
    );
}
