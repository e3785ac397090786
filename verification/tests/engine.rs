use xks::artichoke::{control_plan, probe_plan, round_plan, split_point};
use xks::artichoke::{label_refusal, next_cache, one_token_refusal, session_start};
use xks::artichoke::{
    check_limits, collapse_start, fork_point, plan_rounds, session_charge, session_tokens,
    shared_prefix, single_token_prompts, Options, Token,
};
use xks::backend::BackendError;
use xks::trie::{probe_room, Trie};

fn p(n: usize) -> Vec<Token> {
    vec![1; n]
}

#[test]
fn oversized_requests_are_refused_before_any_prefill() {
    let one: Vec<Vec<Token>> = vec![vec![1]];
    // Fits.
    assert!(check_limits(&vec![p(100), p(120)], &vec![one.clone(), one.clone()], 90, 16384).is_ok());
    // Past this server's context, before TypeSafe's limits.
    let e = check_limits(&vec![p(20_000)], &vec![one.clone()], 19_990, 16384).unwrap_err();
    assert!(matches!(e, BackendError::Rejected(ref m) if m.contains("--ctx")));
    // Past the 32k branch limit.
    assert!(check_limits(&vec![p(33_000)], &vec![one.clone()], 32_990, 65_536).is_err());
    // Past the 64k request limit with every branch inside 32k.
    let many: Vec<Vec<Token>> = (0..5).map(|_| p(31_000)).collect();
    let cands: Vec<Vec<Vec<Token>>> = (0..5).map(|_| one.clone()).collect();
    assert!(matches!(
        check_limits(&many, &cands, 10_000, 131_072),
        Err(BackendError::Rejected(ref m)) if m.contains("64000")
    ));
    // A multi-token label counts past the prompt.
    let long: Vec<Vec<Token>> = vec![vec![1; 10]];
    assert!(check_limits(&vec![p(16_380)], &vec![long], 16_000, 16_384).is_err());
}

#[test]
fn refusals_name_the_count_and_the_limit() {
    let one: Vec<Vec<Token>> = vec![vec![1]];
    let e = check_limits(&vec![p(33_000)], &vec![one.clone()], 32_990, 65_536).unwrap_err();
    assert_eq!(
        e.message(),
        "request rejected: the state and a question come to 33000 tokens, past the 32000 limit"
    );
    let e = check_limits(&vec![p(20_000)], &vec![one], 19_990, 16384).unwrap_err();
    assert_eq!(
        e.message(),
        "request rejected: the state and a question come to 20000 tokens, past this server's context of 16384 (xks --ctx)"
    );
}

#[test]
fn the_fork_point_is_the_longest_shared_prefix_short_of_each_last_token() {
    assert_eq!(fork_point(&vec![vec![1, 2, 3, 4], vec![1, 2, 3, 5]]), 3);
    assert_eq!(fork_point(&vec![vec![1, 2, 3], vec![1, 2, 3, 4]]), 2);
    assert_eq!(fork_point(&vec![vec![7, 8, 9]]), 2);
    assert_eq!(fork_point(&vec![vec![1, 2], vec![3, 4]]), 0);
    assert_eq!(shared_prefix(&[1, 2, 3], &[1, 2, 4]), 2);
}

#[test]
fn the_session_never_reaches_past_the_prefix() {
    let prompts = vec![vec![1, 2, 3, 4, 5], vec![1, 2, 3, 4, 6]];
    // The prompts share four tokens, the prefix alone tokenizes to three.
    assert_eq!(session_tokens(&prompts, &vec![1, 2, 3]).unwrap(), 3);
    assert_eq!(session_tokens(&prompts, &vec![1, 2, 3, 4, 5, 6]).unwrap(), 4);
    let e = session_tokens(&vec![vec![1], vec![]], &vec![1]).unwrap_err();
    assert!(matches!(e, BackendError::Rejected(ref m) if m == "empty prompt"));
}

#[test]
fn a_doubled_start_token_is_collapsed_to_one() {
    let mut t: Vec<Token> = vec![1, 1, 5];
    collapse_start(&mut t, 1);
    assert_eq!(t, vec![1, 5]);
    let mut u: Vec<Token> = vec![1, 5];
    collapse_start(&mut u, 1);
    assert_eq!(u, vec![1, 5]);
}

#[test]
fn one_token_fingerprints_are_read_in_rounds_of_forks_and_cells() {
    let cands: Vec<Vec<Vec<Token>>> = vec![vec![vec![1], vec![2]], vec![vec![1, 2]], vec![vec![3]]];
    assert_eq!(single_token_prompts(3, &cands), vec![0, 2]);
    // Three fingerprints of 10 tokens past a 100-token session, two forks.
    assert_eq!(plan_rounds(&vec![110, 110, 110], 100, 2, 16384).unwrap(), vec![(0, 2), (2, 3)]);
    // The cache holds the session and one suffix at a time.
    assert_eq!(plan_rounds(&vec![110, 110], 100, 15, 115).unwrap(), vec![(0, 1), (1, 2)]);
    // A fingerprint that fits no round is refused.
    assert!(plan_rounds(&vec![200], 100, 15, 150).is_err());
}

#[test]
fn the_session_is_charged_to_the_first_fingerprint() {
    assert_eq!(session_charge(0, 10, 100, 40), (70, 40));
    assert_eq!(session_charge(1, 10, 100, 40), (10, 100));
}

#[test]
fn engine_defaults_leave_threads_to_the_card_daemons() {
    let o = Options::new("m.gguf".to_string(), true);
    assert_eq!(o.threads, 12);
    assert_eq!(o.n_ctx, 16384);
    assert_eq!(o.forks, 15);
    assert_eq!(Options::new("m.gguf".to_string(), false).threads, 16);
}

#[test]
fn every_label_is_read_along_the_trie_of_its_prefixes() {
    let cands: Vec<Vec<Token>> = vec![vec![5, 7], vec![5, 8], vec![6]];
    let t = Trie::build(&cands);
    // Nodes in order: the root, then [5].
    assert_eq!(t.nodes, vec![vec![], vec![5]]);
    assert_eq!(t.next, vec![vec![5, 6], vec![7, 8]]);
    assert_eq!(t.label_path(&cands, 0), vec![(0, 0), (1, 0)]);
    assert_eq!(t.label_path(&cands, 1), vec![(0, 0), (1, 1)]);
    assert_eq!(t.label_path(&cands, 2), vec![(0, 1)]);
    assert_eq!(t.first_probe(), 1);
}

#[test]
fn trie_nodes_sort_as_vectors_do() {
    let cands: Vec<Vec<Token>> = vec![vec![9, 1, 2], vec![3, 4]];
    let t = Trie::build(&cands);
    assert_eq!(t.nodes, vec![vec![], vec![3], vec![9], vec![9, 1]]);
    assert_eq!(t.next[0], vec![9, 3]);
}

#[test]
fn probes_need_a_sequence_of_their_own() {
    assert_eq!(probe_room(15, 3).unwrap(), 14);
    assert_eq!(probe_room(1, 0).unwrap(), 0);
    assert!(probe_room(0, 3).is_err());
    let e = probe_room(1, 2).unwrap_err();
    assert_eq!(
        e.message(),
        "request rejected: labels of several tokens need --forks 2 or more (a sequence for the probes)"
    );
}

#[test]
fn a_state_asked_again_costs_only_its_questions() {
    let session: Vec<Token> = vec![1, 2, 3, 4];
    // Sequence 0 holds the whole session already: nothing to prefill.
    assert_eq!(session_start(&session, &session, false), 4);
    // It holds the start of it: only the rest.
    assert_eq!(session_start(&vec![1, 2], &session, false), 2);
    // It holds another state: cut back where they part, or start over
    // when the cache cannot be cut (a recurrent state).
    assert_eq!(session_start(&vec![1, 2, 9], &session, true), 2);
    assert_eq!(session_start(&vec![1, 2, 9], &session, false), 0);
}

#[test]
fn a_round_decodes_each_suffix_on_its_own_sequence_read_at_its_end() {
    let prompts: Vec<Vec<Token>> = vec![vec![1, 2, 3, 4], vec![1, 2, 5], vec![1, 2, 6, 7]];
    let plan = round_plan(&prompts, &vec![0, 2], 2);
    assert_eq!(
        plan,
        vec![(3, 2, 1, None), (4, 3, 1, Some(0)), (6, 2, 2, None), (7, 3, 2, Some(2))]
    );
    assert!(round_plan(&prompts, &vec![], 2).is_empty());
}

#[test]
fn trie_probes_are_read_one_step_past_the_prompt() {
    let plan = probe_plan(&vec![vec![5], vec![9, 1]], 10);
    assert_eq!(plan, vec![(5, 10, 2, Some(0)), (9, 10, 3, None), (1, 11, 3, Some(1))]);
}

#[test]
fn the_control_reads_the_whole_prompt_and_the_split_keeps_a_last_token() {
    assert_eq!(control_plan(&vec![7, 8]), vec![(7, 0, 0, None), (8, 1, 0, Some(0))]);
    assert_eq!(split_point(3, 10), 3);
    assert_eq!(split_point(30, 10), 9);
}

#[test]
fn the_session_cache_holds_the_last_session_or_nothing() {
    let cached: Vec<Token> = vec![1, 2, 3];
    let session: Vec<Token> = vec![1, 2, 4, 5];
    // The prefill went through: the session is kept.
    assert_eq!(next_cache(&cached, &session, true, true), session);
    // The prefill failed: nothing is kept.
    assert!(next_cache(&cached, &session, true, false).is_empty());
    // Nothing to decode (the same session again): kept whatever the decode says.
    assert_eq!(next_cache(&session, &session, false, false), session);
    // Asked again after it went in, nothing of the session is decoded.
    let kept = next_cache(&cached, &session, true, true);
    assert_eq!(session_start(&kept, &session, true), 4);
}

#[test]
fn a_label_without_tokens_is_refused_by_its_quoted_name() {
    assert!(label_refusal("A", 1).is_none());
    match label_refusal("a\"b", 0) {
        Some(BackendError::Rejected(m)) => assert_eq!(m, "label \"a\\\"b\" has no tokens"),
        _ => panic!("a label without tokens is refused"),
    }
    assert!(one_token_refusal("A", 1).is_none());
    match one_token_refusal("yes", 2) {
        Some(BackendError::Rejected(m)) => {
            assert_eq!(m, "label \"yes\" is 2 tokens; the polygraph reads one-token labels")
        }
        _ => panic!("a label of two tokens is refused"),
    }
    match one_token_refusal("", 0) {
        Some(BackendError::Rejected(m)) => assert_eq!(m, "label \"\" has no tokens"),
        _ => panic!("a label without tokens is refused"),
    }
}
