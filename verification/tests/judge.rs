use xks::backend::BackendError;
use xks::judge::{bucket, check_question, kind, option_count, plan, rotation, rotations};
use xks::prompt::{prefix, Template};
use xks::protocol::{ChoiceOption, Question};

fn choice(n: usize) -> Question {
    Question::Choice {
        instructions: "Which?".to_string(),
        criteria: (0..n).map(|i| ChoiceOption { key: format!("k{i}"), description: String::new() }).collect(),
    }
}

#[test]
fn a_rotation_holds_every_option_once() {
    assert_eq!(rotation(4, 0), vec![0, 1, 2, 3]);
    assert_eq!(rotation(4, 1), vec![1, 2, 3, 0]);
    assert_eq!(rotation(4, 6), vec![2, 3, 0, 1]);
    assert!(rotation(0, 3).is_empty());
    for n in 1..8usize {
        for r in 0..n {
            let mut o = rotation(n, r);
            o.sort();
            assert_eq!(o, (0..n).collect::<Vec<_>>());
        }
    }
}

#[test]
fn a_choice_is_read_in_at_most_one_rotation_per_option() {
    assert_eq!(rotations(true, 5, 3), 3);
    assert_eq!(rotations(true, 0, 3), 1);
    assert_eq!(rotations(true, 2, 3), 2);
    assert_eq!(rotations(false, 5, 3), 1);
}

#[test]
fn too_many_options_or_multi_token_labels_are_refused_by_a_one_token_backend() {
    assert!(check_question("q", 26, false, false).is_ok());
    let e = check_question("q", 27, false, false).unwrap_err();
    assert!(matches!(e, BackendError::Rejected(ref m) if m.starts_with("question `q`: this needs --backend-kind artichoke")));
    assert!(check_question("q", 27, false, true).is_ok());
    assert!(check_question("q", 3, true, false).is_err());
    let e = check_question("q", 300, false, true).unwrap_err();
    assert!(matches!(e, BackendError::Rejected(ref m) if m == "question `q`: 300 options; a Choice takes at most 255"));
}

#[test]
fn a_plan_renders_one_fingerprint_per_rotation() {
    let p = prefix(Template::ChatMl, "state");
    let q = choice(3);
    assert_eq!(kind(&q), "choice");
    assert_eq!(option_count(&q), 3);
    let fs = plan(Template::ChatMl, &p, "c", &q, false, false, 2).unwrap();
    assert_eq!(fs.len(), 2);
    assert_eq!(fs[0].keys, vec!["k0", "k1", "k2"]);
    assert_eq!(fs[1].keys, vec!["k1", "k2", "k0"]);
    assert_eq!(fs[1].labels, vec![" A", " B", " C"]);
    let n = Question::Noul { instructions: "?".into(), criteria: None };
    assert_eq!(plan(Template::ChatMl, &p, "n", &n, false, false, 4).unwrap().len(), 1);
    assert!(plan(Template::ChatMl, &p, "w", &choice(30), false, false, 1).is_err());
}

#[test]
fn a_bucket_is_a_kind_and_a_range_of_options() {
    assert_eq!(bucket("noul", 2), "noul:2");
    assert_eq!(bucket("choice", 4), "choice:3-5");
    assert_eq!(bucket("score", 10), "score:6-10");
    assert_eq!(bucket("choice", 30), "choice:11+");
    assert_eq!(bucket("choice", 0), "choice:2");
}
