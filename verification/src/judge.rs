//! The judge's plan for a request: which questions it can ask of the
//! backend at hand, and every fingerprint it renders for each, one per
//! rotation of a Choice's options (position-bias averaging). Averaging the
//! readings back is arithmetic on probabilities, left to the program.
use vstd::prelude::*;

use crate::backend::BackendError;
use crate::prompt::{
    keys_of, label_text, push_all, render, suffix_pieces, Rendered, Segs, Template, SegView,
};
use crate::protocol::Question;
use crate::text::{digits, owned, push_dec};

verus! {

/// The kind of a question as the wire and the readings name it.
pub open spec fn kind_of(q: Question) -> Seq<char> {
    match q {
        Question::Noul { .. } => "noul"@,
        Question::Choice { .. } => "choice"@,
        Question::Score { .. } => "score"@,
    }
}

/// The kind of a question: `noul`, `choice` or `score`.
pub fn kind(q: &Question) -> (k: &'static str)
    ensures
        k@ == kind_of(*q),
{
    match q {
        Question::Noul { .. } => "noul",
        Question::Choice { .. } => "choice",
        Question::Score { .. } => "score",
    }
}

/// How many options a question has (a Noul has two).
pub fn option_count(q: &Question) -> (n: usize)
    ensures
        n == q.options(),
{
    match q {
        Question::Noul { .. } => 2,
        Question::Choice { criteria, .. } => criteria.len(),
        Question::Score { criteria, .. } => criteria.len(),
    }
}

/// Why a question with `n` options cannot be asked: more options than a
/// Choice takes, or labels of several tokens (past 26 options, or the jev
/// layout) from a backend that reads only one next token.
pub open spec fn question_refusal(id: Seq<char>, n: nat, jev_layout: bool, multi_token: bool) -> Option<
    Seq<char>,
> {
    if n > 255 {
        Some("question `"@ + id + "`: "@ + digits(n, 10) + " options; a Choice takes at most 255"@)
    } else if (n > 26 || jev_layout) && !multi_token {
        Some(
            "question `"@ + id
                + "`: this needs --backend-kind artichoke (the jev layout, or more than 26 options, answers with labels of several tokens)"@,
        )
    } else {
        None
    }
}

/// A question checked before anything is rendered: refused (a 422) when
/// it has more options than a Choice takes, or needs labels of several
/// tokens from a backend that cannot read them.
pub fn check_question(id: &str, n: usize, jev_layout: bool, multi_token: bool) -> (r: Result<
    (),
    BackendError,
>)
    ensures
        match question_refusal(id@, n as nat, jev_layout, multi_token) {
            None => r is Ok,
            Some(m) => r matches Err(BackendError::Rejected(e)) && e@ == m,
        },
{
    if n > crate::prompt::MAX_OPTIONS {
        let mut m = owned("question `");
        m.append(id);
        m.append("`: ");
        push_dec(&mut m, n as u128);
        m.append(" options; a Choice takes at most 255");
        return Err(BackendError::Rejected(m));
    }
    if (n > crate::prompt::LETTERS || jev_layout) && !multi_token {
        let mut m = owned("question `");
        m.append(id);
        m.append(
            "`: this needs --backend-kind artichoke (the jev layout, or more than 26 options, answers with labels of several tokens)",
        );
        return Err(BackendError::Rejected(m));
    }
    Ok(())
}

/// How many rotations of its options a question is read in: for a Choice
/// the configured count, at least one and at most one per option; one for
/// the others, whose order means something.
pub open spec fn rotation_count(choice: bool, permutations: nat, n: nat) -> nat {
    if choice {
        if permutations < 1 {
            1
        } else if permutations > n {
            n
        } else {
            permutations
        }
    } else {
        1
    }
}

/// The rotations a question is read in (`permutations.clamp(1, n)` for a
/// Choice, which has at least one option).
pub fn rotations(choice: bool, permutations: usize, n: usize) -> (k: usize)
    requires
        choice ==> n >= 1,
    ensures
        k == rotation_count(choice, permutations as nat, n as nat),
{
    if choice {
        if permutations < 1 {
            1
        } else if permutations > n {
            n
        } else {
            permutations
        }
    } else {
        1
    }
}

/// Rotation `r` of `n` options: rendered position `i` holds option
/// `(i + r) mod n`.
pub open spec fn rotated(n: nat, r: nat) -> Seq<usize> {
    Seq::new(n, |i: int| ((i + r) % (n as int)) as usize)
}

/// Where rendered position `i` of rotation `r` lands, without a
/// division: `r mod n` added, wrapped once.
proof fn lemma_rotated_value(n: int, r: int, i: int)
    requires
        0 < n,
        0 <= r,
        0 <= i < n,
    ensures
        0 <= r % n < n,
        (i + r) % n == (if i + r % n < n {
            i + r % n
        } else {
            i + r % n - n
        }),
{
    vstd::arithmetic::div_mod::lemma_mod_bound(r, n);
    vstd::arithmetic::div_mod::lemma_add_mod_noop(i, r, n);
    vstd::arithmetic::div_mod::lemma_small_mod(i as nat, n as nat);
    let s = r % n;
    if i + s < n {
        vstd::arithmetic::div_mod::lemma_small_mod((i + s) as nat, n as nat);
    } else {
        vstd::arithmetic::div_mod::lemma_mod_add_multiples_vanish(i + s - n, n);
        vstd::arithmetic::div_mod::lemma_small_mod((i + s - n) as nat, n as nat);
    }
}

/// Rotation `r` of `n` options.
pub fn rotation(n: usize, r: usize) -> (order: Vec<usize>)
    ensures
        order@ == rotated(n as nat, r as nat),
{
    let mut order: Vec<usize> = Vec::new();
    if n == 0 {
        assert(order@ =~= rotated(0, r as nat));
        return order;
    }
    let s = r % n;
    for i in 0..n
        invariant
            n > 0,
            s == r % n,
            order@ == rotated(n as nat, r as nat).take(i as int),
    {
        proof {
            lemma_rotated_value(n as int, r as int, i as int);
        }
        let v = if i >= n - s {
            i - (n - s)
        } else {
            i + s
        };
        order.push(v);
        assert(order@ =~= rotated(n as nat, r as nat).take(i + 1));
    }
    assert(rotated(n as nat, r as nat).take(n as int) =~= rotated(n as nat, r as nat));
    order
}

/// A rotation is a permutation of the options: every position holds an
/// option, no option is held twice (so each is held once), and rotation 0
/// keeps the request's order.
pub proof fn lemma_rotation_is_permutation(n: nat, r: nat)
    requires
        n <= usize::MAX,
    ensures
        rotated(n, r).len() == n,
        forall|i: int| 0 <= i < n ==> (#[trigger] rotated(n, r)[i] as nat) < n,
        forall|i: int, j: int|
            0 <= i < j < n ==> #[trigger] rotated(n, r)[i] != #[trigger] rotated(n, r)[j],
        forall|i: int| 0 <= i < n ==> #[trigger] rotated(n, 0)[i] == i,
{
    assert forall|i: int| 0 <= i < n implies (#[trigger] rotated(n, r)[i] as nat) < n by {
        lemma_rotated_value(n as int, r as int, i);
    }
    assert forall|i: int, j: int|
        0 <= i < j < n implies #[trigger] rotated(n, r)[i] != #[trigger] rotated(n, r)[j] by {
        lemma_rotated_value(n as int, r as int, i);
        lemma_rotated_value(n as int, r as int, j);
        assert(rotated(n, r)[i] == (i + r) % (n as int));
        assert(rotated(n, r)[j] == (j + r) % (n as int));
    }
    assert forall|i: int| 0 <= i < n implies #[trigger] rotated(n, 0)[i] == i by {
        vstd::arithmetic::div_mod::lemma_small_mod(i as nat, n);
        assert(rotated(n, 0)[i] == (i + 0) % (n as int));
    }
}

/// What a fingerprint rendered in rotation `r` is: the question's pieces in
/// that order, the labels in position order, the keys in that order.
pub open spec fn renders(f: Rendered, template: Template, prefix: Seq<SegView>, q: Question, r: nat) -> bool {
    let order = Some(rotated(q.options(), r));
    &&& f.prefix@ == prefix
    &&& f.suffix@ == push_all(Seq::empty(), suffix_pieces(template, q, order))
    &&& f.labels@.len() == q.options()
    &&& forall|p: int|
        0 <= p < f.labels@.len() ==> #[trigger] f.labels@[p]@ == label_text(p as nat, q.options())
    &&& f.keys@.map_values(|k: String| k@) == keys_of(q, order)
}

/// Every fingerprint of a question, one per rotation `0..k`.
pub fn fingerprints(template: Template, prefix: &Segs, q: &Question, k: usize) -> (out: Vec<
    Rendered,
>)
    ensures
        out@.len() == k,
        forall|r: int| 0 <= r < k ==> renders(#[trigger] out@[r], template, prefix@, *q, r as nat),
{
    let n = option_count(q);
    let mut out: Vec<Rendered> = Vec::new();
    for r in 0..k
        invariant
            n == q.options(),
            out@.len() == r,
            forall|j: int| 0 <= j < r ==> renders(#[trigger] out@[j], template, prefix@, *q, j as nat),
    {
        let order = rotation(n, r);
        proof {
            lemma_rotation_is_permutation(n as nat, r as nat);
        }
        let f = render(template, prefix, q, Some(order.as_slice()));
        out.push(f);
        assert(renders(out@[r as int], template, prefix@, *q, r as nat));
    }
    out
}

/// A question's plan: checked against the backend, then every fingerprint
/// it is read in (a Choice in `permutations` rotations, at least one and at
/// most one per option).
pub fn plan(
    template: Template,
    prefix: &Segs,
    id: &str,
    q: &Question,
    jev_layout: bool,
    multi_token: bool,
    permutations: usize,
) -> (r: Result<Vec<Rendered>, BackendError>)
    requires
        q is Choice ==> q.options() >= 1,
    ensures
        match question_refusal(id@, q.options(), jev_layout, multi_token) {
            Some(m) => r matches Err(BackendError::Rejected(e)) && e@ == m,
            None => r matches Ok(fs) && fs@.len() == rotation_count(
                q is Choice,
                permutations as nat,
                q.options(),
            ) && forall|j: int|
                0 <= j < fs@.len() ==> renders(#[trigger] fs@[j], template, prefix@, *q, j as nat),
        },
{
    let n = option_count(q);
    check_question(id, n, jev_layout, multi_token)?;
    let choice = match q {
        Question::Choice { .. } => true,
        _ => false,
    };
    let k = rotations(choice, permutations, n);
    Ok(fingerprints(template, prefix, q, k))
}

/// The temperature bucket a question falls in: its kind and its option
/// count's range (`noul:2`, `choice:3-5`, `score:6-10`, `choice:11+`).
pub open spec fn bucket_text(kind: Seq<char>, n: nat) -> Seq<char> {
    kind + ":"@ + if n <= 2 {
        "2"@
    } else if n <= 5 {
        "3-5"@
    } else if n <= 10 {
        "6-10"@
    } else {
        "11+"@
    }
}

/// The temperature bucket for `kind` with `n` options.
pub fn bucket(kind: &str, n: usize) -> (b: String)
    ensures
        b@ == bucket_text(kind@, n as nat),
{
    let mut b = owned(kind);
    b.append(":");
    if n <= 2 {
        b.append("2");
    } else if n <= 5 {
        b.append("3-5");
    } else if n <= 10 {
        b.append("6-10");
    } else {
        b.append("11+");
    }
    b
}


/// A question's bucket names the range of option counts that holds its
/// count, by the range's bounds: two or fewer options `2`, three to five
/// `3-5`, six to ten `6-10`, eleven or more `11+`; so counts in one range
/// share a bucket, and counts in different ranges do not.
pub proof fn lemma_bucket_holds_count(kind: Seq<char>, n: nat, m: nat)
    ensures
        n <= 2 ==> bucket_text(kind, n) == kind + ":"@ + crate::text::digits(2, 10),
        3 <= n <= 5 ==> bucket_text(kind, n) == kind + ":"@ + crate::text::digits(3, 10) + "-"@
            + crate::text::digits(5, 10),
        6 <= n <= 10 ==> bucket_text(kind, n) == kind + ":"@ + crate::text::digits(6, 10) + "-"@
            + crate::text::digits(10, 10),
        11 <= n ==> bucket_text(kind, n) == kind + ":"@ + crate::text::digits(11, 10) + "+"@,
        ((n <= 2) == (m <= 2) && (3 <= n <= 5) == (3 <= m <= 5) && (6 <= n <= 10) == (6 <= m <= 10))
            <==> bucket_text(kind, n) == bucket_text(kind, m),
{
    reveal_strlit(":");
    reveal_strlit("2");
    reveal_strlit("3-5");
    reveal_strlit("6-10");
    reveal_strlit("11+");
    reveal_strlit("-");
    reveal_strlit("+");
    reveal_with_fuel(crate::text::digits, 3);
    assert(crate::text::digits(2, 10) =~= "2"@);
    assert(crate::text::digits(3, 10) + "-"@ + crate::text::digits(5, 10) =~= "3-5"@);
    assert(crate::text::digits(6, 10) + "-"@ + crate::text::digits(10, 10) =~= "6-10"@);
    assert(crate::text::digits(11, 10) + "+"@ =~= "11+"@);
    let p = kind + ":"@;
    let tail = |k: nat| if k <= 2 {
        "2"@
    } else if k <= 5 {
        "3-5"@
    } else if k <= 10 {
        "6-10"@
    } else {
        "11+"@
    };
    if bucket_text(kind, n) == bucket_text(kind, m) {
        assert(bucket_text(kind, n) == p + tail(n));
        assert(bucket_text(kind, m) == p + tail(m));
        assert((p + tail(n)).skip(p.len() as int) =~= tail(n));
        assert((p + tail(m)).skip(p.len() as int) =~= tail(m));
        assert(tail(n) == tail(m));
        assert("2"@.len() == 1 && "3-5"@.len() == 3 && "6-10"@.len() == 4 && "11+"@.len() == 3);
        assert("3-5"@[0] == '3' && "11+"@[0] == '1');
    }
}
} // verus!
