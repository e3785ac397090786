//! The engine's token bookkeeping: where a request's fingerprints fork
//! from their session, what is refused before any prefill, how much of the
//! kept session a new one reuses, and which fingerprints are decoded
//! together. The decodes themselves are llama.cpp's.
use vstd::prelude::*;

use crate::backend::BackendError;
use crate::text::{digits, owned, push_dec};

verus! {

/// A token id of the subject's vocabulary.
pub type Token = i32;

/// TypeSafe's limits: the state and the longest question within 32k tokens,
/// the whole request within 64k (docs.typesafe.ai, models).
pub const BRANCH_LIMIT: usize = 32_000;

/// The whole request within 64k tokens.
pub const REQUEST_LIMIT: usize = 64_000;

/// How many leading items `a` and `b` share, from position `i` on.
pub open spec fn common_from(a: Seq<Token>, b: Seq<Token>, i: nat) -> nat
    decreases a.len() - i,
{
    if i < a.len() && i < b.len() && a[i as int] == b[i as int] {
        common_from(a, b, i + 1)
    } else {
        i
    }
}

/// The length of the longest common prefix of `a` and `b`.
pub open spec fn common_prefix(a: Seq<Token>, b: Seq<Token>) -> nat {
    common_from(a, b, 0)
}

proof fn lemma_common_from(a: Seq<Token>, b: Seq<Token>, i: nat)
    requires
        i <= a.len(),
        i <= b.len(),
        forall|j: int| 0 <= j < i ==> a[j] == b[j],
    ensures
        i <= common_from(a, b, i) <= a.len(),
        common_from(a, b, i) <= b.len(),
        forall|j: int| 0 <= j < common_from(a, b, i) ==> a[j] == b[j],
        common_from(a, b, i) == a.len() || common_from(a, b, i) == b.len() || a[common_from(
            a,
            b,
            i,
        ) as int] != b[common_from(a, b, i) as int],
    decreases a.len() - i,
{
    if i < a.len() && i < b.len() && a[i as int] == b[i as int] {
        lemma_common_from(a, b, i + 1);
    }
}

/// The common prefix is common, and stops where the two part or one ends.
pub proof fn lemma_common_prefix(a: Seq<Token>, b: Seq<Token>)
    ensures
        common_prefix(a, b) <= a.len(),
        common_prefix(a, b) <= b.len(),
        forall|j: int| 0 <= j < common_prefix(a, b) ==> a[j] == b[j],
        common_prefix(a, b) == a.len() || common_prefix(a, b) == b.len() || a[common_prefix(
            a,
            b,
        ) as int] != b[common_prefix(a, b) as int],
{
    lemma_common_from(a, b, 0);
}

/// How many leading tokens `a` and `b` share.
pub fn shared_prefix(a: &[Token], b: &[Token]) -> (k: usize)
    ensures
        k == common_prefix(a@, b@),
{
    let mut i: usize = 0;
    while i < a.len() && i < b.len() && a[i] == b[i]
        invariant
            i <= a@.len(),
            common_from(a@, b@, i as nat) == common_prefix(a@, b@),
        decreases a.len() - i,
    {
        i = i + 1;
    }
    i
}

/// Where the session's prefill starts, given what sequence 0 keeps from
/// the last request: all of it when it is a prefix of the session; cut back
/// to the part the two share when the cache allows it (`cut`), else from
/// the start (a recurrent state cannot be cut back).
pub open spec fn prefill_start(cached: Seq<Token>, session: Seq<Token>, cut: bool) -> nat {
    let reuse = common_prefix(cached, session);
    if reuse < cached.len() {
        if cut {
            reuse
        } else {
            0
        }
    } else {
        cached.len()
    }
}

/// Where the session's prefill starts: only the rest of a session whose
/// start sequence 0 already holds is decoded.
pub fn session_start(cached: &Vec<Token>, session: &[Token], cut: bool) -> (start: usize)
    ensures
        start == prefill_start(cached@, session@, cut),
        start <= session@.len(),
        cached@.take(start as int) == session@.take(start as int),
{
    let reuse = shared_prefix(cached.as_slice(), session);
    proof {
        lemma_common_prefix(cached@, session@);
    }
    let start = if reuse < cached.len() {
        if cut {
            reuse
        } else {
            0
        }
    } else {
        cached.len()
    };
    assert(cached@.take(start as int) =~= session@.take(start as int));
    start
}

/// A state asked again costs only its questions: when sequence 0 holds the
/// whole session already, nothing of it is decoded again.
pub proof fn lemma_repeated_session_costs_nothing(session: Seq<Token>, cut: bool)
    ensures
        prefill_start(session, session, cut) == session.len(),
{
    lemma_common_prefix(session, session);
}

/// What sequence 0 holds after a request's session: the whole session,
/// unless a prefill was due (`prefill_start` short of its end) and failed
/// (`prefilled` false), which clears it.
pub open spec fn cache_after(cached: Seq<Token>, session: Seq<Token>, cut: bool, prefilled: bool) -> Seq<
    Token,
> {
    if prefill_start(cached, session, cut) < session.len() && !prefilled {
        Seq::empty()
    } else {
        session
    }
}

/// The session cache after a request: `cut` is whether cutting sequence 0
/// back to what it shares with the session succeeded, `prefilled` whether
/// the rest of the session decoded.
pub fn next_cache(cached: &Vec<Token>, session: &[Token], cut: bool, prefilled: bool) -> (out: Vec<
    Token,
>)
    ensures
        out@ == cache_after(cached@, session@, cut, prefilled),
{
    let start = session_start(cached, session, cut);
    if start < session.len() && !prefilled {
        Vec::new()
    } else {
        let mut out: Vec<Token> = Vec::new();
        let n = session.len();
        for i in 0..n
            invariant
                n == session@.len(),
                out@ == session@.take(i as int),
        {
            out.push(session[i]);
            assert(out@ =~= session@.take(i + 1));
        }
        assert(out@ =~= session@);
        out
    }
}

/// The cache across requests: it always holds a whole session or nothing;
/// after a request whose session went in, the same state asked again
/// decodes nothing of it; after a failed prefill the next session is
/// decoded from its start.
pub proof fn lemma_cache_law(
    cached: Seq<Token>,
    session: Seq<Token>,
    cut: bool,
    prefilled: bool,
    next: Seq<Token>,
    cut2: bool,
)
    ensures
        cache_after(cached, session, cut, prefilled) == session || cache_after(
            cached,
            session,
            cut,
            prefilled,
        ) == Seq::<Token>::empty(),
        cache_after(cached, session, cut, prefilled) == session ==> prefill_start(
            cache_after(cached, session, cut, prefilled),
            session,
            cut2,
        ) == session.len(),
        cache_after(cached, session, cut, prefilled) != session ==> prefill_start(
            cache_after(cached, session, cut, prefilled),
            next,
            cut2,
        ) == 0,
{
    lemma_repeated_session_costs_nothing(session, cut2);
    lemma_common_prefix(Seq::<Token>::empty(), next);
}

/// Where the first `k` prompts fork: their longest common prefix, short of
/// each one's last token.
pub open spec fn fork_upto(prompts: Seq<Seq<Token>>, k: nat) -> int
    decreases k,
{
    if k <= 1 {
        prompts[0].len() - 1
    } else {
        let p = prompts[k - 1];
        let rest = fork_upto(prompts, (k - 1) as nat);
        let here = if (common_prefix(prompts[0], p) as int) < p.len() - 1 {
            common_prefix(prompts[0], p) as int
        } else {
            p.len() - 1
        };
        if rest < here {
            rest
        } else {
            here
        }
    }
}

/// Every prompt has a token to decode.
pub open spec fn all_nonempty(prompts: Seq<Seq<Token>>) -> bool {
    forall|i: int| 0 <= i < prompts.len() ==> #[trigger] prompts[i].len() >= 1
}

/// The session's length in tokens: the longest prefix every prompt shares,
/// short of each prompt's last token (every fork decodes at least one).
pub fn fork_point(prompts: &Vec<Vec<Token>>) -> (shared: usize)
    requires
        prompts@.len() >= 1,
        all_nonempty(prompts@.map_values(|p: Vec<Token>| p@)),
    ensures
        shared == fork_upto(prompts@.map_values(|p: Vec<Token>| p@), prompts@.len()),
{
    let ghost ps = prompts@.map_values(|p: Vec<Token>| p@);
    assert(ps[0].len() >= 1);
    let mut shared = prompts[0].len() - 1;
    let n = prompts.len();
    let mut k: usize = 1;
    while k < n
        invariant
            1 <= k <= n,
            n == prompts@.len(),
            ps == prompts@.map_values(|p: Vec<Token>| p@),
            all_nonempty(ps),
            shared == fork_upto(ps, k as nat),
        decreases n - k,
    {
        assert(ps[k as int].len() >= 1);
        let p = &prompts[k];
        let lcp = shared_prefix(prompts[0].as_slice(), p.as_slice());
        let last = p.len() - 1;
        let here = if lcp < last {
            lcp
        } else {
            last
        };
        if here < shared {
            shared = here;
        }
        k = k + 1;
    }
    shared
}

/// The fork point is where every prompt still agrees with the first, short
/// of each one's last token, and no later point is: one more token and a
/// prompt would part from the first or have nothing left to decode.
pub proof fn lemma_fork_point_is_longest(prompts: Seq<Seq<Token>>)
    requires
        prompts.len() >= 1,
        all_nonempty(prompts),
    ensures
        ({
            let s = fork_upto(prompts, prompts.len());
            &&& 0 <= s
            &&& forall|i: int| 0 <= i < prompts.len() ==> s < #[trigger] prompts[i].len()
            &&& forall|i: int, j: int|
                0 <= i < prompts.len() && 0 <= j < s ==> #[trigger] prompts[i][j] == prompts[0][j]
            &&& exists|i: int|
                0 <= i < prompts.len() && (s + 1 >= #[trigger] prompts[i].len() || prompts[i][s]
                    != prompts[0][s])
        }),
{
    lemma_fork_upto(prompts, prompts.len());
}

proof fn lemma_fork_upto(prompts: Seq<Seq<Token>>, k: nat)
    requires
        1 <= k <= prompts.len(),
        all_nonempty(prompts),
    ensures
        ({
            let s = fork_upto(prompts, k);
            &&& 0 <= s
            &&& forall|i: int| 0 <= i < k ==> s < #[trigger] prompts[i].len()
            &&& forall|i: int, j: int|
                0 <= i < k && 0 <= j < s ==> #[trigger] prompts[i][j] == prompts[0][j]
            &&& exists|i: int|
                0 <= i < k && (s + 1 >= #[trigger] prompts[i].len() || prompts[i][s]
                    != prompts[0][s])
        }),
    decreases k,
{
    assert(prompts[0].len() >= 1);
    if k <= 1 {
        let s = fork_upto(prompts, k);
        assert(s + 1 >= prompts[0].len());
    } else {
        lemma_fork_upto(prompts, (k - 1) as nat);
        let p = prompts[k - 1];
        assert(p.len() >= 1);
        lemma_common_prefix(prompts[0], p);
        let rest = fork_upto(prompts, (k - 1) as nat);
        let s = fork_upto(prompts, k);
        let c = common_prefix(prompts[0], p) as int;
        assert forall|i: int| 0 <= i < k implies s < #[trigger] prompts[i].len() by {
            if i < k - 1 {
                assert(rest < prompts[i].len());
            }
        }
        assert forall|i: int, j: int| 0 <= i < k && 0 <= j < s implies #[trigger] prompts[i][j]
            == prompts[0][j] by {
            if i < k - 1 {
                assert(prompts[i][j] == prompts[0][j]);
            } else {
                assert(j < c);
                assert(prompts[0][j] == p[j]);
            }
        }
        if s == rest {
            let w = choose|i: int|
                0 <= i < k - 1 && (rest + 1 >= #[trigger] prompts[i].len() || prompts[i][rest]
                    != prompts[0][rest]);
            assert(0 <= w < k && (s + 1 >= prompts[w].len() || prompts[w][s] != prompts[0][s]));
        } else {
            if c < p.len() - 1 {
                assert(s == c);
                assert(c != prompts[0].len());
                assert(p[s] != prompts[0][s]);
            }
            assert(s + 1 >= prompts[k - 1].len() || prompts[k - 1][s] != prompts[0][s]);
        }
    }
}

/// Token lists as sequences.
pub open spec fn tokens(v: Seq<Vec<Token>>) -> Seq<Seq<Token>> {
    v.map_values(|p: Vec<Token>| p@)
}

/// Each fingerprint's candidate labels as token sequences.
pub open spec fn label_tokens(v: Seq<Vec<Vec<Token>>>) -> Seq<Seq<Seq<Token>>> {
    v.map_values(|cs: Vec<Vec<Token>>| tokens(cs@))
}

/// The most tokens a label reads past the first, over the first `k` labels.
pub open spec fn label_extra(cs: Seq<Seq<Token>>, k: nat) -> nat
    decreases k,
{
    if k == 0 {
        0
    } else {
        let here = if cs[k - 1].len() >= 1 {
            (cs[k - 1].len() - 1) as nat
        } else {
            0
        };
        let rest = label_extra(cs, (k - 1) as nat);
        if rest < here {
            here
        } else {
            rest
        }
    }
}

/// The longest fingerprint, counted with its longest label, over the first
/// `k` (prompt, labels) pairs.
pub open spec fn longest_branch(ps: Seq<Seq<Token>>, cs: Seq<Seq<Seq<Token>>>, k: nat) -> nat
    decreases k,
{
    if k == 0 {
        0
    } else {
        let here = ps[k - 1].len() + label_extra(cs[k - 1], cs[k - 1].len());
        let rest = longest_branch(ps, cs, (k - 1) as nat);
        if rest < here {
            here
        } else {
            rest
        }
    }
}

/// The whole request in tokens: the session once, every suffix.
pub open spec fn request_size(ps: Seq<Seq<Token>>, shared: nat, k: nat) -> int
    decreases k,
{
    if k == 0 {
        shared as int
    } else {
        request_size(ps, shared, (k - 1) as nat) + (ps[k - 1].len() - shared)
    }
}

/// How many pairs of prompts and labels are read together.
pub open spec fn pairs(ps: Seq<Seq<Token>>, cs: Seq<Seq<Seq<Token>>>) -> nat {
    if ps.len() < cs.len() {
        ps.len()
    } else {
        cs.len()
    }
}

/// The refusal for a fingerprint past TypeSafe's branch limit.
pub open spec fn branch_refusal(longest: nat) -> Seq<char> {
    "the state and a question come to "@ + crate::text::digits(longest, 10) + " tokens, past the 32000 limit"@
}

/// The refusal for a request past TypeSafe's request limit.
pub open spec fn request_refusal(request: nat) -> Seq<char> {
    "the request comes to "@ + crate::text::digits(request, 10) + " tokens, past the 64000 limit"@
}

/// The refusal for a fingerprint past this server's context.
pub open spec fn context_refusal(longest: nat, n_ctx: nat) -> Seq<char> {
    "the state and a question come to "@ + crate::text::digits(longest, 10)
        + " tokens, past this server's context of "@ + crate::text::digits(n_ctx, 10)
        + " (xks --ctx)"@
}

fn label_extra_of(cs: &Vec<Vec<Token>>) -> (m: u128)
    ensures
        m == label_extra(tokens(cs@), cs@.len()),
{
    let mut m: u128 = 0;
    let n = cs.len();
    for k in 0..n
        invariant
            n == cs@.len(),
            m == label_extra(tokens(cs@), k as nat),
    {
        let l = cs[k].len();
        let here: u128 = if l >= 1 {
            (l - 1) as u128
        } else {
            0
        };
        if m < here {
            m = here;
        }
    }
    m
}

/// REBAL, the Resonant Energy Balloon: the field around the engine.
/// Refuse, before any prefill, a request that cannot be read: past
/// TypeSafe's limits (counted with this subject's tokenizer, template
/// included), or a fingerprint that with its longest label does not fit
/// the context. A refusal is the caller's request (422), not a failure of
/// the engine (502), and costs nothing.
pub fn check_limits(
    prompts: &Vec<Vec<Token>>,
    cands: &Vec<Vec<Vec<Token>>>,
    shared: usize,
    n_ctx: usize,
) -> (r: Result<(), BackendError>)
    requires
        forall|i: int| 0 <= i < prompts@.len() ==> shared <= #[trigger] prompts@[i]@.len(),
    ensures
        ({
            let ps = tokens(prompts@);
            let cs = label_tokens(cands@);
            let longest = longest_branch(ps, cs, pairs(ps, cs));
            let request = request_size(ps, shared as nat, ps.len());
            if longest > BRANCH_LIMIT {
                r matches Err(BackendError::Rejected(m)) && m@ == branch_refusal(longest)
            } else if request > REQUEST_LIMIT {
                r matches Err(BackendError::Rejected(m)) && m@ == request_refusal(request as nat)
            } else if longest > n_ctx {
                r matches Err(BackendError::Rejected(m)) && m@ == context_refusal(
                    longest,
                    n_ctx as nat,
                )
            } else {
                r is Ok
            }
        }),
{
    let ghost ps = tokens(prompts@);
    let ghost cs = label_tokens(cands@);
    let k = if prompts.len() < cands.len() {
        prompts.len()
    } else {
        cands.len()
    };
    let mut longest: u128 = 0;
    for i in 0..k
        invariant
            k == pairs(ps, cs),
            ps == tokens(prompts@),
            cs == label_tokens(cands@),
            longest == longest_branch(ps, cs, i as nat),
            longest <= i * (usize::MAX as nat) * 2,
    {
        let extra = label_extra_of(&cands[i]);
        assert(extra == label_extra(cs[i as int], cs[i as int].len()));
        proof {
            let ci = cs[i as int];
            assert(ci == tokens(cands@[i as int]@));
            assert forall|j: int| 0 <= j < ci.len() implies #[trigger] ci[j].len() <= usize::MAX by {
                assert(ci[j] == cands@[i as int]@[j]@);
                assert(cands@[i as int]@[j]@.len() == cands@[i as int]@[j].len());
            }
            lemma_label_extra_bound(ci, ci.len());
        }
        let here = prompts[i].len() as u128 + extra;
        if longest < here {
            longest = here;
        }
        assert(longest <= (i + 1) * (usize::MAX as nat) * 2) by (nonlinear_arith)
            requires
                longest <= i * (usize::MAX as nat) * 2 || longest == here,
                here <= 2 * (usize::MAX as nat),
        ;
    }
    let mut request: u128 = shared as u128;
    let n = prompts.len();
    for i in 0..n
        invariant
            n == prompts@.len(),
            ps == tokens(prompts@),
            forall|j: int| 0 <= j < prompts@.len() ==> shared <= #[trigger] prompts@[j]@.len(),
            request == request_size(ps, shared as nat, i as nat),
            request <= (i + 1) * (usize::MAX as nat),
    {
        assert(shared <= prompts@[i as int]@.len());
        request = request + (prompts[i].len() - shared) as u128;
        assert(request <= (i + 2) * (usize::MAX as nat)) by (nonlinear_arith)
            requires
                request <= (i + 1) * (usize::MAX as nat) + usize::MAX,
        ;
    }
    if longest > BRANCH_LIMIT as u128 {
        let mut m = owned("the state and a question come to ");
        push_dec(&mut m, longest);
        m.append(" tokens, past the 32000 limit");
        return Err(BackendError::Rejected(m));
    }
    if request > REQUEST_LIMIT as u128 {
        let mut m = owned("the request comes to ");
        push_dec(&mut m, request);
        m.append(" tokens, past the 64000 limit");
        return Err(BackendError::Rejected(m));
    }
    if longest > n_ctx as u128 {
        let mut m = owned("the state and a question come to ");
        push_dec(&mut m, longest);
        m.append(" tokens, past this server's context of ");
        push_dec(&mut m, n_ctx as u128);
        m.append(" (xks --ctx)");
        return Err(BackendError::Rejected(m));
    }
    Ok(())
}

/// Every token of the first `k` prompts, counted.
pub open spec fn total_len(ps: Seq<Seq<Token>>, k: nat) -> int
    decreases k,
{
    if k == 0 {
        0
    } else {
        total_len(ps, (k - 1) as nat) + ps[k - 1].len()
    }
}

/// The session is counted once: a request of `n` prompts that each begin
/// with the `shared` session tokens comes to every prompt's tokens less
/// the `n - 1` copies of the session; a prompt that is the session alone
/// adds nothing, and one of `s` more tokens adds exactly `s`.
pub proof fn lemma_session_counted_once(ps: Seq<Seq<Token>>, shared: nat, p: Seq<Token>)
    requires
        forall|i: int| 0 <= i < ps.len() ==> shared <= #[trigger] ps[i].len(),
        shared <= p.len(),
    ensures
        request_size(ps, shared, ps.len()) == shared + total_len(ps, ps.len()) - ps.len() * shared,
        request_size(ps.push(p), shared, ps.len() + 1) == request_size(ps, shared, ps.len()) + (p.len()
            - shared),
        p.len() == shared ==> request_size(ps.push(p), shared, ps.len() + 1) == request_size(
            ps,
            shared,
            ps.len(),
        ),
{
    lemma_request_total(ps, shared, ps.len());
    lemma_request_prefix(ps, p, shared, ps.len());
}

proof fn lemma_request_total(ps: Seq<Seq<Token>>, shared: nat, k: nat)
    requires
        k <= ps.len(),
    ensures
        request_size(ps, shared, k) == shared + total_len(ps, k) - k * shared,
    decreases k,
{
    if k > 0 {
        let j = (k - 1) as nat;
        lemma_request_total(ps, shared, j);
        assert(request_size(ps, shared, k) == request_size(ps, shared, j) + (ps[k - 1].len() - shared));
        assert(total_len(ps, k) == total_len(ps, j) + ps[k - 1].len());
        assert(k * shared == j * shared + shared) by (nonlinear_arith)
            requires
                k == j + 1,
        ;
    } else {
        assert(k * shared == 0) by (nonlinear_arith)
            requires
                k == 0,
        ;
    }
}

proof fn lemma_request_prefix(ps: Seq<Seq<Token>>, p: Seq<Token>, shared: nat, k: nat)
    requires
        k <= ps.len(),
    ensures
        request_size(ps.push(p), shared, k) == request_size(ps, shared, k),
    decreases k,
{
    if k > 0 {
        lemma_request_prefix(ps, p, shared, (k - 1) as nat);
        assert(ps.push(p)[k - 1] == ps[k - 1]);
    }
}

proof fn lemma_label_extra_bound(cs: Seq<Seq<Token>>, k: nat)
    requires
        k <= cs.len(),
        forall|i: int| 0 <= i < cs.len() ==> #[trigger] cs[i].len() <= usize::MAX,
    ensures
        label_extra(cs, k) <= usize::MAX,
    decreases k,
{
    if k > 0 {
        lemma_label_extra_bound(cs, (k - 1) as nat);
    }
}

/// Whether some prompt has no token at all.
pub open spec fn some_empty(prompts: Seq<Seq<Token>>) -> bool {
    exists|i: int| 0 <= i < prompts.len() && #[trigger] prompts[i].len() == 0
}

/// Every fingerprint's whole prompt forks where their tokens part, but
/// never past the end of the session itself (the prefix's own tokens,
/// `own`). Cut inside the questions, the kept session would run into one
/// request's question text, and the same state asked with other questions
/// could not reuse it: a recurrent state cannot be cut back, so it would be
/// prefilled again from the start. A prompt with no token is refused.
pub fn session_tokens(prompts: &Vec<Vec<Token>>, own: &Vec<Token>) -> (r: Result<usize, BackendError>)
    requires
        prompts@.len() >= 1,
    ensures
        some_empty(tokens(prompts@)) ==> (r matches Err(BackendError::Rejected(m)) && m@
            == "empty prompt"@),
        !some_empty(tokens(prompts@)) ==> (r matches Ok(s) && s == {
            let f = fork_upto(tokens(prompts@), prompts@.len());
            let e = common_prefix(own@, tokens(prompts@)[0]) as int;
            if f < e {
                f
            } else {
                e
            }
        }),
{
    let ghost ps = tokens(prompts@);
    let n = prompts.len();
    for i in 0..n
        invariant
            n == prompts@.len(),
            ps == tokens(prompts@),
            forall|j: int| 0 <= j < i ==> #[trigger] ps[j].len() >= 1,
    {
        if prompts[i].len() == 0 {
            assert(ps[i as int].len() == 0);
            return Err(BackendError::Rejected(owned("empty prompt")));
        }
    }
    assert(all_nonempty(ps));
    let f = fork_point(prompts);
    let e = shared_prefix(own.as_slice(), prompts[0].as_slice());
    assert(prompts@[0]@ == ps[0]);
    Ok(if f < e {
        f
    } else {
        e
    })
}

/// The session never runs past the prefix's own tokens, and every prompt
/// holds it: the kept session is a prefix of each fingerprint's prompt and
/// of the prefix alone.
pub proof fn lemma_session_is_shared(prompts: Seq<Seq<Token>>, own: Seq<Token>, s: int)
    requires
        prompts.len() >= 1,
        all_nonempty(prompts),
        s == ({
            let f = fork_upto(prompts, prompts.len());
            let e = common_prefix(own, prompts[0]) as int;
            if f < e {
                f
            } else {
                e
            }
        }),
    ensures
        0 <= s <= own.len(),
        forall|j: int| 0 <= j < s ==> #[trigger] own[j] == prompts[0][j],
        forall|i: int, j: int|
            0 <= i < prompts.len() && 0 <= j < s ==> #[trigger] prompts[i][j] == prompts[0][j],
        forall|i: int| 0 <= i < prompts.len() ==> s < #[trigger] prompts[i].len(),
{
    lemma_fork_point_is_longest(prompts);
    lemma_common_prefix(own, prompts[0]);
}

/// A template that writes its own start token after the tokenizer has
/// added one: keep one.
pub fn collapse_start(toks: &mut Vec<Token>, bos: Token)
    ensures
        (old(toks)@.len() >= 2 && old(toks)@[0] == bos && old(toks)@[1] == bos) ==> final(toks)@
            == old(toks)@.drop_first(),
        !(old(toks)@.len() >= 2 && old(toks)@[0] == bos && old(toks)@[1] == bos) ==> final(toks)@
            == old(toks)@,
{
    if toks.len() >= 2 && toks[0] == bos && toks[1] == bos {
        toks.remove(0);
        assert(toks@ =~= old(toks)@.drop_first());
    }
}

/// The fingerprints whose labels are all one token: read in rounds of
/// forks. The others are read one by one as a trie.
pub fn single_token_prompts(n: usize, cands: &Vec<Vec<Vec<Token>>>) -> (out: Vec<usize>)
    requires
        n <= cands@.len(),
    ensures
        out@ == Seq::new(n as nat, |i: int| i as usize).filter(
            |i: usize| forall|c: int| 0 <= c < cands@[i as int]@.len() ==> #[trigger] cands@[i as int]@[c]@.len() == 1,
        ),
{
    let ghost keep = |i: usize| forall|c: int| 0 <= c < cands@[i as int]@.len() ==> #[trigger] cands@[i as int]@[c]@.len() == 1;
    let mut out: Vec<usize> = Vec::new();
    for i in 0..n
        invariant
            n <= cands@.len(),
            keep == (|i: usize| forall|c: int| 0 <= c < cands@[i as int]@.len() ==> #[trigger] cands@[i as int]@[c]@.len() == 1),
            out@ == Seq::new(i as nat, |k: int| k as usize).filter(keep),
    {
        let cs = &cands[i];
        let m = cs.len();
        let mut all = true;
        for c in 0..m
            invariant
                m == cs@.len(),
                *cs == cands@[i as int],
                all == forall|d: int| 0 <= d < c ==> #[trigger] cs@[d]@.len() == 1,
        {
            if cs[c].len() != 1 {
                all = false;
            }
        }
        let ghost before = Seq::new(i as nat, |k: int| k as usize);
        let ghost after = Seq::new((i + 1) as nat, |k: int| k as usize);
        assert(after.drop_last() =~= before);
        reveal_with_fuel(Seq::filter, 1);
        assert(keep(i) == all);
        if all {
            out.push(i);
        }
        assert(after.filter(keep) =~= out@);
    }
    out
}

/// The end of the round that starts at `i`, grown from `j` with `cells`
/// of the cache taken: as many next fingerprints as there are forks and
/// cells for.
pub open spec fn round_end(
    sizes: Seq<nat>,
    shared: nat,
    forks: nat,
    n_ctx: nat,
    i: nat,
    j: nat,
    cells: nat,
) -> nat
    decreases sizes.len() - j,
{
    if j < sizes.len() && j - i < forks && cells + (sizes[j as int] - shared) <= n_ctx {
        round_end(sizes, shared, forks, n_ctx, i, j + 1, (cells + (sizes[j as int] - shared)) as nat)
    } else {
        j
    }
}

/// Rounds of fingerprints decoded together, from the `i`th on: a list of
/// `[start, end)` ranges, or the first fingerprint that fits no round.
pub open spec fn rounds_from(sizes: Seq<nat>, shared: nat, forks: nat, n_ctx: nat, i: nat) -> Result<
    Seq<(nat, nat)>,
    nat,
>
    decreases sizes.len() - i,
{
    if i >= sizes.len() {
        Ok(Seq::empty())
    } else {
        let j = round_end(sizes, shared, forks, n_ctx, i, i, shared);
        proof {
            lemma_round_end_grows(sizes, shared, forks, n_ctx, i, i, shared);
        }
        if j <= i {
            Err(i)
        } else {
            match rounds_from(sizes, shared, forks, n_ctx, j) {
                Ok(rest) => Ok(seq![(i, j)] + rest),
                Err(k) => Err(k),
            }
        }
    }
}

/// A round ends no earlier than it was grown to, and inside the list.
pub proof fn lemma_round_end_grows(
    sizes: Seq<nat>,
    shared: nat,
    forks: nat,
    n_ctx: nat,
    i: nat,
    j: nat,
    cells: nat,
)
    ensures
        round_end(sizes, shared, forks, n_ctx, i, j, cells) >= j,
        j <= sizes.len() ==> round_end(sizes, shared, forks, n_ctx, i, j, cells) <= sizes.len(),
    decreases sizes.len() - j,
{
    if j < sizes.len() && j - i < forks && cells + (sizes[j as int] - shared) <= n_ctx {
        lemma_round_end_grows(
            sizes,
            shared,
            forks,
            n_ctx,
            i,
            j + 1,
            (cells + (sizes[j as int] - shared)) as nat,
        );
    }
}

/// The prompts' lengths, as the rounds read them.
pub open spec fn sizes_of(lens: Seq<usize>) -> Seq<nat> {
    lens.map_values(|l: usize| l as nat)
}

/// Split the one-token fingerprints (their prompts' lengths, in order)
/// into rounds: each takes as many as there are forks and cache cells for,
/// the session counted once. A fingerprint that fits no round is refused.
pub fn plan_rounds(lens: &Vec<usize>, shared: usize, forks: usize, n_ctx: usize) -> (r: Result<
    Vec<(usize, usize)>,
    BackendError,
>)
    requires
        forall|i: int| 0 <= i < lens@.len() ==> shared <= #[trigger] lens@[i],
    ensures
        match rounds_from(sizes_of(lens@), shared as nat, forks as nat, n_ctx as nat, 0) {
            Ok(rs) => r matches Ok(v) && v@.map_values(|p: (usize, usize)| (p.0 as nat, p.1 as nat))
                == rs,
            Err(k) => k < lens@.len() && (r matches Err(BackendError::Rejected(m)) && m@
                == "a prompt of "@ + crate::text::digits(lens@[k as int] as nat, 10)
                + " tokens does not fit a context of "@ + crate::text::digits(n_ctx as nat, 10)),
        },
{
    let ghost sz = sizes_of(lens@);
    let mut out: Vec<(usize, usize)> = Vec::new();
    let n = lens.len();
    let mut i: usize = 0;
    while i < n
        invariant
            n == lens@.len(),
            sz == sizes_of(lens@),
            i <= n,
            forall|k: int| 0 <= k < lens@.len() ==> shared <= #[trigger] lens@[k],
            rounds_from(sz, shared as nat, forks as nat, n_ctx as nat, 0) == match rounds_from(
                sz,
                shared as nat,
                forks as nat,
                n_ctx as nat,
                i as nat,
            ) {
                Ok(rest) => Ok(out@.map_values(|p: (usize, usize)| (p.0 as nat, p.1 as nat)) + rest),
                Err(k) => Err(k),
            },
        decreases n - i,
    {
        let mut j = i;
        let mut cells: u128 = shared as u128;
        while j < n && j - i < forks && cells + ((lens[j] - shared) as u128) <= n_ctx as u128
            invariant
                n == lens@.len(),
                sz == sizes_of(lens@),
                i <= j <= n,
                cells <= n_ctx || j == i,
                cells == shared || j > i,
                forall|k: int| 0 <= k < lens@.len() ==> shared <= #[trigger] lens@[k],
                round_end(sz, shared as nat, forks as nat, n_ctx as nat, i as nat, i as nat, shared as nat)
                    == round_end(sz, shared as nat, forks as nat, n_ctx as nat, i as nat, j as nat, cells as nat),
                cells <= usize::MAX,
            decreases n - j,
        {
            cells = cells + (lens[j] - shared) as u128;
            j = j + 1;
        }
        if j == i {
            let mut m = owned("a prompt of ");
            push_dec(&mut m, lens[i] as u128);
            m.append(" tokens does not fit a context of ");
            push_dec(&mut m, n_ctx as u128);
            return Err(BackendError::Rejected(m));
        }
        let ghost before = out@.map_values(|p: (usize, usize)| (p.0 as nat, p.1 as nat));
        out.push((i, j));
        assert(out@.map_values(|p: (usize, usize)| (p.0 as nat, p.1 as nat)) =~= before.push(
            (i as nat, j as nat),
        ));
        proof {
            match rounds_from(sz, shared as nat, forks as nat, n_ctx as nat, j as nat) {
                Ok(rest) => {
                    assert(before + (seq![(i as nat, j as nat)] + rest) =~= before.push(
                        (i as nat, j as nat),
                    ) + rest);
                },
                Err(k) => {},
            }
        }
        i = j;
    }
    assert(out@.map_values(|p: (usize, usize)| (p.0 as nat, p.1 as nat)) + Seq::<(nat, nat)>::empty()
        =~= out@.map_values(|p: (usize, usize)| (p.0 as nat, p.1 as nat)));
    Ok(out)
}

/// The cache cells a round `[i, j)` takes: the session once, every suffix.
pub open spec fn cells_of(sizes: Seq<nat>, shared: nat, i: nat, j: nat) -> int
    decreases j - i,
{
    if j <= i {
        shared as int
    } else {
        cells_of(sizes, shared, i, (j - 1) as nat) + (sizes[j - 1] - shared)
    }
}

proof fn lemma_round_end_fits(
    sizes: Seq<nat>,
    shared: nat,
    forks: nat,
    n_ctx: nat,
    i: nat,
    j: nat,
    cells: nat,
)
    requires
        i <= j <= sizes.len(),
        j - i <= forks,
        cells == cells_of(sizes, shared, i, j),
        j == i || cells <= n_ctx,
        forall|k: int| 0 <= k < sizes.len() ==> shared <= #[trigger] sizes[k],
    ensures
        ({
            let e = round_end(sizes, shared, forks, n_ctx, i, j, cells);
            &&& j <= e <= sizes.len()
            &&& e - i <= forks
            &&& (e == i || cells_of(sizes, shared, i, e) <= n_ctx)
            &&& (e == sizes.len() || e - i == forks || cells_of(sizes, shared, i, e) + (
            sizes[e as int] - shared) > n_ctx)
        }),
    decreases sizes.len() - j,
{
    if j < sizes.len() && j - i < forks && cells + (sizes[j as int] - shared) <= n_ctx {
        assert(cells_of(sizes, shared, i, j + 1) == cells + (sizes[j as int] - shared));
        lemma_round_end_fits(
            sizes,
            shared,
            forks,
            n_ctx,
            i,
            j + 1,
            (cells + (sizes[j as int] - shared)) as nat,
        );
    }
}

/// The rounds cover every one-token fingerprint once, in order; each takes
/// at most `forks` of them, and they fit the cache together with the
/// session; a round ends only where one more would not fit.
pub proof fn lemma_rounds_fit(sizes: Seq<nat>, shared: nat, forks: nat, n_ctx: nat, i: nat)
    requires
        i <= sizes.len(),
        forall|k: int| 0 <= k < sizes.len() ==> shared <= #[trigger] sizes[k],
    ensures
        rounds_from(sizes, shared, forks, n_ctx, i) matches Ok(rs) ==> {
            &&& (rs.len() == 0 <==> i == sizes.len())
            &&& rs.len() > 0 ==> rs[0].0 == i && rs.last().1 == sizes.len()
            &&& forall|k: int| 0 <= k < rs.len() - 1 ==> #[trigger] rs[k].1 == rs[k + 1].0
            &&& forall|k: int|
                0 <= k < rs.len() ==> {
                    &&& #[trigger] rs[k].0 < rs[k].1
                    &&& rs[k].1 - rs[k].0 <= forks
                    &&& cells_of(sizes, shared, rs[k].0, rs[k].1) <= n_ctx
                    &&& (rs[k].1 == sizes.len() || rs[k].1 - rs[k].0 == forks || cells_of(
                        sizes,
                        shared,
                        rs[k].0,
                        rs[k].1,
                    ) + (sizes[rs[k].1 as int] - shared) > n_ctx)
                }
        },
    decreases sizes.len() - i,
{
    if i < sizes.len() {
        lemma_round_end_fits(sizes, shared, forks, n_ctx, i, i, shared);
        let j = round_end(sizes, shared, forks, n_ctx, i, i, shared);
        if j > i {
            lemma_rounds_fit(sizes, shared, forks, n_ctx, j);
            if let Ok(rs) = rounds_from(sizes, shared, forks, n_ctx, i) {
                let rest = rounds_from(sizes, shared, forks, n_ctx, j)->Ok_0;
                assert(rs == seq![(i, j)] + rest);
                assert forall|k: int| 0 <= k < rs.len() - 1 implies #[trigger] rs[k].1 == rs[k
                    + 1].0 by {
                    if k > 0 {
                        assert(rs[k] == rest[k - 1]);
                        assert(rs[k + 1] == rest[k]);
                    }
                }
                assert forall|k: int| 0 <= k < rs.len() implies {
                    &&& #[trigger] rs[k].0 < rs[k].1
                    &&& rs[k].1 - rs[k].0 <= forks
                    &&& cells_of(sizes, shared, rs[k].0, rs[k].1) <= n_ctx
                    &&& (rs[k].1 == sizes.len() || rs[k].1 - rs[k].0 == forks || cells_of(
                        sizes,
                        shared,
                        rs[k].0,
                        rs[k].1,
                    ) + (sizes[rs[k].1 as int] - shared) > n_ctx)
                } by {
                    if k > 0 {
                        assert(rs[k] == rest[k - 1]);
                    }
                }
                if rest.len() > 0 {
                    assert(rs.last() == rest.last());
                }
            }
        }
    }
}

/// Who pays for the session: the first fingerprint is charged the part of
/// it that was decoded now (`shared - start`, `start` tokens having been
/// kept from an earlier request) and shows those as cached; every other
/// fingerprint shows the whole session as cached. Returns (evaluated,
/// cached).
pub fn session_charge(n: usize, evaluated: u64, shared: u64, start: u64) -> (r: (u64, u64))
    requires
        start <= shared,
        evaluated + shared <= u64::MAX,
    ensures
        n == 0 ==> r == (((evaluated + shared - start) as u64, start)),
        n != 0 ==> r == ((evaluated, shared)),
{
    if n == 0 {
        (evaluated + (shared - start), start)
    } else {
        (evaluated, shared)
    }
}

/// One token of a decode: the token, its position, its sequence, and the
/// output slot its reading goes to (none for a token read past).
pub type Step = (Token, i32, i32, Option<usize>);

/// The decode of one fingerprint's suffix past the session, on sequence
/// `seq`: every token at its position, read only at the last, into `slot`.
pub open spec fn suffix_steps(p: Seq<Token>, shared: nat, seq: nat, slot: usize) -> Seq<Step> {
    Seq::new(
        (p.len() - shared) as nat,
        |m: int|
            (
                p[shared + m],
                (shared + m) as i32,
                seq as i32,
                if m + 1 == p.len() - shared {
                    Some(slot)
                } else {
                    None
                },
            ),
    )
}

/// One round's decode: the fingerprints `ids`, the `k`th on sequence
/// `k + 1` (each a copy of the session), their suffixes one after another,
/// each read into its own slot.
pub open spec fn round_steps(prompts: Seq<Seq<Token>>, ids: Seq<usize>, shared: nat) -> Seq<Step>
    decreases ids.len(),
{
    if ids.len() == 0 {
        Seq::empty()
    } else {
        round_steps(prompts, ids.drop_last(), shared) + suffix_steps(
            prompts[ids.last() as int],
            shared,
            ids.len(),
            ids.last(),
        )
    }
}

fn push_suffix(plan: &mut Vec<Step>, p: &Vec<Token>, shared: usize, seq: usize, slot: usize)
    requires
        shared <= p@.len() <= i32::MAX,
        seq <= i32::MAX,
    ensures
        final(plan)@ == old(plan)@ + suffix_steps(p@, shared as nat, seq as nat, slot),
{
    let ghost start = plan@;
    let n = p.len();
    let mut m = shared;
    assert(suffix_steps(p@, shared as nat, seq as nat, slot).take(0) =~= Seq::<Step>::empty());
    assert(start + Seq::<Step>::empty() =~= start);
    while m < n
        invariant
            shared <= m <= n,
            n == p@.len(),
            n <= i32::MAX,
            seq <= i32::MAX,
            plan@ == start + suffix_steps(p@, shared as nat, seq as nat, slot).take(m - shared),
        decreases n - m,
    {
        let out = if m + 1 == n {
            Some(slot)
        } else {
            None
        };
        plan.push((p[m], m as i32, seq as i32, out));
        assert(suffix_steps(p@, shared as nat, seq as nat, slot).take(m + 1 - shared) =~= suffix_steps(
            p@,
            shared as nat,
            seq as nat,
            slot,
        ).take(m - shared).push((p@[m as int], m as i32, seq as i32, out)));
        m = m + 1;
    }
    assert(suffix_steps(p@, shared as nat, seq as nat, slot).take(n - shared) =~= suffix_steps(
        p@,
        shared as nat,
        seq as nat,
        slot,
    ));
}

/// The decode of one round of forks: fingerprint `ids[k]` on sequence
/// `k + 1`, every suffix token at its place in the prompt, each suffix read
/// only at its last token, into the fingerprint's own slot.
pub fn round_plan(prompts: &Vec<Vec<Token>>, ids: &Vec<usize>, shared: usize) -> (plan: Vec<Step>)
    requires
        ids@.len() < i32::MAX,
        forall|k: int| 0 <= k < ids@.len() ==> (#[trigger] ids@[k] as int) < prompts@.len(),
        forall|i: int|
            0 <= i < prompts@.len() ==> shared <= #[trigger] prompts@[i]@.len() <= i32::MAX,
    ensures
        plan@ == round_steps(tokens(prompts@), ids@, shared as nat),
{
    let mut plan: Vec<Step> = Vec::new();
    let n = ids.len();
    for k in 0..n
        invariant
            n == ids@.len(),
            n < i32::MAX,
            forall|q: int| 0 <= q < ids@.len() ==> (#[trigger] ids@[q] as int) < prompts@.len(),
            forall|i: int|
                0 <= i < prompts@.len() ==> shared <= #[trigger] prompts@[i]@.len() <= i32::MAX,
            plan@ == round_steps(tokens(prompts@), ids@.take(k as int), shared as nat),
    {
        let f = ids[k];
        assert(ids@.take(k + 1).drop_last() =~= ids@.take(k as int));
        assert(tokens(prompts@)[f as int] == prompts@[f as int]@);
        push_suffix(&mut plan, &prompts[f], shared, k + 1, f);
    }
    assert(ids@.take(n as int) =~= ids@);
    plan
}

/// The decode of a round of trie probes after a prompt of `len` tokens: the
/// `k`th probe on sequence `k + 2` (a copy of the fingerprint's), its tokens
/// past the prompt's end, read at its last into slot `k`.
pub open spec fn probe_steps(probes: Seq<Seq<Token>>, len: nat) -> Seq<Step>
    decreases probes.len(),
{
    if probes.len() == 0 {
        Seq::empty()
    } else {
        let k = (probes.len() - 1) as nat;
        let p = probes.last();
        probe_steps(probes.drop_last(), len) + Seq::new(
            p.len(),
            |m: int|
                (
                    p[m],
                    (len + m) as i32,
                    (k + 2) as i32,
                    if m + 1 == p.len() {
                        Some(k as usize)
                    } else {
                        None
                    },
                ),
        )
    }
}

/// The decode of one round of trie probes, each a proper prefix of some
/// labels read one step further than the fingerprint's end.
pub fn probe_plan(probes: &Vec<Vec<Token>>, len: usize) -> (plan: Vec<Step>)
    requires
        probes@.len() + 2 <= i32::MAX,
        forall|k: int| 0 <= k < probes@.len() ==> len + (#[trigger] probes@[k])@.len() <= i32::MAX,
    ensures
        plan@ == probe_steps(tokens(probes@), len as nat),
{
    let mut plan: Vec<Step> = Vec::new();
    let n = probes.len();
    for k in 0..n
        invariant
            n == probes@.len(),
            n + 2 <= i32::MAX,
            forall|q: int| 0 <= q < probes@.len() ==> len + (#[trigger] probes@[q])@.len() <= i32::MAX,
            plan@ == probe_steps(tokens(probes@).take(k as int), len as nat),
    {
        let p = &probes[k];
        let ghost start = plan@;
        let ghost want = Seq::new(
            p@.len(),
            |m: int|
                (
                    p@[m],
                    (len + m) as i32,
                    (k + 2) as i32,
                    if m + 1 == p@.len() {
                        Some(k as usize)
                    } else {
                        None
                    },
                ),
        );
        let pn = p.len();
        for m in 0..pn
            invariant
                pn == p@.len(),
                len + pn <= i32::MAX,
                k + 2 <= i32::MAX,
                want == Seq::new(
                    p@.len(),
                    |m: int|
                        (
                            p@[m],
                            (len + m) as i32,
                            (k + 2) as i32,
                            if m + 1 == p@.len() {
                                Some(k as usize)
                            } else {
                                None
                            },
                        ),
                ),
                plan@ == start + want.take(m as int),
        {
            let out = if m + 1 == pn {
                Some(k)
            } else {
                None
            };
            plan.push((p[m], (len + m) as i32, (k + 2) as i32, out));
            assert(want.take(m + 1) =~= want.take(m as int).push((p@[m as int], (len + m) as i32, (k + 2) as i32, out)));
        }
        assert(want.take(pn as int) =~= want);
        assert(tokens(probes@).take(k + 1).drop_last() =~= tokens(probes@).take(k as int));
        assert(tokens(probes@)[k as int] == p@);
    }
    assert(tokens(probes@).take(n as int) =~= tokens(probes@));
    plan
}

/// The control reading's decode: the whole prompt on sequence 0 from an
/// empty cache, read only at its last token.
pub fn control_plan(toks: &Vec<Token>) -> (plan: Vec<Step>)
    requires
        1 <= toks@.len() <= i32::MAX,
    ensures
        plan@ == suffix_steps(toks@, 0, 0, 0),
{
    let mut plan: Vec<Step> = Vec::new();
    push_suffix(&mut plan, toks, 0, 0, 0);
    assert(plan@ =~= suffix_steps(toks@, 0, 0, 0));
    plan
}

/// Where the split reading cuts a prompt of `len` tokens: at `at`, but
/// never past the last token, which the second decode must read.
pub fn split_point(at: usize, len: usize) -> (cut: usize)
    requires
        len >= 1,
    ensures
        cut == (if at < len - 1 {
            at
        } else {
            (len - 1) as usize
        }),
{
    if at < len - 1 {
        at
    } else {
        len - 1
    }
}

/// How to open the engine.
#[derive(Debug, Clone)]
pub struct Options {
    /// The GGUF file.
    pub gguf: String,
    /// Cells of the unified cache: the session plus every suffix of one
    /// round of forks must fit.
    pub n_ctx: u32,
    /// Fingerprints evaluated together (sequences 1..=forks).
    pub forks: u32,
    /// Tokens handed to one `llama_decode`.
    pub n_batch: u32,
    /// Tokens in one physical step of a decode.
    pub n_ubatch: u32,
    /// Threads for llama.cpp's own work (not the cards' daemons).
    pub threads: i32,
    /// Where the CPU variants are loaded from; the build's own by default.
    pub backend_dir: Option<String>,
    /// Show llama.cpp's informational log, not only its warnings.
    pub verbose: bool,
    /// Let llama.cpp repack weights for this host's CPU. Off by default:
    /// a repacked copy sits beside the mapped file, and with the Phi
    /// payload loaded a repacked weight lives in a CPU-only buffer the
    /// payload is never offered, so it could never reach a card.
    pub repack: bool,
    /// Let llama.cpp use flash attention where it would (off on the avx512
    /// site).
    pub flash_attn: bool,
    /// Map the subject without `MAP_POPULATE`, its pages read in as they
    /// are used. For the offloaded sites.
    pub lazy_pages: bool,
}

impl Options {
    /// Defaults for a file: 12 threads when the Phi backend is loaded
    /// (`payload`: the card daemons need the rest; more costs 5x at one
    /// token), else 16.
    pub fn new(gguf: String, payload: bool) -> (o: Options)
        ensures
            o.gguf == gguf,
            o.n_ctx == 16384,
            o.forks == 15,
            o.n_batch == 2048,
            o.n_ubatch == 512,
            o.threads == if payload {
                12i32
            } else {
                16i32
            },
            o.backend_dir is None,
            !o.verbose,
            !o.repack,
            o.flash_attn,
            !o.lazy_pages,
    {
        Options {
            gguf,
            n_ctx: 16384,
            forks: 15,
            n_batch: 2048,
            n_ubatch: 512,
            threads: if payload {
                12
            } else {
                16
            },
            backend_dir: None,
            verbose: false,
            repack: false,
            flash_attn: true,
            lazy_pages: false,
        }
    }
}


/// A string as Rust's `Debug` writes it: in double quotes, with quotes,
/// backslashes and characters that are not printable escaped.
pub uninterp spec fn debug_text(s: Seq<char>) -> Seq<char>;

/// `format!("{s:?}")`: `s` as `Debug` writes a `str`. Which characters
/// it escapes, and how, is std's (its Unicode tables); the contract only
/// names the result, a function of `s` alone.
#[verifier::external_body]
fn debug_quoted(s: &str) -> (out: String)
    ensures
        out@ == debug_text(s@),
{
    format!("{s:?}")
}

/// What a label that tokenizes to nothing is told, from the label as
/// `Debug` quotes it.
pub fn no_tokens_message(quoted: &str) -> (m: String)
    ensures
        m@ == "label "@ + quoted@ + " has no tokens"@,
{
    let mut m = owned("label ");
    m.append(quoted);
    m.append(" has no tokens");
    m
}

/// What a label of several tokens is told where one is read, from the
/// label as `Debug` quotes it and its number of tokens.
pub fn many_tokens_message(quoted: &str, tokens: usize) -> (m: String)
    ensures
        m@ == "label "@ + quoted@ + " is "@ + digits(tokens as nat, 10)
            + " tokens; the polygraph reads one-token labels"@,
{
    let mut m = owned("label ");
    m.append(quoted);
    m.append(" is ");
    push_dec(&mut m, tokens as u128);
    m.append(" tokens; the polygraph reads one-token labels");
    m
}

/// A label's tokens accepted, or refused when it has none: an option
/// label must be something the subject can answer.
pub fn label_refusal(label: &str, tokens: usize) -> (r: Option<BackendError>)
    ensures
        tokens > 0 ==> r is None,
        tokens == 0 ==> (r matches Some(BackendError::Rejected(m)) && m@ == "label "@ + debug_text(
            label@,
        ) + " has no tokens"@),
{
    if tokens == 0 {
        let q = debug_quoted(label);
        Some(BackendError::Rejected(no_tokens_message(q.as_str())))
    } else {
        None
    }
}

/// A label for the polygraph's single-sequence readings: refused when it
/// has no tokens, or more than one.
pub fn one_token_refusal(label: &str, tokens: usize) -> (r: Option<BackendError>)
    ensures
        tokens == 1 ==> r is None,
        tokens == 0 ==> (r matches Some(BackendError::Rejected(m)) && m@ == "label "@ + debug_text(
            label@,
        ) + " has no tokens"@),
        tokens > 1 ==> (r matches Some(BackendError::Rejected(m)) && m@ == "label "@ + debug_text(
            label@,
        ) + " is "@ + digits(tokens as nat, 10) + " tokens; the polygraph reads one-token labels"@),
{
    if tokens == 0 {
        label_refusal(label, tokens)
    } else if tokens > 1 {
        let q = debug_quoted(label);
        Some(BackendError::Rejected(many_tokens_message(q.as_str(), tokens)))
    } else {
        None
    }
}
} // verus!
