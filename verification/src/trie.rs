//! The engine's trie of label prefixes, for labels of several tokens: what
//! each node (the tokens of a label so far) needs read, and where each
//! label's tokens are read along it. A label's log-probability is the sum of
//! its tokens' along that path; the reading and the sum are the engine's.
use vstd::prelude::*;

use crate::artichoke::Token;
use crate::backend::BackendError;
use crate::text::owned;

verus! {

/// Token sequences in `Vec`'s order: lexicographic, a proper prefix first.
pub open spec fn lex_lt(a: Seq<Token>, b: Seq<Token>) -> bool
    decreases a.len(),
{
    if b.len() == 0 {
        false
    } else if a.len() == 0 {
        true
    } else if a[0] != b[0] {
        a[0] < b[0]
    } else {
        lex_lt(a.drop_first(), b.drop_first())
    }
}

/// Nothing comes before itself.
pub proof fn lemma_lex_irreflexive(a: Seq<Token>)
    ensures
        !lex_lt(a, a),
    decreases a.len(),
{
    if a.len() > 0 {
        lemma_lex_irreflexive(a.drop_first());
    }
}

/// The order is transitive.
pub proof fn lemma_lex_transitive(a: Seq<Token>, b: Seq<Token>, c: Seq<Token>)
    requires
        lex_lt(a, b),
        lex_lt(b, c),
    ensures
        lex_lt(a, c),
    decreases a.len(),
{
    if a.len() > 0 && a[0] == b[0] && b[0] == c[0] {
        lemma_lex_transitive(a.drop_first(), b.drop_first(), c.drop_first());
    }
}

/// Two different sequences are ordered one way or the other.
pub proof fn lemma_lex_total(a: Seq<Token>, b: Seq<Token>)
    requires
        a != b,
    ensures
        lex_lt(a, b) || lex_lt(b, a),
    decreases a.len(),
{
    if a.len() > 0 && b.len() > 0 && a[0] == b[0] {
        if a.drop_first() == b.drop_first() {
            assert(a =~= seq![a[0]] + a.drop_first());
            assert(b =~= seq![b[0]] + b.drop_first());
        }
        lemma_lex_total(a.drop_first(), b.drop_first());
    } else if a.len() == 0 && b.len() == 0 {
        assert(a =~= b);
    }
}

/// `a` comes strictly before `b`.
fn lex_less(a: &Vec<Token>, b: &Vec<Token>) -> (r: bool)
    ensures
        r == lex_lt(a@, b@),
{
    let n = a.len();
    let m = b.len();
    let mut i: usize = 0;
    assert(a@.skip(0) =~= a@);
    assert(b@.skip(0) =~= b@);
    while i < n && i < m && a[i] == b[i]
        invariant
            n == a@.len(),
            m == b@.len(),
            i <= n,
            i <= m,
            lex_lt(a@, b@) == lex_lt(a@.skip(i as int), b@.skip(i as int)),
        decreases n - i,
    {
        assert(a@.skip(i as int).drop_first() =~= a@.skip(i + 1));
        assert(b@.skip(i as int).drop_first() =~= b@.skip(i + 1));
        i = i + 1;
    }
    if i == m {
        false
    } else if i == n {
        true
    } else {
        a[i] < b[i]
    }
}

/// Whether two token sequences are the same.
fn same_tokens(a: &Vec<Token>, b: &Vec<Token>) -> (r: bool)
    ensures
        r == (a@ == b@),
{
    if a.len() != b.len() {
        return false;
    }
    let n = a.len();
    for i in 0..n
        invariant
            n == a@.len(),
            n == b@.len(),
            forall|j: int| 0 <= j < i ==> a@[j] == b@[j],
    {
        if a[i] != b[i] {
            return false;
        }
    }
    assert(a@ =~= b@);
    true
}

/// Every step of one label: the tokens before it (a node of the trie) and
/// the token it takes.
pub open spec fn label_steps(c: Seq<Token>) -> Seq<(Seq<Token>, Token)> {
    Seq::new(c.len(), |d: int| (c.take(d), c[d]))
}

/// Every step of every label, labels in order.
pub open spec fn steps(cands: Seq<Seq<Token>>) -> Seq<(Seq<Token>, Token)>
    decreases cands.len(),
{
    if cands.len() == 0 {
        Seq::empty()
    } else {
        steps(cands.drop_last()) + label_steps(cands.last())
    }
}

/// What `node` needs read: the tokens the steps take from it, each once,
/// in the order first seen.
pub open spec fn needs_at(st: Seq<(Seq<Token>, Token)>, node: Seq<Token>) -> Seq<Token>
    decreases st.len(),
{
    if st.len() == 0 {
        Seq::empty()
    } else {
        let rest = needs_at(st.drop_last(), node);
        if st.last().0 == node && !rest.contains(st.last().1) {
            rest.push(st.last().1)
        } else {
            rest
        }
    }
}

/// Whether some step starts at `node`.
pub open spec fn is_node(st: Seq<(Seq<Token>, Token)>, node: Seq<Token>) -> bool {
    exists|i: int| 0 <= i < st.len() && (#[trigger] st[i]).0 == node
}

/// Whether `nodes` are in strictly increasing order.
pub open spec fn sorted(nodes: Seq<Seq<Token>>) -> bool {
    forall|i: int, j: int| 0 <= i < j < nodes.len() ==> lex_lt(#[trigger] nodes[i], #[trigger] nodes[j])
}

/// Tokens sequences as their contents.
pub open spec fn token_views(v: Seq<Vec<Token>>) -> Seq<Seq<Token>> {
    v.map_values(|t: Vec<Token>| t@)
}

/// What the trie is for a list of steps: its nodes, each once and in
/// order, exactly the places some step starts at, each with what it needs.
pub open spec fn trie_of(nodes: Seq<Seq<Token>>, next: Seq<Seq<Token>>, st: Seq<(Seq<Token>, Token)>) -> bool {
    &&& nodes.len() == next.len()
    &&& sorted(nodes)
    &&& forall|k: int| 0 <= k < nodes.len() ==> #[trigger] next[k] == needs_at(st, nodes[k])
    &&& forall|x: Seq<Token>| is_node(st, x) <==> nodes.contains(x)
}

/// A node no step starts at needs nothing.
proof fn lemma_needs_empty(st: Seq<(Seq<Token>, Token)>, node: Seq<Token>)
    requires
        !is_node(st, node),
    ensures
        needs_at(st, node) == Seq::<Token>::empty(),
    decreases st.len(),
{
    if st.len() > 0 {
        assert(!is_node(st.drop_last(), node)) by {
            if is_node(st.drop_last(), node) {
                let i = choose|i: int| 0 <= i < st.drop_last().len() && (#[trigger] st.drop_last()[i]).0 == node;
                assert(st[i].0 == node);
            }
        }
        assert(st[st.len() - 1].0 != node);
        lemma_needs_empty(st.drop_last(), node);
    }
}

/// A token a step takes from a node is among what the node needs.
pub proof fn lemma_step_needed(st: Seq<(Seq<Token>, Token)>, i: int)
    requires
        0 <= i < st.len(),
    ensures
        needs_at(st, st[i].0).contains(st[i].1),
    decreases st.len(),
{
    if i < st.len() - 1 {
        lemma_step_needed(st.drop_last(), i);
        assert(st.drop_last()[i] == st[i]);
        let rest = needs_at(st.drop_last(), st[i].0);
        let k = choose|k: int| 0 <= k < rest.len() && rest[k] == st[i].1;
        if st.last().0 == st[i].0 && !rest.contains(st.last().1) {
            assert(rest.push(st.last().1)[k] == st[i].1);
        }
    } else {
        let rest = needs_at(st.drop_last(), st[i].0);
        if !rest.contains(st[i].1) {
            assert(rest.push(st[i].1)[rest.len() as int] == st[i].1);
        }
    }
}

/// One step added to a trie: its node found (and its token added when new
/// there) or inserted in order.
fn add_step(
    nodes: &mut Vec<Vec<Token>>,
    next: &mut Vec<Vec<Token>>,
    node: Vec<Token>,
    t: Token,
    Ghost(st): Ghost<Seq<(Seq<Token>, Token)>>,
)
    requires
        trie_of(token_views(old(nodes)@), token_views(old(next)@), st),
    ensures
        trie_of(token_views(final(nodes)@), token_views(final(next)@), st.push((node@, t))),
{
    let ghost st2 = st.push((node@, t));
    let ghost nv = token_views(nodes@);
    let n = nodes.len();
    let mut i: usize = 0;
    while i < n && lex_less(&nodes[i], &node)
        invariant
            n == nodes@.len(),
            i <= n,
            nv == token_views(nodes@),
            forall|j: int| 0 <= j < i ==> lex_lt(#[trigger] nv[j], node@),
        decreases n - i,
    {
        i = i + 1;
    }
    proof {
        assert forall|x: Seq<Token>| is_node(st2, x) <==> (is_node(st, x) || x == node@) by {
            if is_node(st2, x) {
                let k = choose|k: int| 0 <= k < st2.len() && (#[trigger] st2[k]).0 == x;
                if k < st.len() {
                    assert(st[k] == st2[k]);
                }
            }
            if is_node(st, x) {
                let k = choose|k: int| 0 <= k < st.len() && (#[trigger] st[k]).0 == x;
                assert(st2[k] == st[k]);
            }
            if x == node@ {
                assert(st2[st.len() as int].0 == x);
            }
        }
        assert(st2.drop_last() =~= st);
    }
    if i < n && same_tokens(&nodes[i], &node) {
        assert(next@.len() == n);
        let ghost old_next = token_views(next@);
        let mut there = false;
        let m = next[i].len();
        for k in 0..m
            invariant
                i < next@.len(),
                m == next@[i as int]@.len(),
                there == (exists|q: int| 0 <= q < k && next@[i as int]@[q] == t),
        {
            if next[i][k] == t {
                there = true;
            }
        }
        assert(there == next@[i as int]@.contains(t));
        if !there {
            let mut row = next[i].clone();
            row.push(t);
            next.set(i, row);
        }
        proof {
            assert forall|k: int| 0 <= k < nv.len() implies #[trigger] token_views(next@)[k]
                == needs_at(st2, nv[k]) by {
                if k != i {
                    assert(token_views(next@)[k] == old_next[k]);
                    if nv[k] == node@ {
                        if k < i {
                            assert(lex_lt(nv[k], nv[i as int]));
                        } else {
                            assert(lex_lt(nv[i as int], nv[k]));
                        }
                        lemma_lex_irreflexive(node@);
                    }
                } else {
                    assert(old_next[k] == needs_at(st, node@));
                }
            }
            assert forall|x: Seq<Token>| is_node(st2, x) <==> nv.contains(x) by {
                if x == node@ {
                    assert(nv[i as int] == x);
                }
            }
        }
    } else {
        proof {
            if i < n {
                lemma_lex_total(nv[i as int], node@);
            }
            assert(!nv.contains(node@)) by {
                if nv.contains(node@) {
                    let k = choose|k: int| 0 <= k < nv.len() && nv[k] == node@;
                    lemma_lex_irreflexive(node@);
                    if k < i {
                        assert(lex_lt(nv[k], node@));
                    } else if k > i {
                        assert(lex_lt(nv[i as int], nv[k]));
                        lemma_lex_transitive(node@, nv[i as int], nv[k]);
                    }
                }
            }
            lemma_needs_empty(st, node@);
        }
        let ghost old_next = token_views(next@);
        nodes.insert(i, node);
        let mut row: Vec<Token> = Vec::new();
        row.push(t);
        next.insert(i, row);
        proof {
            let nv2 = token_views(nodes@);
            let xv2 = token_views(next@);
            assert(nv2 =~= nv.insert(i as int, node@));
            assert(xv2 =~= old_next.insert(i as int, seq![t]));
            assert forall|a: int, b: int| 0 <= a < b < nv2.len() implies lex_lt(
                #[trigger] nv2[a],
                #[trigger] nv2[b],
            ) by {
                if a < i && b == i {
                } else if a < i && b > i {
                    assert(nv2[b] == nv[b - 1]);
                    if i < n {
                        if b - 1 > i {
                            assert(lex_lt(nv[i as int], nv[b - 1]));
                            lemma_lex_transitive(node@, nv[i as int], nv[b - 1]);
                        }
                        lemma_lex_transitive(nv[a], node@, nv[b - 1]);
                    }
                } else if a == i {
                    assert(nv2[b] == nv[b - 1]);
                    if b - 1 > i {
                        assert(lex_lt(nv[i as int], nv[b - 1]));
                        lemma_lex_transitive(node@, nv[i as int], nv[b - 1]);
                    }
                } else if a > i {
                    assert(nv2[a] == nv[a - 1]);
                    assert(nv2[b] == nv[b - 1]);
                }
            }
            assert(needs_at(st2, node@) =~= seq![t]);
            assert forall|k: int| 0 <= k < nv2.len() implies #[trigger] xv2[k] == needs_at(st2, nv2[k]) by {
                if k < i {
                    assert(nv2[k] == nv[k]);
                    assert(xv2[k] == old_next[k]);
                    assert(nv[k] != node@);
                } else if k > i {
                    assert(nv2[k] == nv[k - 1]);
                    assert(xv2[k] == old_next[k - 1]);
                    assert(nv[k - 1] != node@);
                }
            }
            assert forall|x: Seq<Token>| is_node(st2, x) <==> nv2.contains(x) by {
                if nv.contains(x) {
                    let k = choose|k: int| 0 <= k < nv.len() && nv[k] == x;
                    if k < i {
                        assert(nv2[k] == x);
                    } else {
                        assert(nv2[k + 1] == x);
                    }
                }
                if x == node@ {
                    assert(nv2[i as int] == x);
                }
                if nv2.contains(x) {
                    let k = choose|k: int| 0 <= k < nv2.len() && nv2[k] == x;
                    if k < i {
                        assert(nv[k] == x);
                    } else if k > i {
                        assert(nv[k - 1] == x);
                    }
                }
            }
        }
    }
}

/// A label's steps come one after another.
proof fn lemma_label_steps_take(c: Seq<Token>, d: int)
    requires
        0 <= d < c.len(),
    ensures
        label_steps(c).take(d + 1) == label_steps(c).take(d).push((c.take(d), c[d])),
{
    assert(label_steps(c).take(d + 1) =~= label_steps(c).take(d).push((c.take(d), c[d])));
}

/// Every step of every label is among the steps.
pub proof fn lemma_step_in(cands: Seq<Seq<Token>>, l: int, d: int)
    requires
        0 <= l < cands.len(),
        0 <= d < cands[l].len(),
    ensures
        exists|i: int|
            0 <= i < steps(cands).len() && #[trigger] steps(cands)[i] == (cands[l].take(d), cands[l][d]),
    decreases cands.len(),
{
    let front = steps(cands.drop_last());
    if l == cands.len() - 1 {
        let i = front.len() + d;
        assert(steps(cands)[i] == label_steps(cands.last())[d]);
    } else {
        lemma_step_in(cands.drop_last(), l, d);
        let i = choose|i: int|
            0 <= i < front.len() && #[trigger] front[i] == (cands.drop_last()[l].take(d), cands.drop_last()[l][d]);
        assert(steps(cands)[i] == front[i]);
    }
}

/// The trie of a request's labels: every label prefix a label goes on from
/// (a node), in `Vec`'s order, and what each needs read next.
#[derive(Debug, Clone)]
pub struct Trie {
    pub nodes: Vec<Vec<Token>>,
    pub next: Vec<Vec<Token>>,
}

impl Trie {
    /// Whether this is the trie of `cands`.
    pub open spec fn of(&self, cands: Seq<Seq<Token>>) -> bool {
        trie_of(token_views(self.nodes@), token_views(self.next@), steps(cands))
    }

    /// The trie of the labels `cands`.
    pub fn build(cands: &Vec<Vec<Token>>) -> (t: Trie)
        ensures
            t.of(token_views(cands@)),
    {
        let mut nodes: Vec<Vec<Token>> = Vec::new();
        let mut next: Vec<Vec<Token>> = Vec::new();
        let ghost cv = token_views(cands@);
        assert(steps(cv.take(0)) =~= Seq::<(Seq<Token>, Token)>::empty());
        assert forall|x: Seq<Token>| is_node(Seq::<(Seq<Token>, Token)>::empty(), x) <==> token_views(
            nodes@,
        ).contains(x) by {}
        let n = cands.len();
        for l in 0..n
            invariant
                n == cands@.len(),
                cv == token_views(cands@),
                trie_of(token_views(nodes@), token_views(next@), steps(cv.take(l as int))),
        {
            let c = &cands[l];
            let ghost before = steps(cv.take(l as int));
            assert(cv[l as int] == c@);
            assert(label_steps(c@).take(0) =~= Seq::<(Seq<Token>, Token)>::empty());
            assert(before + label_steps(c@).take(0) =~= before);
            let m = c.len();
            for d in 0..m
                invariant
                    m == c@.len(),
                    trie_of(token_views(nodes@), token_views(next@), before + label_steps(c@).take(d as int)),
            {
                let mut node: Vec<Token> = Vec::new();
                for e in 0..d
                    invariant
                        d < m,
                        m == c@.len(),
                        node@ == c@.take(e as int),
                {
                    node.push(c[e]);
                    assert(node@ =~= c@.take(e + 1));
                }
                proof {
                    lemma_label_steps_take(c@, d as int);
                }
                add_step(&mut nodes, &mut next, node, c[d], Ghost(before + label_steps(c@).take(d as int)));
                assert((before + label_steps(c@).take(d as int)).push((c@.take(d as int), c@[d as int]))
                    =~= before + label_steps(c@).take(d + 1));
            }
            assert(label_steps(c@).take(m as int) =~= label_steps(c@));
            assert(cv.take(l + 1).drop_last() =~= cv.take(l as int));
            assert(steps(cv.take(l + 1)) == before + label_steps(c@));
        }
        assert(cv.take(n as int) =~= cv);
        Trie { nodes, next }
    }
}

impl Trie {
    /// Where label `l`'s tokens are read: for each of its tokens, the node
    /// of the tokens before it and that token's place among what the node
    /// needs. The label's log-probability is the sum of those readings.
    pub fn label_path(&self, cands: &Vec<Vec<Token>>, l: usize) -> (path: Vec<(usize, usize)>)
        requires
            self.of(token_views(cands@)),
            l < cands@.len(),
        ensures
            path@.len() == cands@[l as int]@.len(),
            forall|d: int|
                0 <= d < path@.len() ==> {
                    let (k, q) = #[trigger] path@[d];
                    &&& k < self.nodes@.len()
                    &&& self.nodes@[k as int]@ == cands@[l as int]@.take(d)
                    &&& q < self.next@[k as int]@.len()
                    &&& self.next@[k as int]@[q as int] == cands@[l as int]@[d]
                },
    {
        let ghost cv = token_views(cands@);
        let ghost st = steps(cv);
        let ghost nv = token_views(self.nodes@);
        let ghost xv = token_views(self.next@);
        let c = &cands[l];
        assert(cv[l as int] == c@);
        let m = c.len();
        let n = self.nodes.len();
        let mut path: Vec<(usize, usize)> = Vec::new();
        for d in 0..m
            invariant
                m == c@.len(),
                n == self.nodes@.len(),
                cv == token_views(cands@),
                st == steps(cv),
                nv == token_views(self.nodes@),
                xv == token_views(self.next@),
                l < cands@.len(),
                cv[l as int] == c@,
                cands@[l as int] == *c,
                trie_of(nv, xv, st),
                path@.len() == d,
                forall|e: int|
                    0 <= e < d ==> {
                        let (k, q) = #[trigger] path@[e];
                        &&& k < self.nodes@.len()
                        &&& self.nodes@[k as int]@ == c@.take(e)
                        &&& q < self.next@[k as int]@.len()
                        &&& self.next@[k as int]@[q as int] == c@[e]
                    },
        {
            let mut prefix: Vec<Token> = Vec::new();
            for e in 0..d
                invariant
                    d < m,
                    m == c@.len(),
                    prefix@ == c@.take(e as int),
            {
                prefix.push(c[e]);
                assert(prefix@ =~= c@.take(e + 1));
            }
            proof {
                lemma_step_in(cv, l as int, d as int);
                let i = choose|i: int| 0 <= i < st.len() && #[trigger] st[i] == (cv[l as int].take(d as int), cv[l as int][d as int]);
                assert(is_node(st, c@.take(d as int)));
                lemma_step_needed(st, i);
            }
            let mut k: usize = 0;
            while k < n && !same_tokens(&self.nodes[k], &prefix)
                invariant
                    n == self.nodes@.len(),
                    nv == token_views(self.nodes@),
                    k <= n,
                    forall|j: int| 0 <= j < k ==> nv[j] != prefix@,
                decreases n - k,
            {
                assert(nv[k as int] == self.nodes@[k as int]@);
                k = k + 1;
            }
            assert(k < n) by {
                if k >= n {
                    assert(nv.contains(prefix@));
                    let j = choose|j: int| 0 <= j < nv.len() && nv[j] == prefix@;
                    assert(nv[j] != prefix@);
                }
            }
            assert(nv[k as int] == prefix@);
            assert(xv[k as int] == needs_at(st, prefix@));
            assert(xv[k as int] == self.next@[k as int]@);
            let row = &self.next[k];
            let r = row.len();
            let mut q: usize = 0;
            while q < r && row[q] != c[d]
                invariant
                    r == row@.len(),
                    d < m,
                    m == c@.len(),
                    q <= r,
                    forall|j: int| 0 <= j < q ==> row@[j] != c@[d as int],
                decreases r - q,
            {
                q = q + 1;
            }
            assert(q < r) by {
                if q >= r {
                    let j = choose|j: int| 0 <= j < row@.len() && row@[j] == c@[d as int];
                    assert(row@[j] != c@[d as int]);
                }
            }
            path.push((k, q));
        }
        path
    }

    /// Where the probes start: the root (the empty prefix, when it is a
    /// node) sorts first, and every node after it is a proper prefix of
    /// some label, read one step further on a sequence of its own.
    pub fn first_probe(&self) -> (f: usize)
        requires
            sorted(token_views(self.nodes@)),
        ensures
            f <= self.nodes@.len(),
            forall|k: int| 0 <= k < f ==> self.nodes@[k]@.len() == 0,
            forall|k: int| f <= k < self.nodes@.len() ==> self.nodes@[k]@.len() > 0,
    {
        let ghost nv = token_views(self.nodes@);
        if self.nodes.len() > 0 && self.nodes[0].len() == 0 {
            assert forall|k: int| 1 <= k < self.nodes@.len() implies self.nodes@[k]@.len() > 0 by {
                assert(lex_lt(nv[0], nv[k]));
                assert(nv[k] == self.nodes@[k]@);
            }
            1
        } else {
            assert forall|k: int| 0 <= k < self.nodes@.len() implies self.nodes@[k]@.len() > 0 by {
                if k > 0 {
                    assert(lex_lt(nv[0], nv[k]));
                    assert(nv[k] == self.nodes@[k]@);
                }
            }
            0
        }
    }
}

/// The message for labels of several tokens with no sequence left for the
/// probes.
pub open spec fn probes_refusal() -> Seq<char> {
    "labels of several tokens need --forks 2 or more (a sequence for the probes)"@
}

/// How many probes a round reads: one per sequence besides the session's
/// and the fingerprint's; refused (before any probe) when a trie has
/// probes and there is no such sequence. With no fork at all and no
/// probe there is no round to size.
pub fn probe_room(forks: usize, probes: usize) -> (r: Result<usize, BackendError>)
    requires
        forks >= 1 || probes > 0,
    ensures
        forks < 2 && probes > 0 ==> (r matches Err(BackendError::Rejected(m)) && m@ == probes_refusal()),
        !(forks < 2 && probes > 0) ==> r == Ok::<usize, BackendError>((forks - 1) as usize),
{
    if forks < 2 && probes > 0 {
        Err(BackendError::Rejected(owned("labels of several tokens need --forks 2 or more (a sequence for the probes)")))
    } else {
        Ok(forks - 1)
    }
}

} // verus!
