//! Corroborate: two recorded runs of one case file compared fingerprint by
//! fingerprint. Which rows of the two runs are the same fingerprint (its
//! case and question id) is decided here; the probabilities compared are
//! the program's arithmetic.
use vstd::prelude::*;

verus! {

/// Row keys as their values: the case index and the question id.
pub open spec fn key_views(v: Seq<(usize, String)>) -> Seq<(usize, Seq<char>)> {
    v.map_values(|k: (usize, String)| (k.0, k.1@))
}

/// The last row of `b` with key `k` (a later row of one key replaces an
/// earlier one).
pub open spec fn last_with(b: Seq<(usize, Seq<char>)>, k: (usize, Seq<char>)) -> Option<nat>
    decreases b.len(),
{
    if b.len() == 0 {
        None
    } else if b.last() == k {
        Some((b.len() - 1) as nat)
    } else {
        last_with(b.drop_last(), k)
    }
}

/// A row found is one of the rows.
pub proof fn lemma_last_with_bound(b: Seq<(usize, Seq<char>)>, k: (usize, Seq<char>))
    ensures
        last_with(b, k) matches Some(j) ==> j < b.len() && b[j as int] == k,
    decreases b.len(),
{
    if b.len() > 0 && b.last() != k {
        lemma_last_with_bound(b.drop_last(), k);
    }
}

/// The fingerprints both runs read: each row of `a`, in order, with the row
/// of `b` that has its key.
pub open spec fn matched(a: Seq<(usize, Seq<char>)>, b: Seq<(usize, Seq<char>)>) -> Seq<(nat, nat)>
    decreases a.len(),
{
    if a.len() == 0 {
        Seq::empty()
    } else {
        matched(a.drop_last(), b) + match last_with(b, a.last()) {
            Some(j) => seq![((a.len() - 1) as nat, j)],
            None => Seq::empty(),
        }
    }
}

fn same_key(x: &(usize, String), y: &(usize, String)) -> (r: bool)
    ensures
        r == ((x.0, x.1@) == (y.0, y.1@)),
{
    x.0 == y.0 && crate::text::str_eq(x.1.as_str(), y.1.as_str())
}

fn last_row_with(b: &Vec<(usize, String)>, k: &(usize, String)) -> (r: Option<usize>)
    ensures
        match last_with(key_views(b@), (k.0, k.1@)) {
            Some(j) => r matches Some(x) && x as nat == j,
            None => r is None,
        },
{
    proof {
        lemma_last_with_bound(key_views(b@), (k.0, k.1@));
    }
    let mut j = b.len();
    assert(key_views(b@).take(j as int) =~= key_views(b@));
    while j > 0
        invariant
            j <= b@.len(),
            last_with(key_views(b@), (k.0, k.1@)) == last_with(key_views(b@).take(j as int), (k.0, k.1@)),
        decreases j,
    {
        let ghost front = key_views(b@).take(j as int);
        assert(front.last() == (b@[j - 1].0, b@[j - 1].1@));
        if same_key(&b[j - 1], k) {
            return Some(j - 1);
        }
        assert(front.drop_last() =~= key_views(b@).take(j - 1));
        j = j - 1;
    }
    None
}

/// The rows the two runs share, as (row of `a`, row of `b`) pairs, in
/// `a`'s order: a row of `a` is matched with the last row of `b` that has
/// its case and question id, and left out when `b` has none.
pub fn match_rows(a: &Vec<(usize, String)>, b: &Vec<(usize, String)>) -> (out: Vec<(usize, usize)>)
    ensures
        out@.len() == matched(key_views(a@), key_views(b@)).len(),
        forall|i: int|
            0 <= i < out@.len() ==> (#[trigger] out@[i]).0 as nat == matched(key_views(a@), key_views(b@))[i].0
                && out@[i].1 as nat == matched(key_views(a@), key_views(b@))[i].1,
{
    let mut out: Vec<(usize, usize)> = Vec::new();
    let n = a.len();
    for i in 0..n
        invariant
            n == a@.len(),
            out@.len() == matched(key_views(a@).take(i as int), key_views(b@)).len(),
            forall|q: int|
                0 <= q < out@.len() ==> (#[trigger] out@[q]).0 as nat == matched(
                    key_views(a@).take(i as int),
                    key_views(b@),
                )[q].0 && out@[q].1 as nat == matched(key_views(a@).take(i as int), key_views(b@))[q].1,
    {
        let ghost before = matched(key_views(a@).take(i as int), key_views(b@));
        assert(key_views(a@).take(i + 1).drop_last() =~= key_views(a@).take(i as int));
        assert(key_views(a@).take(i + 1).last() == (a@[i as int].0, a@[i as int].1@));
        match last_row_with(b, &a[i]) {
            Some(j) => {
                out.push((i, j));
                assert(matched(key_views(a@).take(i + 1), key_views(b@)) =~= before + seq![(i as nat, j as nat)]);
            },
            None => {
                assert(matched(key_views(a@).take(i + 1), key_views(b@)) =~= before);
            },
        }
    }
    assert(key_views(a@).take(n as int) =~= key_views(a@));
    out
}

} // verus!
