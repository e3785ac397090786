//! What the command line decides on its own: the requests built from
//! `--noul`/`--choice`/`--score` flags, the lines a detached server's log
//! relays, whether a process is a detached server, and the checks made
//! before a subject loads.
use vstd::prelude::*;

use crate::text::{
    find_from, join, join_path, owned, push_char, split_once_char, starts_with, strip_prefix, trim,
    trim_str, views,
};

verus! {

/// Whether a line of a detached server's log is shown while
/// `serve --detach` waits: `xks`'s own lines and its errors.
pub open spec fn is_relayed(line: Seq<char>) -> bool {
    starts_with(line, "xks:"@) || starts_with(line, "xks listening"@) || starts_with(line, "error:"@)
}

/// Whether a server log line is one `serve --detach` shows.
pub fn relayed(line: &str) -> (b: bool)
    ensures
        b == is_relayed(line@),
{
    crate::text::has_prefix(line, "xks:") || crate::text::has_prefix(line, "xks listening")
        || crate::text::has_prefix(line, "error:")
}

/// The pieces of `s` between the bytes `sep` (`<[u8]>::split`): one more
/// than there are separators.
pub open spec fn pieces(s: Seq<u8>, sep: u8) -> Seq<Seq<u8>>
    decreases s.len(),
{
    if s.len() == 0 {
        seq![Seq::empty()]
    } else {
        let p = pieces(s.drop_last(), sep);
        if s.last() == sep {
            p.push(Seq::empty())
        } else {
            p.update(p.len() - 1, p.last().push(s.last()))
        }
    }
}

/// There is always a piece.
pub proof fn lemma_pieces_len(s: Seq<u8>, sep: u8)
    ensures
        pieces(s, sep).len() >= 1,
    decreases s.len(),
{
    if s.len() > 0 {
        lemma_pieces_len(s.drop_last(), sep);
    }
}

/// Whether an argument is a path to `xks`.
pub open spec fn names_xks(a: Seq<u8>) -> bool {
    a.len() >= 3 && a.skip(a.len() - 3) == seq![120u8, 107u8, 115u8]
}

/// The argument `serve`.
pub open spec fn serve_word() -> Seq<u8> {
    seq![115u8, 101u8, 114u8, 118u8, 101u8]
}

/// Whether a NUL-separated command line runs `xks ... serve`: the first
/// argument naming `xks` is followed, somewhere after it, by `serve`.
pub open spec fn runs_server(cmdline: Seq<u8>) -> bool {
    let args = pieces(cmdline, 0);
    exists|i: int|
        0 <= i < args.len() && #[trigger] names_xks(args[i]) && (forall|j: int|
            0 <= j < i ==> !names_xks(#[trigger] args[j])) && exists|k: int|
            i < k < args.len() && #[trigger] args[k] == serve_word()
}

fn split_nul(cmdline: &[u8]) -> (args: Vec<Vec<u8>>)
    ensures
        args@.len() == pieces(cmdline@, 0).len(),
        forall|i: int| 0 <= i < args@.len() ==> #[trigger] args@[i]@ == pieces(cmdline@, 0)[i],
{
    let mut args: Vec<Vec<u8>> = Vec::new();
    let mut cur: Vec<u8> = Vec::new();
    let n = cmdline.len();
    for i in 0..n
        invariant
            n == cmdline@.len(),
            args@.len() + 1 == pieces(cmdline@.take(i as int), 0).len(),
            forall|j: int|
                0 <= j < args@.len() ==> #[trigger] args@[j]@ == pieces(cmdline@.take(i as int), 0)[j],
            cur@ == pieces(cmdline@.take(i as int), 0).last(),
    {
        proof {
            lemma_pieces_len(cmdline@.take(i as int), 0);
        }
        assert(cmdline@.take(i + 1).drop_last() =~= cmdline@.take(i as int));
        if cmdline[i] == 0 {
            args.push(cur);
            cur = Vec::new();
            assert(cur@ =~= Seq::<u8>::empty());
        } else {
            cur.push(cmdline[i]);
        }
    }
    assert(cmdline@.take(n as int) =~= cmdline@);
    proof {
        lemma_pieces_len(cmdline@, 0);
    }
    let ghost before = args@;
    args.push(cur);
    assert forall|i: int| 0 <= i < args@.len() implies #[trigger] args@[i]@ == pieces(
        cmdline@,
        0,
    )[i] by {
        if i < before.len() {
            assert(args@[i] == before[i]);
        }
    }
    args
}

fn bytes_eq(a: &Vec<u8>, b: &Vec<u8>) -> (r: bool)
    ensures
        r == (a@ == b@),
{
    if a.len() != b.len() {
        return false;
    }
    let n = a.len();
    for i in 0..n
        invariant
            n == a@.len(),
            n == b@.len(),
            forall|j: int| 0 <= j < i ==> a@[j] == b@[j],
    {
        if a[i] != b[i] {
            return false;
        }
    }
    assert(a@ =~= b@);
    true
}

fn ends_with_xks(a: &Vec<u8>) -> (r: bool)
    ensures
        r == names_xks(a@),
{
    let n = a.len();
    if n < 3 {
        return false;
    }
    let r = a[n - 3] == 120u8 && a[n - 2] == 107u8 && a[n - 1] == 115u8;
    if r {
        assert(a@.skip(n - 3) =~= seq![120u8, 107u8, 115u8]);
    } else {
        assert(a@.skip(n - 3) != seq![120u8, 107u8, 115u8] ==> true);
        assert(a@.skip(n - 3)[0] == a@[n - 3]);
        assert(a@.skip(n - 3)[1] == a@[n - 2]);
        assert(a@.skip(n - 3)[2] == a@[n - 1]);
    }
    r
}

/// Whether a NUL-separated command line (`/proc/PID/cmdline`) runs
/// `xks ... serve`, directly or as the avx512 site's `phi512.sh ... xks
/// serve`: a recycled pid naming anything else is not a server of ours.
pub fn is_server_cmdline(cmdline: &[u8]) -> (b: bool)
    ensures
        b == runs_server(cmdline@),
{
    let args = split_nul(cmdline);
    let ghost ps = pieces(cmdline@, 0);
    let n = args.len();
    let mut i: usize = 0;
    while i < n && !ends_with_xks(&args[i])
        invariant
            n == args@.len(),
            n == ps.len(),
            ps == pieces(cmdline@, 0),
            i <= n,
            forall|j: int| 0 <= j < args@.len() ==> #[trigger] args@[j]@ == ps[j],
            forall|j: int| 0 <= j < i ==> !names_xks(#[trigger] ps[j]),
        decreases n - i,
    {
        i = i + 1;
    }
    if i == n {
        assert(!runs_server(cmdline@)) by {
            if runs_server(cmdline@) {
                let w = choose|w: int|
                    0 <= w < ps.len() && #[trigger] names_xks(ps[w]) && (forall|j: int|
                        0 <= j < w ==> !names_xks(#[trigger] ps[j])) && exists|k: int|
                        w < k < ps.len() && #[trigger] ps[k] == serve_word();
                assert(names_xks(ps[w]));
            }
        }
        return false;
    }
    assert(names_xks(ps[i as int]));
    let serve: Vec<u8> = vec![115u8, 101u8, 114u8, 118u8, 101u8];
    assert(serve@ =~= serve_word());
    let mut k = i + 1;
    while k < n
        invariant
            n == args@.len(),
            n == ps.len(),
            ps == pieces(cmdline@, 0),
            i < n,
            i < k <= n,
            serve@ == serve_word(),
            names_xks(ps[i as int]),
            forall|j: int| 0 <= j < args@.len() ==> #[trigger] args@[j]@ == ps[j],
            forall|j: int| 0 <= j < i ==> !names_xks(#[trigger] ps[j]),
            forall|j: int| i < j < k ==> #[trigger] ps[j] != serve_word(),
        decreases n - k,
    {
        if bytes_eq(&args[k], &serve) {
            assert(ps[k as int] == serve_word());
            assert(0 <= i < ps.len() && names_xks(ps[i as int]) && (forall|j: int|
                0 <= j < i ==> !names_xks(#[trigger] ps[j])) && exists|k2: int|
                i < k2 < ps.len() && #[trigger] ps[k2] == serve_word());
            return true;
        }
        k = k + 1;
    }
    assert(!runs_server(cmdline@)) by {
        if runs_server(cmdline@) {
            let w = choose|w: int|
                0 <= w < ps.len() && #[trigger] names_xks(ps[w]) && (forall|j: int|
                    0 <= j < w ==> !names_xks(#[trigger] ps[j])) && exists|k: int|
                    w < k < ps.len() && #[trigger] ps[k] == serve_word();
            if w < i {
                assert(!names_xks(ps[w]));
            } else if w > i {
                assert(!names_xks(ps[i as int]));
            }
        }
    }
    false
}

/// Where the complete lines of `new` end: just past its last newline, or
/// at its start when it has none.
pub open spec fn complete_end(new: Seq<u8>) -> nat
    decreases new.len(),
{
    if new.len() == 0 {
        0
    } else if new.last() == 10u8 {
        new.len()
    } else {
        complete_end(new.drop_last())
    }
}

/// The relay shows whole lines: what it takes of a log (unless it takes
/// everything left) ends at a newline, and no newline is left after it.
pub proof fn lemma_relay_takes_whole_lines(new: Seq<u8>)
    ensures
        complete_end(new) <= new.len(),
        complete_end(new) > 0 ==> new[complete_end(new) - 1] == 10u8,
        forall|i: int| complete_end(new) <= i < new.len() ==> new[i] != 10u8,
    decreases new.len(),
{
    if new.len() > 0 && new.last() != 10u8 {
        lemma_relay_takes_whole_lines(new.drop_last());
        assert forall|i: int| complete_end(new) <= i < new.len() implies new[i] != 10u8 by {
            if i < new.len() - 1 {
                assert(new.drop_last()[i] == new[i]);
            }
        }
    }
}

/// The part of a log not yet looked at.
pub open spec fn unseen(bytes: Seq<u8>, seen: nat) -> Seq<u8> {
    if seen <= bytes.len() {
        bytes.skip(seen as int)
    } else {
        Seq::empty()
    }
}

/// The lines of a detached server's log shown while `serve --detach`
/// waits: how much of the log has been looked at.
#[derive(Debug, Clone, Copy)]
pub struct Relay {
    /// Bytes of the log already looked at.
    pub seen: usize,
}

impl Default for Relay {
    fn default() -> (r: Relay)
        ensures
            r.seen == 0,
    {
        Relay { seen: 0 }
    }
}

impl Relay {
    /// The complete lines written to the log since the last look.
    pub fn more(&mut self, bytes: &Vec<u8>) -> (piece: Vec<u8>)
        ensures
            ({
                let new = unseen(bytes@, old(self).seen as nat);
                &&& piece@ == new.take(complete_end(new) as int)
                &&& final(self).seen == old(self).seen + complete_end(new)
            }),
    {
        self.take(bytes, false)
    }

    /// Everything left in the log, a last unterminated line included.
    pub fn rest(&mut self, bytes: &Vec<u8>) -> (piece: Vec<u8>)
        ensures
            ({
                let new = unseen(bytes@, old(self).seen as nat);
                &&& piece@ == new
                &&& final(self).seen == old(self).seen + new.len()
            }),
    {
        let r = self.take(bytes, true);
        assert(r@ =~= unseen(bytes@, old(self).seen as nat));
        r
    }

    /// The text written to the log since the last look: its complete lines,
    /// or everything left when `all` (a last unterminated line included).
    /// What is returned counts as seen.
    pub fn take(&mut self, bytes: &Vec<u8>, all: bool) -> (piece: Vec<u8>)
        ensures
            ({
                let new = unseen(bytes@, old(self).seen as nat);
                let end = if all {
                    new.len()
                } else {
                    complete_end(new)
                };
                &&& piece@ == new.take(end as int)
                &&& final(self).seen == old(self).seen + end
            }),
    {
        let n = bytes.len();
        if self.seen > n {
            assert(unseen(bytes@, self.seen as nat) =~= Seq::<u8>::empty());
            return Vec::new();
        }
        let ghost new = bytes@.skip(self.seen as int);
        let end: usize = if all {
            n - self.seen
        } else {
            let mut e = n;
            assert(bytes@.subrange(self.seen as int, e as int) =~= new);
            while e > self.seen && bytes[e - 1] != 10u8
                invariant
                    self.seen <= e <= n,
                    n == bytes@.len(),
                    new == bytes@.skip(self.seen as int),
                    complete_end(new) == complete_end(bytes@.subrange(self.seen as int, e as int)),
                decreases e,
            {
                assert(bytes@.subrange(self.seen as int, e as int).drop_last() =~= bytes@.subrange(
                    self.seen as int,
                    e - 1,
                ));
                e = e - 1;
            }
            e - self.seen
        };
        let mut piece: Vec<u8> = Vec::new();
        let mut j = self.seen;
        while j < self.seen + end
            invariant
                self.seen <= j <= self.seen + end <= n,
                n == bytes@.len(),
                piece@ == bytes@.subrange(self.seen as int, j as int),
            decreases self.seen + end - j,
        {
            piece.push(bytes[j]);
            assert(piece@ =~= bytes@.subrange(self.seen as int, j + 1));
            j = j + 1;
        }
        assert(piece@ =~= new.take(end as int));
        self.seen = self.seen + end;
        piece
    }
}

/// `s` cut at its first `c`, both sides trimmed; what was expected when it
/// has none.
pub open spec fn cut(s: Seq<char>, c: char) -> Result<(Seq<char>, Seq<char>), Seq<char>> {
    let i = find_from(s, c, 0);
    if i < s.len() {
        Ok((trim(s.take(i as int)), trim(s.skip(i + 1 as int))))
    } else {
        Err("expected `"@ + seq![c] + "` in `"@ + s + "`"@)
    }
}

/// `s` cut at its first `c`, both sides trimmed.
pub fn split_once(s: &str, c: char) -> (r: Result<(String, String), String>)
    ensures
        match (r, cut(s@, c)) {
            (Ok(p), Ok(q)) => p.0@ == q.0 && p.1@ == q.1,
            (Err(e), Err(f)) => e@ == f,
            _ => false,
        },
{
    match split_once_char(s, c) {
        Some((a, b)) => Ok((trim_str(a.as_str()), trim_str(b.as_str()))),
        None => {
            let mut e = owned("expected `");
            push_char(&mut e, c);
            e.append("` in `");
            e.append(s);
            e.append("`");
            assert(e@ =~= "expected `"@ + seq![c] + "` in `"@ + s@ + "`"@);
            Err(e)
        },
    }
}

/// The pieces of `s` between its `c`s (`str::split`).
pub open spec fn split_text(s: Seq<char>, c: char) -> Seq<Seq<char>>
    decreases s.len(),
{
    if s.len() == 0 {
        seq![Seq::empty()]
    } else {
        let p = split_text(s.drop_last(), c);
        if s.last() == c {
            p.push(Seq::empty())
        } else {
            p.update(p.len() - 1, p.last().push(s.last()))
        }
    }
}

/// There is always a piece.
pub proof fn lemma_split_text_len(s: Seq<char>, c: char)
    ensures
        split_text(s, c).len() >= 1,
    decreases s.len(),
{
    if s.len() > 0 {
        lemma_split_text_len(s.drop_last(), c);
    }
}

fn split_on(s: &str, c: char) -> (out: Vec<String>)
    ensures
        views(out@) == split_text(s@, c),
{
    let cs = crate::text::chars_of(s);
    let n = cs.len();
    let mut done: Vec<String> = Vec::new();
    let mut cur = String::new();
    for i in 0..n
        invariant
            n == cs@.len(),
            cs@ == s@,
            views(done@).push(cur@) == split_text(cs@.take(i as int), c),
    {
        proof {
            lemma_split_text_len(cs@.take(i as int), c);
        }
        assert(cs@.take(i + 1).drop_last() =~= cs@.take(i as int));
        let ghost before = views(done@);
        if cs[i] == c {
            done.push(cur);
            cur = String::new();
            assert(views(done@) =~= before.push(split_text(cs@.take(i as int), c).last()));
            assert(views(done@).push(cur@) =~= split_text(cs@.take(i + 1), c));
        } else {
            push_char(&mut cur, cs[i]);
            assert(views(done@).push(cur@) =~= split_text(cs@.take(i + 1), c));
        }
    }
    assert(cs@.take(n as int) =~= cs@);
    let ghost before = views(done@);
    done.push(cur);
    assert(views(done@) =~= before.push(cur@));
    done
}

/// The items of a comma-separated list: each trimmed, the empty ones
/// (`a,,b`, a trailing comma) dropped.
pub open spec fn list_items(s: Seq<char>) -> Seq<Seq<char>> {
    split_text(s, ',').map_values(|p: Seq<char>| trim(p)).filter(|p: Seq<char>| p.len() > 0)
}

/// The items of a comma-separated list, trimmed, the empty ones dropped:
/// the levels of `--score`, the keys of `--api-keys`.
pub fn items(s: &str) -> (out: Vec<String>)
    ensures
        views(out@) == list_items(s@),
{
    let parts = split_on(s, ',');
    let ghost trimmed = views(parts@).map_values(|p: Seq<char>| trim(p));
    let mut out: Vec<String> = Vec::new();
    let n = parts.len();
    for i in 0..n
        invariant
            n == parts@.len(),
            trimmed == views(parts@).map_values(|p: Seq<char>| trim(p)),
            views(out@) == trimmed.take(i as int).filter(|p: Seq<char>| p.len() > 0),
    {
        reveal_with_fuel(Seq::filter, 1);
        assert(trimmed.take(i + 1).drop_last() =~= trimmed.take(i as int));
        let t = trim_str(parts[i].as_str());
        assert(trimmed[i as int] == t@);
        if t.as_str().unicode_len() > 0 {
            let ghost before = views(out@);
            out.push(t);
            assert(views(out@) =~= before.push(trimmed[i as int]));
        }
    }
    assert(trimmed.take(n as int) =~= trimmed);
    out
}

/// The key `query` sends a server: the first of `XKS_API_KEYS`.
pub fn first_key(keys: &str) -> (k: Option<String>)
    ensures
        list_items(keys@).len() == 0 ==> k is None,
        list_items(keys@).len() > 0 ==> (k matches Some(x) && x@ == list_items(keys@)[0]),
{
    let all = items(keys);
    if all.len() == 0 {
        None
    } else {
        Some(owned(all[0].as_str()))
    }
}

/// A `--noul` flag, `id=instructions`.
pub fn noul_flag(s: &str) -> (r: Result<(String, String), String>)
    ensures
        match (r, cut(s@, '=')) {
            (Ok(p), Ok(q)) => p.0@ == q.0 && p.1@ == q.1,
            (Err(e), Err(f)) => e@ == f,
            _ => false,
        },
{
    split_once(s, '=')
}

/// A `--score` flag, `id=instructions|level0,level1,...`: its id, its
/// instructions, and its levels (trimmed, the empty ones dropped).
pub open spec fn score_flag_of(s: Seq<char>) -> Result<(Seq<char>, Seq<char>, Seq<Seq<char>>), Seq<char>> {
    match cut(s, '=') {
        Err(e) => Err(e),
        Ok((id, rest)) => match cut(rest, '|') {
            Err(e) => Err(e),
            Ok((instr, levels)) => Ok((id, instr, list_items(levels))),
        },
    }
}

/// A `--score` flag read.
pub fn score_flag(s: &str) -> (r: Result<(String, String, Vec<String>), String>)
    ensures
        match (r, score_flag_of(s@)) {
            (Ok(p), Ok(q)) => p.0@ == q.0 && p.1@ == q.1 && views(p.2@) == q.2,
            (Err(e), Err(f)) => e@ == f,
            _ => false,
        },
{
    let (id, rest) = split_once(s, '=')?;
    let (instr, levels) = split_once(rest.as_str(), '|')?;
    Ok((id, instr, items(levels.as_str())))
}

/// One option of a `--choice` flag, `key:description` or `key`: the key
/// trimmed, and the description trimmed, none when blank.
pub open spec fn option_of(o: Seq<char>) -> (Seq<char>, Option<Seq<char>>) {
    let i = find_from(o, ':', 0);
    let (k, d) = if i < o.len() {
        (o.take(i as int), o.skip(i + 1 as int))
    } else {
        (o, Seq::empty())
    };
    (trim(k), if trim(d).len() == 0 {
        None
    } else {
        Some(trim(d))
    })
}

/// The options of a `--choice` flag: each non-blank entry of its list.
pub open spec fn options_of(opts: Seq<char>) -> Seq<(Seq<char>, Option<Seq<char>>)> {
    split_text(opts, ',').filter(|o: Seq<char>| trim(o).len() > 0).map_values(
        |o: Seq<char>| option_of(o),
    )
}

/// A `--choice` flag, `id=instructions|key1:desc,key2,...`: its id, its
/// instructions, and its options in order.
pub open spec fn choice_flag_of(s: Seq<char>) -> Result<
    (Seq<char>, Seq<char>, Seq<(Seq<char>, Option<Seq<char>>)>),
    Seq<char>,
> {
    match cut(s, '=') {
        Err(e) => Err(e),
        Ok((id, rest)) => match cut(rest, '|') {
            Err(e) => Err(e),
            Ok((instr, opts)) => Ok((id, instr, options_of(opts))),
        },
    }
}

/// Options as their characters.
pub open spec fn option_views(v: Seq<(String, Option<String>)>) -> Seq<(Seq<char>, Option<Seq<char>>)> {
    v.map_values(
        |o: (String, Option<String>)|
            (
                o.0@,
                match o.1 {
                    Some(d) => Some(d@),
                    None => None,
                },
            ),
    )
}

fn option_entry(o: &str) -> (r: (String, Option<String>))
    ensures
        (r.0@, match r.1 {
            Some(d) => Some(d@),
            None => None,
        }) == option_of(o@),
{
    let (k, d) = match split_once_char(o, ':') {
        Some((k, d)) => (k, d),
        None => (owned(o), String::new()),
    };
    let key = trim_str(k.as_str());
    let desc = trim_str(d.as_str());
    if desc.as_str().unicode_len() == 0 {
        (key, None)
    } else {
        (key, Some(desc))
    }
}

/// A `--choice` flag read.
pub fn choice_flag(s: &str) -> (r: Result<(String, String, Vec<(String, Option<String>)>), String>)
    ensures
        match (r, choice_flag_of(s@)) {
            (Ok(p), Ok(q)) => p.0@ == q.0 && p.1@ == q.1 && option_views(p.2@) == q.2,
            (Err(e), Err(f)) => e@ == f,
            _ => false,
        },
{
    let (id, rest) = split_once(s, '=')?;
    let (instr, opts) = split_once(rest.as_str(), '|')?;
    let parts = split_on(opts.as_str(), ',');
    let ghost kept = views(parts@).filter(|o: Seq<char>| trim(o).len() > 0);
    let mut out: Vec<(String, Option<String>)> = Vec::new();
    let n = parts.len();
    for i in 0..n
        invariant
            n == parts@.len(),
            option_views(out@) == views(parts@).take(i as int).filter(
                |o: Seq<char>| trim(o).len() > 0,
            ).map_values(|o: Seq<char>| option_of(o)),
    {
        reveal_with_fuel(Seq::filter, 1);
        let ghost part = views(parts@)[i as int];
        assert(views(parts@).take(i + 1).drop_last() =~= views(parts@).take(i as int));
        assert(part == parts@[i as int]@);
        let t = trim_str(parts[i].as_str());
        if t.as_str().unicode_len() > 0 {
            let e = option_entry(parts[i].as_str());
            let ghost before = option_views(out@);
            out.push(e);
            assert(option_views(out@) =~= before.push(option_of(part)));
            assert(views(parts@).take(i + 1).filter(|o: Seq<char>| trim(o).len() > 0) =~= views(
                parts@,
            ).take(i as int).filter(|o: Seq<char>| trim(o).len() > 0).push(part));
            assert(option_views(out@) =~= views(parts@).take(i + 1).filter(
                |o: Seq<char>| trim(o).len() > 0,
            ).map_values(|o: Seq<char>| option_of(o)));
        } else {
            assert(views(parts@).take(i + 1).filter(|o: Seq<char>| trim(o).len() > 0) =~= views(
                parts@,
            ).take(i as int).filter(|o: Seq<char>| trim(o).len() > 0));
        }
    }
    assert(views(parts@).take(n as int) =~= views(parts@));
    Ok((id, instr, out))
}

/// The `--noul` flags from the `i`-th on, read in order: the first one
/// that does not read is the error.
pub open spec fn nouls_from(flags: Seq<Seq<char>>, i: nat) -> Result<Seq<(Seq<char>, Seq<char>)>, Seq<char>>
    decreases flags.len() - i,
{
    if i >= flags.len() {
        Ok(Seq::empty())
    } else {
        match cut(flags[i as int], '=') {
            Err(e) => Err(e),
            Ok(p) => match nouls_from(flags, i + 1) {
                Err(e) => Err(e),
                Ok(v) => Ok(seq![p] + v),
            },
        }
    }
}

/// The `--choice` flags from the `i`-th on, read in order.
pub open spec fn choices_from(flags: Seq<Seq<char>>, i: nat) -> Result<
    Seq<(Seq<char>, Seq<char>, Seq<(Seq<char>, Option<Seq<char>>)>)>,
    Seq<char>,
>
    decreases flags.len() - i,
{
    if i >= flags.len() {
        Ok(Seq::empty())
    } else {
        match choice_flag_of(flags[i as int]) {
            Err(e) => Err(e),
            Ok(p) => match choices_from(flags, i + 1) {
                Err(e) => Err(e),
                Ok(v) => Ok(seq![p] + v),
            },
        }
    }
}

/// The `--score` flags from the `i`-th on, read in order.
pub open spec fn scores_from(flags: Seq<Seq<char>>, i: nat) -> Result<
    Seq<(Seq<char>, Seq<char>, Seq<Seq<char>>)>,
    Seq<char>,
>
    decreases flags.len() - i,
{
    if i >= flags.len() {
        Ok(Seq::empty())
    } else {
        match score_flag_of(flags[i as int]) {
            Err(e) => Err(e),
            Ok(p) => match scores_from(flags, i + 1) {
                Err(e) => Err(e),
                Ok(v) => Ok(seq![p] + v),
            },
        }
    }
}

/// A request's questions as its flags give them, each kind in flag order:
/// a `--noul`'s id and instructions, a `--choice`'s id, instructions and
/// options, a `--score`'s id, instructions and levels.
pub struct FlagRequest {
    pub state: String,
    pub noul: Vec<(String, String)>,
    pub choice: Vec<(String, String, Vec<(String, Option<String>)>)>,
    pub score: Vec<(String, String, Vec<String>)>,
}

/// The `--noul` questions as their characters.
pub open spec fn noul_views(v: Seq<(String, String)>) -> Seq<(Seq<char>, Seq<char>)> {
    v.map_values(|p: (String, String)| (p.0@, p.1@))
}

/// The `--choice` questions as their characters.
pub open spec fn choice_views(v: Seq<(String, String, Vec<(String, Option<String>)>)>) -> Seq<
    (Seq<char>, Seq<char>, Seq<(Seq<char>, Option<Seq<char>>)>),
> {
    v.map_values(
        |p: (String, String, Vec<(String, Option<String>)>)| (p.0@, p.1@, option_views(p.2@)),
    )
}

/// The `--score` questions as their characters.
pub open spec fn score_views(v: Seq<(String, String, Vec<String>)>) -> Seq<
    (Seq<char>, Seq<char>, Seq<Seq<char>>),
> {
    v.map_values(|p: (String, String, Vec<String>)| (p.0@, p.1@, views(p.2@)))
}

/// What is said when questions are given by flags without a state.
pub open spec fn state_required() -> Seq<char> {
    "--state is required with --noul/--choice/--score"@
}

/// A request from `--state` and the question flags: the state must be
/// given, then every `--noul`, every `--choice` and every `--score` must
/// read, in that order; the first that does not is the error.
pub open spec fn flag_request(
    state: Option<Seq<char>>,
    noul: Seq<Seq<char>>,
    choice: Seq<Seq<char>>,
    score: Seq<Seq<char>>,
) -> Result<
    (
        Seq<char>,
        Seq<(Seq<char>, Seq<char>)>,
        Seq<(Seq<char>, Seq<char>, Seq<(Seq<char>, Option<Seq<char>>)>)>,
        Seq<(Seq<char>, Seq<char>, Seq<Seq<char>>)>,
    ),
    Seq<char>,
> {
    match state {
        None => Err(state_required()),
        Some(s) => match nouls_from(noul, 0) {
            Err(e) => Err(e),
            Ok(n) => match choices_from(choice, 0) {
                Err(e) => Err(e),
                Ok(c) => match scores_from(score, 0) {
                    Err(e) => Err(e),
                    Ok(k) => Ok((s, n, c, k)),
                },
            },
        },
    }
}

fn read_nouls(flags: &Vec<String>) -> (r: Result<Vec<(String, String)>, String>)
    ensures
        match (r, nouls_from(views(flags@), 0)) {
            (Ok(v), Ok(w)) => noul_views(v@) == w,
            (Err(e), Err(f)) => e@ == f,
            _ => false,
        },
{
    let ghost fs = views(flags@);
    let mut out: Vec<(String, String)> = Vec::new();
    let n = flags.len();
    for i in 0..n
        invariant
            n == flags@.len(),
            fs == views(flags@),
            match nouls_from(fs, i as nat) {
                Ok(v) => nouls_from(fs, 0) == Ok::<Seq<(Seq<char>, Seq<char>)>, Seq<char>>(
                    noul_views(out@) + v,
                ),
                Err(e) => nouls_from(fs, 0) == Err::<Seq<(Seq<char>, Seq<char>)>, Seq<char>>(e),
            },
    {
        assert(fs[i as int] == flags@[i as int]@);
        match noul_flag(flags[i].as_str()) {
            Err(e) => {
                return Err(e);
            },
            Ok(p) => {
                let ghost before = noul_views(out@);
                out.push(p);
                proof {
                    assert(noul_views(out@) =~= before.push((p.0@, p.1@)));
                    match nouls_from(fs, (i + 1) as nat) {
                        Ok(v) => {
                            assert(before + (seq![(p.0@, p.1@)] + v) =~= noul_views(out@) + v);
                        },
                        Err(_) => {},
                    }
                }
            },
        }
    }
    assert(noul_views(out@) + Seq::empty() =~= noul_views(out@));
    Ok(out)
}

fn read_choices(flags: &Vec<String>) -> (r: Result<Vec<(String, String, Vec<(String, Option<String>)>)>, String>)
    ensures
        match (r, choices_from(views(flags@), 0)) {
            (Ok(v), Ok(w)) => choice_views(v@) == w,
            (Err(e), Err(f)) => e@ == f,
            _ => false,
        },
{
    let ghost fs = views(flags@);
    let mut out: Vec<(String, String, Vec<(String, Option<String>)>)> = Vec::new();
    let n = flags.len();
    for i in 0..n
        invariant
            n == flags@.len(),
            fs == views(flags@),
            match choices_from(fs, i as nat) {
                Ok(v) => choices_from(fs, 0) == Ok::<
                    Seq<(Seq<char>, Seq<char>, Seq<(Seq<char>, Option<Seq<char>>)>)>,
                    Seq<char>,
                >(choice_views(out@) + v),
                Err(e) => choices_from(fs, 0) == Err::<
                    Seq<(Seq<char>, Seq<char>, Seq<(Seq<char>, Option<Seq<char>>)>)>,
                    Seq<char>,
                >(e),
            },
    {
        assert(fs[i as int] == flags@[i as int]@);
        match choice_flag(flags[i].as_str()) {
            Err(e) => {
                return Err(e);
            },
            Ok(p) => {
                let ghost pv = (p.0@, p.1@, option_views(p.2@));
                let ghost before = choice_views(out@);
                out.push(p);
                proof {
                    assert(choice_views(out@) =~= before.push(pv));
                    match choices_from(fs, (i + 1) as nat) {
                        Ok(v) => {
                            assert(before + (seq![pv] + v) =~= choice_views(out@) + v);
                        },
                        Err(_) => {},
                    }
                }
            },
        }
    }
    assert(choice_views(out@) + Seq::empty() =~= choice_views(out@));
    Ok(out)
}

fn read_scores(flags: &Vec<String>) -> (r: Result<Vec<(String, String, Vec<String>)>, String>)
    ensures
        match (r, scores_from(views(flags@), 0)) {
            (Ok(v), Ok(w)) => score_views(v@) == w,
            (Err(e), Err(f)) => e@ == f,
            _ => false,
        },
{
    let ghost fs = views(flags@);
    let mut out: Vec<(String, String, Vec<String>)> = Vec::new();
    let n = flags.len();
    for i in 0..n
        invariant
            n == flags@.len(),
            fs == views(flags@),
            match scores_from(fs, i as nat) {
                Ok(v) => scores_from(fs, 0) == Ok::<
                    Seq<(Seq<char>, Seq<char>, Seq<Seq<char>>)>,
                    Seq<char>,
                >(score_views(out@) + v),
                Err(e) => scores_from(fs, 0) == Err::<
                    Seq<(Seq<char>, Seq<char>, Seq<Seq<char>>)>,
                    Seq<char>,
                >(e),
            },
    {
        assert(fs[i as int] == flags@[i as int]@);
        match score_flag(flags[i].as_str()) {
            Err(e) => {
                return Err(e);
            },
            Ok(p) => {
                let ghost pv = (p.0@, p.1@, views(p.2@));
                let ghost before = score_views(out@);
                out.push(p);
                proof {
                    assert(score_views(out@) =~= before.push(pv));
                    match scores_from(fs, (i + 1) as nat) {
                        Ok(v) => {
                            assert(before + (seq![pv] + v) =~= score_views(out@) + v);
                        },
                        Err(_) => {},
                    }
                }
            },
        }
    }
    assert(score_views(out@) + Seq::empty() =~= score_views(out@));
    Ok(out)
}

/// A request from `--state` and the `--noul`, `--choice` and `--score`
/// flags, for when no request file is given: the state is required, and
/// the first flag that does not read is the error.
pub fn request_from_flags(
    state: Option<&str>,
    noul: &Vec<String>,
    choice: &Vec<String>,
    score: &Vec<String>,
) -> (r: Result<FlagRequest, String>)
    ensures
        match (r, flag_request(
            match state {
                Some(s) => Some(s@),
                None => None,
            },
            views(noul@),
            views(choice@),
            views(score@),
        )) {
            (Ok(q), Ok(w)) => q.state@ == w.0 && noul_views(q.noul@) == w.1 && choice_views(q.choice@)
                == w.2 && score_views(q.score@) == w.3,
            (Err(e), Err(f)) => e@ == f,
            _ => false,
        },
{
    let s = match state {
        Some(s) => owned(s),
        None => {
            return Err(owned("--state is required with --noul/--choice/--score"));
        },
    };
    let n = read_nouls(noul)?;
    let c = read_choices(choice)?;
    let k = read_scores(score)?;
    Ok(FlagRequest { state: s, noul: n, choice: c, score: k })
}

/// Where `doctor --fix` links `xks`: a `~/` prefix is the home directory.
pub fn expand_home(prefix: &str, home: &str) -> (p: String)
    ensures
        p@ == (if starts_with(prefix@, "~/"@) {
            join_path(home@, prefix@.skip(2))
        } else {
            prefix@
        }),
{
    proof {
        reveal_strlit("~/");
    }
    match strip_prefix(prefix, "~/") {
        Some(rest) => join(home, rest.as_str()),
        None => owned(prefix),
    }
}

/// What is wrong with a subject at `p`, from whether it is a file and
/// whether anything is there.
pub open spec fn subject_problem(p: Seq<char>, exists: bool) -> Seq<char> {
    "the subject "@ + p + " "@ + (if exists {
        "is not a file"@
    } else {
        "does not exist"@
    }) + ": set XKS_SUBJECT=/path/to/model.gguf in xks.local.conf, or pass --subject"@
}

/// The subject checked from what the disk says of it: a file is fine,
/// anything else is said with where to set it.
pub fn subject_verdict(p: &str, is_file: bool, exists: bool) -> (r: Result<(), String>)
    ensures
        is_file ==> r is Ok,
        !is_file ==> (r matches Err(e) && e@ == subject_problem(p@, exists)),
{
    if is_file {
        return Ok(());
    }
    let mut e = owned("the subject ");
    e.append(p);
    e.append(" ");
    if exists {
        e.append("is not a file");
    } else {
        e.append("does not exist");
    }
    e.append(": set XKS_SUBJECT=/path/to/model.gguf in xks.local.conf, or pass --subject");
    Err(e)
}

/// The subject, checked before the site is prepared: a path that is not a
/// file is said with where to set it, not after a worker restart and
/// llama.cpp's loader. What the disk holds is read here, so an error names
/// one of the two reasons.
pub fn check_subject(p: &str) -> (r: Result<(), String>)
    ensures
        r matches Err(e) ==> (e@ == subject_problem(p@, true) || e@ == subject_problem(p@, false)),
{
    let is_file = crate::site::path_is_file(p);
    let exists = crate::site::path_exists(p);
    subject_verdict(p, is_file, exists)
}

/// The pid a pid file holds: its text trimmed, as a number.
pub fn pid_of(text: &str) -> (r: Option<u32>)
    ensures
        r == crate::text::u32_of(trim(text@)),
{
    let t = trim_str(text);
    crate::text::parse_u32(t.as_str())
}

/// Whether this process is the avx512 site's outer one, which the site
/// replaces with the AVX-512 build under phi512: the in-process engine
/// asked for on that site, outside phi512.
pub fn reexecs(engine_built: bool, backend_kind: &str, site: &str, inner: bool) -> (b: bool)
    ensures
        b == (engine_built && backend_kind@ == "artichoke"@ && site@ == "avx512"@ && !inner),
{
    engine_built && crate::text::str_eq(backend_kind, "artichoke") && crate::text::str_eq(site, "avx512")
        && !inner
}

} // verus!
