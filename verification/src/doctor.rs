//! `xks doctor`'s report: what this machine has of what `xks` needs, what
//! is missing, and the fix for each; whether a question can be answered.
//! The looking (files, sockets, `/health`) is the program's; the report,
//! its verdict and its text are here.
use vstd::prelude::*;

use crate::text::{digits, lines, lines_of, owned, push_char, push_dec, trim, trim_str, views};

verus! {

/// How a finding bears on answering a question.
#[derive(Debug, Clone, Copy, PartialEq, Eq, Structural)]
pub enum Level {
    /// In place.
    Okay,
    /// Worth knowing; nothing waits on it.
    Note,
    /// A question cannot be answered until it is fixed.
    Missing,
}

/// One line of the report, and its fix when there is one.
#[derive(Debug)]
pub struct Finding {
    pub level: Level,
    pub what: &'static str,
    pub detail: String,
    pub fix: Option<String>,
}

/// Everything `doctor` found, in the order it looked.
#[derive(Debug)]
pub struct Report {
    pub findings: Vec<Finding>,
    /// The site `auto` (or the configured one) resolves to.
    pub site: Option<&'static str>,
}

impl Default for Report {
    fn default() -> (r: Report)
        ensures
            r.findings@.len() == 0,
            r.site is None,
    {
        Report { findings: Vec::new(), site: None }
    }
}

/// Whether some finding is missing.
pub open spec fn has_missing(fs: Seq<Finding>) -> bool {
    exists|i: int| 0 <= i < fs.len() && #[trigger] fs[i].level == Level::Missing
}

/// How many findings are missing.
pub open spec fn missing_count(fs: Seq<Finding>) -> nat
    decreases fs.len(),
{
    if fs.len() == 0 {
        0
    } else {
        missing_count(fs.drop_last()) + if fs.last().level == Level::Missing {
            1nat
        } else {
            0nat
        }
    }
}

/// The tag a level is printed with.
pub open spec fn tag_of(l: Level) -> Seq<char> {
    match l {
        Level::Okay => "ok  "@,
        Level::Note => "note"@,
        Level::Missing => "MISS"@,
    }
}

/// `s` padded with spaces on the right to twelve characters (`{:<12}`).
pub open spec fn pad12(s: Seq<char>) -> Seq<char> {
    if s.len() >= 12 {
        s
    } else {
        s + Seq::new((12 - s.len()) as nat, |i: int| ' ')
    }
}

/// One finding as printed: its tag, what, detail, and its fix under it.
pub open spec fn finding_text(f: Finding) -> Seq<char> {
    "  "@ + tag_of(f.level) + "  "@ + pad12(f.what@) + " "@ + f.detail@ + "\n"@ + match f.fix {
        Some(x) => "        "@ + pad12(Seq::empty()) + " fix: "@ + x@ + "\n"@,
        None => Seq::empty(),
    }
}

/// The findings as printed, in order.
pub open spec fn findings_text(fs: Seq<Finding>) -> Seq<char>
    decreases fs.len(),
{
    if fs.len() == 0 {
        Seq::empty()
    } else {
        findings_text(fs.drop_last()) + finding_text(fs.last())
    }
}

/// The verdict line: ready on the site it resolves to, or how many to fix.
pub open spec fn verdict_text(fs: Seq<Finding>, site: Option<&'static str>) -> Seq<char> {
    if missing_count(fs) == 0 {
        "ready: xks can answer (site "@ + match site {
            Some(s) => s@,
            None => "?"@,
        } + ")\n"@
    } else {
        "not ready: "@ + digits(missing_count(fs), 10) + " to fix (MISS above)\n"@
    }
}

/// Nothing is missing exactly when no finding counts as missing.
pub proof fn lemma_missing_count(fs: Seq<Finding>)
    ensures
        (missing_count(fs) == 0) == !has_missing(fs),
        missing_count(fs) <= fs.len(),
    decreases fs.len(),
{
    if fs.len() > 0 {
        lemma_missing_count(fs.drop_last());
        if has_missing(fs.drop_last()) {
            let i = choose|i: int|
                0 <= i < fs.drop_last().len() && #[trigger] fs.drop_last()[i].level == Level::Missing;
            assert(fs[i].level == Level::Missing);
        }
        if has_missing(fs) && fs.last().level != Level::Missing {
            let i = choose|i: int| 0 <= i < fs.len() && #[trigger] fs[i].level == Level::Missing;
            assert(fs.drop_last()[i].level == Level::Missing);
        }
    }
}

/// A report is ready exactly until a missing finding is added: adding one
/// makes it not ready, and adding anything else leaves the verdict as it was.
pub proof fn lemma_missing_makes_not_ready(fs: Seq<Finding>, f: Finding)
    ensures
        has_missing(fs.push(f)) == (has_missing(fs) || f.level == Level::Missing),
{
    if has_missing(fs) {
        let i = choose|i: int| 0 <= i < fs.len() && #[trigger] fs[i].level == Level::Missing;
        assert(fs.push(f)[i].level == Level::Missing);
    }
    if f.level == Level::Missing {
        assert(fs.push(f)[fs.len() as int].level == Level::Missing);
    }
    if has_missing(fs.push(f)) && f.level != Level::Missing {
        let i = choose|i: int| 0 <= i < fs.push(f).len() && #[trigger] fs.push(f)[i].level == Level::Missing;
        assert(fs[i].level == Level::Missing);
    }
}

/// The verdict says ready exactly when no finding is missing: the text
/// and the exit code (`ready`) never disagree.
pub proof fn lemma_verdict_matches_ready(fs: Seq<Finding>, site: Option<&'static str>)
    ensures
        crate::text::starts_with(verdict_text(fs, site), "ready: "@) == !has_missing(fs),
{
    reveal_strlit("ready: ");
    reveal_strlit("ready: xks can answer (site ");
    reveal_strlit("not ready: ");
    lemma_missing_count(fs);
    let v = verdict_text(fs, site);
    if missing_count(fs) == 0 {
        assert(v.take(7) =~= "ready: "@);
    } else {
        assert(v[0] == 'n');
        assert("ready: "@[0] == 'r');
        assert(v.take(7)[0] != "ready: "@[0]);
    }
}

fn push_str(out: &mut String, s: &str)
    ensures
        final(out)@ == old(out)@ + s@,
{
    out.append(s);
}

fn push_pad12(out: &mut String, s: &str)
    ensures
        final(out)@ == old(out)@ + pad12(s@),
{
    out.append(s);
    let n = s.unicode_len();
    if n < 12 {
        let ghost start = out@;
        let mut k = n;
        while k < 12
            invariant
                n <= k <= 12,
                n == s@.len(),
                out@ == start + Seq::new((k - n) as nat, |i: int| ' '),
            decreases 12 - k,
        {
            push_char(out, ' ');
            assert(out@ =~= start + Seq::new((k + 1 - n) as nat, |i: int| ' '));
            k = k + 1;
        }
        assert(out@ =~= old(out)@ + pad12(s@));
    } else {
        assert(out@ =~= old(out)@ + pad12(s@));
    }
}

fn push_finding(out: &mut String, f: &Finding)
    ensures
        final(out)@ == old(out)@ + finding_text(*f),
{
    push_str(out, "  ");
    match f.level {
        Level::Okay => push_str(out, "ok  "),
        Level::Note => push_str(out, "note"),
        Level::Missing => push_str(out, "MISS"),
    }
    push_str(out, "  ");
    push_pad12(out, f.what);
    push_str(out, " ");
    push_str(out, f.detail.as_str());
    push_str(out, "\n");
    match &f.fix {
        Some(x) => {
            push_str(out, "        ");
            push_pad12(out, "");
            push_str(out, " fix: ");
            push_str(out, x.as_str());
            push_str(out, "\n");
        },
        None => {},
    }
    proof {
        reveal_strlit("");
    }
    assert(out@ =~= old(out)@ + finding_text(*f));
}

impl Report {
    /// A finding added at the end.
    pub fn add(&mut self, level: Level, what: &'static str, detail: String, fix: Option<String>)
        ensures
            final(self).findings@ == old(self).findings@.push(
                (Finding { level, what, detail, fix }),
            ),
            final(self).site == old(self).site,
    {
        self.findings.push(Finding { level, what, detail, fix });
    }

    /// Something in place.
    pub fn ok(&mut self, what: &'static str, detail: &str)
        ensures
            final(self).findings@.len() == old(self).findings@.len() + 1,
            final(self).findings@.drop_last() == old(self).findings@,
            final(self).findings@.last().level == Level::Okay,
            final(self).findings@.last().what == what,
            final(self).findings@.last().detail@ == detail@,
            final(self).findings@.last().fix is None,
            final(self).site == old(self).site,
    {
        self.add(Level::Okay, what, owned(detail), None);
    }

    /// Something worth knowing, with its fix when there is one.
    pub fn note(&mut self, what: &'static str, detail: &str, fix: Option<String>)
        ensures
            final(self).findings@.len() == old(self).findings@.len() + 1,
            final(self).findings@.drop_last() == old(self).findings@,
            final(self).findings@.last().level == Level::Note,
            final(self).findings@.last().what == what,
            final(self).findings@.last().detail@ == detail@,
            final(self).findings@.last().fix == fix,
            final(self).site == old(self).site,
    {
        self.add(Level::Note, what, owned(detail), fix);
    }

    /// Something a question waits on, and its fix.
    pub fn missing(&mut self, what: &'static str, detail: &str, fix: &str)
        ensures
            final(self).findings@.len() == old(self).findings@.len() + 1,
            final(self).findings@.drop_last() == old(self).findings@,
            final(self).findings@.last().level == Level::Missing,
            final(self).findings@.last().what == what,
            final(self).findings@.last().detail@ == detail@,
            final(self).findings@.last().fix matches Some(x) && x@ == fix@,
            final(self).site == old(self).site,
    {
        self.add(Level::Missing, what, owned(detail), Some(owned(fix)));
    }

    /// Whether a question can be answered: nothing missing.
    pub fn ready(&self) -> (b: bool)
        ensures
            b == !has_missing(self.findings@),
    {
        let n = self.findings.len();
        for i in 0..n
            invariant
                n == self.findings@.len(),
                forall|j: int| 0 <= j < i ==> #[trigger] self.findings@[j].level != Level::Missing,
        {
            if self.findings[i].level == Level::Missing {
                assert(self.findings@[i as int].level == Level::Missing);
                return false;
            }
        }
        true
    }

    /// The report as printed: one line per finding, its fix under it, then
    /// the verdict.
    pub fn text(&self) -> (out: String)
        ensures
            out@ == findings_text(self.findings@) + verdict_text(self.findings@, self.site),
    {
        let mut out = String::new();
        let n = self.findings.len();
        let mut missing: usize = 0;
        for i in 0..n
            invariant
                n == self.findings@.len(),
                out@ == findings_text(self.findings@.take(i as int)),
                missing == missing_count(self.findings@.take(i as int)),
                missing <= i,
        {
            let f = &self.findings[i];
            let ghost before = out@;
            push_finding(&mut out, f);
            if f.level == Level::Missing {
                missing = missing + 1;
            }
            assert(self.findings@.take(i + 1).drop_last() =~= self.findings@.take(i as int));
        }
        assert(self.findings@.take(n as int) =~= self.findings@);
        if missing == 0 {
            push_str(&mut out, "ready: xks can answer (site ");
            match self.site {
                Some(s) => push_str(&mut out, s),
                None => push_str(&mut out, "?"),
            }
            push_str(&mut out, ")\n");
        } else {
            push_str(&mut out, "not ready: ");
            push_dec(&mut out, missing as u128);
            push_str(&mut out, " to fix (MISS above)\n");
        }
        out
    }
}

/// The lines of `text` that hold more than white space.
pub open spec fn filled_lines(text: Seq<char>) -> Seq<Seq<char>> {
    lines_of(text).filter(|l: Seq<char>| trim(l).len() > 0)
}

/// Lines joined by `sep`.
pub open spec fn joined(ls: Seq<Seq<char>>, sep: Seq<char>) -> Seq<char>
    decreases ls.len(),
{
    if ls.len() == 0 {
        Seq::empty()
    } else if ls.len() == 1 {
        ls[0]
    } else {
        joined(ls.drop_last(), sep) + sep + ls.last()
    }
}

/// The last `n` of `ls` (all when there are fewer).
pub open spec fn last_n(ls: Seq<Seq<char>>, n: nat) -> Seq<Seq<char>> {
    if ls.len() <= n {
        ls
    } else {
        ls.skip(ls.len() - n)
    }
}

/// The last `n` lines of a build's output that hold more than white space,
/// each after the first indented under the report's line.
pub fn tail(text: &str, n: usize) -> (out: String)
    ensures
        out@ == joined(last_n(filled_lines(text@), n as nat), "\n        "@),
{
    let ls = lines(text);
    let mut kept: Vec<String> = Vec::new();
    let m = ls.len();
    for i in 0..m
        invariant
            m == ls@.len(),
            views(ls@) == lines_of(text@),
            views(kept@) == views(ls@).take(i as int).filter(|l: Seq<char>| trim(l).len() > 0),
    {
        reveal_with_fuel(Seq::filter, 1);
        assert(views(ls@).take(i + 1).drop_last() =~= views(ls@).take(i as int));
        let t = trim_str(ls[i].as_str());
        if t.as_str().unicode_len() > 0 {
            let ghost before = views(kept@);
            kept.push(owned(ls[i].as_str()));
            assert(views(kept@) =~= before.push(ls@[i as int]@));
        }
    }
    assert(views(ls@).take(m as int) =~= views(ls@));
    let k = kept.len();
    let from = if k <= n {
        0
    } else {
        k - n
    };
    let ghost chosen = last_n(views(kept@), n as nat);
    assert(chosen =~= views(kept@).skip(from as int));
    let mut out = String::new();
    let mut j = from;
    while j < k
        invariant
            from <= j <= k,
            k == kept@.len(),
            out@ == joined(views(kept@).subrange(from as int, j as int), "\n        "@),
        decreases k - j,
    {
        let ghost before = views(kept@).subrange(from as int, j as int);
        if j > from {
            out.append("\n        ");
        }
        out.append(kept[j].as_str());
        proof {
            let now = views(kept@).subrange(from as int, j + 1);
            assert(now.drop_last() =~= before);
            assert(now.last() == kept@[j as int]@);
            if j == from {
                assert(before.len() == 0);
                assert(out@ =~= now[0]);
            }
        }
        j = j + 1;
    }
    assert(views(kept@).subrange(from as int, k as int) =~= chosen);
    out
}

/// What is at a link's place, against the file it should point at.
#[derive(Debug, Clone, PartialEq, Eq)]
pub enum LinkState {
    /// Nothing there.
    Absent,
    /// A link to the target (through any links in between).
    Ours,
    /// A link to something else that exists: another checkout's build.
    Other(String),
    /// A link to nothing.
    Dangling(String),
    /// A file or directory, not a link: never replaced.
    File,
}

/// What placing a link at `link` says, from what was there before: done
/// already, refused for a file, or what it replaced.
pub open spec fn link_said(link: Seq<char>, before: LinkState) -> Result<Seq<char>, Seq<char>> {
    match before {
        LinkState::Ours => Ok(link + " already links here"@),
        LinkState::File => Err(
            link + " is a file, not a link: left alone (move it, then run this again)"@,
        ),
        LinkState::Other(p) => Ok(link + " now links here (it linked "@ + p@ + ")"@),
        LinkState::Dangling(p) => Ok(link + " now links here (it linked "@ + p@ + ", which is gone)"@),
        LinkState::Absent => Ok(link + " links here"@),
    }
}

/// What placing a link at `link` says, given what was there: a file is
/// never replaced, a link of ours is left, anything else is (re)placed and
/// named.
pub fn link_message(link: &str, before: &LinkState) -> (r: Result<String, String>)
    ensures
        match (r, link_said(link@, *before)) {
            (Ok(a), Ok(b)) => a@ == b,
            (Err(a), Err(b)) => a@ == b,
            _ => false,
        },
{
    let mut m = owned(link);
    match before {
        LinkState::Ours => {
            m.append(" already links here");
            Ok(m)
        },
        LinkState::File => {
            m.append(" is a file, not a link: left alone (move it, then run this again)");
            Err(m)
        },
        LinkState::Other(p) => {
            m.append(" now links here (it linked ");
            m.append(p.as_str());
            m.append(")");
            Ok(m)
        },
        LinkState::Dangling(p) => {
            m.append(" now links here (it linked ");
            m.append(p.as_str());
            m.append(", which is gone)");
            Ok(m)
        },
        LinkState::Absent => {
            m.append(" links here");
            Ok(m)
        },
    }
}

/// Whether the cards are needed: asked for by name, or `auto` with a card
/// up (it then resolves to the cards).
pub open spec fn cards_needed(requested: Seq<char>, cards_up: bool) -> bool {
    requested == "cards"@ || requested == "phi"@ || requested == "avx512"@ || (requested
        == "auto"@ && cards_up)
}

/// Whether the site asked for needs the cards.
pub fn needs_cards(requested: &str, cards_up: bool) -> (b: bool)
    ensures
        b == cards_needed(requested@, cards_up),
{
    crate::text::str_eq(requested, "cards") || crate::text::str_eq(requested, "phi")
        || crate::text::str_eq(requested, "avx512") || (crate::text::str_eq(requested, "auto")
        && cards_up)
}

/// How much what the cards need weighs: missing when they are needed,
/// else worth a note.
pub fn need_level(needed: bool) -> (l: Level)
    ensures
        l == (if needed {
            Level::Missing
        } else {
            Level::Note
        }),
{
    if needed {
        Level::Missing
    } else {
        Level::Note
    }
}

/// Whether `s` ends with `p`.
pub open spec fn ends_with(s: Seq<char>, p: Seq<char>) -> bool {
    p.len() <= s.len() && s.skip(s.len() - p.len()) == p
}

/// `s` with every trailing copy of `p` removed (`str::trim_end_matches`).
pub open spec fn strip_all_end(s: Seq<char>, p: Seq<char>) -> Seq<char>
    decreases s.len(),
{
    if p.len() > 0 && ends_with(s, p) {
        strip_all_end(s.take(s.len() - p.len()), p)
    } else {
        s
    }
}

/// The kilobytes a `/proc` text (`meminfo`, `status`) gives for `key`: its
/// first line starting with `key`, the rest trimmed, a `kB` unit dropped.
pub open spec fn kb_of(text: Seq<char>, key: Seq<char>) -> Option<u64> {
    match crate::site::keyed(lines_of(text), key) {
        Some(v) => crate::text::u64_of(trim(strip_all_end(v, "kB"@))),
        None => None,
    }
}

fn strip_kb(v: &str) -> (out: String)
    ensures
        out@ == strip_all_end(v@, "kB"@),
{
    proof {
        reveal_strlit("kB");
    }
    let cs = crate::text::chars_of(v);
    let mut n = cs.len();
    assert(cs@.take(n as int) =~= v@);
    while n >= 2 && cs[n - 2] == 'k' && cs[n - 1] == 'B'
        invariant
            n <= cs@.len(),
            cs@ == v@,
            "kB"@ == seq!['k', 'B'],
            strip_all_end(v@, "kB"@) == strip_all_end(cs@.take(n as int), "kB"@),
        decreases n,
    {
        assert(cs@.take(n as int).skip(n - 2) =~= seq!['k', 'B']);
        assert(cs@.take(n as int).take(n - 2) =~= cs@.take(n - 2));
        n = n - 2;
    }
    proof {
        let t = cs@.take(n as int);
        if t.len() >= 2 && t.skip(t.len() - 2) == seq!['k', 'B'] {
            assert(t.skip(t.len() - 2)[0] == t[n - 2]);
            assert(t.skip(t.len() - 2)[1] == t[n - 1]);
        }
    }
    crate::text::string_of_range(&cs, 0, n)
}

/// The kilobytes `key` reads in a `/proc` text (`MemTotal:` of
/// `/proc/meminfo`, `VmHWM:` of a process's `status`).
pub fn kb_value(text: &str, key: &str) -> (r: Option<u64>)
    ensures
        r == kb_of(text@, key@),
{
    let ls = lines(text);
    match crate::site::keyed_line(&ls, key) {
        Some(v) => {
            let s = strip_kb(v.as_str());
            let t = trim_str(s.as_str());
            crate::text::parse_u64(t.as_str())
        },
        None => None,
    }
}

} // verus!
