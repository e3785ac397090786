//! Where the subject runs: the three sites, what each needs of the cards'
//! workers, and where the sibling repository's payload is found.
use vstd::prelude::*;

use crate::text::{
    dec_string, digits, find_from, join, join_path, lines, lines_of, owned, parse_u32, push_dec,
    split_once_char, split_whitespace, starts_with, strip_prefix, trim, trim_str, u32_of, views,
    words,
};

verus! {

/// Where the subject's arithmetic runs.
#[derive(Debug, Clone, Copy, PartialEq, Eq, Structural)]
pub enum Site {
    /// This host alone, llama.cpp's x86-64 build: the reference.
    X86,
    /// The same build with the payload installed: weight multiplies on the cards.
    Cards,
    /// The AVX-512 build under phi512, with the payload.
    Avx512,
}

impl Site {
    /// The site's name as `--site` takes it.
    pub open spec fn name_text(self) -> Seq<char> {
        match self {
            Site::X86 => "x86"@,
            Site::Cards => "cards"@,
            Site::Avx512 => "avx512"@,
        }
    }

    /// The site's name as `--site` takes it.
    pub fn name(self) -> (n: &'static str)
        ensures
            n@ == self.name_text(),
    {
        match self {
            Site::X86 => "x86",
            Site::Cards => "cards",
            Site::Avx512 => "avx512",
        }
    }
}

/// The environment variable the outer `xks` sets for the one it runs
/// under phi512, so that one does not re-execute again.
pub const INNER: &'static str = "XKS_SITE_INNER";

/// The site a name asks for; `auto` is the cards when one is up.
pub open spec fn site_named(name: Seq<char>, card_up: bool) -> Option<Site> {
    if name == "x86"@ || name == "host"@ {
        Some(Site::X86)
    } else if name == "cards"@ || name == "phi"@ {
        Some(Site::Cards)
    } else if name == "avx512"@ {
        Some(Site::Avx512)
    } else if name == "auto"@ {
        Some(if card_up { Site::Cards } else { Site::X86 })
    } else {
        None
    }
}

/// The site `requested` names (`x86`/`host`, `cards`/`phi`, `avx512`, or
/// `auto`: the cards when `card_up`, else x86).
pub fn resolve(requested: &str, card_up: bool) -> (r: Result<Site, String>)
    ensures
        match site_named(requested@, card_up) {
            Some(s) => r == Ok::<Site, String>(s),
            None => r matches Err(e) && e@ == "unknown site `"@ + requested@
                + "` (auto|x86|cards|avx512)"@,
        },
{
    let name = crate::text::chars_of(requested);
    if crate::text::same_chars(&name, "x86") || crate::text::same_chars(&name, "host") {
        Ok(Site::X86)
    } else if crate::text::same_chars(&name, "cards") || crate::text::same_chars(&name, "phi") {
        Ok(Site::Cards)
    } else if crate::text::same_chars(&name, "avx512") {
        Ok(Site::Avx512)
    } else if crate::text::same_chars(&name, "auto") {
        Ok(
            if card_up {
                Site::Cards
            } else {
                Site::X86
            },
        )
    } else {
        let mut e = owned("unknown site `");
        e.append(requested);
        e.append("` (auto|x86|cards|avx512)");
        Err(e)
    }
}

/// A site's name resolves to that site, whether a card is up or not;
/// `host` resolves as `x86` and `phi` as `cards`; `auto` is the cards
/// exactly when one is up; and no two sites share a name.
pub proof fn lemma_name_resolves_to_its_site(s: Site, t: Site, card_up: bool)
    ensures
        site_named(s.name_text(), card_up) == Some(s),
        site_named("host"@, card_up) == site_named(Site::X86.name_text(), card_up),
        site_named("phi"@, card_up) == site_named(Site::Cards.name_text(), card_up),
        site_named("auto"@, card_up) == Some(if card_up { Site::Cards } else { Site::X86 }),
        s.name_text() == t.name_text() ==> s == t,
{
    reveal_strlit("x86");
    reveal_strlit("host");
    reveal_strlit("cards");
    reveal_strlit("phi");
    reveal_strlit("avx512");
    reveal_strlit("auto");
    assert("x86"@.len() == 3 && "host"@.len() == 4 && "cards"@.len() == 5 && "phi"@.len() == 3
        && "avx512"@.len() == 6 && "auto"@.len() == 4);
    assert("x86"@[0] == 'x' && "phi"@[0] == 'p');
    assert("cards"@[0] == 'c' && "host"@[0] == 'h' && "auto"@[0] == 'a');
}

/// How a worker is started for a site: huge pages reserved on the card
/// and the worker's own options.
#[derive(Debug, Clone)]
pub struct WorkerConfig {
    pub hugepages: u32,
    pub args: String,
}

impl WorkerConfig {
    /// The record xks keeps of a worker it started.
    pub fn tag(&self) -> (t: String)
        ensures
            t@ == "hugepages="@ + digits(self.hugepages as nat, 10) + " args="@ + self.args@,
    {
        let mut t = owned("hugepages=");
        push_dec(&mut t, self.hugepages as u128);
        t.append(" args=");
        t.append(self.args.as_str());
        t
    }

    /// The cards site's workers: 2400 huge pages for weight rows, no
    /// seamless pool (`-e 0`).
    pub fn for_payload() -> (c: WorkerConfig)
        ensures
            c.hugepages == 2400,
            c.args@ == "-e 0"@,
    {
        WorkerConfig { hugepages: 2400, args: owned("-e 0") }
    }

    /// phi512's worker on card 0: 768 huge pages, the seamless pool.
    pub fn for_phi512() -> (c: WorkerConfig)
        ensures
            c.hugepages == 768,
            c.args@ == Seq::<char>::empty(),
    {
        WorkerConfig { hugepages: 768, args: String::new() }
    }
}

/// The first line of `ls` that starts with `k`, without `k` and trimmed.
pub open spec fn keyed(ls: Seq<Seq<char>>, k: Seq<char>) -> Option<Seq<char>>
    decreases ls.len(),
{
    if ls.len() == 0 {
        None
    } else if starts_with(ls[0], k) {
        Some(trim(ls[0].skip(k.len() as int)))
    } else {
        keyed(ls.drop_first(), k)
    }
}

/// The value `phi-vpu.sh config` gives for key `k`: the first line that
/// starts with it, the rest trimmed; empty when no line does.
pub open spec fn config_field(ls: Seq<Seq<char>>, k: Seq<char>) -> Seq<char> {
    match keyed(ls, k) {
        Some(v) => v,
        None => Seq::empty(),
    }
}

/// Whether `phi-vpu.sh config`'s output shows what `cfg` asks for: the
/// reservation equal, and the worker's arguments (after its `-v`, before
/// its thread count) the ones xks passes.
pub open spec fn config_holds(out: Seq<char>, hugepages: u32, args: Seq<char>) -> bool {
    let ls = lines_of(out);
    let worker = words(config_field(ls, "worker "@));
    &&& u32_of(config_field(ls, "hugepages "@)) == Some(hugepages)
    &&& worker.len() >= 2
    &&& worker[0] == "-v"@
    &&& worker.subrange(1, worker.len() - 1) == words(args)
}

/// The first line of `ls` that starts with `k`, without `k` and trimmed.
pub(crate) fn keyed_line(ls: &Vec<String>, k: &str) -> (r: Option<String>)
    ensures
        match keyed(views(ls@), k@) {
            Some(v) => r matches Some(t) && t@ == v,
            None => r is None,
        },
{
    let n = ls.len();
    let mut i: usize = 0;
    assert(views(ls@).skip(0) =~= views(ls@));
    while i < n
        invariant
            n == ls@.len(),
            i <= n,
            keyed(views(ls@), k@) == keyed(views(ls@).skip(i as int), k@),
        decreases n - i,
    {
        let ghost rest = views(ls@).skip(i as int);
        assert(rest[0] == ls@[i as int]@);
        if let Some(v) = strip_prefix(ls[i].as_str(), k) {
            return Some(trim_str(v.as_str()));
        }
        assert(rest.drop_first() =~= views(ls@).skip(i + 1));
        i = i + 1;
    }
    assert(views(ls@).skip(n as int) =~= Seq::<Seq<char>>::empty());
    None
}

fn field(ls: &Vec<String>, k: &str) -> (v: String)
    ensures
        v@ == config_field(views(ls@), k@),
{
    match keyed_line(ls, k) {
        Some(v) => v,
        None => String::new(),
    }
}

/// Whether the card holds what `cfg` asks for, from `phi-vpu.sh config`'s
/// output ("hugepages N" and "worker ARGS").
pub fn config_matches(out: &str, cfg: &WorkerConfig) -> (b: bool)
    ensures
        b == config_holds(out@, cfg.hugepages, cfg.args@),
{
    let ls = lines(out);
    let pages = field(&ls, "hugepages ");
    let hugepages_ok = match parse_u32(pages.as_str()) {
        Some(v) => v == cfg.hugepages,
        None => false,
    };
    let wf = field(&ls, "worker ");
    let worker = split_whitespace(wf.as_str());
    if worker.len() < 2 {
        return false;
    }
    assert(views(worker@)[0] == worker@[0]@);
    assert(views(ls@) == lines_of(out@));
    assert(views(worker@) == words(config_field(lines_of(out@), "worker "@)));
    if !crate::text::str_eq(worker[0].as_str(), "-v") {
        assert(views(worker@)[0] != "-v"@);
        return false;
    }
    let want = split_whitespace(cfg.args.as_str());
    let m = worker.len() - 2;
    if want.len() != m {
        assert(views(worker@).subrange(1, worker@.len() - 1).len() != views(want@).len());
        return false;
    }
    for i in 0..m
        invariant
            m == worker@.len() - 2,
            m == want@.len(),
            views(worker@) == words(config_field(lines_of(out@), "worker "@)),
            views(want@) == words(cfg.args@),
            forall|j: int| 0 <= j < i ==> worker@[j + 1]@ == #[trigger] want@[j]@,
    {
        if !crate::text::str_eq(worker[i + 1].as_str(), want[i].as_str()) {
            assert(views(worker@).subrange(1, worker@.len() - 1)[i as int] != views(want@)[i as int]);
            return false;
        }
    }
    assert(views(worker@).subrange(1, worker@.len() - 1) =~= views(want@));
    hugepages_ok
}

/// What the rest of `xks` needs to know about the site it is running on.
#[derive(Debug, Clone)]
pub struct Placed {
    pub site: Site,
    pub cards: Vec<u32>,
    /// llama.cpp threads for this site.
    pub threads: i32,
    /// Let llama.cpp repack weights for the host CPU.
    pub repack: bool,
    /// Flash attention allowed on this site.
    pub flash_attn: bool,
}

impl Placed {
    /// A site in place on `cards`: 16 threads on the host alone; 12 beside
    /// the cards' daemons; one inside phi512, whose AVX-512 build's OpenMP
    /// barrier spins while one thread's region runs on the card, with flash
    /// attention off (its tiled loop is one the card cannot yet run).
    /// Repacking stays off everywhere.
    pub fn on(site: Site, cards: Vec<u32>) -> (p: Placed)
        ensures
            p.site == site,
            p.cards@ == cards@,
            p.threads == match site {
                Site::X86 => 16i32,
                Site::Cards => 12i32,
                Site::Avx512 => 1i32,
            },
            !p.repack,
            p.flash_attn == (site != Site::Avx512),
    {
        let threads = match site {
            Site::X86 => 16,
            Site::Cards => 12,
            Site::Avx512 => 1,
        };
        Placed { site, cards, threads, repack: false, flash_attn: site != Site::Avx512 }
    }
}

/// Whether the cards a site needs are up, from the cards with a host
/// window: the cards site needs one, the avx512 site (inside phi512) needs
/// card 0, which runs phi512's regions; the x86 site needs none.
pub fn cards_ready(site: Site, cards: &Vec<u32>) -> (r: Result<(), String>)
    ensures
        match site {
            Site::X86 => r is Ok,
            Site::Cards => if cards@.len() == 0 {
                r matches Err(e) && e@ == "no card is up (no /dev/shm/phi-hostmem*); phi status"@
            } else {
                r is Ok
            },
            Site::Avx512 => if cards@.contains(0) {
                r is Ok
            } else {
                r matches Err(e) && e@ == "phi512 runs on card 0, which is not up; phi status"@
            },
        },
{
    match site {
        Site::X86 => Ok(()),
        Site::Cards => {
            if cards.len() == 0 {
                Err(owned("no card is up (no /dev/shm/phi-hostmem*); phi status"))
            } else {
                Ok(())
            }
        },
        Site::Avx512 => {
            let n = cards.len();
            for i in 0..n
                invariant
                    n == cards@.len(),
                    forall|j: int| 0 <= j < i ==> cards@[j] != 0,
            {
                if cards[i] == 0 {
                    assert(cards@[i as int] == 0);
                    return Ok(());
                }
            }
            Err(owned("phi512 runs on card 0, which is not up; phi status"))
        },
    }
}

/// The cards the payload uses on the avx512 site: every card but 0, which
/// runs phi512's regions and nothing else.
pub fn payload_cards(cards: &Vec<u32>) -> (out: Vec<u32>)
    ensures
        out@ == cards@.filter(|c: u32| c != 0),
{
    let mut out: Vec<u32> = Vec::new();
    let n = cards.len();
    for i in 0..n
        invariant
            n == cards@.len(),
            out@ == cards@.take(i as int).filter(|c: u32| c != 0),
    {
        reveal_with_fuel(Seq::filter, 1);
        assert(cards@.take(i + 1).drop_last() =~= cards@.take(i as int));
        if cards[i] != 0 {
            out.push(cards[i]);
        }
    }
    assert(cards@.take(n as int) =~= cards@);
    out
}

/// The stack's control socket for `card` under the runtime directory `run`
/// (`phictl/control.sock` for card 0, `phictl/N/control.sock` for card N).
pub fn control_socket(run: &str, card: u32) -> (p: String)
    ensures
        p@ == join_path(
            join_path(run@, "phictl"@),
            if card == 0 {
                "control.sock"@
            } else {
                join_path(digits(card as nat, 10), "control.sock"@)
            },
        ),
{
    let base = join(run, "phictl");
    if card == 0 {
        join(base.as_str(), "control.sock")
    } else {
        let n = dec_string(card as u128);
        let rel = join(n.as_str(), "control.sock");
        join(base.as_str(), rel.as_str())
    }
}

/// The lock that gives the cards to one `xks` process at a time, under the
/// runtime directory `run`.
pub fn lock_path(run: &str) -> (p: String)
    ensures
        p@ == join_path(join_path(run@, "xks"@), "cards.lock"@),
{
    let d = join(run, "xks");
    join(d.as_str(), "cards.lock")
}

/// Where xks records the configuration it started `card`'s worker with.
pub fn marker(run: &str, card: u32) -> (p: String)
    ensures
        p@ == join_path(join_path(run@, "xks"@), "worker-"@ + digits(card as nat, 10)),
{
    let d = join(run, "xks");
    let mut name = owned("worker-");
    push_dec(&mut name, card as u128);
    join(d.as_str(), name.as_str())
}

/// The holder a lock's text names: the pid and command on its first line,
/// `PID COMMAND`.
pub open spec fn named_holder(text: Seq<char>) -> Option<(u32, Seq<char>)> {
    let ls = lines_of(text);
    if ls.len() == 0 {
        None
    } else {
        let first = trim(ls[0]);
        let i = find_from(first, ' ', 0);
        if i >= first.len() {
            None
        } else {
            match u32_of(first.take(i as int)) {
                Some(pid) => Some((pid, first.skip(i + 1 as int))),
                None => None,
            }
        }
    }
}

/// The pid and command a lock's holder wrote into it, when it wrote them.
pub fn holder_line(text: &str) -> (r: Option<(u32, String)>)
    ensures
        match named_holder(text@) {
            Some((pid, cmd)) => r matches Some(p) && p.0 == pid && p.1@ == cmd,
            None => r is None,
        },
{
    let ls = lines(text);
    if ls.len() == 0 {
        return None;
    }
    let first = trim_str(ls[0].as_str());
    match split_once_char(first.as_str(), ' ') {
        Some((pid, cmd)) => match parse_u32(pid.as_str()) {
            Some(p) => Some((p, cmd)),
            None => None,
        },
        None => None,
    }
}

/// How a holder is named: `pid N (`command`)`.
pub fn holder_name(pid: u32, cmd: &str) -> (s: String)
    ensures
        s@ == "pid "@ + digits(pid as nat, 10) + " (`"@ + cmd@ + "`)"@,
{
    let mut s = owned("pid ");
    push_dec(&mut s, pid as u128);
    s.append(" (`");
    s.append(cmd);
    s.append("`)");
    s
}

/// A holder that did not say who it is, and the tool that names it.
pub fn unnamed_holder(lock: &str) -> (s: String)
    ensures
        s@ == "another process (`fuser -v "@ + lock@ + "` names it)"@,
{
    let mut s = owned("another process (`fuser -v ");
    s.append(lock);
    s.append("` names it)");
    s
}

/// The URL a server holding the lock serves on, from the lock's text: its
/// first `serves URL` line, the URL trimmed.
pub fn served_url(text: &str) -> (r: Option<String>)
    ensures
        match keyed(lines_of(text@), "serves "@) {
            Some(u) => r matches Some(t) && t@ == u,
            None => r is None,
        },
{
    let ls = lines(text);
    keyed_line(&ls, "serves ")
}

/// Why the cards cannot be taken: who holds them, and where to ask instead
/// when that holder is a server that said where it answers.
pub fn cards_busy(who: &str, url: Option<&str>) -> (s: String)
    ensures
        s@ == "the cards are in use by "@ + who@
            + "; one process at a time may hold them: "@ + match url {
            Some(u) => "ask that server at "@ + u@ + " (a plain `xks query` does)"@,
            None => "wait for it"@,
        } + ", or stop it first (`xks stop` for a detached server)"@,
{
    let mut s = owned("the cards are in use by ");
    s.append(who);
    s.append("; one process at a time may hold them: ");
    match url {
        Some(u) => {
            s.append("ask that server at ");
            s.append(u);
            s.append(" (a plain `xks query` does)");
        },
        None => {
            s.append("wait for it");
        },
    }
    s.append(", or stop it first (`xks stop` for a detached server)");
    s
}

/// Whether a path names something on disk (`Path::exists`).
#[verifier::external_body]
pub(crate) fn path_exists(p: &str) -> bool {
    std::path::Path::new(p).exists()
}

/// Whether a path names a file (`Path::is_file`).
#[verifier::external_body]
pub(crate) fn path_is_file(p: &str) -> bool {
    std::path::Path::new(p).is_file()
}

/// Every `base/name`, bases in order, names in order within each.
pub open spec fn sibling_candidates(bases: Seq<Seq<char>>, names: Seq<Seq<char>>) -> Seq<Seq<char>>
    decreases bases.len(),
{
    if bases.len() == 0 {
        Seq::empty()
    } else {
        sibling_candidates(bases.drop_last(), names) + names.map_values(
            |n: Seq<char>| join_path(bases.last(), n),
        )
    }
}

/// The first of `cands` from `i` on whose entry in `present` is set.
pub open spec fn first_present_from(cands: Seq<Seq<char>>, present: Seq<bool>, i: nat) -> Option<
    Seq<char>,
>
    decreases cands.len() - i,
{
    if i >= cands.len() || i >= present.len() {
        None
    } else if present[i as int] {
        Some(cands[i as int])
    } else {
        first_present_from(cands, present, i + 1)
    }
}

/// The first of `cands` whose entry in `present` is set, if any is.
pub open spec fn first_present_of(cands: Seq<Seq<char>>, present: Seq<bool>) -> Option<Seq<char>> {
    first_present_from(cands, present, 0)
}

/// What is picked is one of the candidates.
pub proof fn lemma_first_present_in(cands: Seq<Seq<char>>, present: Seq<bool>, i: nat)
    ensures
        first_present_from(cands, present, i) matches Some(d) ==> cands.contains(d),
    decreases cands.len() - i,
{
    if i < cands.len() && i < present.len() {
        if present[i as int] {
            assert(cands[i as int] == cands[i as int]);
        } else {
            lemma_first_present_in(cands, present, i + 1);
        }
    }
}

/// The texts of an optional string.
pub open spec fn option_text(r: Option<String>) -> Option<Seq<char>> {
    match r {
        Some(d) => Some(d@),
        None => None,
    }
}

/// The first of `cands` whose entry in `present` is set, `None` when none
/// is.
pub fn first_present(cands: &Vec<String>, present: &Vec<bool>) -> (r: Option<String>)
    requires
        present@.len() == cands@.len(),
    ensures
        option_text(r) == first_present_of(views(cands@), present@),
{
    let n = cands.len();
    let mut i: usize = 0;
    while i < n
        invariant
            i <= n,
            n == cands@.len(),
            n == present@.len(),
            first_present_from(views(cands@), present@, i as nat) == first_present_of(
                views(cands@),
                present@,
            ),
        decreases n - i,
    {
        if present[i] {
            return Some(cands[i].clone());
        }
        i = i + 1;
    }
    None
}

/// Every `base/name`, bases in order, names in order within each.
fn sibling_paths(bases: &Vec<String>, names: &Vec<String>) -> (out: Vec<String>)
    ensures
        views(out@) == sibling_candidates(views(bases@), views(names@)),
{
    let ghost vb = views(bases@);
    let ghost vn = views(names@);
    let mut out: Vec<String> = Vec::new();
    let nb = bases.len();
    let nn = names.len();
    for b in 0..nb
        invariant
            nb == bases@.len(),
            nn == names@.len(),
            vb == views(bases@),
            vn == views(names@),
            views(out@) == sibling_candidates(vb.take(b as int), vn),
    {
        let ghost start = views(out@);
        for k in 0..nn
            invariant
                nb == bases@.len(),
                nn == names@.len(),
                b < nb,
                vb == views(bases@),
                vn == views(names@),
                views(out@) == start + vn.take(k as int).map_values(
                    |n: Seq<char>| join_path(vb[b as int], n),
                ),
        {
            let d = join(bases[b].as_str(), names[k].as_str());
            let ghost before = views(out@);
            out.push(d);
            assert(views(out@) =~= before.push(d@));
            assert(vn.take(k + 1).map_values(|n: Seq<char>| join_path(vb[b as int], n))
                =~= vn.take(k as int).map_values(|n: Seq<char>| join_path(vb[b as int], n)).push(
                join_path(vb[b as int], vn[k as int]),
            ));
        }
        assert(vn.take(nn as int) =~= vn);
        assert(vb.take(b + 1).drop_last() =~= vb.take(b as int));
        assert(vb.take(b + 1).last() == vb[b as int]);
    }
    assert(vb.take(nb as int) =~= vb);
    out
}

/// The first `base/name` holding `probe`, bases in order, names in order
/// within each (the nearest base wins over a later name); `None` when none
/// holds it. Which paths exist is the disk's to say; each candidate is
/// asked at most once, and none after the first that holds the probe.
pub fn find_sibling(bases: &Vec<String>, names: &Vec<String>, probe: &str) -> (r: Option<String>)
    ensures
        exists|present: Seq<bool>|
            present.len() == sibling_candidates(views(bases@), views(names@)).len() && option_text(r)
                == first_present_of(sibling_candidates(views(bases@), views(names@)), present),
        r matches Some(d) ==> sibling_candidates(views(bases@), views(names@)).contains(d@),
{
    let cands = sibling_paths(bases, names);
    let n = cands.len();
    let mut present: Vec<bool> = Vec::new();
    let mut found = false;
    while present.len() < n
        invariant
            present@.len() <= n,
            n == cands@.len(),
        decreases n - present@.len(),
    {
        if found {
            present.push(false);
        } else {
            let i = present.len();
            let p = join(cands[i].as_str(), probe);
            let here = path_exists(p.as_str());
            present.push(here);
            found = here;
        }
    }
    let r = first_present(&cands, &present);
    proof {
        lemma_first_present_in(views(cands@), present@, 0);
    }
    r
}

/// The payload's two places under the sibling: its release build, else its
/// debug one.
pub open spec fn payload_candidates(root: Seq<char>) -> Seq<Seq<char>> {
    seq![
        join_path(root, "host/target/release/libggml_phi.so"@),
        join_path(root, "host/target/debug/libggml_phi.so"@),
    ]
}

/// What to run when the payload is not built.
pub open spec fn payload_missing(root: Seq<char>) -> Seq<char> {
    "the payload is not built: (cd \""@ + root + "/host\" && cargo build --release -p phi-ggml)"@
}

/// The texts of a `Result` of strings.
pub open spec fn result_text(r: Result<String, String>) -> Result<Seq<char>, Seq<char>> {
    match r {
        Ok(p) => Ok(p@),
        Err(e) => Err(e@),
    }
}

/// The payload chosen from whether each build is a file: the release
/// build when it is one, else the debug build when it is one, else what to
/// run to build it.
pub open spec fn payload_choice(root: Seq<char>, release: bool, debug: bool) -> Result<
    Seq<char>,
    Seq<char>,
> {
    if release {
        Ok(payload_candidates(root)[0])
    } else if debug {
        Ok(payload_candidates(root)[1])
    } else {
        Err(payload_missing(root))
    }
}

/// The payload library under `root`, from whether its release build and
/// its debug build are files.
pub fn payload_pick(root: &str, release: bool, debug: bool) -> (r: Result<String, String>)
    ensures
        result_text(r) == payload_choice(root@, release, debug),
{
    if release {
        let p = join(root, "host/target/release/libggml_phi.so");
        assert(payload_candidates(root@)[0] == p@);
        return Ok(p);
    }
    if debug {
        let p = join(root, "host/target/debug/libggml_phi.so");
        assert(payload_candidates(root@)[1] == p@);
        return Ok(p);
    }
    let mut e = owned("the payload is not built: (cd \"");
    e.append(root);
    e.append("/host\" && cargo build --release -p phi-ggml)");
    Err(e)
}

/// The payload library: the sibling's release build, else its debug one,
/// else what to run to build it. Which builds are files is the disk's to
/// say; the debug build is asked only when the release build is not one.
pub fn payload(root: &str) -> (r: Result<String, String>)
    ensures
        exists|release: bool, debug: bool| result_text(r) == payload_choice(root@, release, debug),
        r matches Ok(p) ==> payload_candidates(root@).contains(p@),
        r matches Err(e) ==> e@ == payload_missing(root@),
{
    let release = path_is_file(join(root, "host/target/release/libggml_phi.so").as_str());
    let debug = if release {
        false
    } else {
        path_is_file(join(root, "host/target/debug/libggml_phi.so").as_str())
    };
    let r = payload_pick(root, release, debug);
    proof {
        let c = payload_candidates(root@);
        assert(release ==> c.contains(c[0]));
        assert(!release && debug ==> c.contains(c[1]));
    }
    r
}

/// Whether a card's worker is kept as it is: xks's marker records this
/// very configuration, the worker is polling, and the card itself reports
/// holding what `cfg` asks for (`phi-vpu.sh config`; a card that could not
/// say does not hold it). Anything else is restarted, which is always safe.
pub open spec fn worker_kept(
    marker: Option<Seq<char>>,
    cfg_tag: Seq<char>,
    polling: bool,
    card_config: Option<Seq<char>>,
    hugepages: u32,
    args: Seq<char>,
) -> bool {
    &&& marker == Some(cfg_tag)
    &&& polling
    &&& card_config matches Some(o) && config_holds(o, hugepages, args)
}

/// Whether the worker on a card is kept, from its marker's text, whether
/// it polls, and what the card reports of its configuration.
pub fn keep_worker(
    marker: Option<&str>,
    cfg: &WorkerConfig,
    polling: bool,
    card_config: Option<&str>,
) -> (b: bool)
    ensures
        b == worker_kept(
            match marker {
                Some(m) => Some(m@),
                None => None,
            },
            "hugepages="@ + digits(cfg.hugepages as nat, 10) + " args="@ + cfg.args@,
            polling,
            match card_config {
                Some(o) => Some(o@),
                None => None,
            },
            cfg.hugepages,
            cfg.args@,
        ),
{
    let same = match marker {
        Some(m) => crate::text::str_eq(m, cfg.tag().as_str()),
        None => false,
    };
    if !same || !polling {
        return false;
    }
    match card_config {
        Some(o) => config_matches(o, cfg),
        None => false,
    }
}

/// The cards of `cards` whose entry in `marked` is set, in order.
pub open spec fn marked_cards(cards: Seq<u32>, marked: Seq<bool>) -> Seq<u32>
    decreases cards.len(),
{
    if cards.len() == 0 || marked.len() == 0 {
        Seq::empty()
    } else {
        let rest = marked_cards(cards.drop_last(), marked.take(marked.len() - 1));
        if marked.last() {
            rest.push(cards.last())
        } else {
            rest
        }
    }
}

/// The cards whose workers xks started, from whether each card's marker
/// is there (`marked`, one entry per card).
pub fn workers_marked(cards: &Vec<u32>, marked: &Vec<bool>) -> (out: Vec<u32>)
    requires
        marked@.len() == cards@.len(),
    ensures
        out@ == marked_cards(cards@, marked@),
{
    let mut out: Vec<u32> = Vec::new();
    let n = cards.len();
    for i in 0..n
        invariant
            n == cards@.len(),
            n == marked@.len(),
            out@ == marked_cards(cards@.take(i as int), marked@.take(i as int)),
    {
        assert(cards@.take(i + 1).drop_last() =~= cards@.take(i as int));
        assert(marked@.take(i + 1).take(i as int) =~= marked@.take(i as int));
        if marked[i] {
            out.push(cards[i]);
        }
    }
    assert(cards@.take(n as int) =~= cards@);
    assert(marked@.take(n as int) =~= marked@);
    out
}

/// The cards among `cards` whose workers xks started (a marker under the
/// runtime directory `run` records each one's configuration): what `stop`
/// gives back. Which markers are on disk is the disk's to say.
pub fn xks_workers(cards: &Vec<u32>, run: &str) -> (out: Vec<u32>)
    ensures
        exists|marked: Seq<bool>|
            marked.len() == cards@.len() && out@ == marked_cards(cards@, marked),
{
    let mut marked: Vec<bool> = Vec::new();
    let n = cards.len();
    for i in 0..n
        invariant
            n == cards@.len(),
            marked@.len() == i,
    {
        let m = marker(run, cards[i]);
        marked.push(path_is_file(m.as_str()));
    }
    workers_marked(cards, &marked)
}

/// The workers a server past its kill date gives back: xks's among the
/// cards it used, none on the x86 site.
pub fn retired(workers: &Vec<u32>, used: &Vec<u32>) -> (out: Vec<u32>)
    ensures
        out@ == workers@.filter(|c: u32| used@.contains(c)),
{
    let mut out: Vec<u32> = Vec::new();
    let n = workers.len();
    for i in 0..n
        invariant
            n == workers@.len(),
            out@ == workers@.take(i as int).filter(|c: u32| used@.contains(c)),
    {
        reveal_with_fuel(Seq::filter, 1);
        assert(workers@.take(i + 1).drop_last() =~= workers@.take(i as int));
        let c = workers[i];
        let mut found = false;
        let m = used.len();
        for j in 0..m
            invariant
                m == used@.len(),
                found == (exists|k: int| 0 <= k < j && used@[k] == c),
        {
            if used[j] == c {
                found = true;
            }
        }
        assert(found == used@.contains(c));
        if found {
            out.push(c);
        }
    }
    assert(workers@.take(n as int) =~= workers@);
    out
}

/// The card a host window's file name stands for: `phi-hostmem-N` is card
/// N (`phi-hostmem` itself, card 0, is looked for apart).
pub open spec fn window_card(name: Seq<char>) -> Option<u32> {
    if starts_with(name, "phi-hostmem-"@) {
        u32_of(name.skip(12))
    } else {
        None
    }
}

/// Whether `c` has a host window: card 0's own file, or a numbered one.
pub open spec fn has_window(card0: bool, names: Seq<Seq<char>>, c: u32) -> bool {
    (card0 && c == 0) || exists|i: int| 0 <= i < names.len() && window_card(#[trigger] names[i]) == Some(c)
}

/// Strictly increasing: sorted, nothing twice.
pub open spec fn increasing(v: Seq<u32>) -> bool {
    forall|i: int, j: int| 0 <= i < j < v.len() ==> v[i] < v[j]
}

/// `c` put in its place in an increasing list, unless it is there already.
#[verifier::spinoff_prover]
fn insert_card(v: &mut Vec<u32>, c: u32)
    requires
        increasing(old(v)@),
    ensures
        increasing(final(v)@),
        forall|x: u32| final(v)@.contains(x) <==> (old(v)@.contains(x) || x == c),
{
    let n = v.len();
    let mut i: usize = 0;
    while i < n && v[i] < c
        invariant
            n == v@.len(),
            i <= n,
            forall|j: int| 0 <= j < i ==> v@[j] < c,
        decreases n - i,
    {
        i = i + 1;
    }
    if i < n && v[i] == c {
        assert(v@[i as int] == c);
        assert(v@.contains(c));
        return;
    }
    let ghost before = v@;
    assert(before == old(v)@);
    v.insert(i, c);
    assert(v@ =~= before.insert(i as int, c));
    proof {
        lemma_insert_holds(before, i as int, c);
    }
}

/// What a sequence holds after an insertion: what it held, and the new
/// item.
proof fn lemma_insert_holds(before: Seq<u32>, i: int, c: u32)
    requires
        0 <= i <= before.len(),
    ensures
        forall|x: u32| #[trigger] before.insert(i, c).contains(x) <==> (before.contains(x) || x == c),
{
    let v = before.insert(i, c);
    assert forall|x: u32| v.contains(x) <==> (before.contains(x) || x == c) by {
        if before.contains(x) {
            let k = choose|k: int| 0 <= k < before.len() && before[k] == x;
            if k < i {
                assert(v[k] == x);
            } else {
                assert(v[k + 1] == x);
            }
        }
        if x == c {
            assert(v[i] == x);
        }
        if v.contains(x) {
            let k = choose|k: int| 0 <= k < v.len() && v[k] == x;
            if k < i {
                assert(before[k] == x);
            } else if k > i {
                assert(before[k - 1] == x);
            }
        }
    }
}

/// The cards with a host window: card 0 when its own window is there
/// (`card0`), and N for each `phi-hostmem-N` among the file names of
/// `/dev/shm`; in order, each once.
pub fn window_cards(card0: bool, names: &Vec<String>) -> (out: Vec<u32>)
    ensures
        increasing(out@),
        forall|c: u32| out@.contains(c) <==> has_window(card0, views(names@), c),
{
    let mut out: Vec<u32> = Vec::new();
    if card0 {
        out.push(0);
        assert(out@ =~= seq![0u32]);
    }
    assert forall|c: u32| out@.contains(c) <==> ((card0 && c == 0) || exists|k: int|
        0 <= k < 0 && window_card(#[trigger] views(names@)[k]) == Some(c)) by {
        if card0 && c == 0 {
            assert(out@[0] == c);
        }
    }
    let n = names.len();
    for i in 0..n
        invariant
            n == names@.len(),
            increasing(out@),
            forall|c: u32|
                out@.contains(c) <==> ((card0 && c == 0) || exists|k: int|
                    0 <= k < i && window_card(#[trigger] views(names@)[k]) == Some(c)),
    {
        proof {
            reveal_strlit("phi-hostmem-");
        }
        assert(views(names@)[i as int] == names@[i as int]@);
        let ghost prev = out@;
        match strip_prefix(names[i].as_str(), "phi-hostmem-") {
            Some(rest) => {
                match parse_u32(rest.as_str()) {
                    Some(c) => {
                        insert_card(&mut out, c);
                        assert forall|x: u32| out@.contains(x) <==> ((card0 && x == 0) || exists|k: int|
                            0 <= k < i + 1 && window_card(#[trigger] views(names@)[k]) == Some(x)) by {
                            if exists|k: int| 0 <= k < i + 1 && window_card(#[trigger] views(names@)[k]) == Some(x) {
                                let k = choose|k: int| 0 <= k < i + 1 && window_card(#[trigger] views(names@)[k]) == Some(x);
                                if k < i {
                                    assert(prev.contains(x));
                                }
                            }
                        }
                    },
                    None => {
                        assert forall|x: u32| out@.contains(x) <==> ((card0 && x == 0) || exists|k: int|
                            0 <= k < i + 1 && window_card(#[trigger] views(names@)[k]) == Some(x)) by {
                            if exists|k: int| 0 <= k < i + 1 && window_card(#[trigger] views(names@)[k]) == Some(x) {
                                let k = choose|k: int| 0 <= k < i + 1 && window_card(#[trigger] views(names@)[k]) == Some(x);
                                assert(k < i);
                            }
                        }
                    },
                }
            },
            None => {
                assert forall|x: u32| out@.contains(x) <==> ((card0 && x == 0) || exists|k: int|
                    0 <= k < i + 1 && window_card(#[trigger] views(names@)[k]) == Some(x)) by {
                    if exists|k: int| 0 <= k < i + 1 && window_card(#[trigger] views(names@)[k]) == Some(x) {
                        let k = choose|k: int| 0 <= k < i + 1 && window_card(#[trigger] views(names@)[k]) == Some(x);
                        assert(k < i);
                    }
                }
            },
        }
    }
    out
}

/// The cards as the payload's `PHI_GGML_CARDS` lists them: numbers joined
/// by commas.
pub open spec fn card_list_text(cards: Seq<u32>) -> Seq<char>
    decreases cards.len(),
{
    if cards.len() == 0 {
        Seq::empty()
    } else if cards.len() == 1 {
        digits(cards[0] as nat, 10)
    } else {
        card_list_text(cards.drop_last()) + ","@ + digits(cards.last() as nat, 10)
    }
}

/// The cards as `PHI_GGML_CARDS` lists them (`0,1`).
pub fn card_list(cards: &Vec<u32>) -> (s: String)
    ensures
        s@ == card_list_text(cards@),
{
    let mut s = String::new();
    let n = cards.len();
    for i in 0..n
        invariant
            n == cards@.len(),
            s@ == card_list_text(cards@.take(i as int)),
    {
        assert(cards@.take(i + 1).drop_last() =~= cards@.take(i as int));
        if i > 0 {
            s.append(",");
        }
        push_dec(&mut s, cards[i] as u128);
        proof {
            if i == 0 {
                assert(s@ =~= card_list_text(cards@.take(1)));
            }
        }
    }
    assert(cards@.take(n as int) =~= cards@);
    s
}

} // verus!
