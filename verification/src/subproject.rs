//! Subprojects: every experiment of the repository as one command,
//! `xks subproject run NN` (or `all`). Which subprojects a name picks,
//! where each one's files go, and the time its record is stamped with.
//! Running them (child processes, llama-server, the record on disk) is the
//! program's.
use vstd::prelude::*;

use crate::decisions::utc_text;
use crate::text::{join, join_path, owned};

verus! {

/// One experiment: its number, its name, what it measures, whether `all`
/// runs it (one that cannot finish inside the budget yet is run by name
/// only), and whether it needs the cards.
#[derive(Debug, Clone, Copy)]
pub struct Subproject {
    pub id: &'static str,
    pub name: &'static str,
    pub what: &'static str,
    pub in_all: bool,
    pub cards: bool,
}

/// Each subproject's children share one deadline: ten minutes.
pub const BUDGET_SECS: u64 = 600;

/// Every subproject, in order.
pub open spec fn catalogue() -> Seq<Subproject> {
    seq![
        Subproject {
            id: "01",
            name: "bluebird-baseline",
            what: "BLUEBIRD: stock llama-server (x86) re-prefilling every question, the first 10 dev_tasks cases",
            in_all: true,
            cards: false,
        },
        Subproject {
            id: "02",
            name: "polygraph",
            what: "ARTICHOKE's fork read three ways (forked, split, control) on the 35B, the copy isolated with one fork, and the dense 0.5B as the noise floor",
            in_all: true,
            cards: false,
        },
        Subproject {
            id: "03",
            name: "dev-eval-sites",
            what: "ARTICHOKE on the first 10 dev_tasks cases at the x86 site and the cards site, corroborated",
            in_all: true,
            cards: true,
        },
        Subproject {
            id: "04",
            name: "long-sessions-x86",
            what: "Long real sessions: BLUEBIRD against ARTICHOKE on two sessions of eight questions, this host alone",
            in_all: true,
            cards: false,
        },
        Subproject {
            id: "05",
            name: "wide-choice-trie",
            what: "A 30-option Choice (multi-token labels) read as a trie of forks against brute force",
            in_all: true,
            cards: false,
        },
        Subproject {
            id: "06",
            name: "avx512-parity",
            what: "The AVX-512 build under phi512 (with the payload) against the x86 reference, dense 0.5B",
            in_all: false,
            cards: true,
        },
        Subproject {
            id: "07",
            name: "long-sessions-cards",
            what: "All four long sessions on the x86 site and on the cards, the payload's ledger, corroborated",
            in_all: true,
            cards: true,
        },
    ]
}

/// Every subproject, in the order `all` runs them.
pub fn all() -> (v: Vec<Subproject>)
    ensures
        v@ == catalogue(),
{
    vec![
        Subproject {
            id: "01",
            name: "bluebird-baseline",
            what: "BLUEBIRD: stock llama-server (x86) re-prefilling every question, the first 10 dev_tasks cases",
            in_all: true,
            cards: false,
        },
        Subproject {
            id: "02",
            name: "polygraph",
            what: "ARTICHOKE's fork read three ways (forked, split, control) on the 35B, the copy isolated with one fork, and the dense 0.5B as the noise floor",
            in_all: true,
            cards: false,
        },
        Subproject {
            id: "03",
            name: "dev-eval-sites",
            what: "ARTICHOKE on the first 10 dev_tasks cases at the x86 site and the cards site, corroborated",
            in_all: true,
            cards: true,
        },
        Subproject {
            id: "04",
            name: "long-sessions-x86",
            what: "Long real sessions: BLUEBIRD against ARTICHOKE on two sessions of eight questions, this host alone",
            in_all: true,
            cards: false,
        },
        Subproject {
            id: "05",
            name: "wide-choice-trie",
            what: "A 30-option Choice (multi-token labels) read as a trie of forks against brute force",
            in_all: true,
            cards: false,
        },
        Subproject {
            id: "06",
            name: "avx512-parity",
            what: "The AVX-512 build under phi512 (with the payload) against the x86 reference, dense 0.5B",
            in_all: false,
            cards: true,
        },
        Subproject {
            id: "07",
            name: "long-sessions-cards",
            what: "All four long sessions on the x86 site and on the cards, the payload's ledger, corroborated",
            in_all: true,
            cards: true,
        },
    ]
}

/// Whether `which` names `sp`: its number, its name, or both as `NN-name`.
pub open spec fn named_by(sp: Subproject, which: Seq<char>) -> bool {
    sp.id@ == which || sp.name@ == which || sp.id@ + "-"@ + sp.name@ == which
}

/// The subprojects `which` picks, in order: for `all`, every one that
/// `all` runs.
pub open spec fn picked(sps: Seq<Subproject>, which: Seq<char>) -> Seq<Subproject> {
    if which == "all"@ {
        sps.filter(|sp: Subproject| sp.in_all)
    } else {
        sps.filter(|sp: Subproject| named_by(sp, which))
    }
}

fn names_it(sp: &Subproject, which: &str) -> (b: bool)
    ensures
        b == named_by(*sp, which@),
{
    if crate::text::str_eq(sp.id, which) || crate::text::str_eq(sp.name, which) {
        return true;
    }
    let mut both = owned(sp.id);
    both.append("-");
    both.append(sp.name);
    crate::text::str_eq(both.as_str(), which)
}

/// The subprojects `which` picks: for `all` every one that `all` runs,
/// else each whose number, name or `NN-name` it is.
pub fn find(which: &str) -> (out: Vec<Subproject>)
    ensures
        out@ == picked(catalogue(), which@),
{
    let every = all();
    let every_one = crate::text::str_eq(which, "all");
    let mut out: Vec<Subproject> = Vec::new();
    let n = every.len();
    for i in 0..n
        invariant
            n == every@.len(),
            every_one == (which@ == "all"@),
            out@ == picked(every@.take(i as int), which@),
    {
        reveal_with_fuel(Seq::filter, 1);
        assert(every@.take(i + 1).drop_last() =~= every@.take(i as int));
        let keep = if every_one {
            every[i].in_all
        } else {
            names_it(&every[i], which)
        };
        if keep {
            out.push(every[i]);
        }
    }
    assert(every@.take(n as int) =~= every@);
    out
}

/// The subprojects `subproject run` runs: `which` is required, and must
/// pick at least one.
pub fn pick(which: Option<&str>) -> (r: Result<Vec<Subproject>, String>)
    ensures
        match which {
            None => r matches Err(e) && e@ == "which subproject? an id, a name, or all"@,
            Some(w) => if picked(catalogue(), w@).len() == 0 {
                r matches Err(e) && e@ == "no subproject `"@ + w@ + "` (xks subproject list)"@
            } else {
                r matches Ok(v) && v@ == picked(catalogue(), w@)
            },
        },
{
    match which {
        None => Err(owned("which subproject? an id, a name, or all")),
        Some(w) => {
            let chosen = find(w);
            if chosen.len() == 0 {
                let mut e = owned("no subproject `");
                e.append(w);
                e.append("` (xks subproject list)");
                Err(e)
            } else {
                Ok(chosen)
            }
        },
    }
}

/// A UTC time as `YYYY-MM-DDTHH:MM:SSZ`, the stamp on a record.
pub fn utc(secs: u64) -> (out: String)
    ensures
        out@ == utc_text(secs as nat),
{
    crate::decisions::utc(secs)
}

/// Where the subprojects find the repository's files and leave their logs,
/// and the two subjects they run.
#[derive(Debug, Clone)]
pub struct Ctx {
    pub exe: String,
    pub repo: String,
    pub logs: String,
    pub subject: String,
    pub small: String,
}

impl Ctx {
    /// The context for a checkout at `repo`: logs under `target/subprojects`.
    pub fn at(exe: String, repo: String, subject: String, small: String) -> (c: Ctx)
        ensures
            c.exe == exe,
            c.repo == repo,
            c.subject == subject,
            c.small == small,
            c.logs@ == join_path(repo@, "target/subprojects"@),
    {
        let logs = join(repo.as_str(), "target/subprojects");
        Ctx { exe, repo, logs, subject, small }
    }

    /// An example file of the repository.
    pub fn example(&self, name: &str) -> (p: String)
        ensures
            p@ == join_path(join_path(self.repo@, "examples"@), name@),
    {
        let d = join(self.repo.as_str(), "examples");
        join(d.as_str(), name)
    }

    /// A log file of this run.
    pub fn log(&self, name: &str) -> (p: String)
        ensures
            p@ == join_path(self.logs@, name@),
    {
        join(self.logs.as_str(), name)
    }
}

/// Where a subproject's rows go: a log file beside the others.
pub fn rows(ctx: &Ctx, name: &str) -> (p: String)
    ensures
        p@ == join_path(ctx.logs@, name@),
{
    ctx.log(name)
}

/// The file a subproject's record is written to, under the repository's
/// `docs/subprojects/results`.
pub fn record_path(repo: &str, sp: &Subproject) -> (p: String)
    ensures
        p@ == join_path(
            join_path(repo@, "docs/subprojects/results"@),
            sp.id@ + "-"@ + sp.name@ + ".json"@,
        ),
{
    let dir = join(repo, "docs/subprojects/results");
    let mut file = owned(sp.id);
    file.append("-");
    file.append(sp.name);
    file.append(".json");
    join(dir.as_str(), file.as_str())
}

} // verus!
