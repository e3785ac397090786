//! Labelled evaluation: which lines of a case file are cases, and which
//! option a case's gold label names. The metrics (accuracy, Brier,
//! calibration error) are arithmetic on probabilities, left to the program.
use vstd::prelude::*;

use crate::text::{
    digits, lines, lines_of, owned, parse_usize, push_dec, starts_with, trim, trim_start, trim_str,
    usize_of, views,
};

verus! {

/// A gold label as a case file writes it (the JSON value's shape): a
/// number (its text, and its value when it is a whole number that fits),
/// a string, a boolean, or anything else.
#[derive(Debug, Clone)]
pub enum Gold {
    Number { text: String, index: Option<u64> },
    Text(String),
    Bool(bool),
    Other,
}

/// The first position at or after `k` of `keys` holding `s`.
pub open spec fn key_from(keys: Seq<Seq<char>>, s: Seq<char>, k: nat) -> Option<nat>
    decreases keys.len() - k,
{
    if k >= keys.len() {
        None
    } else if keys[k as int] == s {
        Some(k)
    } else {
        key_from(keys, s, k + 1)
    }
}

/// A key found is one of the keys.
pub proof fn lemma_key_from_bound(keys: Seq<Seq<char>>, s: Seq<char>, k: nat)
    ensures
        key_from(keys, s, k) matches Some(i) ==> k <= i < keys.len() && keys[i as int] == s,
    decreases keys.len() - k,
{
    if k < keys.len() && keys[k as int] != s {
        lemma_key_from_bound(keys, s, k + 1);
    }
}

/// Whether the options are a Noul's: `yes`, then `no`.
pub open spec fn yes_no(keys: Seq<Seq<char>>) -> bool {
    keys.len() == 2 && keys[0] == "yes"@ && keys[1] == "no"@
}

/// The index a gold label reads as, before it is held to the options: a
/// key (a Score's level number is its key), `true`/`false` (or their
/// strings) for a Noul, else a number read as an option index.
pub open spec fn gold_pick(g: Gold, keys: Seq<Seq<char>>) -> Option<nat> {
    match g {
        Gold::Number { text, index } => match key_from(keys, text@, 0) {
            Some(i) => Some(i),
            None => match index {
                Some(x) => Some(x as nat),
                None => None,
            },
        },
        Gold::Text(s) => match key_from(keys, s@, 0) {
            Some(i) => Some(i),
            None => if yes_no(keys) && s@ == "true"@ {
                Some(0)
            } else if yes_no(keys) && s@ == "false"@ {
                Some(1)
            } else {
                match usize_of(s@) {
                    Some(x) => Some(x as nat),
                    None => None,
                }
            },
        },
        Gold::Bool(b) => if yes_no(keys) {
            Some(
                if b {
                    0
                } else {
                    1
                },
            )
        } else {
            None
        },
        Gold::Other => None,
    }
}

/// The option a gold label names, none when the index it reads as is past
/// the options.
pub open spec fn gold_of(g: Gold, keys: Seq<Seq<char>>) -> Option<nat> {
    match gold_pick(g, keys) {
        Some(i) => if i < keys.len() {
            Some(i)
        } else {
            None
        },
        None => None,
    }
}

fn key_position(keys: &Vec<String>, s: &str) -> (r: Option<usize>)
    ensures
        match key_from(views(keys@), s@, 0) {
            Some(i) => r == Some(i as usize),
            None => r is None,
        },
{
    let n = keys.len();
    let mut i: usize = 0;
    while i < n
        invariant
            n == keys@.len(),
            i <= n,
            key_from(views(keys@), s@, 0) == key_from(views(keys@), s@, i as nat),
        decreases n - i,
    {
        assert(views(keys@)[i as int] == keys@[i as int]@);
        if crate::text::str_eq(keys[i].as_str(), s) {
            return Some(i);
        }
        i = i + 1;
    }
    None
}

fn is_yes_no(keys: &Vec<String>) -> (b: bool)
    ensures
        b == yes_no(views(keys@)),
{
    if keys.len() != 2 {
        return false;
    }
    assert(views(keys@)[0] == keys@[0]@);
    assert(views(keys@)[1] == keys@[1]@);
    crate::text::str_eq(keys[0].as_str(), "yes") && crate::text::str_eq(keys[1].as_str(), "no")
}

/// The option a gold label names: a key, `true`/`false` for a Noul, else a
/// number read as an option index; `None` when it names no option, so a
/// 1-based level or a stray key is an error, never an index past the end.
pub fn gold_index(g: &Gold, keys: &Vec<String>) -> (r: Option<usize>)
    ensures
        match gold_of(*g, views(keys@)) {
            Some(i) => r == Some(i as usize),
            None => r is None,
        },
        r matches Some(i) ==> i < keys@.len(),
{
    let noul = is_yes_no(keys);
    let klen = keys.len();
    assert(views(keys@).len() == klen);
    proof {
        match g {
            Gold::Number { text, .. } => lemma_key_from_bound(views(keys@), text@, 0),
            Gold::Text(t) => lemma_key_from_bound(views(keys@), t@, 0),
            _ => {},
        }
    }
    let picked: Option<u64> = match g {
        Gold::Number { text, index } => match key_position(keys, text.as_str()) {
            Some(i) => Some(i as u64),
            None => *index,
        },
        Gold::Text(s) => match key_position(keys, s.as_str()) {
            Some(i) => Some(i as u64),
            None => if noul && crate::text::str_eq(s.as_str(), "true") {
                Some(0)
            } else if noul && crate::text::str_eq(s.as_str(), "false") {
                Some(1)
            } else {
                match parse_usize(s.as_str()) {
                    Some(x) => Some(x as u64),
                    None => None,
                }
            },
        },
        Gold::Bool(b) => if noul {
            Some(
                if *b {
                    0
                } else {
                    1
                },
            )
        } else {
            None
        },
        Gold::Other => None,
    };
    assert(match gold_pick(*g, views(keys@)) {
        Some(i) => picked == Some(i as u64),
        None => picked is None,
    });
    match picked {
        Some(i) => if i < keys.len() as u64 {
            Some(i as usize)
        } else {
            None
        },
        None => None,
    }
}

/// Whether a line of a case file is a case: not blank, not a `#` comment.
pub open spec fn is_case_line(l: Seq<char>) -> bool {
    trim(l).len() > 0 && !starts_with(trim_start(l), "#"@)
}

/// The lines of a text with their numbers as an editor shows them,
/// counting from one.
pub open spec fn numbered(ls: Seq<Seq<char>>) -> Seq<(nat, Seq<char>)> {
    Seq::new(ls.len(), |k: int| ((k + 1) as nat, ls[k]))
}

/// Numbered lines as their values.
pub open spec fn numbered_views(v: Seq<(usize, String)>) -> Seq<(nat, Seq<char>)> {
    v.map_values(|p: (usize, String)| (p.0 as nat, p.1@))
}

/// The lines of a case file that are cases, in order, each with its line
/// number in the file (JSON Lines, with blank lines and `#` comments
/// skipped), so an error names the line an editor shows.
pub fn case_lines(text: &str) -> (out: Vec<(usize, String)>)
    ensures
        numbered_views(out@) == numbered(lines_of(text@)).filter(
            |p: (nat, Seq<char>)| is_case_line(p.1),
        ),
{
    let ls = lines(text);
    let mut out: Vec<(usize, String)> = Vec::new();
    let n = ls.len();
    let ghost all = numbered(views(ls@));
    for i in 0..n
        invariant
            n == ls@.len(),
            views(ls@) == lines_of(text@),
            all == numbered(views(ls@)),
            numbered_views(out@) == all.take(i as int).filter(|p: (nat, Seq<char>)| is_case_line(p.1)),
    {
        reveal_with_fuel(Seq::filter, 1);
        assert(all.take(i + 1).drop_last() =~= all.take(i as int));
        assert(views(ls@)[i as int] == ls@[i as int]@);
        assert(all[i as int] == ((i + 1) as nat, ls@[i as int]@));
        let t = trim_str(ls[i].as_str());
        let blank = t.as_str().unicode_len() == 0;
        let comment = crate::text::has_prefix(t.as_str(), "#");
        proof {
            crate::text::lemma_trim_start_of_trim(ls@[i as int]@);
        }
        if !blank && !comment {
            let ghost before = numbered_views(out@);
            out.push((i + 1, owned(ls[i].as_str())));
            assert(numbered_views(out@) =~= before.push(((i + 1) as nat, ls@[i as int]@)));
        }
    }
    assert(all.take(n as int) =~= all);
    out
}


/// What a case file with no case is told: its path, and what a case is.
pub open spec fn no_case(path: Seq<char>) -> Seq<char> {
    path + ": no case (JSON Lines, each a state, questions and gold)"@
}

/// A case file's cases, each with its line number: an error, naming the
/// file, when it has none.
pub fn case_file(path: &str, text: &str) -> (r: Result<Vec<(usize, String)>, String>)
    ensures
        match r {
            Ok(v) => numbered_views(v@) == numbered(lines_of(text@)).filter(
                |p: (nat, Seq<char>)| is_case_line(p.1),
            ) && v@.len() > 0,
            Err(e) => numbered(lines_of(text@)).filter(|p: (nat, Seq<char>)| is_case_line(p.1)).len()
                == 0 && e@ == no_case(path@),
        },
{
    let v = case_lines(text);
    if v.len() == 0 {
        let mut e = owned(path);
        e.append(": no case (JSON Lines, each a state, questions and gold)");
        Err(e)
    } else {
        Ok(v)
    }
}

/// What a case that does not read is told: the file, the line an editor
/// shows, and what was wrong.
pub fn case_error(path: &str, line: usize, e: &str) -> (out: String)
    ensures
        out@ == path@ + ", line "@ + digits(line as nat, 10) + ": "@ + e@,
{
    let mut out = owned(path);
    out.append(", line ");
    push_dec(&mut out, line as u128);
    out.append(": ");
    out.append(e);
    out
}


/// A boolean gold on a Noul names the option of its key: `true` the
/// option keyed `yes`, `false` the one keyed `no`, as the strings
/// `"true"` and `"false"` do; on any other options a boolean names none.
pub proof fn lemma_bool_gold_names_its_key(b: bool, keys: Seq<Seq<char>>, t: String)
    requires
        t@ == (if b {
            "true"@
        } else {
            "false"@
        }),
    ensures
        yes_no(keys) ==> gold_of(Gold::Bool(b), keys) == key_from(
            keys,
            if b {
                "yes"@
            } else {
                "no"@
            },
            0,
        ),
        yes_no(keys) ==> gold_of(Gold::Bool(b), keys) is Some,
        yes_no(keys) ==> gold_of(Gold::Bool(b), keys) == gold_of(Gold::Text(t), keys),
        !yes_no(keys) ==> gold_of(Gold::Bool(b), keys) is None,
{
    reveal_strlit("yes");
    reveal_strlit("no");
    reveal_strlit("true");
    reveal_strlit("false");
    if yes_no(keys) {
        assert("yes"@.len() == 3 && "no"@.len() == 2 && "true"@.len() == 4 && "false"@.len() == 5);
        assert(keys[0] != "no"@);
        assert(keys[0] != "true"@ && keys[1] != "true"@);
        assert(keys[0] != "false"@ && keys[1] != "false"@);
        assert(key_from(keys, "yes"@, 0) == Some(0nat));
        assert(key_from(keys, "no"@, 1) == Some(1nat));
        assert(key_from(keys, "true"@, 2) is None);
        assert(key_from(keys, "true"@, 1) is None);
        assert(key_from(keys, "false"@, 2) is None);
        assert(key_from(keys, "false"@, 1) is None);
    }
}
} // verus!
