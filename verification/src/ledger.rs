//! The ledger's log format: what one line of the payload's verbose log
//! (`PHI_GGML_VERBOSE=1`) says each card and the host did,
//!
//! `ggml-phi: multiply N: host part H ms, waited W ms more; card C rows R:
//! T ms (pull P, compute K, push U); ...`
//!
//! read as the texts of its numbers. Which lines count, which segments are
//! cards and where each number stands is decided here; the numbers are
//! milliseconds with fractions, and turning them into values and totalling
//! them is left to the caller.
use vstd::prelude::*;

use crate::text::{
    chars_of, is_digit, is_whitespace, is_ws, starts_with, string_of, string_of_range, trim,
    trim_start, trim_str,
};

verus! {

/// Whether `k` stands in `s` at `i`.
pub open spec fn occurs_at(s: Seq<char>, k: Seq<char>, i: int) -> bool {
    0 <= i && i + k.len() <= s.len() && s.subrange(i, i + k.len()) == k
}

/// Where `k` first stands in `s` at or after `i` (`str::find`).
pub open spec fn find_text_from(s: Seq<char>, k: Seq<char>, i: nat) -> Option<nat>
    decreases s.len() + 1 - i,
{
    if i + k.len() > s.len() {
        None
    } else if occurs_at(s, k, i as int) {
        Some(i)
    } else {
        find_text_from(s, k, i + 1)
    }
}

/// What is found is where `k` stands, and not before it.
pub proof fn lemma_find_text(s: Seq<char>, k: Seq<char>, i: nat)
    ensures
        match find_text_from(s, k, i) {
            Some(j) => i <= j && occurs_at(s, k, j as int) && forall|m: int|
                i <= m < j ==> !occurs_at(s, k, m),
            None => forall|m: int| i <= m ==> !occurs_at(s, k, m),
        },
    decreases s.len() + 1 - i,
{
    if i + k.len() <= s.len() && !occurs_at(s, k, i as int) {
        lemma_find_text(s, k, i + 1);
    }
}

/// Whether `k` stands in `cs` at `i`.
fn occurs(cs: &Vec<char>, k: &Vec<char>, i: usize) -> (b: bool)
    requires
        i + k@.len() <= cs@.len(),
    ensures
        b == occurs_at(cs@, k@, i as int),
{
    let n = k.len();
    for j in 0..n
        invariant
            n == k@.len(),
            i + n <= cs.len(),
            forall|t: int| 0 <= t < j ==> cs@[i + t] == k@[t],
    {
        if cs[i + j] != k[j] {
            assert(cs@.subrange(i as int, i + n)[j as int] != k@[j as int]);
            return false;
        }
    }
    assert(cs@.subrange(i as int, i + n) =~= k@);
    true
}

/// Where `k` first stands in `cs` at or after `from`.
fn find_in(cs: &Vec<char>, k: &Vec<char>, from: usize) -> (r: Option<usize>)
    requires
        from <= cs@.len(),
    ensures
        match find_text_from(cs@, k@, from as nat) {
            Some(j) => r matches Some(x) && x as nat == j,
            None => r is None,
        },
{
    if k.len() > cs.len() {
        return None;
    }
    let last = cs.len() - k.len();
    let mut i = from;
    while i <= last
        invariant
            from <= i,
            last + k@.len() == cs@.len(),
            find_text_from(cs@, k@, i as nat) == find_text_from(cs@, k@, from as nat),
        decreases last + 1 - i,
    {
        if occurs(cs, k, i) {
            return Some(i);
        }
        if i == last {
            assert(find_text_from(cs@, k@, (i + 1) as nat) is None);
            return None;
        }
        i = i + 1;
    }
    None
}

/// A character of a number as the payload writes one: a digit, `.` or `-`.
pub open spec fn is_num_char(c: char) -> bool {
    is_digit(c) || c == '.' || c == '-'
}

/// Where the run of number characters from `i` ends.
pub open spec fn num_end(s: Seq<char>, i: nat) -> nat
    decreases s.len() - i,
{
    if i >= s.len() || !is_num_char(s[i as int]) {
        i
    } else {
        num_end(s, i + 1)
    }
}

/// The run ends within the text.
pub proof fn lemma_num_end(s: Seq<char>, i: nat)
    requires
        i <= s.len(),
    ensures
        i <= num_end(s, i) <= s.len(),
    decreases s.len() - i,
{
    if i < s.len() && is_num_char(s[i as int]) {
        lemma_num_end(s, i + 1);
    }
}

/// The characters of the number right after the first `key` in `s`: the
/// run of digits, `.` and `-` there, maybe empty.
pub open spec fn number_text_after(s: Seq<char>, key: Seq<char>) -> Option<Seq<char>> {
    match find_text_from(s, key, 0) {
        Some(a) => Some(s.subrange((a + key.len()) as int, num_end(s, a + key.len()) as int)),
        None => None,
    }
}

/// Whether `s` from `i` on completes a number's digits, given whether a
/// `.` and a digit came before: digits and at most one `.`, and at least
/// one digit in all.
pub open spec fn decimal_from(s: Seq<char>, i: nat, dot: bool, digit: bool) -> bool
    decreases s.len() - i,
{
    if i >= s.len() {
        digit
    } else if is_digit(s[i as int]) {
        decimal_from(s, i + 1, dot, true)
    } else if s[i as int] == '.' && !dot {
        decimal_from(s, i + 1, true, digit)
    } else {
        false
    }
}

/// Whether a run of digits, `.` and `-` reads as a number (`f64::from_str`,
/// whose grammar is `[-] (Digit+ | Digit+ '.' Digit* | Digit* '.' Digit+)`
/// on these characters).
pub open spec fn is_decimal(t: Seq<char>) -> bool {
    if t.len() > 0 && t[0] == '-' {
        decimal_from(t, 1, false, false)
    } else {
        decimal_from(t, 0, false, false)
    }
}

/// The number after the first `key` in `s`, as its text, when there is
/// one that reads as a number.
pub open spec fn number_of(s: Seq<char>, key: Seq<char>) -> Option<Seq<char>> {
    match number_text_after(s, key) {
        Some(t) => if is_decimal(t) {
            Some(t)
        } else {
            None
        },
        None => None,
    }
}

/// Whether `t` reads as a number.
fn decimal(t: &Vec<char>) -> (b: bool)
    ensures
        b == is_decimal(t@),
{
    let n = t.len();
    let mut i: usize = if n > 0 && t[0] == '-' {
        1
    } else {
        0
    };
    let mut dot = false;
    let mut digit = false;
    while i < n
        invariant
            i <= n,
            n == t@.len(),
            decimal_from(t@, i as nat, dot, digit) == is_decimal(t@),
        decreases n - i,
    {
        let c = t[i];
        if '0' <= c && c <= '9' {
            digit = true;
        } else if c == '.' && !dot {
            dot = true;
        } else {
            return false;
        }
        i = i + 1;
    }
    digit
}

/// The text of the number after the first `key` in `cs`, when it reads as
/// one.
fn number_after(cs: &Vec<char>, key: &str) -> (r: Option<String>)
    ensures
        match number_of(cs@, key@) {
            Some(t) => r matches Some(x) && x@ == t,
            None => r is None,
        },
{
    let k = chars_of(key);
    match find_in(cs, &k, 0) {
        Some(a) => {
            proof {
                lemma_find_text(cs@, k@, 0);
                assert(find_text_from(cs@, k@, 0) == Some(a as nat));
                assert(occurs_at(cs@, k@, a as int));
                assert(a + k@.len() <= cs.len());
            }
            let at = a + k.len();
            let mut end = at;
            while end < cs.len() && (('0' <= cs[end] && cs[end] <= '9') || cs[end] == '.' || cs[end]
                == '-')
                invariant
                    at <= end <= cs@.len(),
                    num_end(cs@, end as nat) == num_end(cs@, at as nat),
                decreases cs@.len() - end,
            {
                end = end + 1;
            }
            let t = string_of_range(cs, at, end);
            let tc = chars_of(t.as_str());
            if decimal(&tc) {
                Some(t)
            } else {
                None
            }
        },
        None => None,
    }
}

/// The characters `cs[a..b]`.
fn chars_range(cs: &Vec<char>, a: usize, b: usize) -> (out: Vec<char>)
    requires
        a <= b <= cs@.len(),
    ensures
        out@ == cs@.subrange(a as int, b as int),
{
    let mut out: Vec<char> = Vec::new();
    let mut i = a;
    while i < b
        invariant
            a <= i <= b <= cs@.len(),
            out@ == cs@.subrange(a as int, i as int),
        decreases b - i,
    {
        out.push(cs[i]);
        assert(out@ =~= cs@.subrange(a as int, i + 1));
        i = i + 1;
    }
    out
}

/// `s` from `i` on, cut at every `sep` from left to right (`str::split`,
/// for a `sep` that is not empty).
pub open spec fn split_from(s: Seq<char>, sep: Seq<char>, i: nat) -> Seq<Seq<char>>
    decreases s.len() + 1 - i,
{
    if sep.len() == 0 || i > s.len() {
        seq![]
    } else {
        match find_text_from(s, sep, i) {
            Some(j) => {
                proof {
                    lemma_find_text(s, sep, i);
                }
                seq![s.subrange(i as int, j as int)] + split_from(s, sep, j + sep.len())
            },
            None => seq![s.subrange(i as int, s.len() as int)],
        }
    }
}

/// The views of a vector of character vectors.
pub open spec fn char_views(v: Seq<Vec<char>>) -> Seq<Seq<char>> {
    v.map_values(|x: Vec<char>| x@)
}

/// `cs` cut at every `sep`.
fn split_on_text(cs: &Vec<char>, sep: &Vec<char>) -> (out: Vec<Vec<char>>)
    requires
        sep@.len() > 0,
    ensures
        char_views(out@) == split_from(cs@, sep@, 0),
{
    let mut out: Vec<Vec<char>> = Vec::new();
    let mut i: usize = 0;
    loop
        invariant
            i <= cs@.len(),
            sep@.len() > 0,
            char_views(out@) + split_from(cs@, sep@, i as nat) == split_from(cs@, sep@, 0),
        decreases cs@.len() + 1 - i,
    {
        match find_in(cs, sep, i) {
            Some(j) => {
                proof {
                    lemma_find_text(cs@, sep@, i as nat);
                    assert(j + sep@.len() <= cs.len());
                }
                let piece = chars_range(cs, i, j);
                let ghost before = out@;
                out.push(piece);
                proof {
                    assert(char_views(out@) =~= char_views(before).push(piece@));
                    assert(char_views(out@) + split_from(cs@, sep@, (j + sep@.len()) as nat)
                        =~= char_views(before) + split_from(cs@, sep@, i as nat));
                }
                i = j + sep.len();
            },
            None => {
                let piece = chars_range(cs, i, cs.len());
                let ghost before = out@;
                out.push(piece);
                proof {
                    assert(char_views(out@) =~= char_views(before) + split_from(
                        cs@,
                        sep@,
                        i as nat,
                    ));
                }
                return out;
            },
        }
    }
}

/// A card's numbers, as texts.
pub ghost struct CardReading {
    pub id: Seq<char>,
    pub rows: Seq<char>,
    pub total: Seq<char>,
    pub compute: Seq<char>,
    pub pull: Seq<char>,
    pub push: Seq<char>,
}

/// What one segment `card C rows R: T ms (pull P, compute K, push U)` says
/// of its card: every number must read as one, or the segment says
/// nothing.
pub open spec fn card_of(seg: Seq<char>) -> Option<CardReading> {
    let t = trim(seg);
    match (
        number_of(t, "card "@),
        number_of(t, "rows "@),
        number_of(t, ": "@),
        number_of(t, "compute "@),
        number_of(t, "pull "@),
        number_of(t, "push "@),
    ) {
        (Some(id), Some(rows), Some(total), Some(compute), Some(pull), Some(push)) => Some(
            CardReading { id, rows, total, compute, pull, push },
        ),
        _ => None,
    }
}

/// The cards the segments of a line tell of, in order: those that begin
/// `card ` (after white space) and read whole.
pub open spec fn cards_of(segs: Seq<Seq<char>>) -> Seq<CardReading>
    decreases segs.len(),
{
    if segs.len() == 0 {
        seq![]
    } else {
        let rest = cards_of(segs.drop_last());
        let seg = segs.last();
        if starts_with(trim_start(seg), "card "@) {
            match card_of(seg) {
                Some(c) => rest.push(c),
                None => rest,
            }
        } else {
            rest
        }
    }
}

/// What one line of the log says, as texts.
pub ghost struct LineReading {
    pub host: Seq<char>,
    pub wait: Seq<char>,
    pub cards: Seq<CardReading>,
}

/// What a log line says: from its first `ggml-phi: multiply ` on, the
/// host's part and its wait (both must read as numbers, or the line says
/// nothing) and the cards of its `; `-separated segments.
pub open spec fn reading_of(line: Seq<char>) -> Option<LineReading> {
    match find_text_from(line, "ggml-phi: multiply "@, 0) {
        Some(at) => {
            let l = line.subrange(at as int, line.len() as int);
            match (number_of(l, "host part "@), number_of(l, "waited "@)) {
                (Some(host), Some(wait)) => Some(
                    LineReading { host, wait, cards: cards_of(split_from(l, "; "@, 0)) },
                ),
                _ => None,
            }
        },
        None => None,
    }
}

/// A card's numbers as the log writes them.
pub struct CardTexts {
    pub id: String,
    pub rows: String,
    pub total: String,
    pub compute: String,
    pub pull: String,
    pub push: String,
}

impl View for CardTexts {
    type V = CardReading;

    open spec fn view(&self) -> CardReading {
        CardReading {
            id: self.id@,
            rows: self.rows@,
            total: self.total@,
            compute: self.compute@,
            pull: self.pull@,
            push: self.push@,
        }
    }
}

/// One log line's numbers as it writes them.
pub struct LineTexts {
    pub host: String,
    pub wait: String,
    pub cards: Vec<CardTexts>,
}

impl View for LineTexts {
    type V = LineReading;

    open spec fn view(&self) -> LineReading {
        LineReading {
            host: self.host@,
            wait: self.wait@,
            cards: self.cards@.map_values(|c: CardTexts| c@),
        }
    }
}

/// Whether `seg`, its leading white space aside, begins `card `.
fn is_card_segment(seg: &Vec<char>) -> (b: bool)
    ensures
        b == starts_with(trim_start(seg@), "card "@),
{
    let n = seg.len();
    let mut a: usize = 0;
    while a < n && is_whitespace(seg[a])
        invariant
            a <= n,
            n == seg@.len(),
            forall|i: int| 0 <= i < a ==> is_ws(#[trigger] seg@[i]),
        decreases n - a,
    {
        a = a + 1;
    }
    proof {
        crate::text::lemma_trim_start_skip(seg@, a as int);
    }
    let k = chars_of("card ");
    if k.len() <= n - a {
        let b = occurs(seg, &k, a);
        assert(seg@.subrange(a as int, n as int).take(k@.len() as int) =~= seg@.subrange(
            a as int,
            a + k@.len(),
        ));
        b
    } else {
        false
    }
}

/// What one segment says of its card.
fn card(seg: &Vec<char>) -> (r: Option<CardTexts>)
    ensures
        match card_of(seg@) {
            Some(c) => r matches Some(x) && x@ == c,
            None => r is None,
        },
{
    let text = string_of(seg);
    let trimmed = trim_str(text.as_str());
    let t = chars_of(trimmed.as_str());
    match (
        number_after(&t, "card "),
        number_after(&t, "rows "),
        number_after(&t, ": "),
        number_after(&t, "compute "),
        number_after(&t, "pull "),
        number_after(&t, "push "),
    ) {
        (Some(id), Some(rows), Some(total), Some(compute), Some(pull), Some(push)) => Some(
            CardTexts { id, rows, total, compute, pull, push },
        ),
        _ => None,
    }
}

/// What one line of the payload's log says (`None` for a line that is not
/// a multiply's, or whose host part or wait does not read as a number).
pub fn reading(line: &str) -> (r: Option<LineTexts>)
    ensures
        match reading_of(line@) {
            Some(x) => r matches Some(t) && t@ == x,
            None => r is None,
        },
{
    let cs = chars_of(line);
    let mark = chars_of("ggml-phi: multiply ");
    match find_in(&cs, &mark, 0) {
        None => None,
        Some(at) => {
            proof {
                lemma_find_text(cs@, mark@, 0);
            }
            let l = chars_range(&cs, at, cs.len());
            match (number_after(&l, "host part "), number_after(&l, "waited ")) {
                (Some(host), Some(wait)) => {
                    let sep = chars_of("; ");
                    proof {
                        reveal_strlit("; ");
                    }
                    let segs = split_on_text(&l, &sep);
                    let ghost views = char_views(segs@);
                    let mut cards: Vec<CardTexts> = Vec::new();
                    let n = segs.len();
                    for i in 0..n
                        invariant
                            n == segs@.len(),
                            views == char_views(segs@),
                            cards@.map_values(|c: CardTexts| c@) == cards_of(
                                views.take(i as int),
                            ),
                    {
                        let ghost before = cards@;
                        assert(views.take(i + 1).drop_last() =~= views.take(i as int));
                        assert(views[i as int] == segs@[i as int]@);
                        if is_card_segment(&segs[i]) {
                            match card(&segs[i]) {
                                Some(c) => {
                                    cards.push(c);
                                    assert(cards@.map_values(|c: CardTexts| c@) =~= before.map_values(
                                        |c: CardTexts| c@,
                                    ).push(c@));
                                },
                                None => {},
                            }
                        }
                    }
                    assert(views.take(n as int) =~= views);
                    Some(LineTexts { host, wait, cards })
                },
                _ => None,
            }
        },
    }
}

} // verus!
