//! Character-level helpers on `String`, and numbers written in digits.
use vstd::prelude::*;

verus! {

/// Append one character (`String::push`).
#[verifier::external_body]
pub fn push_char(s: &mut String, c: char)
    ensures
        final(s)@ == old(s)@.push(c),
{
    s.push(c);
}

/// The characters of `s`, in order.
pub fn chars_of(s: &str) -> (out: Vec<char>)
    ensures
        out@ == s@,
{
    let mut out: Vec<char> = Vec::new();
    for c in it: s.chars()
        invariant
            out@ == it.seq().take(it.index() as int),
    {
        out.push(c);
    }
    out
}

/// Append every character of `cs` to `s`.
pub fn push_chars(s: &mut String, cs: &Vec<char>)
    ensures
        final(s)@ == old(s)@ + cs@,
{
    let n = cs.len();
    for i in 0..n
        invariant
            n == cs@.len(),
            s@ == old(s)@ + cs@.take(i as int),
    {
        push_char(s, cs[i]);
        assert(cs@.take(i + 1) =~= cs@.take(i as int).push(cs@[i as int]));
    }
    assert(cs@.take(n as int) =~= cs@);
}

/// The string holding exactly `cs`.
pub fn string_of(cs: &Vec<char>) -> (out: String)
    ensures
        out@ == cs@,
{
    let mut out = String::new();
    push_chars(&mut out, cs);
    assert(out@ =~= cs@);
    out
}

/// Whether `c` is white space as `char::is_whitespace` reads it: the
/// Unicode `White_Space` property.
pub open spec fn is_ws(c: char) -> bool {
    let u = c as u32;
    (9 <= u && u <= 13) || u == 32 || u == 0x85 || u == 0xa0 || u == 0x1680 || (0x2000 <= u && u
        <= 0x200a) || u == 0x2028 || u == 0x2029 || u == 0x202f || u == 0x205f || u == 0x3000
}

/// Whether `c` is white space (`char::is_whitespace`).
pub fn is_whitespace(c: char) -> (b: bool)
    ensures
        b == is_ws(c),
{
    let u = c as u32;
    (9 <= u && u <= 13) || u == 32 || u == 0x85 || u == 0xa0 || u == 0x1680 || (0x2000 <= u && u
        <= 0x200a) || u == 0x2028 || u == 0x2029 || u == 0x202f || u == 0x205f || u == 0x3000
}

/// Leading white space removed.
pub open spec fn trim_start(s: Seq<char>) -> Seq<char>
    decreases s.len(),
{
    if s.len() > 0 && is_ws(s[0]) {
        trim_start(s.drop_first())
    } else {
        s
    }
}

/// Trailing white space removed.
pub open spec fn trim_end(s: Seq<char>) -> Seq<char>
    decreases s.len(),
{
    if s.len() > 0 && is_ws(s.last()) {
        trim_end(s.drop_last())
    } else {
        s
    }
}

/// Both ends' white space removed (`str::trim`).
pub open spec fn trim(s: Seq<char>) -> Seq<char> {
    trim_end(trim_start(s))
}

/// Trimming the end keeps a prefix.
pub proof fn lemma_trim_end_prefix(x: Seq<char>)
    ensures
        trim_end(x).len() <= x.len(),
        trim_end(x) == x.take(trim_end(x).len() as int),
    decreases x.len(),
{
    if x.len() > 0 && is_ws(x.last()) {
        lemma_trim_end_prefix(x.drop_last());
        assert(x.drop_last().take(trim_end(x).len() as int) =~= x.take(trim_end(x).len() as int));
    } else {
        assert(x.take(x.len() as int) =~= x);
    }
}

/// A line that is not blank begins with `#` after its leading white space
/// exactly when it does once trimmed at both ends.
pub proof fn lemma_trim_start_of_trim(s: Seq<char>)
    ensures
        trim(s).len() > 0 ==> (starts_with(trim_start(s), "#"@) == starts_with(trim(s), "#"@)),
{
    reveal_strlit("#");
    lemma_trim_end_prefix(trim_start(s));
    if trim(s).len() > 0 {
        assert(trim(s)[0] == trim_start(s)[0]);
        assert(trim_start(s).take(1) =~= seq![trim_start(s)[0]]);
        assert(trim(s).take(1) =~= seq![trim(s)[0]]);
    }
}

pub proof fn lemma_trim_start_skip(s: Seq<char>, a: int)
    requires
        0 <= a <= s.len(),
        forall|i: int| 0 <= i < a ==> is_ws(#[trigger] s[i]),
        a == s.len() || !is_ws(s[a]),
    ensures
        trim_start(s) == s.subrange(a, s.len() as int),
    decreases a,
{
    if a > 0 {
        assert forall|i: int| 0 <= i < a - 1 implies is_ws(#[trigger] s.drop_first()[i]) by {
            assert(s.drop_first()[i] == s[i + 1]);
        }
        lemma_trim_start_skip(s.drop_first(), a - 1);
        assert(s.drop_first().subrange(a - 1, s.len() - 1) =~= s.subrange(a, s.len() as int));
    } else {
        assert(s.subrange(0, s.len() as int) =~= s);
    }
}

proof fn lemma_trim_end_take(s: Seq<char>, b: int)
    requires
        0 <= b <= s.len(),
        forall|i: int| b <= i < s.len() ==> is_ws(#[trigger] s[i]),
        b == 0 || !is_ws(s[b - 1]),
    ensures
        trim_end(s) == s.subrange(0, b),
    decreases s.len() - b,
{
    if b < s.len() {
        lemma_trim_end_take(s.drop_last(), b);
        assert(s.drop_last().subrange(0, b) =~= s.subrange(0, b));
    } else {
        assert(s.subrange(0, b) =~= s);
    }
}

/// `s` without its leading and trailing white space (`str::trim`).
pub fn trim_str(s: &str) -> (out: String)
    ensures
        out@ == trim(s@),
{
    let cs = chars_of(s);
    let n = cs.len();
    let mut a: usize = 0;
    while a < n && is_whitespace(cs[a])
        invariant
            a <= n,
            n == cs@.len(),
            forall|i: int| 0 <= i < a ==> is_ws(#[trigger] cs@[i]),
        decreases n - a,
    {
        a = a + 1;
    }
    let mut b: usize = n;
    while b > a && is_whitespace(cs[b - 1])
        invariant
            a <= b <= n,
            n == cs@.len(),
            forall|i: int| b <= i < n ==> is_ws(#[trigger] cs@[i]),
        decreases b,
    {
        b = b - 1;
    }
    let mut kept: Vec<char> = Vec::new();
    let mut i = a;
    while i < b
        invariant
            a <= i <= b <= n,
            n == cs@.len(),
            kept@ == cs@.subrange(a as int, i as int),
        decreases b - i,
    {
        kept.push(cs[i]);
        assert(kept@ =~= cs@.subrange(a as int, i + 1));
        i = i + 1;
    }
    proof {
        lemma_trim_start_skip(cs@, a as int);
        let st = cs@.subrange(a as int, n as int);
        assert forall|j: int| b - a <= j < st.len() implies is_ws(#[trigger] st[j]) by {
            assert(st[j] == cs@[j + a]);
        }
        if b > a {
            assert(st[b - a - 1] == cs@[b - 1]);
        }
        lemma_trim_end_take(st, b - a);
        assert(st.subrange(0, b - a) =~= cs@.subrange(a as int, b as int));
    }
    string_of(&kept)
}

/// ASCII letters lowered, everything else kept (`str::to_ascii_lowercase`).
pub open spec fn lower_ascii(s: Seq<char>) -> Seq<char> {
    s.map_values(|c: char| if 'A' <= c && c <= 'Z' { ((c as u32) + 32) as char } else { c })
}

/// `s` with its ASCII letters lowered.
pub fn to_ascii_lower(s: &str) -> (out: Vec<char>)
    ensures
        out@ == lower_ascii(s@),
{
    let cs = chars_of(s);
    let n = cs.len();
    let mut out: Vec<char> = Vec::new();
    for i in 0..n
        invariant
            n == cs@.len(),
            out@ == lower_ascii(cs@.take(i as int)),
    {
        let c = cs[i];
        let l = if 'A' <= c && c <= 'Z' {
            ((c as u32) + 32) as u8 as char
        } else {
            c
        };
        out.push(l);
        assert(lower_ascii(cs@.take(i + 1)) =~= lower_ascii(cs@.take(i as int)).push(l));
    }
    assert(cs@.take(n as int) =~= cs@);
    out
}

/// Whether `a` holds exactly the characters of `b`.
pub fn same_chars(a: &Vec<char>, b: &str) -> (r: bool)
    ensures
        r == (a@ == b@),
{
    let bs = chars_of(b);
    if a.len() != bs.len() {
        return false;
    }
    let n = a.len();
    for i in 0..n
        invariant
            n == a@.len(),
            n == bs@.len(),
            bs@ == b@,
            forall|j: int| 0 <= j < i ==> a@[j] == bs@[j],
    {
        if a[i] != bs[i] {
            assert(a@[i as int] != bs@[i as int]);
            return false;
        }
    }
    assert(a@ =~= bs@);
    true
}

/// Whether two strings hold the same characters.
pub fn str_eq(a: &str, b: &str) -> (r: bool)
    ensures
        r == (a@ == b@),
{
    let ac = chars_of(a);
    same_chars(&ac, b)
}

/// A new string holding `s`.
pub fn owned(s: &str) -> (out: String)
    ensures
        out@ == s@,
{
    String::from_str(s)
}

/// The characters `cs[a..b]` as a string.
pub fn string_of_range(cs: &Vec<char>, a: usize, b: usize) -> (out: String)
    requires
        a <= b <= cs@.len(),
    ensures
        out@ == cs@.subrange(a as int, b as int),
{
    let mut out = String::new();
    let mut i = a;
    while i < b
        invariant
            a <= i <= b <= cs@.len(),
            out@ == cs@.subrange(a as int, i as int),
        decreases b - i,
    {
        push_char(&mut out, cs[i]);
        assert(out@ =~= cs@.subrange(a as int, i + 1));
        i = i + 1;
    }
    out
}

/// The first position at or after `k` holding `c`, or the length.
pub open spec fn find_from(s: Seq<char>, c: char, k: nat) -> nat
    decreases s.len() - k,
{
    if k >= s.len() {
        s.len()
    } else if s[k as int] == c {
        k
    } else {
        find_from(s, c, k + 1)
    }
}

/// The first `c` at or after `k` is found, or there is none.
pub proof fn lemma_find_from(s: Seq<char>, c: char, k: nat)
    requires
        k <= s.len(),
    ensures
        k <= find_from(s, c, k) <= s.len(),
        forall|j: int| k <= j < find_from(s, c, k) ==> s[j] != c,
        find_from(s, c, k) < s.len() ==> s[find_from(s, c, k) as int] == c,
    decreases s.len() - k,
{
    if k < s.len() && s[k as int] != c {
        lemma_find_from(s, c, k + 1);
    }
}

/// The first position at or after `k` of `cs` holding `c`, or its length.
pub fn find_char(cs: &Vec<char>, c: char, k: usize) -> (i: usize)
    requires
        k <= cs@.len(),
    ensures
        i == find_from(cs@, c, k as nat),
{
    let mut i = k;
    while i < cs.len() && cs[i] != c
        invariant
            k <= i <= cs@.len(),
            find_from(cs@, c, i as nat) == find_from(cs@, c, k as nat),
        decreases cs@.len() - i,
    {
        i = i + 1;
    }
    i
}

/// A line as `str::lines` gives it: its `\n` gone, and a `\r` before it.
pub open spec fn line_body(piece: Seq<char>) -> Seq<char> {
    if piece.len() > 0 && piece.last() == '\r' {
        piece.drop_last()
    } else {
        piece
    }
}

/// The lines of `s`, as `str::lines` splits it: at each `\n` (a `\r`
/// before it dropped too); a last line without one kept as it is; no line
/// after a final `\n`.
pub open spec fn lines_of(s: Seq<char>) -> Seq<Seq<char>>
    decreases s.len(),
{
    if s.len() == 0 {
        Seq::empty()
    } else {
        let i = find_from(s, '\n', 0);
        if i >= s.len() {
            seq![s]
        } else {
            proof {
                lemma_find_from(s, '\n', 0);
            }
            seq![line_body(s.take(i as int))] + lines_of(s.skip(i + 1 as int))
        }
    }
}

/// Strings as their characters.
pub open spec fn views(v: Seq<String>) -> Seq<Seq<char>> {
    v.map_values(|s: String| s@)
}

proof fn lemma_find_from_skip(s: Seq<char>, c: char, a: nat, k: nat)
    requires
        a <= k <= s.len(),
    ensures
        find_from(s.skip(a as int), c, (k - a) as nat) + a == find_from(s, c, k),
    decreases s.len() - k,
{
    if k < s.len() {
        assert(s.skip(a as int)[k - a] == s[k as int]);
        if s[k as int] != c {
            lemma_find_from_skip(s, c, a, k + 1);
        }
    }
}

/// The lines of `s` (`str::lines`).
pub fn lines(s: &str) -> (out: Vec<String>)
    ensures
        views(out@) == lines_of(s@),
{
    let cs = chars_of(s);
    let n = cs.len();
    let mut out: Vec<String> = Vec::new();
    let mut start: usize = 0;
    assert(cs@.skip(0) =~= cs@);
    assert(views(out@) + lines_of(cs@) =~= lines_of(cs@));
    while start < n
        invariant
            n == cs@.len(),
            start <= n,
            views(out@) + lines_of(cs@.skip(start as int)) == lines_of(cs@),
        decreases n - start,
    {
        let i = find_char(&cs, '\n', start);
        proof {
            lemma_find_from(cs@, '\n', start as nat);
            lemma_find_from_skip(cs@, '\n', start as nat, start as nat);
        }
        let ghost rest = cs@.skip(start as int);
        if i >= n {
            let line = string_of_range(&cs, start, n);
            let ghost before = views(out@);
            out.push(line);
            assert(views(out@) =~= before.push(rest));
            assert(lines_of(rest) == seq![rest]);
            assert(cs@.skip(n as int) =~= Seq::<char>::empty());
            assert(views(out@) + lines_of(cs@.skip(n as int)) =~= before + lines_of(rest));
            start = n;
        } else {
            let mut end = i;
            if end > start && cs[end - 1] == '\r' {
                end = end - 1;
            }
            let line = string_of_range(&cs, start, end);
            assert(rest.take(i - start) =~= cs@.subrange(start as int, i as int));
            assert(line@ == line_body(rest.take(i - start)));
            assert(rest.skip(i - start + 1) =~= cs@.skip(i + 1));
            let ghost before = views(out@);
            out.push(line);
            assert(views(out@) =~= before.push(line@));
            assert(views(out@) + lines_of(cs@.skip(i + 1)) =~= before + lines_of(rest));
            start = i + 1;
        }
    }
    assert(cs@.skip(start as int) =~= Seq::<char>::empty());
    assert(views(out@) + Seq::<Seq<char>>::empty() =~= views(out@));
    out
}

/// Whether `s` begins with `p`.
pub open spec fn starts_with(s: Seq<char>, p: Seq<char>) -> bool {
    p.len() <= s.len() && s.take(p.len() as int) == p
}

/// Whether `s` begins with `p` (`str::starts_with`).
pub fn has_prefix(s: &str, p: &str) -> (b: bool)
    ensures
        b == starts_with(s@, p@),
{
    let cs = chars_of(s);
    let ps = chars_of(p);
    if ps.len() > cs.len() {
        return false;
    }
    let n = ps.len();
    for i in 0..n
        invariant
            n == ps@.len(),
            n <= cs@.len(),
            cs@ == s@,
            ps@ == p@,
            forall|j: int| 0 <= j < i ==> cs@[j] == ps@[j],
    {
        if cs[i] != ps[i] {
            assert(s@.take(p@.len() as int)[i as int] != p@[i as int]);
            return false;
        }
    }
    assert(s@.take(p@.len() as int) =~= p@);
    true
}

/// `s` without the prefix `p`, when it has it (`str::strip_prefix`).
pub fn strip_prefix(s: &str, p: &str) -> (r: Option<String>)
    ensures
        starts_with(s@, p@) ==> (r matches Some(t) && t@ == s@.skip(p@.len() as int)),
        !starts_with(s@, p@) ==> r is None,
{
    if has_prefix(s, p) {
        let cs = chars_of(s);
        let k = chars_of(p).len();
        let t = string_of_range(&cs, k, cs.len());
        assert(t@ =~= s@.skip(p@.len() as int));
        Some(t)
    } else {
        None
    }
}

/// The white-space separated words of `s` (`str::split_whitespace`), from
/// position `k` on.
pub open spec fn words_from(s: Seq<char>, k: nat) -> Seq<Seq<char>>
    decreases s.len() - k, 1nat,
{
    if k >= s.len() {
        Seq::empty()
    } else if is_ws(s[k as int]) {
        words_from(s, k + 1)
    } else {
        let e = word_end(s, k);
        proof {
            lemma_word_end(s, k);
        }
        seq![s.subrange(k as int, e as int)] + words_from(s, e)
    }
}

/// Where the word starting at `k` ends.
pub open spec fn word_end(s: Seq<char>, k: nat) -> nat
    decreases s.len() - k,
{
    if k < s.len() && !is_ws(s[k as int]) {
        word_end(s, k + 1)
    } else {
        k
    }
}

/// Where a word starting at `k` ends.
pub proof fn lemma_word_end(s: Seq<char>, k: nat)
    requires
        k < s.len(),
        !is_ws(s[k as int]),
    ensures
        k < word_end(s, k) <= s.len(),
    decreases s.len() - k,
{
    assert(word_end(s, k) == word_end(s, k + 1));
    if k + 1 < s.len() && !is_ws(s[k + 1 as int]) {
        lemma_word_end(s, k + 1);
    } else {
        assert(word_end(s, k + 1) == k + 1);
    }
}

/// The white-space separated words of `s`.
pub open spec fn words(s: Seq<char>) -> Seq<Seq<char>> {
    words_from(s, 0)
}

/// The words of `s` (`str::split_whitespace`).
pub fn split_whitespace(s: &str) -> (out: Vec<String>)
    ensures
        views(out@) == words(s@),
{
    let cs = chars_of(s);
    let n = cs.len();
    let mut out: Vec<String> = Vec::new();
    let mut k: usize = 0;
    while k < n
        invariant
            n == cs@.len(),
            k <= n,
            views(out@) + words_from(cs@, k as nat) == words(cs@),
        decreases n - k,
    {
        if is_whitespace(cs[k]) {
            k = k + 1;
        } else {
            let mut e = k;
            while e < n && !is_whitespace(cs[e])
                invariant
                    k <= e <= n,
                    n == cs@.len(),
                    word_end(cs@, e as nat) == word_end(cs@, k as nat),
                decreases n - e,
            {
                e = e + 1;
            }
            proof {
                lemma_word_end(cs@, k as nat);
            }
            let w = string_of_range(&cs, k, e);
            let ghost before = views(out@);
            out.push(w);
            assert(views(out@) =~= before.push(w@));
            assert(views(out@) + words_from(cs@, e as nat) =~= before + words_from(cs@, k as nat));
            k = e;
        }
    }
    assert(views(out@) + Seq::<Seq<char>>::empty() =~= views(out@));
    out
}

/// Whether `c` is an ASCII digit.
pub open spec fn is_digit(c: char) -> bool {
    '0' <= c && c <= '9'
}

/// Whether `s` is an unsigned decimal numeral as `u32::from_str` reads it:
/// an optional `+`, then one or more ASCII digits.
pub open spec fn is_numeral(s: Seq<char>) -> bool {
    all_digits(numeral_digits(s))
}

/// A numeral's digits: what follows its optional `+`.
pub open spec fn numeral_digits(s: Seq<char>) -> Seq<char> {
    if s.len() > 0 && s[0] == '+' {
        s.drop_first()
    } else {
        s
    }
}

/// One or more ASCII digits.
pub open spec fn all_digits(d: Seq<char>) -> bool {
    d.len() > 0 && forall|i: int| 0 <= i < d.len() ==> is_digit(#[trigger] d[i])
}

/// The value of a string of ASCII digits.
pub open spec fn digits_value(d: Seq<char>) -> nat
    decreases d.len(),
{
    if d.len() == 0 {
        0
    } else {
        digits_value(d.drop_last()) * 10 + ((d.last() as nat) - 48) as nat
    }
}

/// What `u32::from_str` gives: the numeral's value when it is one and fits.
pub open spec fn u32_of(s: Seq<char>) -> Option<u32> {
    let d = numeral_digits(s);
    if is_numeral(s) && digits_value(d) <= u32::MAX {
        Some(digits_value(d) as u32)
    } else {
        None
    }
}

/// `s` as a `u32` (`str::parse::<u32>`), `None` when it is not one.
pub fn parse_u32(s: &str) -> (r: Option<u32>)
    ensures
        r == u32_of(s@),
{
    let cs = chars_of(s);
    let start: usize = if cs.len() > 0 && cs[0] == '+' {
        1
    } else {
        0
    };
    let ghost d = numeral_digits(s@);
    assert(d =~= cs@.skip(start as int));
    if start >= cs.len() {
        return None;
    }
    let mut v: u64 = 0;
    let n = cs.len();
    let mut i = start;
    while i < n
        invariant
            start <= i <= n,
            n == cs@.len(),
            start < n,
            cs@ == s@,
            d == cs@.skip(start as int),
            d == numeral_digits(s@),
            forall|j: int| start <= j < i ==> is_digit(#[trigger] cs@[j]),
            v == digits_value(cs@.subrange(start as int, i as int)),
            v <= u32::MAX,
        decreases n - i,
    {
        let c = cs[i];
        if !('0' <= c && c <= '9') {
            assert(d[i - start] == c);
            assert(!is_digit(d[i - start]));
            proof {
                lemma_not_numeral(s@, d, i - start);
            }
            return None;
        }
        let nv = v * 10 + ((c as u32) - 48) as u64;
        assert(cs@.subrange(start as int, i + 1).drop_last() =~= cs@.subrange(start as int, i as int));
        if nv > u32::MAX as u64 {
            proof {
                if is_numeral(s@) {
                    lemma_digits_value_prefix(d, (i + 1 - start) as nat);
                    assert(d.take(i + 1 - start) =~= cs@.subrange(start as int, i + 1));
                }
            }
            return None;
        }
        v = nv;
        i = i + 1;
    }
    assert(cs@.subrange(start as int, n as int) =~= d);
    Some(v as u32)
}

/// What `usize::from_str` gives: the numeral's value when it is one and
/// fits.
pub open spec fn usize_of(s: Seq<char>) -> Option<usize> {
    let d = numeral_digits(s);
    if is_numeral(s) && digits_value(d) <= usize::MAX {
        Some(digits_value(d) as usize)
    } else {
        None
    }
}

/// `s` as a `usize` (`str::parse::<usize>`), `None` when it is not one.
pub fn parse_usize(s: &str) -> (r: Option<usize>)
    ensures
        r == usize_of(s@),
{
    let cs = chars_of(s);
    let start: usize = if cs.len() > 0 && cs[0] == '+' {
        1
    } else {
        0
    };
    let ghost d = numeral_digits(s@);
    assert(d =~= cs@.skip(start as int));
    if start >= cs.len() {
        return None;
    }
    let mut v: u128 = 0;
    let n = cs.len();
    let mut i = start;
    while i < n
        invariant
            start <= i <= n,
            n == cs@.len(),
            start < n,
            cs@ == s@,
            d == cs@.skip(start as int),
            d == numeral_digits(s@),
            forall|j: int| start <= j < i ==> is_digit(#[trigger] cs@[j]),
            v == digits_value(cs@.subrange(start as int, i as int)),
            v <= usize::MAX,
        decreases n - i,
    {
        let c = cs[i];
        if !('0' <= c && c <= '9') {
            assert(d[i - start] == c);
            assert(!is_digit(d[i - start]));
            proof {
                lemma_not_numeral(s@, d, i - start);
            }
            return None;
        }
        let nv = v * 10 + ((c as u32) - 48) as u128;
        assert(cs@.subrange(start as int, i + 1).drop_last() =~= cs@.subrange(start as int, i as int));
        if nv > usize::MAX as u128 {
            proof {
                if is_numeral(s@) {
                    lemma_digits_value_prefix(d, (i + 1 - start) as nat);
                    assert(d.take(i + 1 - start) =~= cs@.subrange(start as int, i + 1));
                }
            }
            return None;
        }
        v = nv;
        i = i + 1;
    }
    assert(cs@.subrange(start as int, n as int) =~= d);
    Some(v as usize)
}

/// What `u64::from_str` gives: the numeral's value when it is one and
/// fits.
pub open spec fn u64_of(s: Seq<char>) -> Option<u64> {
    let d = numeral_digits(s);
    if is_numeral(s) && digits_value(d) <= u64::MAX {
        Some(digits_value(d) as u64)
    } else {
        None
    }
}

/// `s` as a `u64` (`str::parse::<u64>`), `None` when it is not one.
pub fn parse_u64(s: &str) -> (r: Option<u64>)
    ensures
        r == u64_of(s@),
{
    let cs = chars_of(s);
    let start: usize = if cs.len() > 0 && cs[0] == '+' {
        1
    } else {
        0
    };
    let ghost d = numeral_digits(s@);
    assert(d =~= cs@.skip(start as int));
    if start >= cs.len() {
        return None;
    }
    let mut v: u128 = 0;
    let n = cs.len();
    let mut i = start;
    while i < n
        invariant
            start <= i <= n,
            n == cs@.len(),
            start < n,
            cs@ == s@,
            d == cs@.skip(start as int),
            d == numeral_digits(s@),
            forall|j: int| start <= j < i ==> is_digit(#[trigger] cs@[j]),
            v == digits_value(cs@.subrange(start as int, i as int)),
            v <= u64::MAX,
        decreases n - i,
    {
        let c = cs[i];
        if !('0' <= c && c <= '9') {
            assert(d[i - start] == c);
            assert(!is_digit(d[i - start]));
            proof {
                lemma_not_numeral(s@, d, i - start);
            }
            return None;
        }
        let nv = v * 10 + ((c as u32) - 48) as u128;
        assert(cs@.subrange(start as int, i + 1).drop_last() =~= cs@.subrange(start as int, i as int));
        if nv > u64::MAX as u128 {
            proof {
                if is_numeral(s@) {
                    lemma_digits_value_prefix(d, (i + 1 - start) as nat);
                    assert(d.take(i + 1 - start) =~= cs@.subrange(start as int, i + 1));
                }
            }
            return None;
        }
        v = nv;
        i = i + 1;
    }
    assert(cs@.subrange(start as int, n as int) =~= d);
    Some(v as u64)
}

proof fn lemma_not_numeral(s: Seq<char>, d: Seq<char>, j: int)
    requires
        d == numeral_digits(s),
        0 <= j < d.len(),
        !is_digit(d[j]),
    ensures
        !is_numeral(s),
{
    assert(all_digits(d) ==> is_digit(d[j]));
}

/// A numeral is worth at least any of its prefixes.
proof fn lemma_digits_value_prefix(d: Seq<char>, k: nat)
    requires
        k <= d.len(),
        forall|i: int| 0 <= i < d.len() ==> is_digit(#[trigger] d[i]),
    ensures
        digits_value(d.take(k as int)) <= digits_value(d),
    decreases d.len(),
{
    if k < d.len() {
        assert(d.drop_last().take(k as int) =~= d.take(k as int));
        lemma_digits_value_prefix(d.drop_last(), k);
    } else {
        assert(d.take(k as int) =~= d);
    }
}

/// `s` split at the first `c`: what comes before it and what after
/// (`str::split_once`).
pub fn split_once_char(s: &str, c: char) -> (r: Option<(String, String)>)
    ensures
        ({
            let i = find_from(s@, c, 0);
            if i < s@.len() {
                r matches Some(p) && p.0@ == s@.take(i as int) && p.1@ == s@.skip(i + 1 as int)
            } else {
                r is None
            }
        }),
{
    let cs = chars_of(s);
    let i = find_char(&cs, c, 0);
    proof {
        lemma_find_from(cs@, c, 0);
    }
    if i < cs.len() {
        let a = string_of_range(&cs, 0, i);
        let b = string_of_range(&cs, i + 1, cs.len());
        assert(a@ =~= s@.take(i as int));
        assert(b@ =~= s@.skip(i + 1));
        Some((a, b))
    } else {
        None
    }
}

/// `base` joined with `rel` as a path: `rel` alone when it is absolute or
/// `base` is empty, else the two with one `/` between.
pub open spec fn join_path(base: Seq<char>, rel: Seq<char>) -> Seq<char> {
    if rel.len() > 0 && rel[0] == '/' {
        rel
    } else if base.len() == 0 {
        rel
    } else if base.last() == '/' {
        base + rel
    } else {
        base + seq!['/'] + rel
    }
}

/// `base` joined with `rel` (`Path::join`).
pub fn join(base: &str, rel: &str) -> (out: String)
    ensures
        out@ == join_path(base@, rel@),
{
    let r = chars_of(rel);
    let b = chars_of(base);
    if r.len() > 0 && r[0] == '/' {
        owned(rel)
    } else if b.len() == 0 {
        owned(rel)
    } else if b[b.len() - 1] == '/' {
        let mut out = owned(base);
        out.append(rel);
        out
    } else {
        let mut out = owned(base);
        push_char(&mut out, '/');
        out.append(rel);
        assert(out@ =~= base@ + seq!['/'] + rel@);
        out
    }
}

/// The character of digit `d` (0-9, then a-f).
pub open spec fn digit_char(d: nat) -> char {
    if d < 10 {
        (48 + d) as char
    } else {
        (87 + d) as char
    }
}

/// `n` in base `radix` (2 to 16), most significant digit first, no padding.
pub open spec fn digits(n: nat, radix: nat) -> Seq<char>
    decreases n,
{
    if radix < 2 || n < radix {
        seq![digit_char(n)]
    } else {
        proof {
            lemma_div_smaller(n, radix);
        }
        digits(n / radix, radix).push(digit_char(n % radix))
    }
}

/// `n` in base `radix`, zero-padded on the left to at least `width` digits.
pub open spec fn padded(n: nat, radix: nat, width: nat) -> Seq<char> {
    let d = digits(n, radix);
    if d.len() >= width {
        d
    } else {
        Seq::new((width - d.len()) as nat, |i: int| '0') + d
    }
}

/// Dividing by a radix makes a number smaller.
pub proof fn lemma_div_smaller(n: nat, radix: nat)
    requires
        2 <= radix <= n,
    ensures
        n / radix < n,
{
    assert(n / radix < n) by (nonlinear_arith)
        requires
            2 <= radix <= n,
    ;
}

fn digit(d: u128) -> (c: char)
    requires
        d < 16,
    ensures
        c == digit_char(d as nat),
{
    if d < 10 {
        ((48 + d) as u8) as char
    } else {
        ((87 + d) as u8) as char
    }
}

fn push_digits(s: &mut String, n: u128, radix: u128)
    requires
        2 <= radix <= 16,
    ensures
        final(s)@ == old(s)@ + digits(n as nat, radix as nat),
    decreases n,
{
    if n >= radix {
        proof {
            lemma_div_smaller(n as nat, radix as nat);
        }
        push_digits(s, n / radix, radix);
    }
    let ghost before = s@;
    push_char(s, digit(n % radix));
    proof {
        if n < radix {
            assert(n % radix == n) by (nonlinear_arith)
                requires
                    n < radix,
            ;
            assert(digits(n as nat, radix as nat) == seq![digit_char(n as nat)]);
            assert(s@ =~= old(s)@ + digits(n as nat, radix as nat));
        } else {
            assert((n % radix) as nat == n as nat % radix as nat);
            assert((n / radix) as nat == n as nat / radix as nat);
            assert(digits(n as nat, radix as nat) == digits(n as nat / radix as nat, radix as nat).push(
                digit_char(n as nat % radix as nat),
            ));
            assert(s@ =~= old(s)@ + digits(n as nat, radix as nat));
        }
    }
}

fn digit_count(n: u128, radix: u128) -> (k: usize)
    requires
        2 <= radix <= 16,
    ensures
        k == digits(n as nat, radix as nat).len(),
    decreases n,
{
    if n >= radix {
        proof {
            lemma_div_smaller(n as nat, radix as nat);
            lemma_digits_len_bound(n as nat / radix as nat, radix as nat);
        }
        digit_count(n / radix, radix) + 1
    } else {
        1
    }
}

/// Append `n` in base `radix`, zero-padded on the left to `width` digits.
pub fn push_padded(s: &mut String, n: u128, radix: u128, width: usize)
    requires
        2 <= radix <= 16,
    ensures
        final(s)@ == old(s)@ + padded(n as nat, radix as nat, width as nat),
{
    let k = digit_count(n, radix);
    let ghost start = s@;
    let mut z: usize = k;
    while z < width
        invariant
            k <= z,
            z <= width || z == k,
            s@ == start + Seq::new((z - k) as nat, |i: int| '0'),
        decreases width - z,
    {
        push_char(s, '0');
        assert(s@ =~= start + Seq::new((z + 1 - k) as nat, |i: int| '0'));
        z = z + 1;
    }
    let ghost zeros = s@;
    push_digits(s, n, radix);
    proof {
        let d = digits(n as nat, radix as nat);
        if d.len() >= width {
            assert(z == k);
            assert(s@ =~= start + d);
        } else {
            assert(z == width);
            assert(s@ =~= start + (Seq::new((width - d.len()) as nat, |i: int| '0') + d));
        }
    }
}

/// Append `n` in decimal.
pub fn push_dec(s: &mut String, n: u128)
    ensures
        final(s)@ == old(s)@ + digits(n as nat, 10),
{
    push_digits(s, n, 10);
}

/// `n` in decimal.
pub fn dec_string(n: u128) -> (out: String)
    ensures
        out@ == digits(n as nat, 10),
{
    let mut out = String::new();
    push_dec(&mut out, n);
    assert(out@ =~= digits(n as nat, 10));
    out
}

/// A number has at most 128 digits in any base from 2 up.
pub proof fn lemma_digits_len_bound(n: nat, radix: nat)
    requires
        2 <= radix,
        n <= u128::MAX,
    ensures
        digits(n, radix).len() <= 128,
        digits(n, radix).len() >= 1,
{
    vstd::arithmetic::power2::lemma2_to64();
    vstd::arithmetic::power2::lemma_pow2_adds(64, 64);
    lemma_digits_below_pow2(n, radix, 128);
}

proof fn lemma_digits_below_pow2(n: nat, radix: nat, j: nat)
    requires
        2 <= radix,
        j >= 1,
        n < vstd::arithmetic::power2::pow2(j),
    ensures
        1 <= digits(n, radix).len() <= j,
    decreases n,
{
    if n >= radix {
        lemma_div_smaller(n, radix);
        vstd::arithmetic::power2::lemma_pow2_unfold(j);
        assert(n / radix <= n / 2) by (nonlinear_arith)
            requires
                2 <= radix,
        ;
        if j == 1 {
            vstd::arithmetic::power2::lemma2_to64();
            assert(false);
        }
        lemma_digits_below_pow2(n / radix, radix, (j - 1) as nat);
    }
}

/// `radix` to the power `j`.
pub open spec fn radix_pow(radix: nat, j: nat) -> nat
    decreases j,
{
    if j == 0 {
        1
    } else {
        radix * radix_pow(radix, (j - 1) as nat)
    }
}

/// A number below `radix^j` has at most `j` digits.
pub proof fn lemma_digits_len_below(n: nat, radix: nat, j: nat)
    requires
        2 <= radix,
        1 <= j,
        n < radix_pow(radix, j),
    ensures
        1 <= digits(n, radix).len() <= j,
    decreases j,
{
    if n >= radix {
        lemma_div_smaller(n, radix);
        if j == 1 {
            assert(radix_pow(radix, 0) == 1);
            assert(radix_pow(radix, 1) == radix * radix_pow(radix, 0));
            assert(false);
        }
        let rest = radix_pow(radix, (j - 1) as nat);
        vstd::arithmetic::div_mod::lemma_multiply_divide_lt(n as int, radix as int, rest as int);
        lemma_digits_len_below(n / radix, radix, (j - 1) as nat);
    }
}

/// Every character of `n` in base `radix` is the character of a digit
/// below `radix`.
pub proof fn lemma_digits_chars(n: nat, radix: nat)
    requires
        2 <= radix,
    ensures
        forall|i: int|
            0 <= i < digits(n, radix).len() ==> exists|d: nat|
                d < radix && #[trigger] digits(n, radix)[i] == digit_char(d),
    decreases n,
{
    if n >= radix {
        lemma_div_smaller(n, radix);
        lemma_digits_chars(n / radix, radix);
        let front = digits(n / radix, radix);
        assert forall|i: int| 0 <= i < digits(n, radix).len() implies exists|d: nat|
            d < radix && #[trigger] digits(n, radix)[i] == digit_char(d) by {
            if i < front.len() {
                assert(digits(n, radix)[i] == front[i]);
            } else {
                assert(digits(n, radix)[i] == digit_char(n % radix));
            }
        }
    } else {
        assert(digits(n, radix)[0] == digit_char(n));
    }
}

/// Leading zeros add nothing to a numeral's value.
pub proof fn lemma_zeros_value(z: Seq<char>, d: Seq<char>)
    requires
        forall|i: int| 0 <= i < z.len() ==> z[i] == '0',
    ensures
        digits_value(z + d) == digits_value(d),
    decreases z.len() + d.len(),
{
    if d.len() == 0 {
        assert(z + d =~= z);
        if z.len() > 0 {
            assert(z.drop_last() + d =~= z.drop_last());
            lemma_zeros_value(z.drop_last(), d);
            assert(z.last() == '0');
        }
    } else {
        assert((z + d).drop_last() =~= z + d.drop_last());
        lemma_zeros_value(z, d.drop_last());
    }
}

/// Decimal digits read back give the number.
pub proof fn lemma_digits_value_of(n: nat)
    ensures
        digits_value(digits(n, 10)) == n,
    decreases n,
{
    if n >= 10 {
        lemma_div_smaller(n, 10);
        lemma_digits_value_of(n / 10);
        let d = digits(n / 10, 10);
        assert(digits(n, 10).drop_last() =~= d);
        assert(digit_char(n % 10) as nat == 48 + n % 10);
        vstd::arithmetic::div_mod::lemma_fundamental_div_mod(n as int, 10);
        assert(digits(n, 10).last() == digit_char(n % 10));
        assert(digits_value(digits(n, 10)) == digits_value(d) * 10 + n % 10);
        assert(digits_value(digits(n, 10)) == n);
    } else {
        assert(digits(n, 10).drop_last() =~= Seq::<char>::empty());
        assert(digit_char(n) as nat == 48 + n);
        assert(digits(n, 10).last() == digit_char(n));
        assert(digits_value(Seq::<char>::empty()) == 0);
        assert(digits_value(digits(n, 10)) == n);
    }
}

/// A number padded to `width` decimal digits reads back as itself.
pub proof fn lemma_padded_value_of(n: nat, width: nat)
    ensures
        digits_value(padded(n, 10, width)) == n,
{
    lemma_digits_value_of(n);
    let d = digits(n, 10);
    if d.len() < width {
        lemma_zeros_value(Seq::new((width - d.len()) as nat, |i: int| '0'), d);
    }
}

} // verus!
