//! What the HTTP server decides: which route a request takes, who may ask,
//! and what a refused or failed request is answered. Sockets, threads and
//! the JSON bodies of the answers stay with the program around the library.
use vstd::prelude::*;

use crate::backend::BackendError;
use crate::text::{chars_of, digits, lower_ascii, owned, push_dec, starts_with, trim, trim_str, views};

verus! {

/// What a request asks for, from its method and path alone.
#[derive(Debug, Clone, Copy, PartialEq, Eq)]
pub enum Route {
    Index,
    Health,
    Models,
    SystemOne,
    /// A known path asked with the wrong method: the one it takes.
    Method(&'static str),
    NotFound,
}

/// `s` without its trailing `c`s (`str::trim_end_matches` with a char).
pub open spec fn trim_end_char(s: Seq<char>, c: char) -> Seq<char>
    decreases s.len(),
{
    if s.len() > 0 && s.last() == c {
        trim_end_char(s.drop_last(), c)
    } else {
        s
    }
}

/// The path a request names: trailing slashes dropped, the root kept.
pub open spec fn route_path(path: Seq<char>) -> Seq<char> {
    let p = trim_end_char(path, '/');
    if p.len() == 0 {
        "/"@
    } else {
        p
    }
}

/// The route a known path leads to and the method it takes.
pub open spec fn known_route(p: Seq<char>) -> Option<(Seq<char>, Route)> {
    if p == "/"@ {
        Some(("GET"@, Route::Index))
    } else if p == "/health"@ {
        Some(("GET"@, Route::Health))
    } else if p == "/v1/models"@ {
        Some(("GET"@, Route::Models))
    } else if p == "/v1/systemone"@ {
        Some(("POST"@, Route::SystemOne))
    } else {
        None
    }
}

/// Whether `r` is where `method` on `path` goes: the known path's route
/// when the method is the one it takes, else that method named; no route
/// for an unknown path.
pub open spec fn routes_to(r: Route, method: Seq<char>, path: Seq<char>) -> bool {
    match known_route(route_path(path)) {
        None => r == Route::NotFound,
        Some((want, kind)) => if method == want {
            r == kind
        } else {
            r matches Route::Method(w) && w@ == want
        },
    }
}

fn drop_trailing(cs: &Vec<char>, c: char) -> (n: usize)
    ensures
        n <= cs@.len(),
        trim_end_char(cs@, c) == cs@.take(n as int),
{
    let mut n = cs.len();
    assert(cs@.take(n as int) =~= cs@);
    while n > 0 && cs[n - 1] == c
        invariant
            n <= cs@.len(),
            trim_end_char(cs@, c) == trim_end_char(cs@.take(n as int), c),
        decreases n,
    {
        assert(cs@.take(n as int).drop_last() =~= cs@.take(n - 1));
        n = n - 1;
    }
    n
}

fn is_path(cs: &Vec<char>, n: usize, lit: &str) -> (b: bool)
    requires
        n <= cs@.len(),
    ensures
        b == (cs@.take(n as int) == lit@),
{
    let l = chars_of(lit);
    if l.len() != n {
        return false;
    }
    for i in 0..n
        invariant
            n <= cs@.len(),
            l@ == lit@,
            l@.len() == n,
            forall|j: int| 0 <= j < i ==> cs@[j] == l@[j],
    {
        if cs[i] != l[i] {
            assert(cs@.take(n as int)[i as int] != lit@[i as int]);
            return false;
        }
    }
    assert(cs@.take(n as int) =~= lit@);
    true
}

/// The route `method` on `path` takes: a trailing slash is the same path,
/// and a known path asked with another method names the one it takes.
pub fn route(method: &str, path: &str) -> (r: Route)
    ensures
        routes_to(r, method@, path@),
{
    let cs = chars_of(path);
    let n = drop_trailing(&cs, '/');
    proof {
        reveal_strlit("/");
    }
    let (want, r): (&'static str, Route) = if n == 0 || is_path(&cs, n, "/") {
        ("GET", Route::Index)
    } else if is_path(&cs, n, "/health") {
        ("GET", Route::Health)
    } else if is_path(&cs, n, "/v1/models") {
        ("GET", Route::Models)
    } else if is_path(&cs, n, "/v1/systemone") {
        ("POST", Route::SystemOne)
    } else {
        return Route::NotFound;
    };
    if crate::text::str_eq(method, want) {
        r
    } else {
        Route::Method(want)
    }
}

/// A trailing slash never changes where a request goes.
pub proof fn lemma_trailing_slash_same_route(r: Route, method: Seq<char>, path: Seq<char>)
    ensures
        routes_to(r, method, path) == routes_to(r, method, path.push('/')),
{
    assert(path.push('/').drop_last() =~= path);
}

/// A number of seconds as a person reads it: whole minutes when it is
/// some, else seconds.
pub open spec fn span_text(secs: nat) -> Seq<char> {
    if secs >= 60 && secs % 60 == 0 {
        digits(secs / 60, 10) + " min"@
    } else {
        digits(secs, 10) + " s"@
    }
}

/// A span of `secs` seconds as a person reads it (`30 min`, `90 s`).
pub fn span(secs: u64) -> (s: String)
    ensures
        s@ == span_text(secs as nat),
{
    let mut s = String::new();
    if secs >= 60 && secs % 60 == 0 {
        push_dec(&mut s, (secs / 60) as u128);
        s.append(" min");
    } else {
        push_dec(&mut s, secs as u128);
        s.append(" s");
    }
    s
}

/// The path of a request's URL: what comes before its query.
pub open spec fn url_path(url: Seq<char>) -> Seq<char> {
    url.take(crate::text::find_from(url, '?', 0) as int)
}

/// The path of a request's URL (everything before the first `?`).
pub fn path_of(url: &str) -> (p: String)
    ensures
        p@ == url_path(url@),
{
    let cs = chars_of(url);
    let i = crate::text::find_char(&cs, '?', 0);
    proof {
        crate::text::lemma_find_from(cs@, '?', 0);
    }
    crate::text::string_of_range(&cs, 0, i)
}

/// `s` with every leading copy of `p` removed (`str::trim_start_matches`).
pub open spec fn strip_all(s: Seq<char>, p: Seq<char>) -> Seq<char>
    decreases s.len(),
{
    if p.len() > 0 && starts_with(s, p) {
        strip_all(s.skip(p.len() as int), p)
    } else {
        s
    }
}

/// The key an `Authorization` value carries: every leading `Bearer `
/// removed, then trimmed.
pub open spec fn bearer_key(v: Seq<char>) -> Seq<char> {
    trim(strip_all(v, "Bearer "@))
}

/// The value of the first header whose name is `Authorization`, ASCII case
/// aside.
pub open spec fn auth_header(hs: Seq<(Seq<char>, Seq<char>)>) -> Option<Seq<char>>
    decreases hs.len(),
{
    if hs.len() == 0 {
        None
    } else if lower_ascii(hs[0].0) == lower_ascii("Authorization"@) {
        Some(hs[0].1)
    } else {
        auth_header(hs.drop_first())
    }
}

/// Headers as their names' and values' characters.
pub open spec fn header_views(hs: Seq<(String, String)>) -> Seq<(Seq<char>, Seq<char>)> {
    hs.map_values(|h: (String, String)| (h.0@, h.1@))
}

/// Whether a request carrying `headers` may ask: its `Authorization` names
/// one of `keys` (after `Bearer `).
pub open spec fn may_ask(hs: Seq<(Seq<char>, Seq<char>)>, keys: Seq<Seq<char>>) -> bool {
    match auth_header(hs) {
        Some(v) => keys.contains(bearer_key(v)),
        None => false,
    }
}

fn strip_all_bearer(v: &str) -> (out: String)
    ensures
        out@ == strip_all(v@, "Bearer "@),
{
    let cs = chars_of(v);
    let p = chars_of("Bearer ");
    proof {
        reveal_strlit("Bearer ");
    }
    let n = cs.len();
    let k = p.len();
    let mut i: usize = 0;
    assert(cs@.skip(0) =~= cs@);
    while k <= n - i && is_at(&cs, i, &p)
        invariant
            n == cs@.len(),
            k == p@.len(),
            k > 0,
            p@ == "Bearer "@,
            i <= n,
            strip_all(v@, "Bearer "@) == strip_all(cs@.skip(i as int), "Bearer "@),
            cs@ == v@,
        decreases n - i,
    {
        assert(cs@.skip(i as int).take(k as int) =~= cs@.subrange(i as int, (i + k) as int));
        assert(cs@.skip(i as int).skip(k as int) =~= cs@.skip((i + k) as int));
        i = i + k;
    }
    if k <= n - i {
        assert(cs@.skip(i as int).take(k as int) =~= cs@.subrange(i as int, (i + k) as int));
    }
    let out = crate::text::string_of_range(&cs, i, n);
    assert(out@ =~= cs@.skip(i as int));
    out
}

fn is_at(cs: &Vec<char>, i: usize, p: &Vec<char>) -> (b: bool)
    requires
        i + p@.len() <= cs@.len(),
    ensures
        b == (cs@.subrange(i as int, i + p@.len()) == p@),
{
    let k = p.len();
    let n = cs.len();
    for j in 0..k
        invariant
            k == p@.len(),
            n == cs@.len(),
            i + k <= n,
            forall|m: int| 0 <= m < j ==> cs@[i + m] == p@[m],
    {
        if cs[i + j] != p[j] {
            assert(cs@.subrange(i as int, i + k)[j as int] != p@[j as int]);
            return false;
        }
    }
    assert(cs@.subrange(i as int, i + k) =~= p@);
    true
}

fn names_authorization(name: &str) -> (b: bool)
    ensures
        b == (lower_ascii(name@) == lower_ascii("Authorization"@)),
{
    let a = crate::text::to_ascii_lower(name);
    let b = crate::text::to_ascii_lower("Authorization");
    if a.len() != b.len() {
        return false;
    }
    let n = a.len();
    for i in 0..n
        invariant
            n == a@.len(),
            n == b@.len(),
            a@ == lower_ascii(name@),
            b@ == lower_ascii("Authorization"@),
            forall|j: int| 0 <= j < i ==> a@[j] == b@[j],
    {
        if a[i] != b[i] {
            return false;
        }
    }
    assert(a@ =~= b@);
    true
}

/// Whether a request with `headers` (name, value) may ask: its first
/// `Authorization` header carries one of `keys`.
pub fn authorized(headers: &Vec<(String, String)>, keys: &Vec<String>) -> (b: bool)
    ensures
        b == may_ask(header_views(headers@), views(keys@)),
{
    let n = headers.len();
    let mut i: usize = 0;
    assert(header_views(headers@).skip(0) =~= header_views(headers@));
    while i < n
        invariant
            n == headers@.len(),
            i <= n,
            auth_header(header_views(headers@)) == auth_header(header_views(headers@).skip(i as int)),
        decreases n - i,
    {
        let ghost rest = header_views(headers@).skip(i as int);
        assert(rest[0] == (headers@[i as int].0@, headers@[i as int].1@));
        if names_authorization(headers[i].0.as_str()) {
            let stripped = strip_all_bearer(headers[i].1.as_str());
            let key = trim_str(stripped.as_str());
            return contains_key(keys, &key);
        }
        assert(rest.drop_first() =~= header_views(headers@).skip(i + 1));
        i = i + 1;
    }
    false
}

fn contains_key(keys: &Vec<String>, key: &String) -> (b: bool)
    ensures
        b == views(keys@).contains(key@),
{
    let n = keys.len();
    for i in 0..n
        invariant
            n == keys@.len(),
            forall|j: int| 0 <= j < i ==> keys@[j]@ != key@,
    {
        if crate::text::str_eq(keys[i].as_str(), key.as_str()) {
            assert(views(keys@)[i as int] == key@);
            return true;
        }
    }
    assert forall|j: int| 0 <= j < views(keys@).len() implies views(keys@)[j] != key@ by {
        assert(views(keys@)[j] == keys@[j]@);
    }
    false
}

/// An answer that is not a judgment: a status, a message, and for a 405
/// the method the path takes.
#[derive(Debug, Clone)]
pub struct Reply {
    pub status: u16,
    pub message: String,
    pub allow: Option<&'static str>,
}

/// What a request answered without a judgment gets: 405 naming the
/// method the path takes, 404 pointing at the routes; `None` for the
/// routes that answer.
pub fn route_reply(route: Route, method: &str, path: &str) -> (r: Option<Reply>)
    ensures
        match route {
            Route::Method(want) => r matches Some(p) && p.status == 405 && p.allow == Some(want)
                && p.message@ == path@ + " takes "@ + want@ + ", not "@ + method@,
            Route::NotFound => r matches Some(p) && p.status == 404 && p.allow is None
                && p.message@ == "no route "@ + method@ + " "@ + path@
                + " (POST /v1/systemone; GET / lists the routes)"@,
            _ => r is None,
        },
{
    match route {
        Route::Method(want) => {
            let mut m = owned(path);
            m.append(" takes ");
            m.append(want);
            m.append(", not ");
            m.append(method);
            Some(Reply { status: 405, message: m, allow: Some(want) })
        },
        Route::NotFound => {
            let mut m = owned("no route ");
            m.append(method);
            m.append(" ");
            m.append(path);
            m.append(" (POST /v1/systemone; GET / lists the routes)");
            Some(Reply { status: 404, message: m, allow: None })
        },
        _ => None,
    }
}

/// A question refused before its body is read: 401 when keys are set and
/// the request carries none of them.
pub fn refusal(keys: &Vec<String>, headers: &Vec<(String, String)>) -> (r: Option<Reply>)
    ensures
        (keys@.len() > 0 && !may_ask(header_views(headers@), views(keys@))) ==> (r matches Some(p)
            && p.status == 401 && p.allow is None && p.message@
            == "invalid or missing API key (Authorization: Bearer KEY)"@),
        !(keys@.len() > 0 && !may_ask(header_views(headers@), views(keys@))) ==> r is None,
{
    if keys.len() > 0 && !authorized(headers, keys) {
        Some(
            Reply {
                status: 401,
                message: owned("invalid or missing API key (Authorization: Bearer KEY)"),
                allow: None,
            },
        )
    } else {
        None
    }
}

/// A question's body refused before it is parsed: 400 when it could not be
/// read, 422 when it is blank.
pub fn body_refusal(body: Option<&str>) -> (r: Option<Reply>)
    ensures
        match body {
            None => r matches Some(p) && p.status == 400 && p.allow is None && p.message@
                == "unreadable body"@,
            Some(b) => if trim(b@).len() == 0 {
                r matches Some(p) && p.status == 422 && p.allow is None && p.message@
                    == "empty body: POST a JSON request, {\"state\": ..., \"questions\": {...}}"@
            } else {
                r is None
            },
        },
{
    match body {
        None => Some(Reply { status: 400, message: owned("unreadable body"), allow: None }),
        Some(b) => {
            let t = trim_str(b);
            if t.as_str().unicode_len() == 0 {
                Some(
                    Reply {
                        status: 422,
                        message: owned(
                            "empty body: POST a JSON request, {\"state\": ..., \"questions\": {...}}",
                        ),
                        allow: None,
                    },
                )
            } else {
                None
            }
        },
    }
}

/// A request that is not one: 422, with what was wrong.
pub fn invalid_request(e: &str) -> (r: Reply)
    ensures
        r.status == 422,
        r.allow is None,
        r.message@ == "invalid request: "@ + e@,
{
    let mut m = owned("invalid request: ");
    m.append(e);
    Reply { status: 422, message: m, allow: None }
}

/// A judgment that failed: a refused request is the caller's to fix (422,
/// its reason alone); anything else is the backend's (502, the error).
pub fn failed(e: &BackendError) -> (r: Reply)
    ensures
        r.allow is None,
        match e {
            BackendError::Rejected(m) => r.status == 422 && r.message@ == m@,
            _ => r.status == 502 && r.message@ == e.text(),
        },
{
    match e {
        BackendError::Rejected(m) => Reply { status: 422, message: owned(m.as_str()), allow: None },
        _ => Reply { status: 502, message: e.message(), allow: None },
    }
}


/// What the server does next with a request, from its method, URL and
/// headers alone: answer it from what it knows, refuse it, or read its
/// body for a judgment.
#[derive(Debug, Clone)]
pub enum Next {
    Index,
    Health,
    Models,
    ReadBody,
    Answer(Reply),
}

/// Whether `n` is what a request routed to `r` gets, `may` saying whether
/// its key (if keys are set) lets it ask.
pub open spec fn next_for(n: Next, r: Route, method: Seq<char>, path: Seq<char>, may: bool) -> bool {
    match r {
        Route::Index => n is Index,
        Route::Health => n is Health,
        Route::Models => n is Models,
        Route::SystemOne => if may {
            n is ReadBody
        } else {
            n matches Next::Answer(p) && p.status == 401 && p.allow is None && p.message@
                == "invalid or missing API key (Authorization: Bearer KEY)"@
        },
        Route::Method(want) => n matches Next::Answer(p) && p.status == 405 && p.allow == Some(want)
            && p.message@ == path + " takes "@ + want@ + ", not "@ + method,
        Route::NotFound => n matches Next::Answer(p) && p.status == 404 && p.allow is None
            && p.message@ == "no route "@ + method + " "@ + path
            + " (POST /v1/systemone; GET / lists the routes)"@,
    }
}

/// The first steps of answering a request: its path (the URL before any
/// query), its route, then for a question the key check, and for a wrong
/// method or an unknown path the refusal.
pub fn next_step(method: &str, url: &str, keys: &Vec<String>, headers: &Vec<(String, String)>) -> (n: Next)
    ensures
        exists|r: Route|
            routes_to(r, method@, url_path(url@)) && next_for(
                n,
                r,
                method@,
                url_path(url@),
                !(keys@.len() > 0 && !may_ask(header_views(headers@), views(keys@))),
            ),
{
    let path = path_of(url);
    let r = route(method, path.as_str());
    match r {
        Route::Index => Next::Index,
        Route::Health => Next::Health,
        Route::Models => Next::Models,
        Route::SystemOne => match refusal(keys, headers) {
            Some(p) => Next::Answer(p),
            None => Next::ReadBody,
        },
        _ => match route_reply(r, method, path.as_str()) {
            Some(p) => Next::Answer(p),
            None => Next::ReadBody,
        },
    }
}


/// Whether a request counts for the kill date: only a question does, so a
/// monitor polling `/health` does not keep an idle server alive.
pub fn counts_for_kill_date(r: Route) -> (b: bool)
    ensures
        b == (r == Route::SystemOne),
{
    match r {
        Route::SystemOne => true,
        _ => false,
    }
}

/// Whether a server stops itself: it has a kill date of `kill` seconds, no
/// question is in flight (`busy`), and the last one ended (or the server
/// started) at least that many whole seconds ago (`idle`).
pub fn past_kill_date(idle: u64, busy: u64, kill: Option<u64>) -> (b: bool)
    ensures
        b == (kill matches Some(d) && busy == 0 && idle >= d),
{
    match kill {
        Some(d) => busy == 0 && idle >= d,
        None => false,
    }
}

} // verus!
