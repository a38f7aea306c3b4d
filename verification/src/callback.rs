//! The local OAuth callback: reading the authorization code and state out of the
//! browser's request line, and deciding how the listener answers.
use vstd::prelude::*;
use crate::text::{chars_of, slice_range, split, split_chars, string_from};

verus! {

/// Index of the first occurrence of `c` in `s`, or -1.
pub open spec fn first_index(s: Seq<char>, c: char) -> int
    decreases s.len(),
{
    if s.len() == 0 {
        -1
    } else if s[0] == c {
        0
    } else {
        let r = first_index(s.drop_first(), c);
        if r < 0 {
            -1
        } else {
            r + 1
        }
    }
}

pub proof fn lemma_first_index(s: Seq<char>, c: char)
    ensures
        -1 <= first_index(s, c) < s.len(),
        first_index(s, c) >= 0 ==> s[first_index(s, c)] == c,
        forall|i: int|
            0 <= i < s.len() && (first_index(s, c) < 0 || i < first_index(s, c)) ==> s[i] != c,
    decreases s.len(),
{
    if s.len() > 0 && s[0] != c {
        lemma_first_index(s.drop_first(), c);
        assert forall|i: int|
            0 <= i < s.len() && (first_index(s, c) < 0 || i < first_index(s, c)) implies s[i]
            != c by {
            if i > 0 {
                assert(s[i] == s.drop_first()[i - 1]);
            }
        }
    }
}

/// Characterises `first_index` by the scan that finds it.
pub proof fn lemma_first_index_char(s: Seq<char>, c: char, k: int)
    requires
        -1 <= k < s.len(),
        k >= 0 ==> s[k] == c,
        forall|i: int| 0 <= i < s.len() && (k < 0 || i < k) ==> s[i] != c,
    ensures
        first_index(s, c) == k,
    decreases s.len(),
{
    if s.len() > 0 && s[0] != c {
        let t = s.drop_first();
        assert forall|i: int| 0 <= i < t.len() && (k - 1 < 0 || i < k - 1) implies t[i] != c by {
            assert(t[i] == s[i + 1]);
        }
        if k > 0 {
            assert(t[k - 1] == s[k]);
            lemma_first_index_char(t, c, k - 1);
        } else {
            lemma_first_index_char(t, c, -1);
        }
    }
}

/// Position of the first `c` in `s[from..]`, as an index into `s`.
pub fn find_char_from(s: &[char], from: usize, c: char) -> (r: Option<usize>)
    requires
        from <= s@.len(),
    ensures
        match r {
            Some(i) => first_index(s@.skip(from as int), c) == i - from && from <= i < s@.len()
                && s@[i as int] == c,
            None => first_index(s@.skip(from as int), c) == -1,
        },
{
    let ghost t = s@.skip(from as int);
    let n = s.len();
    let mut i = from;
    while i < n
        invariant
            from <= i <= n == s@.len(),
            t == s@.skip(from as int),
            forall|j: int| 0 <= j < i - from ==> t[j] != c,
        decreases n - i,
    {
        if s[i] == c {
            proof {
                lemma_first_index_char(t, c, i - from);
            }
            return Some(i);
        }
        i = i + 1;
    }
    proof {
        lemma_first_index_char(t, c, -1);
    }
    None
}

/// The first line of a request as `str::lines` yields it: the text before the
/// first `\n` (with one `\r` before that `\n` removed), or all of it; none for
/// empty input.
pub open spec fn first_line(s: Seq<char>) -> Option<Seq<char>> {
    if s.len() == 0 {
        None
    } else {
        let k = first_index(s, '\n');
        if k < 0 {
            Some(s)
        } else {
            let l = s.take(k);
            if l.len() > 0 && l.last() == '\r' {
                Some(l.drop_last())
            } else {
                Some(l)
            }
        }
    }
}

pub open spec fn code_key() -> Seq<char> {
    seq!['c', 'o', 'd', 'e']
}

pub open spec fn state_key() -> Seq<char> {
    seq!['s', 't', 'a', 't', 'e']
}

/// `param.split_once('=')`.
pub open spec fn split_once_eq(p: Seq<char>) -> Option<(Seq<char>, Seq<char>)> {
    let k = first_index(p, '=');
    if k < 0 {
        None
    } else {
        Some((p.take(k), p.skip(k + 1)))
    }
}

/// The value of the first `code=<non-empty>` parameter among `ps`.
pub open spec fn first_code(ps: Seq<Seq<char>>) -> Option<Seq<char>>
    decreases ps.len(),
{
    if ps.len() == 0 {
        None
    } else {
        match split_once_eq(ps[0]) {
            Some((k, v)) if k == code_key() && v.len() > 0 => Some(v),
            _ => first_code(ps.drop_first()),
        }
    }
}

/// Why a callback request carried no usable authorization code.
#[derive(Debug, Clone, PartialEq, Eq)]
pub enum CallbackError {
    /// The request was empty.
    NoRequestLine,
    /// The request line has no `/`.
    NoPath,
    /// The path has no `?`.
    NoQuery,
    /// No `code` parameter with a value; holds the first 200 characters of the line.
    NoCode(String),
}

/// Which way a callback request fails to yield a code.
#[derive(Debug, Clone, Copy, PartialEq, Eq)]
pub enum AuthCodeFault {
    NoRequestLine,
    NoPath,
    NoQuery,
    NoCode,
}

/// The outcome `parse_auth_code_from_request` owes for a request text: the line
/// is its first line, the query follows the first `?` after the first `/`, and
/// the code is the first `code=` parameter with a non-empty value.
pub open spec fn auth_code_outcome(req: Seq<char>) -> Result<Seq<char>, AuthCodeFault> {
    match first_line(req) {
        None => Err(AuthCodeFault::NoRequestLine),
        Some(line) => {
            let p = first_index(line, '/');
            if p < 0 {
                Err(AuthCodeFault::NoPath)
            } else {
                let q = first_index(line.skip(p), '?');
                if q < 0 {
                    Err(AuthCodeFault::NoQuery)
                } else {
                    match first_code(split(line.skip(p + q + 1), '&')) {
                        Some(v) => Ok(v),
                        None => Err(AuthCodeFault::NoCode),
                    }
                }
            }
        },
    }
}

/// `r` is the result `auth_code_outcome` describes; a missing code carries the
/// first 200 characters of the request line.
pub open spec fn auth_code_matches(r: Result<String, CallbackError>, req: Seq<char>) -> bool {
    match (r, auth_code_outcome(req)) {
        (Ok(v), Ok(w)) => v@ == w,
        (Err(CallbackError::NoRequestLine), Err(AuthCodeFault::NoRequestLine)) => true,
        (Err(CallbackError::NoPath), Err(AuthCodeFault::NoPath)) => true,
        (Err(CallbackError::NoQuery), Err(AuthCodeFault::NoQuery)) => true,
        (Err(CallbackError::NoCode(t)), Err(AuthCodeFault::NoCode)) => {
            let line = first_line(req)->0;
            t@ == line.take(
                if line.len() < 200 {
                    line.len() as int
                } else {
                    200
                },
            )
        },
        _ => false,
    }
}

fn first_line_exec(s: &[char]) -> (r: Option<Vec<char>>)
    ensures
        match r {
            Some(l) => first_line(s@) == Some(l@),
            None => first_line(s@) is None,
        },
{
    if s.len() == 0 {
        return None;
    }
    match find_char_from(s, 0, '\n') {
        None => {
            proof {
                assert(s@.skip(0) =~= s@);
            }
            Some(slice_range(s, 0, s.len()))
        },
        Some(k) => {
            proof {
                assert(s@.skip(0) =~= s@);
            }
            if k > 0 && s[k - 1] == '\r' {
                let l = slice_range(s, 0, k - 1);
                proof {
                    assert(l@ =~= s@.take(k as int).drop_last());
                }
                Some(l)
            } else {
                let l = slice_range(s, 0, k);
                proof {
                    assert(l@ =~= s@.take(k as int));
                }
                Some(l)
            }
        },
    }
}

fn is_code_key(k: &[char]) -> (b: bool)
    ensures
        b == (k@ == code_key()),
{
    if k.len() == 4 && k[0] == 'c' && k[1] == 'o' && k[2] == 'd' && k[3] == 'e' {
        proof {
            assert(k@ =~= code_key());
        }
        true
    } else {
        false
    }
}

fn is_state_key(k: &[char]) -> (b: bool)
    ensures
        b == (k@ == state_key()),
{
    if k.len() == 5 && k[0] == 's' && k[1] == 't' && k[2] == 'a' && k[3] == 't' && k[4] == 'e' {
        proof {
            assert(k@ =~= state_key());
        }
        true
    } else {
        false
    }
}

/// `p.split_once('=')` on a character slice.
fn split_once_eq_exec(p: &[char]) -> (r: Option<(Vec<char>, Vec<char>)>)
    ensures
        match r {
            Some((k, v)) => split_once_eq(p@) == Some((k@, v@)),
            None => split_once_eq(p@) is None,
        },
{
    proof {
        assert(p@.skip(0) =~= p@);
    }
    match find_char_from(p, 0, '=') {
        None => None,
        Some(k) => {
            assert(k < p.len());
            let key = slice_range(p, 0, k);
            let val = slice_range(p, k + 1, p.len());
            proof {
                assert(key@ =~= p@.take(k as int));
                assert(val@ =~= p@.skip(k as int + 1));
            }
            Some((key, val))
        },
    }
}

/// Extract the authorization code from the raw HTTP request the browser sends to
/// the callback listener (`GET /callback?code=...&state=... HTTP/1.1`).
pub fn parse_auth_code_from_request(request: &str) -> (r: Result<String, CallbackError>)
    ensures
        auth_code_matches(r, request@),
{
    let req = chars_of(request);
    let line = match first_line_exec(req.as_slice()) {
        None => return Err(CallbackError::NoRequestLine),
        Some(l) => l,
    };
    proof {
        assert(line@.skip(0) =~= line@);
    }
    let p = match find_char_from(line.as_slice(), 0, '/') {
        None => return Err(CallbackError::NoPath),
        Some(p) => p,
    };
    let q = match find_char_from(line.as_slice(), p, '?') {
        None => return Err(CallbackError::NoQuery),
        Some(q) => q,
    };
    let query = slice_range(line.as_slice(), q + 1, line.len());
    proof {
        assert(query@ =~= line@.skip(q as int + 1));
    }
    let params = split_chars(query.as_slice(), '&');
    let ghost ps = split(query@, '&');
    let n = params.len();
    let mut i: usize = 0;
    proof {
        assert(ps.skip(0) =~= ps);
        assert(line@.skip(p + (q - p) + 1) =~= query@);
    }
    while i < n
        invariant
            i <= n == params@.len() == ps.len(),
            ps == split(query@, '&'),
            forall|k: int| 0 <= k < params@.len() ==> #[trigger] params@[k]@ == ps[k],
            first_code(ps) == first_code(ps.skip(i as int)),
            first_line(request@) == Some(line@),
            auth_code_outcome(request@) == match first_code(ps) {
                Some(v) => Ok(v),
                None => Err(AuthCodeFault::NoCode),
            },
        decreases n - i,
    {
        proof {
            assert(ps.skip(i as int).drop_first() =~= ps.skip(i as int + 1));
            assert(ps.skip(i as int)[0] == ps[i as int]);
        }
        match split_once_eq_exec(params[i].as_slice()) {
            Some((k, v)) => {
                if is_code_key(k.as_slice()) && v.len() > 0 {
                    return Ok(string_from(v.as_slice()));
                }
            },
            None => {},
        }
        i = i + 1;
    }
    proof {
        assert(ps.skip(n as int) =~= Seq::<Seq<char>>::empty());
    }
    let shown = if line.len() < 200 {
        line.len()
    } else {
        200
    };
    let head = slice_range(line.as_slice(), 0, shown);
    proof {
        assert(head@ =~= line@.take(shown as int));
    }
    Err(CallbackError::NoCode(string_from(head.as_slice())))
}

/// The last value given to `key` among the parameters `ps` (later ones win).
pub open spec fn last_value(ps: Seq<Seq<char>>, key: Seq<char>) -> Option<Seq<char>>
    decreases ps.len(),
{
    if ps.len() == 0 {
        None
    } else {
        match split_once_eq(ps.last()) {
            Some((k, v)) if k == key => Some(v),
            _ => last_value(ps.drop_last(), key),
        }
    }
}

/// Index of the first occurrence of ` HTTP/` in `s`, or -1.
pub open spec fn http_marker_at(s: Seq<char>, i: int) -> bool {
    &&& 0 <= i
    &&& i + 6 <= s.len()
    &&& s.subrange(i, i + 6) == seq![' ', 'H', 'T', 'T', 'P', '/']
}

#[verifier::opaque]
pub open spec fn http_marker(s: Seq<char>) -> int {
    if exists|i: int| http_marker_at(s, i) {
        choose|i: int| http_marker_at(s, i) && forall|j: int| 0 <= j < i ==> !http_marker_at(s, j)
    } else {
        -1
    }
}

/// Code and state read from a callback URI: the text before ` HTTP/` is taken,
/// and after its first `?` the last `code=` and `state=` values count.
pub open spec fn callback_params(uri: Seq<char>) -> (Option<Seq<char>>, Seq<char>) {
    let m = http_marker(uri);
    let u = if m >= 0 {
        uri.take(m)
    } else {
        uri
    };
    let q = first_index(u, '?');
    if q < 0 {
        (None, Seq::empty())
    } else {
        let ps = split(u.skip(q + 1), '&');
        (
            last_value(ps, code_key()),
            match last_value(ps, state_key()) {
                Some(v) => v,
                None => Seq::empty(),
            },
        )
    }
}

fn marker_at_exec(s: &[char], i: usize) -> (b: bool)
    ensures
        b == http_marker_at(s@, i as int),
{
    if i <= s.len() && s.len() - i >= 6 && s[i] == ' ' && s[i + 1] == 'H' && s[i + 2] == 'T'
        && s[i + 3] == 'T' && s[i + 4] == 'P' && s[i + 5] == '/' {
        proof {
            assert(s@.subrange(i as int, i + 6) =~= seq![' ', 'H', 'T', 'T', 'P', '/']);
        }
        true
    } else {
        proof {
            if http_marker_at(s@, i as int) {
                let w = s@.subrange(i as int, i + 6);
                assert(w[0] == s@[i as int] && w[1] == s@[i + 1] && w[2] == s@[i + 2]);
                assert(w[3] == s@[i + 3] && w[4] == s@[i + 4] && w[5] == s@[i + 5]);
            }
        }
        false
    }
}

proof fn lemma_marker_first(s: Seq<char>, i: int)
    requires
        http_marker_at(s, i),
        forall|j: int| 0 <= j < i ==> !http_marker_at(s, j),
    ensures
        http_marker(s) == i,
{
    reveal(http_marker);
    let c = choose|k: int|
        http_marker_at(s, k) && forall|j: int| 0 <= j < k ==> !http_marker_at(s, j);
    if c < i {
        assert(!http_marker_at(s, c));
    } else if c > i {
        assert(!http_marker_at(s, i));
    }
}

proof fn lemma_marker_none(s: Seq<char>)
    requires
        forall|j: int| 0 <= j < s.len() ==> !http_marker_at(s, j),
    ensures
        http_marker(s) == -1,
{
    reveal(http_marker);
    assert forall|i: int| !http_marker_at(s, i) by {
        if 0 <= i && i < s.len() {
        }
    }
}

fn find_http_marker(s: &[char]) -> (r: Option<usize>)
    ensures
        match r {
            Some(i) => http_marker(s@) == i as int && i + 6 <= s@.len(),
            None => http_marker(s@) == -1,
        },
{
    let n = s.len();
    let mut i: usize = 0;
    while i < n
        invariant
            i <= n == s@.len(),
            forall|j: int| 0 <= j < i ==> !http_marker_at(s@, j),
        decreases n - i,
    {
        if marker_at_exec(s, i) {
            proof {
                lemma_marker_first(s@, i as int);
            }
            return Some(i);
        }
        i = i + 1;
    }
    proof {
        lemma_marker_none(s@);
    }
    None
}

/// The last `code=` and `state=` values among the `&`-separated parameters.
fn scan_params(query: &[char]) -> (r: (Option<Vec<char>>, Option<Vec<char>>))
    ensures
        match r.0 {
            Some(c) => last_value(split(query@, '&'), code_key()) == Some(c@),
            None => last_value(split(query@, '&'), code_key()) is None,
        },
        match r.1 {
            Some(c) => last_value(split(query@, '&'), state_key()) == Some(c@),
            None => last_value(split(query@, '&'), state_key()) is None,
        },
{
    let params = split_chars(query, '&');
    let ghost ps = split(query@, '&');
    let mut code: Option<Vec<char>> = None;
    let mut state: Option<Vec<char>> = None;
    let n = params.len();
    let mut i: usize = 0;
    proof {
        assert(ps.take(0) =~= Seq::<Seq<char>>::empty());
    }
    while i < n
        invariant
            i <= n == params@.len() == ps.len(),
            ps == split(query@, '&'),
            forall|k: int| 0 <= k < params@.len() ==> #[trigger] params@[k]@ == ps[k],
            match code {
                Some(c) => last_value(ps.take(i as int), code_key()) == Some(c@),
                None => last_value(ps.take(i as int), code_key()) is None,
            },
            match state {
                Some(c) => last_value(ps.take(i as int), state_key()) == Some(c@),
                None => last_value(ps.take(i as int), state_key()) is None,
            },
        decreases n - i,
    {
        proof {
            assert(ps.take(i as int + 1).drop_last() =~= ps.take(i as int));
            assert(ps.take(i as int + 1).last() == ps[i as int]);
            assert(code_key() != state_key()) by {
                assert(code_key().len() != state_key().len());
            }
        }
        match split_once_eq_exec(params[i].as_slice()) {
            Some((k, v)) => {
                if is_code_key(k.as_slice()) {
                    code = Some(v);
                } else if is_state_key(k.as_slice()) {
                    state = Some(v);
                }
            },
            None => {},
        }
        i = i + 1;
    }
    proof {
        assert(ps.take(n as int) =~= ps);
    }
    (code, state)
}

/// Parse the authorization code and state from a callback URI such as
/// `/callback?code=abc&state=xyz` (a trailing ` HTTP/...` is ignored).
pub fn parse_callback(uri: &str) -> (r: (Option<String>, String))
    ensures
        ({
            let (c, s) = callback_params(uri@);
            &&& r.1@ == s
            &&& match (r.0, c) {
                (Some(a), Some(b)) => a@ == b,
                (None, None) => true,
                _ => false,
            }
        }),
{
    let raw = chars_of(uri);
    let u = match find_http_marker(raw.as_slice()) {
        Some(m) => slice_range(raw.as_slice(), 0, m),
        None => slice_range(raw.as_slice(), 0, raw.len()),
    };
    proof {
        if http_marker(uri@) >= 0 {
            assert(u@ =~= uri@.take(http_marker(uri@)));
        } else {
            assert(u@ =~= uri@);
        }
        assert(u@.skip(0) =~= u@);
    }
    let q = match find_char_from(u.as_slice(), 0, '?') {
        None => return (None, String::new()),
        Some(q) => q,
    };
    let query = slice_range(u.as_slice(), q + 1, u.len());
    proof {
        assert(query@ =~= u@.skip(q as int + 1));
    }
    let (code, state) = scan_params(query.as_slice());
    let c = match code {
        Some(v) => Some(string_from(v.as_slice())),
        None => None,
    };
    let s = match state {
        Some(v) => string_from(v.as_slice()),
        None => String::new(),
    };
    (c, s)
}

/// How the callback listener answers one request.
#[derive(Debug, Clone, PartialEq, Eq)]
pub enum CallbackReply {
    /// The `state` differs from the one sent: 403, nothing is forwarded.
    StateMismatch,
    /// A code arrived with the right state: 200, and the code is forwarded.
    Code(String),
    /// The state matched but no code was given: 400.
    NoCode,
}

/// Decide the listener's answer from the parsed code and state.
pub fn callback_reply(code: Option<String>, state: &String, expected_state: &String) -> (r:
    CallbackReply)
    ensures
        state@ != expected_state@ ==> r == CallbackReply::StateMismatch,
        state@ == expected_state@ ==> match code {
            Some(c) => r == CallbackReply::Code(c),
            None => r == CallbackReply::NoCode,
        },
{
    let same = strings_equal(state, expected_state);
    if !same {
        CallbackReply::StateMismatch
    } else {
        match code {
            Some(c) => CallbackReply::Code(c),
            None => CallbackReply::NoCode,
        }
    }
}

/// Equality of two strings by their characters.
pub fn strings_equal(a: &String, b: &String) -> (r: bool)
    ensures
        r == (a@ == b@),
{
    let x = chars_of(a.as_str());
    let y = chars_of(b.as_str());
    if x.len() != y.len() {
        proof {
            assert(x@.len() != y@.len());
        }
        return false;
    }
    let n = x.len();
    let mut i: usize = 0;
    while i < n
        invariant
            i <= n == x@.len() == y@.len(),
            x@ == a@,
            y@ == b@,
            forall|k: int| 0 <= k < i ==> x@[k] == y@[k],
        decreases n - i,
    {
        if x[i] != y[i] {
            proof {
                assert(x@[i as int] != y@[i as int]);
            }
            return false;
        }
        i = i + 1;
    }
    proof {
        assert(x@ =~= y@);
    }
    true
}

/// The callback port: the one asked for, else 9090 (EVE SSO matches the
/// registered callback URI exactly).
pub fn find_available_port(hint: Option<u16>) -> (r: u16)
    ensures
        r == match hint {
            Some(p) => p,
            None => 9090,
        },
{
    match hint {
        Some(p) => p,
        None => 9090,
    }
}


/// The request target of an HTTP request line: the text from its first `/`.
pub fn request_target(line: &str) -> (r: Option<String>)
    ensures
        match r {
            Some(u) => first_index(line@, '/') >= 0 && u@ == line@.skip(first_index(line@, '/')),
            None => first_index(line@, '/') == -1,
        },
{
    let c = chars_of(line);
    proof {
        assert(c@.skip(0) =~= c@);
    }
    match find_char_from(c.as_slice(), 0, '/') {
        Some(i) => {
            let rest = slice_range(c.as_slice(), i, c.len());
            proof {
                assert(rest@ =~= c@.skip(i as int));
            }
            Some(string_from(rest.as_slice()))
        },
        None => None,
    }
}

} // verus!
