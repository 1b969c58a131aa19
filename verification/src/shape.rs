//! The accepted URL shape.
//!
//! A candidate link is kept when it starts with `http://` or `https://`
//! followed by at least one character that is neither `/` nor white space:
//! the scheme, a non-empty host, and optionally `/` and a path. The kept URL
//! is the candidate up to (but not including) its first white-space
//! character; anything after that is discarded. Relative links, other
//! schemes, and candidates whose host part is empty are dropped.

use vstd::prelude::*;

verus! {

/// Whether `c` carries the Unicode white-space property.
pub open spec fn is_ws_char(c: char) -> bool {
    let n = c as u32;
    n == 0x9 || n == 0xA || n == 0xB || n == 0xC || n == 0xD || n == 0x20 || n == 0x85
        || n == 0xA0 || n == 0x1680 || (0x2000 <= n && n <= 0x200A) || n == 0x2028
        || n == 0x2029 || n == 0x202F || n == 0x205F || n == 0x3000
}

/// Executable test for `is_ws_char`.
pub fn ws_char(c: char) -> (r: bool)
    ensures
        r == is_ws_char(c),
{
    let n = c as u32;
    n == 0x9 || n == 0xA || n == 0xB || n == 0xC || n == 0xD || n == 0x20 || n == 0x85
        || n == 0xA0 || n == 0x1680 || (0x2000 <= n && n <= 0x200A) || n == 0x2028
        || n == 0x2029 || n == 0x202F || n == 0x205F || n == 0x3000
}

/// Whether `s` starts with the seven characters `http://`.
pub open spec fn has_http_prefix(s: Seq<char>) -> bool {
    s.len() >= 7 && s[0] == 'h' && s[1] == 't' && s[2] == 't' && s[3] == 'p' && s[4] == ':'
        && s[5] == '/' && s[6] == '/'
}

/// Whether `s` starts with the eight characters `https://`.
pub open spec fn has_https_prefix(s: Seq<char>) -> bool {
    s.len() >= 8 && s[0] == 'h' && s[1] == 't' && s[2] == 't' && s[3] == 'p' && s[4] == 's'
        && s[5] == ':' && s[6] == '/' && s[7] == '/'
}

/// The length of the scheme part when `s` starts with an accepted scheme.
pub open spec fn scheme_len_of(s: Seq<char>) -> Option<int> {
    if has_https_prefix(s) {
        Some(8int)
    } else if has_http_prefix(s) {
        Some(7int)
    } else {
        None
    }
}

/// The position of the first white-space character of `s` at or after `i`,
/// or the length of `s` when there is none.
pub open spec fn scan_end(s: Seq<char>, i: int) -> int
    decreases s.len() - i,
{
    if i < 0 || i >= s.len() {
        s.len() as int
    } else if is_ws_char(s[i]) {
        i
    } else {
        scan_end(s, i + 1)
    }
}

/// `scan_end` stays within the bounds of `s` and skips no white space.
pub proof fn lemma_scan_end(s: Seq<char>, i: int)
    requires
        0 <= i <= s.len(),
    ensures
        i <= scan_end(s, i) <= s.len(),
        forall|j: int| i <= j < scan_end(s, i) ==> !is_ws_char(s[j]),
    decreases s.len() - i,
{
    if i < s.len() && !is_ws_char(s[i]) {
        lemma_scan_end(s, i + 1);
    }
}

/// When `s` holds no white space at or after `i`, the scan runs to its end.
pub proof fn lemma_scan_end_full(s: Seq<char>, i: int)
    requires
        0 <= i <= s.len(),
        forall|j: int| i <= j < s.len() ==> !is_ws_char(s[j]),
    ensures
        scan_end(s, i) == s.len(),
    decreases s.len() - i,
{
    if i < s.len() {
        lemma_scan_end_full(s, i + 1);
    }
}

/// The URL kept from the candidate `s`, when `s` matches the accepted shape.
pub open spec fn capture_spec(s: Seq<char>) -> Option<Seq<char>> {
    match scheme_len_of(s) {
        None => None,
        Some(m) => {
            if s.len() <= m {
                None
            } else if s[m] == '/' || is_ws_char(s[m]) {
                None
            } else {
                Some(s.subrange(0, scan_end(s, m)))
            }
        },
    }
}

/// A URL of the accepted shape: capturing from it keeps it whole.
pub open spec fn is_accepted_url(u: Seq<char>) -> bool {
    capture_spec(u) == Some(u)
}

/// Every entry of the list matches the accepted URL shape.
pub open spec fn all_accepted(v: Seq<String>) -> bool {
    forall|k: int| 0 <= k < v.len() ==> is_accepted_url(#[trigger] v[k]@)
}

/// Whatever `capture_spec` keeps matches the accepted shape itself.
pub proof fn lemma_capture_accepted(s: Seq<char>, u: Seq<char>)
    requires
        capture_spec(s) == Some(u),
    ensures
        is_accepted_url(u),
{
    let m = scheme_len_of(s)->Some_0;
    let e = scan_end(s, m);
    lemma_scan_end(s, m);
    assert(!is_ws_char(s[m]));
    assert(e >= m + 1) by {
        if e == m {
            lemma_scan_end(s, m + 1);
            assert(scan_end(s, m) == scan_end(s, m + 1));
            assert(false);
        }
    }
    assert(u == s.subrange(0, e));
    assert(u.len() == e);
    assert(forall|j: int| 0 <= j < e ==> u[j] == s[j]);
    assert(scheme_len_of(u) == Some(m)) by {
        if has_https_prefix(s) {
            assert(has_https_prefix(u));
        } else {
            assert(has_http_prefix(u));
            assert(!has_https_prefix(u));
        }
    }
    assert(scan_end(u, m) == u.len()) by {
        lemma_scan_end_full(u, m);
    }
    assert(u.subrange(0, u.len() as int) =~= u);
}

/// The position of the first white-space character of `s` at or after
/// `start`, or the character length of `s` when there is none.
fn scan_to_ws(s: &str, start: usize) -> (e: usize)
    requires
        start <= s@.len(),
    ensures
        e as int == scan_end(s@, start as int),
{
    let n = s.unicode_len();
    let mut e: usize = start;
    while e < n
        invariant
            start <= e <= n,
            n == s@.len(),
            scan_end(s@, start as int) == scan_end(s@, e as int),
        decreases n - e,
    {
        if ws_char(s.get_char(e)) {
            assert(scan_end(s@, e as int) == e as int);
            return e;
        }
        assert(scan_end(s@, e as int) == scan_end(s@, e as int + 1));
        e = e + 1;
    }
    assert(scan_end(s@, e as int) == e as int);
    e
}

/// Applies the accepted-shape matcher to one candidate link.
pub fn capture_url(s: &str) -> (r: Option<String>)
    ensures
        match r {
            Some(u) => capture_spec(s@) == Some(u@),
            None => capture_spec(s@) is None,
        },
{
    let n = s.unicode_len();
    let m: usize;
    if n >= 8 && s.get_char(0) == 'h' && s.get_char(1) == 't' && s.get_char(2) == 't'
        && s.get_char(3) == 'p' && s.get_char(4) == 's' && s.get_char(5) == ':'
        && s.get_char(6) == '/' && s.get_char(7) == '/' {
        m = 8;
        assert(has_https_prefix(s@));
    } else if n >= 7 && s.get_char(0) == 'h' && s.get_char(1) == 't' && s.get_char(2) == 't'
        && s.get_char(3) == 'p' && s.get_char(4) == ':' && s.get_char(5) == '/'
        && s.get_char(6) == '/' {
        m = 7;
        assert(has_http_prefix(s@) && !has_https_prefix(s@));
    } else {
        assert(!has_http_prefix(s@) && !has_https_prefix(s@));
        return None;
    }
    if m >= n {
        return None;
    }
    let c0 = s.get_char(m);
    if c0 == '/' || ws_char(c0) {
        return None;
    }
    let e = scan_to_ws(s, m);
    proof {
        lemma_scan_end(s@, m as int);
    }
    let cap = s.substring_char(0, e);
    Some(cap.to_owned())
}

} // verus!
