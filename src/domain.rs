//! Turning a raw URL into the domain key that visits are counted under.
//!
//! The normalization is a cheap heuristic rather than a URL parser: take the
//! third `/`-separated segment (the whole URL when there is none), drop any
//! leading dots, remove the first occurrence of `www.` wherever it stands,
//! and lower-case what is left.
use vstd::prelude::*;
use vstd::string::*;

verus! {

/// Index of the first `/` at or after `from`, or `s.len()` when there is none.
pub open spec fn next_slash(s: Seq<char>, from: int) -> int
    decreases s.len() - from,
{
    if from < 0 || from >= s.len() {
        s.len() as int
    } else if s[from] == '/' {
        from
    } else {
        next_slash(s, from + 1)
    }
}

/// Index of the first character at or after `from` that is not a dot,
/// or `s.len()` when there is none.
pub open spec fn next_non_dot(s: Seq<char>, from: int) -> int
    decreases s.len() - from,
{
    if from < 0 || from >= s.len() {
        s.len() as int
    } else if s[from] != '.' {
        from
    } else {
        next_non_dot(s, from + 1)
    }
}

/// `p` occurs in `s` starting at index `i`.
pub open spec fn occurs_at(s: Seq<char>, p: Seq<char>, i: int) -> bool {
    0 <= i && i + p.len() <= s.len() && s.subrange(i, i + p.len()) == p
}

/// `p` occurs somewhere in `s`.
pub open spec fn contains_seq(s: Seq<char>, p: Seq<char>) -> bool {
    exists|i: int| occurs_at(s, p, i)
}

/// The first index at or after `from` where `p` occurs in `s`.
pub open spec fn first_occurrence(s: Seq<char>, p: Seq<char>, from: int) -> Option<int>
    decreases s.len() + 1 - from,
{
    if from < 0 || from + p.len() > s.len() {
        None
    } else if occurs_at(s, p, from) {
        Some(from)
    } else {
        first_occurrence(s, p, from + 1)
    }
}

/// The segment at index 2 of `url` split on `/`, or the whole of `url` when
/// it has fewer than three segments.
pub open spec fn authority(url: Seq<char>) -> Seq<char> {
    let p1 = next_slash(url, 0);
    let p2 = next_slash(url, p1 + 1);
    if p2 >= url.len() {
        url
    } else {
        url.subrange(p2 + 1, next_slash(url, p2 + 1))
    }
}

/// `s` without its leading dots.
pub open spec fn strip_dots(s: Seq<char>) -> Seq<char> {
    s.subrange(next_non_dot(s, 0), s.len() as int)
}

/// `s` with the first occurrence of `p` cut out; `s` itself when `p` does not occur.
pub open spec fn remove_first(s: Seq<char>, p: Seq<char>) -> Seq<char> {
    match first_occurrence(s, p, 0) {
        Some(i) => s.subrange(0, i) + s.subrange(i + p.len(), s.len() as int),
        None => s,
    }
}

proof fn lemma_next_slash_bounds(s: Seq<char>, from: int)
    requires
        0 <= from <= s.len(),
    ensures
        from <= next_slash(s, from) <= s.len(),
    decreases s.len() - from,
{
    if from < s.len() && s[from] != '/' {
        lemma_next_slash_bounds(s, from + 1);
    }
}

proof fn lemma_next_non_dot_bounds(s: Seq<char>, from: int)
    requires
        0 <= from <= s.len(),
    ensures
        from <= next_non_dot(s, from) <= s.len(),
    decreases s.len() - from,
{
    if from < s.len() && s[from] == '.' {
        lemma_next_non_dot_bounds(s, from + 1);
    }
}

proof fn lemma_first_occurrence_found(s: Seq<char>, p: Seq<char>, from: int)
    ensures
        first_occurrence(s, p, from) matches Some(i) ==> from <= i && occurs_at(s, p, i),
    decreases s.len() + 1 - from,
{
    if !(from < 0 || from + p.len() > s.len()) && !occurs_at(s, p, from) {
        lemma_first_occurrence_found(s, p, from + 1);
    }
}

/// The prefix that normalization removes.
pub open spec fn www() -> Seq<char> {
    seq!['w', 'w', 'w', '.']
}

/// The domain of `url` before lower-casing.
pub open spec fn domain_base(url: Seq<char>) -> Seq<char> {
    remove_first(strip_dots(authority(url)), www())
}

/// What `str::to_lowercase` returns for `s`.
pub uninterp spec fn lower_of(s: Seq<char>) -> Seq<char>;

/// The domain key that visits to `url` are counted under.
pub open spec fn domain_key(url: Seq<char>) -> Seq<char> {
    lower_of(domain_base(url))
}

proof fn lemma_no_slash(s: Seq<char>, from: int)
    requires
        0 <= from <= s.len(),
        !s.contains('/'),
    ensures
        next_slash(s, from) == s.len(),
    decreases s.len() - from,
{
    if from < s.len() {
        assert(s[from] != '/');
        lemma_no_slash(s, from + 1);
    }
}

proof fn lemma_dot_shift(h: Seq<char>, k: int)
    requires
        0 <= k <= h.len(),
    ensures
        next_non_dot(seq!['.'] + h, k + 1) == next_non_dot(h, k) + 1,
    decreases h.len() - k,
{
    let s = seq!['.'] + h;
    if k < h.len() {
        assert(s[k + 1] == h[k]);
        if h[k] == '.' {
            lemma_dot_shift(h, k + 1);
        }
    }
}

proof fn lemma_slash_at(s: Seq<char>, from: int, to: int)
    requires
        0 <= from <= to <= s.len(),
        forall|j: int| from <= j < to ==> s[j] != '/',
        to == s.len() || s[to] == '/',
    ensures
        next_slash(s, from) == to,
    decreases to - from,
{
    if from < to {
        lemma_slash_at(s, from + 1, to);
    }
}

/// The key of `scheme://host` followed by a path depends on `host` alone:
/// it is the key of the bare host.
pub proof fn lemma_key_of_url(scheme: Seq<char>, host: Seq<char>, path: Seq<char>)
    requires
        !scheme.contains('/'),
        !host.contains('/'),
        path.len() == 0 || path[0] == '/',
    ensures
        domain_key(scheme + seq!['/', '/'] + host + path) == domain_key(host),
{
    let url = scheme + seq!['/', '/'] + host + path;
    let n = scheme.len() as int;
    assert forall|j: int| 0 <= j < n implies url[j] != '/' by {
        assert(url[j] == scheme[j]);
    }
    assert forall|j: int| n + 2 <= j < n + 2 + host.len() implies url[j] != '/' by {
        assert(url[j] == host[j - n - 2]);
    }
    assert(url[n] == '/');
    assert(url[n + 1] == '/');
    lemma_slash_at(url, 0, n);
    lemma_slash_at(url, n + 1, n + 1);
    if path.len() > 0 {
        assert(url[n + 2 + host.len()] == path[0]);
    }
    lemma_slash_at(url, n + 2, n + 2 + host.len());
    assert(authority(url) =~= host);
    lemma_bare_authority(host);
}

/// A bare host with no `/` is its own authority segment.
proof fn lemma_bare_authority(host: Seq<char>)
    requires
        !host.contains('/'),
    ensures
        authority(host) == host,
{
    lemma_no_slash(host, 0);
}

/// A leading dot does not change the key of a bare host (one without `/`).
pub proof fn lemma_key_ignores_leading_dot(host: Seq<char>)
    requires
        !host.contains('/'),
    ensures
        domain_key(seq!['.'] + host) == domain_key(host),
{
    let s = seq!['.'] + host;
    assert(!s.contains('/')) by {
        if s.contains('/') {
            let i = choose|i: int| 0 <= i < s.len() && s[i] == '/';
            assert(host[i - 1] == '/');
        }
    }
    lemma_bare_authority(host);
    lemma_bare_authority(s);
    lemma_dot_shift(host, 0);
    lemma_next_non_dot_bounds(host, 0);
    assert(strip_dots(s) =~= strip_dots(host));
}

/// A `www.` in front of a bare host does not change its key, when the host
/// has no `/`, no leading dot and no other `www.`.
pub proof fn lemma_key_ignores_www(host: Seq<char>)
    requires
        !host.contains('/'),
        !contains_seq(host, www()),
        host.len() == 0 || host[0] != '.',
    ensures
        domain_key(www() + host) == domain_key(host),
{
    let s = www() + host;
    assert(!s.contains('/')) by {
        if s.contains('/') {
            let i = choose|i: int| 0 <= i < s.len() && s[i] == '/';
            if i >= 4 {
                assert(host[i - 4] == '/');
            }
        }
    }
    lemma_bare_authority(host);
    lemma_bare_authority(s);
    assert(strip_dots(s) =~= s);
    assert(strip_dots(host) =~= host);
    assert(s.subrange(0, 4) =~= www());
    assert(occurs_at(s, www(), 0));
    assert(remove_first(s, www()) =~= host);
    lemma_first_occurrence_found(host, www(), 0);
    assert(remove_first(host, www()) == host);
}

/// Relies on `str::to_lowercase`: the Unicode lower-case mapping, which
/// depends on the characters of `s` alone.
#[verifier::external_body]
fn lowercase(s: &str) -> (r: String)
    ensures
        r@ == lower_of(s@),
{
    s.to_lowercase()
}

/// The characters of `s`, one by one.
fn chars_of(s: &str) -> (r: Vec<char>)
    ensures
        r@ == s@,
{
    let n = s.unicode_len();
    let mut r: Vec<char> = Vec::new();
    let mut i: usize = 0;
    while i < n
        invariant
            n == s@.len(),
            i <= n,
            r@ == s@.subrange(0, i as int),
        decreases n - i,
    {
        r.push(s.get_char(i));
        i = i + 1;
    }
    assert(r@ =~= s@);
    r
}

/// Index of the first `/` in `s` at or after `from`.
fn find_slash(s: &Vec<char>, from: usize) -> (r: usize)
    requires
        from <= s@.len(),
    ensures
        r as int == next_slash(s@, from as int),
{
    let mut i = from;
    while i < s.len() && s[i] != '/'
        invariant
            from <= i <= s@.len(),
            next_slash(s@, i as int) == next_slash(s@, from as int),
        decreases s@.len() - i,
    {
        i = i + 1;
    }
    i
}

/// Index of the first non-dot in `s` at or after `from`.
fn find_non_dot(s: &Vec<char>, from: usize) -> (r: usize)
    requires
        from <= s@.len(),
    ensures
        r as int == next_non_dot(s@, from as int),
{
    let mut i = from;
    while i < s.len() && s[i] == '.'
        invariant
            from <= i <= s@.len(),
            next_non_dot(s@, i as int) == next_non_dot(s@, from as int),
        decreases s@.len() - i,
    {
        i = i + 1;
    }
    i
}

/// Whether `p` occurs in `s` at index `i`.
fn matches_at(s: &Vec<char>, p: &Vec<char>, i: usize) -> (r: bool)
    ensures
        r == occurs_at(s@, p@, i as int),
{
    if i > s.len() || p.len() > s.len() - i {
        return false;
    }
    let mut k: usize = 0;
    while k < p.len()
        invariant
            i + p@.len() <= s@.len(),
            k <= p@.len(),
            forall|j: int| 0 <= j < k ==> s@[i + j] == p@[j],
        decreases p@.len() - k,
    {
        assert(i + k < s.len());
        if s[i + k] != p[k] {
            assert(s@.subrange(i as int, i + p@.len())[k as int] != p@[k as int]);
            return false;
        }
        k = k + 1;
    }
    assert(s@.subrange(i as int, i + p@.len()) =~= p@);
    true
}

/// The first index where `p` occurs in `s`, if any.
fn find_first(s: &Vec<char>, p: &Vec<char>) -> (r: Option<usize>)
    ensures
        r matches Some(i) ==> first_occurrence(s@, p@, 0) == Some(i as int),
        r is None ==> first_occurrence(s@, p@, 0) is None,
{
    if p.len() > s.len() {
        return None;
    }
    if p.len() == 0 {
        assert(s@.subrange(0, 0) =~= p@);
        return Some(0);
    }
    let last = s.len() - p.len();
    let mut i: usize = 0;
    while i <= last
        invariant
            last + p@.len() == s@.len(),
            p@.len() >= 1,
            last < s.len(),
            i <= last + 1,
            first_occurrence(s@, p@, i as int) == first_occurrence(s@, p@, 0),
        decreases last + 1 - i,
    {
        if matches_at(s, p, i) {
            return Some(i);
        }
        i = i + 1;
    }
    None
}

/// Whether `p` occurs anywhere in `s`.
pub fn contains_chars(s: &str, p: &str) -> (r: bool)
    ensures
        r == contains_seq(s@, p@),
{
    let sc = chars_of(s);
    let pc = chars_of(p);
    if pc.len() > sc.len() {
        return false;
    }
    if pc.len() == 0 {
        assert(s@.subrange(0, 0) =~= p@);
        assert(occurs_at(s@, p@, 0));
        return true;
    }
    let last = sc.len() - pc.len();
    let mut i: usize = 0;
    while i <= last
        invariant
            last + pc@.len() == sc@.len(),
            pc@.len() >= 1,
            last < sc.len(),
            i <= last + 1,
            sc@ == s@,
            pc@ == p@,
            forall|j: int| 0 <= j < i ==> !occurs_at(s@, p@, j),
        decreases last + 1 - i,
    {
        if matches_at(&sc, &pc, i) {
            return true;
        }
        i = i + 1;
    }
    false
}

/// The `/`-segment at index 2 of `url`, or `url` when there is none.
pub fn authority_of(url: &str) -> (r: &str)
    ensures
        r@ == authority(url@),
{
    let c = chars_of(url);
    let p1 = find_slash(&c, 0);
    let p2 = if p1 < c.len() {
        find_slash(&c, p1 + 1)
    } else {
        c.len()
    };
    proof {
        lemma_next_slash_bounds(c@, 0);
        if p1 < c@.len() {
            lemma_next_slash_bounds(c@, p1 + 1);
        }
    }
    if p2 >= c.len() {
        url
    } else {
        proof {
            lemma_next_slash_bounds(c@, p2 + 1);
        }
        let p3 = find_slash(&c, p2 + 1);
        url.substring_char(p2 + 1, p3)
    }
}

/// `s` without its leading dots.
pub fn trim_leading_dots(s: &str) -> (r: &str)
    ensures
        r@ == strip_dots(s@),
{
    let c = chars_of(s);
    let k = find_non_dot(&c, 0);
    proof {
        lemma_next_non_dot_bounds(c@, 0);
    }
    s.substring_char(k, c.len())
}

/// `s` with the first occurrence of `www.` cut out.
pub fn remove_first_www(s: &str) -> (r: String)
    ensures
        r@ == remove_first(s@, www()),
{
    let c = chars_of(s);
    let p: Vec<char> = vec!['w', 'w', 'w', '.'];
    assert(p@ =~= www());
    proof {
        lemma_first_occurrence_found(c@, p@, 0);
    }
    match find_first(&c, &p) {
        Some(i) => {
            assert(i + 4 <= c.len());
            let head = String::from_str(s.substring_char(0, i));
            head.concat(s.substring_char(i + 4, c.len()))
        },
        None => String::from_str(s),
    }
}

/// The domain of `url` before lower-casing: its authority segment with
/// leading dots and the first `www.` removed.
pub fn base_domain(url: &str) -> (r: String)
    ensures
        r@ == domain_base(url@),
{
    let a = authority_of(url);
    let t = trim_leading_dots(a);
    remove_first_www(t)
}

/// The domain key of `url`: [`base_domain`], lower-cased.
pub fn normalize(url: &str) -> (r: String)
    ensures
        r@ == domain_key(url@),
{
    let b = base_domain(url);
    lowercase(b.as_str())
}

} // verus!
