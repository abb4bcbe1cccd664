use vstd::prelude::*;
use vstd::string::*;

use crate::error::ParseError;
use crate::text::{char_is_ws, find_char, is_ws, trim_end, trim_end_len};

verus! {

/// `a`, then the separator `c`, then `b`.
pub open spec fn joined(a: Seq<char>, c: char, b: Seq<char>) -> Seq<char> {
    a + seq![c] + b
}

/// No character of `s` is `c`.
pub open spec fn lacks(s: Seq<char>, c: char) -> bool {
    forall|i: int| 0 <= i < s.len() ==> s[i] != c
}

/// A character that may stand in a host, an owner or a repository name.
pub open spec fn seg_char(c: char) -> bool {
    c != '/' && c != ':' && c != '@' && !is_ws(c)
}

/// A character that may stand in the credentials before `@`.
pub open spec fn user_char(c: char) -> bool {
    c != '/' && c != '@' && !is_ws(c)
}

pub open spec fn is_segment(s: Seq<char>) -> bool {
    s.len() > 0 && forall|i: int| 0 <= i < s.len() ==> seg_char(#[trigger] s[i])
}

pub open spec fn is_user(s: Seq<char>) -> bool {
    s.len() > 0 && forall|i: int| 0 <= i < s.len() ==> user_char(#[trigger] s[i])
}

pub open spec fn git_suffix() -> Seq<char> {
    seq!['.', 'g', 'i', 't']
}

pub open spec fn ends_with_git(s: Seq<char>) -> bool {
    s.len() >= 4 && s.subrange(s.len() - 4, s.len() as int) == git_suffix()
}

/// `s` without one trailing `.git`.
pub open spec fn strip_git(s: Seq<char>) -> Seq<char> {
    if ends_with_git(s) {
        s.subrange(0, s.len() - 4)
    } else {
        s
    }
}

/// What is matched of a raw remote URL: trailing white space and then one
/// `.git` suffix are cut off.
pub open spec fn stripped(raw: Seq<char>) -> Seq<char> {
    strip_git(trim_end(raw))
}

/// A repository name: a segment that does not itself end in `.git`.
pub open spec fn is_repo(s: Seq<char>) -> bool {
    is_segment(s) && !ends_with_git(s)
}

pub open spec fn parts_ok(h: Seq<char>, o: Seq<char>, r: Seq<char>) -> bool {
    is_segment(h) && is_segment(o) && is_repo(r)
}

pub open spec fn ssh_prefix() -> Seq<char> {
    seq!['g', 'i', 't', '@']
}

pub open spec fn https_prefix() -> Seq<char> {
    seq!['h', 't', 't', 'p', 's', ':', '/', '/']
}

/// `H/O/R`
pub open spec fn host_path(h: Seq<char>, o: Seq<char>, r: Seq<char>) -> Seq<char> {
    joined(h, '/', joined(o, '/', r))
}

/// `git@H:O/R`
pub open spec fn ssh_form(h: Seq<char>, o: Seq<char>, r: Seq<char>) -> Seq<char> {
    ssh_prefix() + joined(h, ':', joined(o, '/', r))
}

/// `https://H/O/R`, which is also the canonical web address of the repository.
pub open spec fn https_form(h: Seq<char>, o: Seq<char>, r: Seq<char>) -> Seq<char> {
    https_prefix() + host_path(h, o, r)
}

/// `https://U@H/O/R`
pub open spec fn https_user_form(u: Seq<char>, h: Seq<char>, o: Seq<char>, r: Seq<char>) -> Seq<
    char,
> {
    https_prefix() + joined(u, '@', host_path(h, o, r))
}

/// `t` is one of the recognized forms, for host `h`, owner `o` and repository `r`.
pub open spec fn names_repo(t: Seq<char>, h: Seq<char>, o: Seq<char>, r: Seq<char>) -> bool {
    &&& parts_ok(h, o, r)
    &&& (t == ssh_form(h, o, r) || t == https_form(h, o, r) || exists|u: Seq<char>|
        is_user(u) && t == https_user_form(u, h, o, r))
}

pub open spec fn recognized(raw: Seq<char>) -> bool {
    exists|p: (Seq<char>, Seq<char>, Seq<char>)| names_repo(stripped(raw), p.0, p.1, p.2)
}

/// The canonical address for a recognized raw remote URL.
pub open spec fn normalized(raw: Seq<char>) -> Seq<char>
    recommends
        recognized(raw),
{
    let p = choose|p: (Seq<char>, Seq<char>, Seq<char>)| names_repo(stripped(raw), p.0, p.1, p.2);
    https_form(p.0, p.1, p.2)
}

proof fn lemma_first_sep(x: Seq<char>, a: Seq<char>, c: char, b: Seq<char>, k: int)
    requires
        x == joined(a, c, b),
        lacks(a, c),
        0 <= k < x.len(),
        x[k] == c,
        forall|i: int| 0 <= i < k ==> x[i] != c,
    ensures
        k == a.len(),
        x.subrange(0, k) == a,
        x.subrange(k + 1, x.len() as int) == b,
{
    assert(x[a.len() as int] == c);
    if k < a.len() {
        assert(x[k] == a[k]);
    }
    assert(x.subrange(0, k) =~= a);
    assert(x.subrange(k + 1, x.len() as int) =~= b);
}

proof fn lemma_split_unique(a: Seq<char>, c: char, b: Seq<char>, a2: Seq<char>, b2: Seq<char>)
    requires
        joined(a, c, b) == joined(a2, c, b2),
        lacks(a, c),
        lacks(a2, c),
    ensures
        a == a2,
        b == b2,
{
    let x = joined(a, c, b);
    assert(x[a.len() as int] == c);
    assert(x[a2.len() as int] == c);
    if a.len() < a2.len() {
        assert(x[a.len() as int] == a2[a.len() as int]);
    } else if a2.len() < a.len() {
        assert(x[a2.len() as int] == a[a2.len() as int]);
    }
    lemma_first_sep(x, a, c, b, a.len() as int);
    lemma_first_sep(x, a2, c, b2, a2.len() as int);
}

proof fn lemma_prefix_rest(p: Seq<char>, y: Seq<char>)
    ensures
        (p + y).subrange(p.len() as int, (p + y).len() as int) == y,
{
    assert((p + y).subrange(p.len() as int, (p + y).len() as int) =~= y);
}

proof fn lemma_drop_prefix(p: Seq<char>, x: Seq<char>, y: Seq<char>)
    requires
        p + x == p + y,
    ensures
        x == y,
{
    assert(x =~= (p + x).subrange(p.len() as int, (p + x).len() as int));
    assert(y =~= (p + y).subrange(p.len() as int, (p + y).len() as int));
}

proof fn lemma_host_path_lacks_at(h: Seq<char>, o: Seq<char>, r: Seq<char>)
    requires
        parts_ok(h, o, r),
    ensures
        lacks(host_path(h, o, r), '@'),
{
    let x = host_path(h, o, r);
    assert forall|i: int| 0 <= i < x.len() implies x[i] != '@' by {
        if i < h.len() {
            assert(seg_char(h[i]));
        } else if i > h.len() {
            let j = i - h.len() - 1;
            if j < o.len() {
                assert(seg_char(o[j]));
            } else if j > o.len() {
                assert(seg_char(r[j - o.len() - 1]));
            }
        }
    }
}

proof fn lemma_segment_lacks(s: Seq<char>)
    requires
        is_segment(s),
    ensures
        lacks(s, '/'),
        lacks(s, ':'),
        lacks(s, '@'),
{
    assert forall|i: int| 0 <= i < s.len() implies s[i] != '/' && s[i] != ':' && s[i] != '@' by {
        assert(seg_char(s[i]));
    }
}

proof fn lemma_user_lacks(s: Seq<char>)
    requires
        is_user(s),
    ensures
        lacks(s, '@'),
{
    assert forall|i: int| 0 <= i < s.len() implies s[i] != '@' by {
        assert(user_char(s[i]));
    }
}

proof fn lemma_host_path_unique(
    h: Seq<char>,
    o: Seq<char>,
    r: Seq<char>,
    h2: Seq<char>,
    o2: Seq<char>,
    r2: Seq<char>,
)
    requires
        parts_ok(h, o, r),
        parts_ok(h2, o2, r2),
        host_path(h, o, r) == host_path(h2, o2, r2),
    ensures
        h == h2 && o == o2 && r == r2,
{
    lemma_segment_lacks(h);
    lemma_segment_lacks(h2);
    lemma_segment_lacks(o);
    lemma_segment_lacks(o2);
    lemma_split_unique(h, '/', joined(o, '/', r), h2, joined(o2, '/', r2));
    lemma_split_unique(o, '/', r, o2, r2);
}

/// A remote URL names at most one host, owner and repository.
pub proof fn lemma_names_repo_unique(
    t: Seq<char>,
    h: Seq<char>,
    o: Seq<char>,
    r: Seq<char>,
    h2: Seq<char>,
    o2: Seq<char>,
    r2: Seq<char>,
)
    requires
        names_repo(t, h, o, r),
        names_repo(t, h2, o2, r2),
    ensures
        h == h2 && o == o2 && r == r2,
{
    lemma_segment_lacks(h);
    lemma_segment_lacks(h2);
    lemma_segment_lacks(o);
    lemma_segment_lacks(o2);
    lemma_host_path_lacks_at(h, o, r);
    lemma_host_path_lacks_at(h2, o2, r2);
    if t == ssh_form(h, o, r) {
        assert(t[0] == 'g');
        if t == ssh_form(h2, o2, r2) {
            lemma_drop_prefix(ssh_prefix(), joined(h, ':', joined(o, '/', r)), joined(h2, ':', joined(o2, '/', r2)));
            lemma_split_unique(h, ':', joined(o, '/', r), h2, joined(o2, '/', r2));
            lemma_split_unique(o, '/', r, o2, r2);
        } else {
            assert(t[0] == 'h');
        }
    } else {
        assert(t[0] == 'h');
        if t == ssh_form(h2, o2, r2) {
            assert(t[0] == 'g');
        }
        let hp = host_path(h, o, r);
        let hp2 = host_path(h2, o2, r2);
        if t == https_form(h, o, r) {
            if t == https_form(h2, o2, r2) {
                lemma_drop_prefix(https_prefix(), hp, hp2);
            } else {
                let u2 = choose|u: Seq<char>| is_user(u) && t == https_user_form(u, h2, o2, r2);
                lemma_drop_prefix(https_prefix(), hp, joined(u2, '@', hp2));
                assert(joined(u2, '@', hp2)[u2.len() as int] == '@');
            }
        } else {
            let u = choose|u: Seq<char>| is_user(u) && t == https_user_form(u, h, o, r);
            lemma_user_lacks(u);
            if t == https_form(h2, o2, r2) {
                lemma_drop_prefix(https_prefix(), hp2, joined(u, '@', hp));
                assert(joined(u, '@', hp)[u.len() as int] == '@');
            } else {
                let u2 = choose|u: Seq<char>| is_user(u) && t == https_user_form(u, h2, o2, r2);
                lemma_user_lacks(u2);
                lemma_drop_prefix(https_prefix(), joined(u, '@', hp), joined(u2, '@', hp2));
                lemma_split_unique(u, '@', hp, u2, hp2);
            }
        }
        lemma_host_path_unique(h, o, r, h2, o2, r2);
    }
}


/// `A`, the separator `c`, then `B/C`.
pub open spec fn three(a: Seq<char>, c: char, b: Seq<char>, d: Seq<char>) -> Seq<char> {
    joined(a, c, joined(b, '/', d))
}

proof fn lemma_three_shape(
    s: Seq<char>,
    start: int,
    end: int,
    c: char,
    h: Seq<char>,
    o: Seq<char>,
    r: Seq<char>,
)
    requires
        0 <= start <= end <= s.len(),
        c == ':' || c == '/',
        parts_ok(h, o, r),
        s.subrange(start, end) == three(h, c, o, r),
    ensures
        ({
            let k = start + h.len();
            let m = k + 1 + o.len();
            &&& m < end
            &&& s[k] == c
            &&& forall|i: int| start <= i < k ==> s[i] != c
            &&& s[m] == '/'
            &&& forall|i: int| k + 1 <= i < m ==> s[i] != '/'
            &&& s.subrange(start, k) == h
            &&& s.subrange(k + 1, m) == o
            &&& s.subrange(m + 1, end) == r
        }),
{
    let x = s.subrange(start, end);
    let k = start + h.len();
    let m = k + 1 + o.len();
    lemma_segment_lacks(h);
    lemma_segment_lacks(o);
    assert(x.len() == h.len() + 1 + o.len() + 1 + r.len());
    assert(x[h.len() as int] == c);
    assert(x[(h.len() + 1 + o.len()) as int] == '/');
    assert forall|i: int| start <= i < k implies s[i] != c by {
        assert(s[i] == x[i - start]);
        assert(x[i - start] == h[i - start]);
    }
    assert forall|i: int| k + 1 <= i < m implies s[i] != '/' by {
        assert(s[i] == x[i - start]);
        assert(x[i - start] == o[i - k - 1]);
    }
    assert(s.subrange(start, k) =~= h) by {
        assert forall|j: int| 0 <= j < h.len() implies s.subrange(start, k)[j] == h[j] by {
            assert(x[j] == h[j]);
        }
    }
    assert(s.subrange(k + 1, m) =~= o) by {
        assert forall|j: int| 0 <= j < o.len() implies s.subrange(k + 1, m)[j] == o[j] by {
            assert(x[h.len() + 1 + j] == o[j]);
        }
    }
    assert(s.subrange(m + 1, end) =~= r) by {
        assert forall|j: int| 0 <= j < r.len() implies s.subrange(m + 1, end)[j] == r[j] by {
            assert(x[h.len() + 1 + o.len() + 1 + j] == r[j]);
        }
    }
}

/// Whether the characters of `s` from `from` up to `to` form a segment.
fn segment_at(s: &str, from: usize, to: usize) -> (b: bool)
    requires
        from <= to <= s@.len(),
    ensures
        b == is_segment(s@.subrange(from as int, to as int)),
{
    if from == to {
        return false;
    }
    let mut i = from;
    while i < to
        invariant
            from <= i <= to <= s@.len(),
            forall|j: int| from <= j < i ==> seg_char(#[trigger] s@[j]),
        decreases to - i,
    {
        let c = s.get_char(i);
        if c == '/' || c == ':' || c == '@' || char_is_ws(c) {
            assert(s@.subrange(from as int, to as int)[i - from] == c);
            return false;
        }
        i = i + 1;
    }
    assert forall|j: int| 0 <= j < to - from implies seg_char(
        #[trigger] s@.subrange(from as int, to as int)[j],
    ) by {
        assert(s@.subrange(from as int, to as int)[j] == s@[from + j]);
    }
    true
}

/// Whether the characters of `s` from `from` up to `to` form credentials.
fn user_at(s: &str, from: usize, to: usize) -> (b: bool)
    requires
        from <= to <= s@.len(),
    ensures
        b == is_user(s@.subrange(from as int, to as int)),
{
    if from == to {
        return false;
    }
    let mut i = from;
    while i < to
        invariant
            from <= i <= to <= s@.len(),
            forall|j: int| from <= j < i ==> user_char(#[trigger] s@[j]),
        decreases to - i,
    {
        let c = s.get_char(i);
        if c == '/' || c == '@' || char_is_ws(c) {
            assert(s@.subrange(from as int, to as int)[i - from] == c);
            return false;
        }
        i = i + 1;
    }
    assert forall|j: int| 0 <= j < to - from implies user_char(
        #[trigger] s@.subrange(from as int, to as int)[j],
    ) by {
        assert(s@.subrange(from as int, to as int)[j] == s@[from + j]);
    }
    true
}

/// Whether the characters of `s` from `from` up to `to` end in `.git`.
fn git_suffix_at(s: &str, from: usize, to: usize) -> (b: bool)
    requires
        from <= to <= s@.len(),
    ensures
        b == ends_with_git(s@.subrange(from as int, to as int)),
{
    let ghost x = s@.subrange(from as int, to as int);
    if to - from < 4 {
        return false;
    }
    let b = s.get_char(to - 4) == '.' && s.get_char(to - 3) == 'g' && s.get_char(to - 2) == 'i'
        && s.get_char(to - 1) == 't';
    assert(x.subrange(x.len() - 4, x.len() as int) =~= s@.subrange(to - 4, to as int));
    if b {
        assert(s@.subrange(to - 4, to as int) =~= git_suffix());
    } else {
        assert(s@.subrange(to - 4, to as int) != git_suffix()) by {
            if s@.subrange(to - 4, to as int) == git_suffix() {
                assert(s@.subrange(to - 4, to as int)[0] == '.');
                assert(s@.subrange(to - 4, to as int)[1] == 'g');
                assert(s@.subrange(to - 4, to as int)[2] == 'i');
                assert(s@.subrange(to - 4, to as int)[3] == 't');
            }
        }
    }
    b
}

/// Splits the characters of `s` from `start` up to `end` as `A`, `c`, `B/C`,
/// with `A`, `B` segments and `C` a repository name.
fn split_three(s: &str, start: usize, end: usize, c: char) -> (res: Option<(usize, usize)>)
    requires
        start <= end <= s@.len(),
        c == ':' || c == '/',
    ensures
        match res {
            Some((k, m)) => {
                let a = s@.subrange(start as int, k as int);
                let b = s@.subrange(k + 1, m as int);
                let d = s@.subrange(m + 1, end as int);
                &&& start <= k < m < end
                &&& parts_ok(a, b, d)
                &&& s@.subrange(start as int, end as int) == three(a, c, b, d)
            },
            None => forall|a: Seq<char>, b: Seq<char>, d: Seq<char>|
                parts_ok(a, b, d) ==> s@.subrange(start as int, end as int) != three(a, c, b, d),
        },
{
    let k = match find_char(s, c, start, end) {
        Some(k) => k,
        None => {
            proof {
                assert forall|a: Seq<char>, b: Seq<char>, d: Seq<char>|
                    parts_ok(a, b, d) implies s@.subrange(start as int, end as int) != three(
                    a,
                    c,
                    b,
                    d,
                ) by {
                    if s@.subrange(start as int, end as int) == three(a, c, b, d) {
                        lemma_three_shape(s@, start as int, end as int, c, a, b, d);
                    }
                }
            }
            return None;
        },
    };
    let m = match find_char(s, '/', k + 1, end) {
        Some(m) => m,
        None => {
            proof {
                assert forall|a: Seq<char>, b: Seq<char>, d: Seq<char>|
                    parts_ok(a, b, d) implies s@.subrange(start as int, end as int) != three(
                    a,
                    c,
                    b,
                    d,
                ) by {
                    if s@.subrange(start as int, end as int) == three(a, c, b, d) {
                        lemma_three_shape(s@, start as int, end as int, c, a, b, d);
                    }
                }
            }
            return None;
        },
    };
    if segment_at(s, start, k) && segment_at(s, k + 1, m) && segment_at(s, m + 1, end)
        && !git_suffix_at(s, m + 1, end) {
        let ghost a = s@.subrange(start as int, k as int);
        let ghost b = s@.subrange(k + 1, m as int);
        let ghost d = s@.subrange(m + 1, end as int);
        assert(s@.subrange(start as int, end as int) =~= three(a, c, b, d));
        Some((k, m))
    } else {
        proof {
            assert forall|a: Seq<char>, b: Seq<char>, d: Seq<char>|
                parts_ok(a, b, d) implies s@.subrange(start as int, end as int) != three(
                a,
                c,
                b,
                d,
            ) by {
                if s@.subrange(start as int, end as int) == three(a, c, b, d) {
                    lemma_three_shape(s@, start as int, end as int, c, a, b, d);
                }
            }
        }
        None
    }
}

/// Once a remote URL names a host, an owner and a repository, its canonical
/// address is `https://` followed by them.
pub proof fn lemma_normalized_is(raw: Seq<char>, h: Seq<char>, o: Seq<char>, r: Seq<char>)
    requires
        names_repo(stripped(raw), h, o, r),
    ensures
        recognized(raw),
        normalized(raw) == https_form(h, o, r),
{
    let w = (h, o, r);
    assert(names_repo(stripped(raw), w.0, w.1, w.2));
    let p = choose|p: (Seq<char>, Seq<char>, Seq<char>)| names_repo(stripped(raw), p.0, p.1, p.2);
    lemma_names_repo_unique(stripped(raw), h, o, r, p.0, p.1, p.2);
}

/// `https://` followed by the characters of `s` from `from` to `to`.
fn https_address(s: &str, from: usize, to: usize) -> (u: String)
    requires
        from <= to <= s@.len(),
    ensures
        u@ == https_prefix() + s@.subrange(from as int, to as int),
{
    let mut u = String::from_str("https://");
    proof {
        reveal_strlit("https://");
    }
    assert(u@ =~= https_prefix());
    u.append(s.substring_char(from, to));
    u
}

/// `normalize` for text that starts with `git@`.
fn normalize_ssh(raw: &str, end: usize) -> (res: Result<String, ParseError>)
    requires
        4 <= end <= raw@.len(),
        raw@.subrange(0, end as int) == stripped(raw@),
        raw@[0] == 'g' && raw@[1] == 'i' && raw@[2] == 't' && raw@[3] == '@',
    ensures
        match res {
            Ok(u) => recognized(raw@) && u@ == normalized(raw@),
            Err(e) => !recognized(raw@) && e == ParseError::UnrecognizedFormat,
        },
{
    let ghost t = raw@.subrange(0, end as int);
    assert(t.subrange(0, 4) =~= ssh_prefix());
    match split_three(raw, 4, end, ':') {
        Some((k, m)) => {
            let ghost h = raw@.subrange(4, k as int);
            let ghost o = raw@.subrange(k + 1, m as int);
            let ghost r = raw@.subrange(m + 1, end as int);
            let mut u = https_address(raw, 4, k);
            u.append("/");
            u.append(raw.substring_char(k + 1, end));
            proof {
                reveal_strlit("/");
                let x = raw@.subrange(4, end as int);
                assert(t =~= ssh_prefix() + x);
                assert(x =~= three(h, ':', o, r));
                assert(x.subrange(h.len() + 1int, x.len() as int) =~= joined(o, '/', r));
                assert(raw@.subrange(k + 1, end as int) =~= x.subrange(h.len() + 1int, x.len() as int));
                assert(u@ =~= https_form(h, o, r));
                assert(names_repo(t, h, o, r));
                lemma_normalized_is(raw@, h, o, r);
            }
            Ok(u)
        },
        None => {
            proof {
                if recognized(raw@) {
                    let p = choose|p: (Seq<char>, Seq<char>, Seq<char>)|
                        names_repo(t, p.0, p.1, p.2);
                    assert(t[0] == 'g');
                    assert(t == ssh_form(p.0, p.1, p.2));
                    assert(raw@.subrange(4, end as int) =~= t.subrange(4, end as int));
                    assert(ssh_prefix().len() == 4);
                    lemma_prefix_rest(ssh_prefix(), three(p.0, ':', p.1, p.2));
                }
            }
            Err(ParseError::UnrecognizedFormat)
        },
    }
}

/// `normalize` for text that starts with `https://`.
fn normalize_https(raw: &str, end: usize) -> (res: Result<String, ParseError>)
    requires
        8 <= end <= raw@.len(),
        raw@.subrange(0, end as int) == stripped(raw@),
        raw@[0] == 'h' && raw@[1] == 't' && raw@[2] == 't' && raw@[3] == 'p',
        raw@[4] == 's' && raw@[5] == ':' && raw@[6] == '/' && raw@[7] == '/',
    ensures
        match res {
            Ok(u) => recognized(raw@) && u@ == normalized(raw@),
            Err(e) => !recognized(raw@) && e == ParseError::UnrecognizedFormat,
        },
{
    let ghost t = raw@.subrange(0, end as int);
    assert(t.subrange(0, 8) =~= https_prefix());
    let start = match find_char(raw, '@', 8, end) {
        Some(a) => {
            if !user_at(raw, 8, a) {
                proof {
                    if recognized(raw@) {
                        let p = choose|p: (Seq<char>, Seq<char>, Seq<char>)|
                            names_repo(t, p.0, p.1, p.2);
                        lemma_host_path_lacks_at(p.0, p.1, p.2);
                        assert(t[0] == 'h');
                        if t == https_form(p.0, p.1, p.2) {
                            let x = raw@.subrange(8, end as int);
                            assert(x =~= t.subrange(8, end as int));
                            assert(https_prefix().len() == 8);
                            lemma_prefix_rest(https_prefix(), host_path(p.0, p.1, p.2));
                            assert(x[a - 8] == '@');
                        } else {
                            let u = choose|u: Seq<char>|
                                is_user(u) && t == https_user_form(u, p.0, p.1, p.2);
                            lemma_user_lacks(u);
                            let x = raw@.subrange(8, end as int);
                            assert(x =~= t.subrange(8, end as int));
                            assert(https_prefix().len() == 8);
                            lemma_prefix_rest(https_prefix(), joined(u, '@', host_path(p.0, p.1, p.2)));
                            lemma_first_sep(x, u, '@', host_path(p.0, p.1, p.2), a - 8);
                            assert(raw@.subrange(8, a as int) =~= x.subrange(0, a - 8));
                        }
                    }
                }
                return Err(ParseError::UnrecognizedFormat);
            }
            a + 1
        },
        None => 8,
    };
    match split_three(raw, start, end, '/') {
        Some((k, m)) => {
            let ghost h = raw@.subrange(start as int, k as int);
            let ghost o = raw@.subrange(k + 1, m as int);
            let ghost r = raw@.subrange(m + 1, end as int);
            let u = https_address(raw, start, end);
            proof {
                assert(raw@.subrange(start as int, end as int) == host_path(h, o, r));
                if start == 8 {
                    assert(t =~= https_prefix() + raw@.subrange(8, end as int));
                } else {
                    let user = raw@.subrange(8, start - 1);
                    assert(t =~= https_prefix() + joined(user, '@', raw@.subrange(start as int, end as int)));
                    assert(t == https_user_form(user, h, o, r));
                }
                assert(names_repo(t, h, o, r));
                lemma_normalized_is(raw@, h, o, r);
            }
            Ok(u)
        },
        None => {
            proof {
                if recognized(raw@) {
                    let p = choose|p: (Seq<char>, Seq<char>, Seq<char>)|
                        names_repo(t, p.0, p.1, p.2);
                    lemma_host_path_lacks_at(p.0, p.1, p.2);
                    let hp = host_path(p.0, p.1, p.2);
                    assert(t[0] == 'h');
                    let x = raw@.subrange(8, end as int);
                    assert(x =~= t.subrange(8, end as int));
                    if t == https_form(p.0, p.1, p.2) {
                        assert(https_prefix().len() == 8);
                        lemma_prefix_rest(https_prefix(), hp);
                        if start != 8 {
                            assert(x[start - 9] == '@');
                        }
                        assert(raw@.subrange(start as int, end as int) =~= x);
                    } else {
                        let u = choose|u: Seq<char>|
                            is_user(u) && t == https_user_form(u, p.0, p.1, p.2);
                        lemma_user_lacks(u);
                        assert(https_prefix().len() == 8);
                        lemma_prefix_rest(https_prefix(), joined(u, '@', hp));
                        assert(x[u.len() as int] == '@');
                        lemma_first_sep(x, u, '@', hp, start - 9);
                        assert(raw@.subrange(start as int, end as int) =~= x.subrange(start - 8, x.len() as int));
                    }
                }
            }
            Err(ParseError::UnrecognizedFormat)
        },
    }
}

/// Turns the URL of a git remote, as git prints it, into the web address of
/// the repository: `git@H:O/R` and `https://[U@]H/O/R` both become
/// `https://H/O/R`. Trailing white space and then a trailing `.git` are
/// ignored; any other text is refused.
pub fn normalize(raw: &str) -> (res: Result<String, ParseError>)
    ensures
        match res {
            Ok(u) => recognized(raw@) && u@ == normalized(raw@),
            Err(e) => !recognized(raw@) && e == ParseError::UnrecognizedFormat,
        },
{
    let mut end = trim_end_len(raw);
    if git_suffix_at(raw, 0, end) {
        end = end - 4;
    }
    let ghost t = raw@.subrange(0, end as int);
    assert(t == stripped(raw@)) by {
        assert(raw@.subrange(0, end as int) =~= trim_end(raw@).subrange(0, end as int));
    }
    if end >= 4 && raw.get_char(0) == 'g' && raw.get_char(1) == 'i' && raw.get_char(2) == 't'
        && raw.get_char(3) == '@' {
        normalize_ssh(raw, end)
    } else if end >= 8 && raw.get_char(0) == 'h' && raw.get_char(1) == 't' && raw.get_char(2)
        == 't' && raw.get_char(3) == 'p' && raw.get_char(4) == 's' && raw.get_char(5) == ':'
        && raw.get_char(6) == '/' && raw.get_char(7) == '/' {
        normalize_https(raw, end)
    } else {
        proof {
            if recognized(raw@) {
                let p = choose|p: (Seq<char>, Seq<char>, Seq<char>)| names_repo(t, p.0, p.1, p.2);
                assert(ssh_prefix().len() == 4 && https_prefix().len() == 8);
                assert(forall|i: int| 0 <= i < end ==> t[i] == raw@[i]);
                if t == ssh_form(p.0, p.1, p.2) {
                    assert(t.len() >= 4);
                    assert(t[0] == 'g' && t[1] == 'i' && t[2] == 't' && t[3] == '@');
                } else if t == https_form(p.0, p.1, p.2) {
                    assert(t.len() >= 8);
                    assert(t[0] == 'h' && t[1] == 't' && t[2] == 't' && t[3] == 'p');
                    assert(t[4] == 's' && t[5] == ':' && t[6] == '/' && t[7] == '/');
                } else {
                    let u = choose|u: Seq<char>| is_user(u) && t == https_user_form(u, p.0, p.1, p.2);
                    assert(t.len() >= 8);
                    assert(t[0] == 'h' && t[1] == 't' && t[2] == 't' && t[3] == 'p');
                    assert(t[4] == 's' && t[5] == ':' && t[6] == '/' && t[7] == '/');
                }
            }
        }
        Err(ParseError::UnrecognizedFormat)
    }
}

proof fn lemma_ends_in_repo(a: Seq<char>, r: Seq<char>)
    requires
        is_repo(r),
        a.len() > 0,
        a.last() == '/',
    ensures
        stripped(a + r) == a + r,
{
    let x = a + r;
    assert(x.last() == r.last());
    assert(seg_char(r[r.len() - 1]));
    assert(trim_end(x) == x);
    if ends_with_git(x) {
        let tail = x.subrange(x.len() - 4, x.len() as int);
        if r.len() >= 4 {
            assert(tail =~= r.subrange(r.len() - 4, r.len() as int));
        } else {
            assert(tail[3 - r.len()] == '/');
            assert(git_suffix()[3 - r.len()] != '/');
        }
    }
}

proof fn lemma_git_suffix_stripped(f: Seq<char>)
    ensures
        stripped(f + git_suffix()) == f,
{
    let x = f + git_suffix();
    assert(x.last() == 't');
    assert(trim_end(x) == x);
    assert(x.subrange(x.len() - 4, x.len() as int) =~= git_suffix());
    assert(x.subrange(0, x.len() - 4) =~= f);
}

proof fn lemma_https_form_split(h: Seq<char>, o: Seq<char>, r: Seq<char>)
    ensures
        https_form(h, o, r) == (https_prefix() + h + seq!['/'] + o + seq!['/']) + r,
{
    assert(https_form(h, o, r) =~= (https_prefix() + h + seq!['/'] + o + seq!['/']) + r);
}

/// `git@H:O/R.git` stands for `https://H/O/R`.
pub proof fn lemma_ssh_url_normalizes(h: Seq<char>, o: Seq<char>, r: Seq<char>)
    requires
        parts_ok(h, o, r),
    ensures
        recognized(ssh_form(h, o, r) + git_suffix()),
        normalized(ssh_form(h, o, r) + git_suffix()) == https_form(h, o, r),
{
    lemma_git_suffix_stripped(ssh_form(h, o, r));
    lemma_normalized_is(ssh_form(h, o, r) + git_suffix(), h, o, r);
}

/// `https://H/O/R`, with or without `.git` after it, stands for
/// `https://H/O/R`.
pub proof fn lemma_https_url_normalizes(h: Seq<char>, o: Seq<char>, r: Seq<char>)
    requires
        parts_ok(h, o, r),
    ensures
        recognized(https_form(h, o, r)),
        normalized(https_form(h, o, r)) == https_form(h, o, r),
        recognized(https_form(h, o, r) + git_suffix()),
        normalized(https_form(h, o, r) + git_suffix()) == https_form(h, o, r),
{
    let a = https_prefix() + h + seq!['/'] + o + seq!['/'];
    lemma_https_form_split(h, o, r);
    lemma_ends_in_repo(a, r);
    lemma_normalized_is(https_form(h, o, r), h, o, r);
    lemma_git_suffix_stripped(https_form(h, o, r));
    lemma_normalized_is(https_form(h, o, r) + git_suffix(), h, o, r);
}

/// Normalizing a canonical address gives it back: normalizing twice is
/// normalizing once.
pub proof fn lemma_normalize_idempotent(raw: Seq<char>)
    requires
        recognized(raw),
    ensures
        recognized(normalized(raw)),
        normalized(normalized(raw)) == normalized(raw),
{
    let p = choose|p: (Seq<char>, Seq<char>, Seq<char>)| names_repo(stripped(raw), p.0, p.1, p.2);
    lemma_https_url_normalizes(p.0, p.1, p.2);
}

/// Text that, once stripped, starts with neither `git@` nor `https://` (an
/// empty string, an `ftp://` URL) is refused.
pub proof fn lemma_other_text_refused(raw: Seq<char>)
    requires
        !(stripped(raw).len() >= 4 && stripped(raw).subrange(0, 4) == ssh_prefix()),
        !(stripped(raw).len() >= 8 && stripped(raw).subrange(0, 8) == https_prefix()),
    ensures
        !recognized(raw),
{
    if recognized(raw) {
        let t = stripped(raw);
        let p = choose|p: (Seq<char>, Seq<char>, Seq<char>)| names_repo(t, p.0, p.1, p.2);
        if t == ssh_form(p.0, p.1, p.2) {
            assert(t.subrange(0, 4) =~= ssh_prefix());
        } else if t == https_form(p.0, p.1, p.2) {
            assert(t.subrange(0, 8) =~= https_prefix());
        } else {
            let u = choose|u: Seq<char>| is_user(u) && t == https_user_form(u, p.0, p.1, p.2);
            assert(t.subrange(0, 8) =~= https_prefix());
        }
    }
}

} // verus!
