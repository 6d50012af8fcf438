//! Verified building blocks for text analysis: substring containment, prefix
//! tests, whitespace handling and lexicographic comparison, each specified
//! over the `Seq<char>` view of `str`.

use vstd::prelude::*;

verus! {

/// The whitespace characters this library recognises: the ASCII blanks that
/// the reports it parses can contain.
pub open spec fn is_space_char(c: char) -> bool {
    c == ' ' || c == '\t' || c == '\n' || c == '\r' || c == '\u{b}' || c == '\u{c}'
}

/// Every character of `s` is whitespace.
pub open spec fn blank(s: Seq<char>) -> bool {
    forall|i: int| 0 <= i < s.len() ==> is_space_char(#[trigger] s[i])
}

/// `pat` occurs in `s` at position `i`.
pub open spec fn contains_at(s: Seq<char>, i: int, pat: Seq<char>) -> bool {
    0 <= i && i + pat.len() <= s.len() && s.subrange(i, i + pat.len() as int) == pat
}

/// `pat` occurs somewhere in `s`.
pub open spec fn contains_seq(s: Seq<char>, pat: Seq<char>) -> bool {
    exists|i: int| contains_at(s, i, pat)
}

/// `s` begins with `pat`.
pub open spec fn starts_with_seq(s: Seq<char>, pat: Seq<char>) -> bool {
    pat.len() <= s.len() && s.subrange(0, pat.len() as int) == pat
}

/// `s` ends with `pat`.
pub open spec fn ends_with_seq(s: Seq<char>, pat: Seq<char>) -> bool {
    pat.len() <= s.len() && s.skip(s.len() - pat.len()) == pat
}

/// Whether `c` is an ASCII space character, executably.
pub fn is_space(c: char) -> (b: bool)
    ensures
        b == is_space_char(c),
{
    c == ' ' || c == '\t' || c == '\n' || c == '\r' || c == '\u{b}' || c == '\u{c}'
}

/// Whether `needle` occurs in `hay` at position `i`.
fn match_at(hay: &str, needle: &str, i: usize) -> (b: bool)
    requires
        i + needle@.len() <= hay@.len(),
    ensures
        b == contains_at(hay@, i as int, needle@),
{
    let n = hay.unicode_len();
    let m = needle.unicode_len();
    let mut k: usize = 0;
    while k < m
        invariant
            n == hay@.len(),
            m == needle@.len(),
            i + m <= n,
            0 <= k <= m,
            forall|j: int| 0 <= j < k ==> hay@[i + j] == needle@[j],
        decreases m - k,
    {
        if hay.get_char(i + k) != needle.get_char(k) {
            assert(hay@.subrange(i as int, i + m as int)[k as int] != needle@[k as int]);
            return false;
        }
        k = k + 1;
    }
    assert(hay@.subrange(i as int, i + m as int) =~= needle@);
    true
}

/// Whether `needle` occurs anywhere in `hay`; mirrors `str::contains`.
pub fn str_contains(hay: &str, needle: &str) -> (b: bool)
    ensures
        b == contains_seq(hay@, needle@),
{
    let n = hay.unicode_len();
    let m = needle.unicode_len();
    if m > n {
        return false;
    }
    if m == 0 {
        assert(contains_at(hay@, 0, needle@)) by {
            assert(hay@.subrange(0, 0) =~= needle@);
        }
        return true;
    }
    let mut i: usize = 0;
    while i <= n - m
        invariant
            n == hay@.len(),
            m == needle@.len(),
            0 < m <= n,
            0 <= i <= n - m + 1,
            forall|j: int| 0 <= j < i ==> !contains_at(hay@, j, needle@),
        decreases n - i,
    {
        if match_at(hay, needle, i) {
            return true;
        }
        i = i + 1;
    }
    false
}

/// Whether `s` begins with `pre`; mirrors `str::starts_with`.
pub fn str_starts_with(s: &str, pre: &str) -> (b: bool)
    ensures
        b == starts_with_seq(s@, pre@),
{
    let n = s.unicode_len();
    let m = pre.unicode_len();
    if m > n {
        return false;
    }
    match_at(s, pre, 0)
}

/// Whether two string slices hold the same characters.
pub fn str_eq(a: &str, b: &str) -> (r: bool)
    ensures
        r == (a@ == b@),
{
    let n = a.unicode_len();
    let m = b.unicode_len();
    if n != m {
        return false;
    }
    let r = match_at(a, b, 0);
    proof {
        if r {
            assert(a@.subrange(0, m as int) =~= a@);
        } else {
            assert(a@.subrange(0, m as int) =~= a@);
        }
    }
    r
}

/// Whether every character of `s` is whitespace; mirrors
/// `str::trim` followed by `is_empty`.
pub fn is_blank(s: &str) -> (b: bool)
    ensures
        b == blank(s@),
{
    let n = s.unicode_len();
    let mut i: usize = 0;
    while i < n
        invariant
            n == s@.len(),
            0 <= i <= n,
            forall|j: int| 0 <= j < i ==> is_space_char(#[trigger] s@[j]),
        decreases n - i,
    {
        if !is_space(s.get_char(i)) {
            return false;
        }
        i = i + 1;
    }
    true
}

/// `s` without its leading whitespace.
pub open spec fn skip_spaces(s: Seq<char>) -> Seq<char>
    decreases s.len(),
{
    if s.len() == 0 {
        s
    } else if is_space_char(s[0]) {
        skip_spaces(s.drop_first())
    } else {
        s
    }
}

/// `s` without its trailing whitespace.
pub open spec fn trim_end_spaces(s: Seq<char>) -> Seq<char>
    decreases s.len(),
{
    if s.len() == 0 {
        s
    } else if is_space_char(s.last()) {
        trim_end_spaces(s.drop_last())
    } else {
        s
    }
}

/// `s` without leading and trailing whitespace; mirrors `str::trim`.
pub open spec fn trim_spaces(s: Seq<char>) -> Seq<char> {
    trim_end_spaces(skip_spaces(s))
}

/// The prefix of `s` before the first occurrence of `c` (all of `s` when `c`
/// does not occur).
pub open spec fn until_char(s: Seq<char>, c: char) -> Seq<char>
    decreases s.len(),
{
    if s.len() == 0 {
        s
    } else if s[0] == c {
        Seq::empty()
    } else {
        seq![s[0]] + until_char(s.drop_first(), c)
    }
}

/// Where the prefix before the first `c` ends: it is a prefix, it holds no
/// `c`, and it is followed by `c` exactly when `c` occurs at all.
pub proof fn lemma_until_char_props(s: Seq<char>, c: char)
    ensures
        until_char(s, c).len() <= s.len(),
        until_char(s, c) == s.take(until_char(s, c).len() as int),
        forall|j: int| 0 <= j < until_char(s, c).len() ==> s[j] != c,
        until_char(s, c).len() < s.len() ==> s[until_char(s, c).len() as int] == c,
        (until_char(s, c).len() == s.len()) == !s.contains(c),
    decreases s.len(),
{
    if s.len() == 0 {
        assert(until_char(s, c) =~= s.take(0));
        assert(!s.contains(c));
    } else if s[0] == c {
        assert(until_char(s, c) =~= s.take(0));
        assert(s.contains(c));
    } else {
        let d = s.drop_first();
        lemma_until_char_props(d, c);
        let u = until_char(s, c);
        assert(u == seq![s[0]] + until_char(d, c));
        assert(u =~= s.take(u.len() as int));
        assert forall|j: int| 0 <= j < u.len() implies s[j] != c by {
            if j > 0 {
                assert(s[j] == d[j - 1]);
            }
        }
        if until_char(d, c).len() == d.len() {
            assert(!d.contains(c));
            assert(!s.contains(c)) by {
                if s.contains(c) {
                    let k = choose|k: int| 0 <= k < s.len() && s[k] == c;
                    assert(d[k - 1] == c);
                }
            }
        } else {
            assert(s[u.len() as int] == d[until_char(d, c).len() as int]);
            assert(s.contains(c)) by {
                assert(s[u.len() as int] == c);
            }
        }
    }
}

/// Two paths joined with a single separating slash; mirrors
/// `PathBuf::join` for a relative right-hand side.
pub open spec fn path_join(a: Seq<char>, b: Seq<char>) -> Seq<char> {
    if a.len() == 0 {
        b
    } else if a.last() == '/' {
        a + b
    } else {
        a + seq!['/'] + b
    }
}

/// Two paths joined with a single separating slash, executably.
pub fn path_join_str(a: &str, b: &str) -> (r: String)
    ensures
        r@ == path_join(a@, b@),
{
    let n = a.unicode_len();
    if n == 0 {
        return b.to_owned();
    }
    let mut r = a.to_owned();
    if a.get_char(n - 1) != '/' {
        r.append("/");
        proof {
            reveal_strlit("/");
            assert("/"@ =~= seq!['/']);
        }
    }
    r.append(b);
    proof {
        if a@.last() == '/' {
            assert(a@ + b@ =~= r@);
        } else {
            assert(a@ + seq!['/'] + b@ =~= r@);
        }
    }
    r
}

/// `s` with every occurrence of `c` removed.
pub open spec fn remove_char(s: Seq<char>, c: char) -> Seq<char>
    decreases s.len(),
{
    if s.len() == 0 {
        s
    } else if s[0] == c {
        remove_char(s.drop_first(), c)
    } else {
        seq![s[0]] + remove_char(s.drop_first(), c)
    }
}

/// `s` without its leading whitespace, executably.
pub fn trim_start<'a>(s: &'a str) -> (r: &'a str)
    ensures
        r@ == skip_spaces(s@),
{
    let n = s.unicode_len();
    let mut i: usize = 0;
    proof {
        assert(s@.skip(0) =~= s@);
    }
    while i < n && is_space(s.get_char(i))
        invariant
            n == s@.len(),
            0 <= i <= n,
            skip_spaces(s@) == skip_spaces(s@.skip(i as int)),
        decreases n - i,
    {
        proof {
            assert(s@.skip(i as int).drop_first() =~= s@.skip(i + 1));
        }
        i = i + 1;
    }
    proof {
        if i < n {
            assert(!is_space_char(s@.skip(i as int)[0]));
        }
        assert(skip_spaces(s@.skip(i as int)) == s@.skip(i as int));
    }
    s.substring_char(i, n)
}

/// `s` without leading and trailing whitespace, executably.
#[verifier::rlimit(30)]
pub fn trim<'a>(s: &'a str) -> (r: &'a str)
    ensures
        r@ == trim_spaces(s@),
{
    let n = s.unicode_len();
    let mut i: usize = 0;
    proof {
        assert(s@.skip(0) =~= s@);
    }
    while i < n && is_space(s.get_char(i))
        invariant
            n == s@.len(),
            0 <= i <= n,
            skip_spaces(s@) == skip_spaces(s@.skip(i as int)),
        decreases n - i,
    {
        proof {
            assert(s@.skip(i as int).drop_first() =~= s@.skip(i + 1));
        }
        i = i + 1;
    }
    proof {
        if i < n {
            assert(!is_space_char(s@.skip(i as int)[0]));
        }
        assert(skip_spaces(s@) == s@.skip(i as int));
    }
    let mut j: usize = n;
    proof {
        assert(s@.skip(i as int) =~= s@.subrange(i as int, n as int));
    }
    while j > i && is_space(s.get_char(j - 1))
        invariant
            n == s@.len(),
            0 <= i <= j <= n,
            skip_spaces(s@) == s@.skip(i as int),
            trim_end_spaces(s@.skip(i as int)) == trim_end_spaces(s@.subrange(i as int, j as int)),
        decreases j,
    {
        proof {
            let part = s@.subrange(i as int, j as int);
            assert(part.last() == s@[j - 1]);
            assert(part.drop_last() =~= s@.subrange(i as int, j - 1));
        }
        j = j - 1;
    }
    proof {
        let part = s@.subrange(i as int, j as int);
        if j > i {
            assert(!is_space_char(part.last()));
        }
        assert(trim_end_spaces(part) == part);
        assert(s@.skip(i as int) =~= s@.subrange(i as int, n as int));
    }
    s.substring_char(i, j)
}

/// The prefix of `s` before the first occurrence of `c`, executably.
pub fn until_char_str<'a>(s: &'a str, c: char) -> (r: &'a str)
    ensures
        r@ == until_char(s@, c),
{
    let n = s.unicode_len();
    let mut i: usize = 0;
    proof {
        assert(s@.skip(0) =~= s@);
        assert(s@.take(0) + until_char(s@, c) =~= until_char(s@, c));
    }
    while i < n && s.get_char(i) != c
        invariant
            n == s@.len(),
            0 <= i <= n,
            until_char(s@, c) == s@.take(i as int) + until_char(s@.skip(i as int), c),
        decreases n - i,
    {
        proof {
            let suf = s@.skip(i as int);
            assert(suf.drop_first() =~= s@.skip(i + 1));
            assert(seq![suf[0]] + until_char(suf.drop_first(), c) == until_char(suf, c));
            assert(s@.take(i as int) + seq![s@[i as int]] =~= s@.take(i + 1));
            assert(s@.take(i as int) + until_char(suf, c) =~= s@.take(i + 1) + until_char(
                s@.skip(i + 1),
                c,
            ));
        }
        i = i + 1;
    }
    proof {
        let suf = s@.skip(i as int);
        if i < n {
            assert(suf[0] == c);
            assert(until_char(suf, c) =~= Seq::<char>::empty());
        }
        assert(until_char(s@, c) =~= s@.take(i as int));
        assert(s@.take(i as int) =~= s@.subrange(0, i as int));
    }
    s.substring_char(0, i)
}

/// `s` with every occurrence of `c` removed, executably; mirrors
/// `str::replace(c, "")`.
pub fn remove_char_str(s: &str, c: char) -> (r: String)
    ensures
        r@ == remove_char(s@, c),
{
    let n = s.unicode_len();
    let mut r = String::new();
    let mut i: usize = 0;
    proof {
        assert(s@.skip(0) =~= s@);
        assert(Seq::<char>::empty() + remove_char(s@, c) =~= remove_char(s@, c));
    }
    while i < n
        invariant
            n == s@.len(),
            0 <= i <= n,
            remove_char(s@, c) == r@ + remove_char(s@.skip(i as int), c),
        decreases n - i,
    {
        proof {
            let suf = s@.skip(i as int);
            assert(suf.drop_first() =~= s@.skip(i + 1));
        }
        let ch = s.get_char(i);
        if ch != c {
            let piece = s.substring_char(i, i + 1);
            proof {
                assert(piece@ =~= seq![s@[i as int]]);
                assert(r@ + (seq![s@[i as int]] + remove_char(s@.skip(i + 1), c)) =~= (r@
                    + piece@) + remove_char(s@.skip(i + 1), c));
            }
            r.append(piece);
        }
        i = i + 1;
    }
    proof {
        assert(remove_char(s@.skip(n as int), c) =~= Seq::<char>::empty());
        assert(r@ + Seq::<char>::empty() =~= r@);
    }
    r
}

/// The prefix of `s` before the first occurrence of `pat` (all of `s` when
/// `pat` does not occur).
pub open spec fn until_seq(s: Seq<char>, pat: Seq<char>) -> Seq<char>
    decreases s.len(),
{
    if s.len() == 0 || s.len() < pat.len() {
        s
    } else if s.take(pat.len() as int) == pat {
        Seq::empty()
    } else {
        seq![s[0]] + until_seq(s.drop_first(), pat)
    }
}

/// The prefix before the first occurrence of `pat` holds no occurrence, and
/// is followed by one exactly when `pat` occurs at all.
pub proof fn lemma_until_seq_props(s: Seq<char>, pat: Seq<char>)
    requires
        pat.len() >= 1,
    ensures
        until_seq(s, pat).len() <= s.len(),
        until_seq(s, pat) == s.take(until_seq(s, pat).len() as int),
        forall|j: int| 0 <= j < until_seq(s, pat).len() ==> !contains_at(s, j, pat),
        until_seq(s, pat).len() < s.len() ==> contains_at(s, until_seq(s, pat).len() as int, pat),
        (until_seq(s, pat).len() == s.len()) == !contains_seq(s, pat),
    decreases s.len(),
{
    let u = until_seq(s, pat);
    if s.len() < pat.len() {
        assert(u =~= s.take(s.len() as int));
        assert forall|j: int| true implies !contains_at(s, j, pat) by {}
        if contains_seq(s, pat) {
            let j = choose|j: int| contains_at(s, j, pat);
        }
    } else if s.take(pat.len() as int) == pat {
        assert(u =~= s.take(0));
        assert(s.subrange(0, pat.len() as int) == s.take(pat.len() as int));
        assert(contains_at(s, 0, pat));
    } else {
        let d = s.drop_first();
        lemma_until_seq_props(d, pat);
        assert(u == seq![s[0]] + until_seq(d, pat));
        assert(u =~= s.take(u.len() as int));
        assert forall|j: int| 0 <= j < u.len() implies !contains_at(s, j, pat) by {
            if j == 0 {
                if contains_at(s, 0, pat) {
                    assert(s.subrange(0, pat.len() as int) == s.take(pat.len() as int));
                }
            } else {
                if contains_at(s, j, pat) {
                    assert(s.subrange(j, j + pat.len() as int) =~= d.subrange(
                        j - 1,
                        j - 1 + pat.len() as int,
                    ));
                    assert(contains_at(d, j - 1, pat));
                }
            }
        }
        if until_seq(d, pat).len() < d.len() {
            let k = until_seq(d, pat).len() as int;
            assert(contains_at(d, k, pat));
            assert(s.subrange(k + 1, k + 1 + pat.len() as int) =~= d.subrange(
                k,
                k + pat.len() as int,
            ));
            assert(contains_at(s, k + 1, pat));
            assert(contains_seq(s, pat));
        } else {
            assert(u.len() == s.len());
            if contains_seq(s, pat) {
                let j = choose|j: int| contains_at(s, j, pat);
                assert(!contains_at(s, j, pat));
            }
        }
    }
}

/// The prefix of `s` before the first occurrence of `pat`, executably.
pub fn until_seq_str<'a>(s: &'a str, pat: &str) -> (r: &'a str)
    requires
        pat@.len() >= 1,
    ensures
        r@ == until_seq(s@, pat@),
{
    proof {
        lemma_until_seq_props(s@, pat@);
    }
    let n = s.unicode_len();
    let m = pat.unicode_len();
    let mut i: usize = 0;
    proof {
        assert(s@.skip(0) =~= s@);
        assert(s@.take(0) + until_seq(s@, pat@) =~= until_seq(s@, pat@));
    }
    while i < n
        invariant
            n == s@.len(),
            m == pat@.len(),
            m >= 1,
            0 <= i <= n,
            until_seq(s@, pat@) == s@.take(i as int) + until_seq(s@.skip(i as int), pat@),
        decreases n - i,
    {
        let suf_len = n - i;
        if suf_len >= m {
            let mut k: usize = 0;
            let mut matched = true;
            while k < m
                invariant
                    n == s@.len(),
                    m == pat@.len(),
                    0 <= i <= n,
                    i + m <= n,
                    0 <= k <= m,
                    matched == (forall|j: int| 0 <= j < k ==> s@[i + j] == pat@[j]),
                decreases m - k,
            {
                if s.get_char(i + k) != pat.get_char(k) {
                    matched = false;
                    proof {
                        assert(s@[i + k] != pat@[k as int]);
                    }
                    k = m;
                } else {
                    k = k + 1;
                }
            }
            proof {
                let suf = s@.skip(i as int);
                if matched {
                    assert(suf.take(m as int) =~= pat@);
                    assert(until_seq(suf, pat@) =~= Seq::<char>::empty());
                } else {
                    let j = choose|j: int| 0 <= j < m && s@[i + j] != pat@[j];
                    assert(suf.take(m as int)[j] == s@[i + j]);
                    assert(suf.take(m as int) != pat@);
                }
            }
            if matched {
                proof {
                    assert(until_seq(s@, pat@) =~= s@.take(i as int));
                    assert(s@.take(i as int) =~= s@.subrange(0, i as int));
                }
                return s.substring_char(0, i);
            }
        } else {
            proof {
                assert(until_seq(s@.skip(i as int), pat@) == s@.skip(i as int));
                assert(s@.take(i as int) + s@.skip(i as int) =~= s@);
            }
        }
        proof {
            let suf = s@.skip(i as int);
            if suf.len() >= m {
                assert(until_seq(suf, pat@) == seq![suf[0]] + until_seq(suf.drop_first(), pat@));
                assert(suf.drop_first() =~= s@.skip(i + 1));
                assert(suf[0] == s@[i as int]);
                assert(s@.take(i as int) + (seq![s@[i as int]] + until_seq(s@.skip(i + 1), pat@))
                    =~= s@.take(i + 1) + until_seq(s@.skip(i + 1), pat@));
            } else {
                assert(s@.take(i as int) + (seq![s@[i as int]] + until_seq(
                    s@.skip(i + 1),
                    pat@,
                )) =~= s@.take(i + 1) + until_seq(s@.skip(i + 1), pat@)) by {
                    assert(until_seq(s@.skip(i + 1), pat@) == s@.skip(i + 1));
                    assert(s@.skip(i as int) =~= seq![s@[i as int]] + s@.skip(i + 1));
                }
            }
        }
        i = i + 1;
    }
    proof {
        assert(s@.skip(n as int) =~= Seq::<char>::empty());
        assert(until_seq(Seq::<char>::empty(), pat@) =~= Seq::<char>::empty());
        assert(until_seq(s@, pat@) =~= s@.take(n as int));
        assert(s@.take(n as int) =~= s@.subrange(0, n as int));
    }
    s.substring_char(0, n)
}

/// An occurrence in a sequence is an occurrence in any extension of it to
/// the right.
pub proof fn lemma_contains_extend_right(a: Seq<char>, b: Seq<char>, pat: Seq<char>)
    requires
        contains_seq(a, pat),
    ensures
        contains_seq(a + b, pat),
{
    let i = choose|i: int| contains_at(a, i, pat);
    assert((a + b).subrange(i, i + pat.len() as int) =~= a.subrange(i, i + pat.len() as int));
    assert(contains_at(a + b, i, pat));
}

/// An occurrence in a sequence is an occurrence in any extension of it to
/// the left.
pub proof fn lemma_contains_extend_left(a: Seq<char>, b: Seq<char>, pat: Seq<char>)
    requires
        contains_seq(b, pat),
    ensures
        contains_seq(a + b, pat),
{
    let i = choose|i: int| contains_at(b, i, pat);
    assert((a + b).subrange(a.len() + i, a.len() + i + pat.len() as int) =~= b.subrange(
        i,
        i + pat.len() as int,
    ));
    assert(contains_at(a + b, a.len() + i, pat));
}

/// A pattern that begins a sequence still begins it after every `c` is
/// removed, provided the pattern itself holds no `c`.
proof fn lemma_remove_char_keeps_prefix(s: Seq<char>, c: char, pat: Seq<char>)
    requires
        starts_with_seq(s, pat),
        forall|j: int| 0 <= j < pat.len() ==> pat[j] != c,
    ensures
        starts_with_seq(remove_char(s, c), pat),
    decreases pat.len(),
{
    if pat.len() == 0 {
        assert(remove_char(s, c).subrange(0, 0) =~= pat);
    } else {
        assert(s[0] == pat[0]);
        assert(s[0] != c);
        assert(remove_char(s, c) == seq![s[0]] + remove_char(s.drop_first(), c));
        assert(starts_with_seq(s.drop_first(), pat.drop_first())) by {
            assert(s.drop_first().subrange(0, pat.len() - 1) =~= s.subrange(0, pat.len() as int)
                .drop_first());
            assert(s.subrange(0, pat.len() as int) == pat);
        }
        lemma_remove_char_keeps_prefix(s.drop_first(), c, pat.drop_first());
        let r = remove_char(s, c);
        let rd = remove_char(s.drop_first(), c);
        assert(rd.subrange(0, pat.len() - 1) == pat.drop_first());
        assert(r.subrange(0, pat.len() as int) =~= pat) by {
            assert(r.len() == 1 + rd.len());
            assert(pat.len() <= r.len());
            assert forall|j: int| 0 <= j < pat.len() implies r.subrange(0, pat.len() as int)[j]
                == pat[j] by {
                if j == 0 {
                    assert(r[0] == s[0]);
                } else {
                    assert(r[j] == rd[j - 1]);
                    assert(rd[j - 1] == rd.subrange(0, pat.len() - 1)[j - 1]);
                    assert(pat.drop_first()[j - 1] == pat[j]);
                }
            }
        }
    }
}

/// A pattern that occurs in a sequence still occurs after every `c` is
/// removed, provided the pattern itself holds no `c`.
pub proof fn lemma_remove_char_keeps_pattern(s: Seq<char>, c: char, pat: Seq<char>)
    requires
        contains_seq(s, pat),
        forall|j: int| 0 <= j < pat.len() ==> pat[j] != c,
    ensures
        contains_seq(remove_char(s, c), pat),
    decreases s.len(),
{
    let i = choose|i: int| contains_at(s, i, pat);
    if i == 0 {
        assert(starts_with_seq(s, pat));
        lemma_remove_char_keeps_prefix(s, c, pat);
        let r = remove_char(s, c);
        assert(contains_at(r, 0, pat));
    } else {
        let d = s.drop_first();
        assert(contains_at(d, i - 1, pat)) by {
            assert(d.subrange(i - 1, i - 1 + pat.len() as int) =~= s.subrange(
                i,
                i + pat.len() as int,
            ));
        }
        assert(contains_seq(d, pat));
        lemma_remove_char_keeps_pattern(d, c, pat);
        if s[0] == c {
            assert(remove_char(s, c) == remove_char(d, c));
        } else {
            assert(remove_char(s, c) == seq![s[0]] + remove_char(d, c));
            lemma_contains_extend_left(seq![s[0]], remove_char(d, c), pat);
        }
    }
}

/// Strict lexicographic order on character sequences, by Unicode scalar
/// value; matches the order of `str::cmp`.
pub open spec fn lex_lt(a: Seq<char>, b: Seq<char>) -> bool
    decreases a.len(),
{
    if b.len() == 0 {
        false
    } else if a.len() == 0 {
        true
    } else if a[0] != b[0] {
        (a[0] as u32) < (b[0] as u32)
    } else {
        lex_lt(a.drop_first(), b.drop_first())
    }
}

/// Of two distinct sequences, one is lexicographically smaller.
pub proof fn lemma_lex_lt_trichotomy(a: Seq<char>, b: Seq<char>)
    ensures
        lex_lt(a, b) || lex_lt(b, a) || a == b,
    decreases a.len(),
{
    if a.len() == 0 && b.len() == 0 {
        assert(a =~= b);
    } else if a.len() != 0 && b.len() != 0 && a[0] == b[0] {
        lemma_lex_lt_trichotomy(a.drop_first(), b.drop_first());
        if a.drop_first() == b.drop_first() {
            assert(a =~= seq![a[0]] + a.drop_first());
            assert(b =~= seq![b[0]] + b.drop_first());
        }
    } else if a.len() != 0 && b.len() != 0 {
        if (a[0] as u32) == (b[0] as u32) {
            vstd::utf8::char_u32_cast(a[0], a[0] as u32);
            vstd::utf8::char_u32_cast(b[0], b[0] as u32);
        }
    }
}

/// The order is irreflexive: nothing is smaller than itself.
pub proof fn lemma_lex_lt_irreflexive(a: Seq<char>)
    ensures
        !lex_lt(a, a),
    decreases a.len(),
{
    if a.len() != 0 {
        lemma_lex_lt_irreflexive(a.drop_first());
    }
}

/// The order is transitive.
pub proof fn lemma_lex_lt_transitive(a: Seq<char>, b: Seq<char>, c: Seq<char>)
    requires
        lex_lt(a, b),
        lex_lt(b, c),
    ensures
        lex_lt(a, c),
    decreases a.len(),
{
    if a.len() != 0 && b.len() != 0 && c.len() != 0 {
        if a[0] == b[0] && b[0] == c[0] {
            lemma_lex_lt_transitive(a.drop_first(), b.drop_first(), c.drop_first());
        }
    }
}

/// `s` divided at every occurrence of `sep`: the pieces between separators,
/// in order, with empty pieces kept; mirrors `str::split`.
pub open spec fn split_on(s: Seq<char>, sep: char) -> Seq<Seq<char>>
    decreases s.len(),
{
    if s.len() == 0 {
        seq![s]
    } else if s[0] == sep {
        seq![Seq::<char>::empty()] + split_on(s.drop_first(), sep)
    } else {
        let rest = split_on(s.drop_first(), sep);
        seq![seq![s[0]] + rest[0]] + rest.drop_first()
    }
}

/// A split never has zero pieces.
pub proof fn lemma_split_on_len(s: Seq<char>, sep: char)
    ensures
        split_on(s, sep).len() >= 1,
    decreases s.len(),
{
    if s.len() != 0 {
        lemma_split_on_len(s.drop_first(), sep);
    }
}

/// Splitting a sequence without the separator yields that sequence alone.
pub proof fn lemma_split_on_no_sep(s: Seq<char>, sep: char)
    requires
        forall|j: int| 0 <= j < s.len() ==> s[j] != sep,
    ensures
        split_on(s, sep) == seq![s],
    decreases s.len(),
{
    if s.len() != 0 {
        lemma_split_on_no_sep(s.drop_first(), sep);
        let rest = split_on(s.drop_first(), sep);
        assert(seq![s[0]] + rest[0] =~= s);
        assert(seq![seq![s[0]] + rest[0]] + rest.drop_first() =~= seq![s]);
    }
}

/// A split divides at the first separator: the piece before it, then the
/// split of what follows it.
pub proof fn lemma_split_on_first_sep(s: Seq<char>, sep: char, k: int)
    requires
        0 <= k < s.len(),
        s[k] == sep,
        forall|j: int| 0 <= j < k ==> s[j] != sep,
    ensures
        split_on(s, sep) == seq![s.take(k)] + split_on(s.skip(k + 1), sep),
    decreases k,
{
    if k == 0 {
        assert(s.take(0) =~= Seq::<char>::empty());
        assert(s.skip(1) =~= s.drop_first());
        assert(seq![Seq::<char>::empty()] + split_on(s.drop_first(), sep) =~= seq![s.take(0)]
            + split_on(s.skip(1), sep));
    } else {
        let d = s.drop_first();
        assert(d[k - 1] == sep);
        lemma_split_on_first_sep(d, sep, k - 1);
        lemma_split_on_len(d.skip(k), sep);
        let rest = split_on(d, sep);
        assert(rest[0] == d.take(k - 1));
        assert(seq![s[0]] + d.take(k - 1) =~= s.take(k));
        assert(d.skip(k) =~= s.skip(k + 1));
        assert(rest.drop_first() =~= split_on(s.skip(k + 1), sep));
        assert(seq![seq![s[0]] + rest[0]] + rest.drop_first() =~= seq![s.take(k)] + split_on(
            s.skip(k + 1),
            sep,
        ));
    }
}

/// The pieces joined with `sep` between them; mirrors `[..].join`.
pub open spec fn join_with(parts: Seq<Seq<char>>, sep: char) -> Seq<char>
    decreases parts.len(),
{
    if parts.len() == 0 {
        Seq::<char>::empty()
    } else if parts.len() == 1 {
        parts[0]
    } else {
        parts[0] + seq![sep] + join_with(parts.drop_first(), sep)
    }
}

/// Joining one more piece appends a separator and that piece.
pub proof fn lemma_join_with_push(parts: Seq<Seq<char>>, p: Seq<char>, sep: char)
    requires
        parts.len() >= 1,
    ensures
        join_with(parts.push(p), sep) == join_with(parts, sep) + seq![sep] + p,
    decreases parts.len(),
{
    let whole = parts.push(p);
    if parts.len() == 1 {
        assert(whole.drop_first() =~= seq![p]);
        assert(join_with(whole.drop_first(), sep) == p);
        assert(whole[0] + seq![sep] + p =~= parts[0] + seq![sep] + p);
    } else {
        lemma_join_with_push(parts.drop_first(), p, sep);
        assert(whole.drop_first() =~= parts.drop_first().push(p));
        assert(whole[0] + seq![sep] + (join_with(parts.drop_first(), sep) + seq![sep] + p) =~= (
        parts[0] + seq![sep] + join_with(parts.drop_first(), sep)) + seq![sep] + p);
    }
}

/// Splitting a join of separator-free pieces recovers the pieces.
pub proof fn lemma_split_join(parts: Seq<Seq<char>>, sep: char)
    requires
        parts.len() >= 1,
        forall|i: int, j: int|
            0 <= i < parts.len() && 0 <= j < parts[i].len() ==> #[trigger] parts[i][j] != sep,
    ensures
        split_on(join_with(parts, sep), sep) == parts,
    decreases parts.len(),
{
    let s = join_with(parts, sep);
    if parts.len() == 1 {
        assert(forall|j: int| 0 <= j < s.len() ==> s[j] != sep);
        lemma_split_on_no_sep(s, sep);
        assert(seq![s] =~= parts);
    } else {
        let p0 = parts[0];
        let k = p0.len() as int;
        assert(s =~= p0 + seq![sep] + join_with(parts.drop_first(), sep));
        assert(forall|j: int| 0 <= j < k ==> s[j] != sep) by {
            assert(forall|j: int| 0 <= j < k ==> s[j] == parts[0][j]);
        }
        assert(s[k] == sep);
        lemma_split_on_first_sep(s, sep, k);
        assert(s.take(k) =~= p0);
        assert(s.skip(k + 1) =~= join_with(parts.drop_first(), sep));
        lemma_split_join(parts.drop_first(), sep);
        assert(seq![s.take(k)] + split_on(s.skip(k + 1), sep) =~= parts);
    }
}

/// The sequence without its empty elements.
pub open spec fn drop_empty(parts: Seq<Seq<char>>) -> Seq<Seq<char>>
    decreases parts.len(),
{
    if parts.len() == 0 {
        parts
    } else if parts[0].len() == 0 {
        drop_empty(parts.drop_first())
    } else {
        seq![parts[0]] + drop_empty(parts.drop_first())
    }
}

/// Dropping empty elements from a sequence of non-empty elements changes
/// nothing.
pub proof fn lemma_drop_empty_all_nonempty(parts: Seq<Seq<char>>)
    requires
        forall|i: int| 0 <= i < parts.len() ==> #[trigger] parts[i].len() != 0,
    ensures
        drop_empty(parts) == parts,
    decreases parts.len(),
{
    if parts.len() != 0 {
        lemma_drop_empty_all_nonempty(parts.drop_first());
        assert(seq![parts[0]] + parts.drop_first() =~= parts);
    }
}

/// Nothing empty remains after dropping the empty elements, and nothing new
/// appears.
pub proof fn lemma_drop_empty_members(parts: Seq<Seq<char>>)
    ensures
        forall|i: int|
            0 <= i < drop_empty(parts).len() ==> #[trigger] drop_empty(parts)[i].len() != 0,
        forall|i: int|
            0 <= i < drop_empty(parts).len() ==> parts.contains(#[trigger] drop_empty(parts)[i]),
    decreases parts.len(),
{
    if parts.len() != 0 {
        lemma_drop_empty_members(parts.drop_first());
        let d = drop_empty(parts);
        let dd = drop_empty(parts.drop_first());
        assert forall|e: Seq<char>| parts.drop_first().contains(e) implies parts.contains(e) by {
            let k = choose|k: int| 0 <= k < parts.drop_first().len() && parts.drop_first()[k] == e;
            assert(parts[k + 1] == e);
        }
        if parts[0].len() == 0 {
            assert(d == dd);
        } else {
            assert(d == seq![parts[0]] + dd);
            assert forall|i: int| 0 <= i < d.len() implies d[i].len() != 0 && parts.contains(
                d[i],
            ) by {
                if i == 0 {
                    assert(d[0] == parts[0]);
                } else {
                    assert(d[i] == dd[i - 1]);
                }
            }
        }
    }
}

/// `s` divided at every newline, executably; mirrors `str::split('\n')`.
pub fn split_lines(s: &str) -> (r: Vec<String>)
    ensures
        r.deep_view() == split_on(s@, '\n'),
{
    let n = s.unicode_len();
    let mut parts: Vec<String> = Vec::new();
    let mut st: usize = 0;
    let mut i: usize = 0;
    proof {
        assert(s@.skip(0) =~= s@);
        assert(parts.deep_view() + split_on(s@, '\n') =~= split_on(s@, '\n'));
    }
    while i < n
        invariant
            n == s@.len(),
            0 <= st <= i <= n,
            forall|j: int| st <= j < i ==> s@[j] != '\n',
            split_on(s@, '\n') == parts.deep_view() + split_on(s@.skip(st as int), '\n'),
        decreases n - i,
    {
        if s.get_char(i) == '\n' {
            let piece = s.substring_char(st, i);
            let owned = piece.to_owned();
            let ghost before = parts.deep_view();
            proof {
                let suf = s@.skip(st as int);
                assert(suf[i - st] == '\n');
                assert(forall|j: int| 0 <= j < i - st ==> suf[j] != '\n');
                lemma_split_on_first_sep(suf, '\n', i - st);
                assert(suf.take(i - st) =~= s@.subrange(st as int, i as int));
                assert(suf.skip(i - st + 1) =~= s@.skip(i + 1));
            }
            parts.push(owned);
            proof {
                assert(parts.deep_view() =~= before.push(owned@));
                assert(before + (seq![owned@] + split_on(s@.skip(i + 1), '\n'))
                    =~= parts.deep_view() + split_on(s@.skip(i + 1), '\n'));
            }
            st = i + 1;
        }
        i = i + 1;
    }
    let piece = s.substring_char(st, n);
    let owned = piece.to_owned();
    let ghost before = parts.deep_view();
    proof {
        let suf = s@.skip(st as int);
        lemma_split_on_no_sep(suf, '\n');
        assert(suf =~= s@.subrange(st as int, n as int));
    }
    parts.push(owned);
    proof {
        assert(parts.deep_view() =~= before.push(owned@));
        assert(before + seq![owned@] =~= parts.deep_view());
    }
    parts
}

/// The pieces joined with newlines, executably; mirrors `[..].join("\n")`.
pub fn join_lines(parts: &Vec<String>) -> (r: String)
    ensures
        r@ == join_with(parts.deep_view(), '\n'),
{
    let mut r = String::new();
    let len = parts.len();
    if len == 0 {
        return r;
    }
    r.append(parts[0].as_str());
    let mut k: usize = 1;
    proof {
        assert(parts.deep_view().take(1) =~= seq![parts.deep_view()[0]]);
        assert(join_with(parts.deep_view().take(1), '\n') == parts.deep_view()[0]);
        assert(Seq::<char>::empty() + parts[0]@ =~= parts.deep_view()[0]);
    }
    while k < len
        invariant
            1 <= k <= len,
            len == parts.len(),
            r@ == join_with(parts.deep_view().take(k as int), '\n'),
        decreases len - k,
    {
        proof {
            lemma_join_with_push(parts.deep_view().take(k as int), parts.deep_view()[k as int], '\n');
            assert(parts.deep_view().take(k as int).push(parts.deep_view()[k as int])
                =~= parts.deep_view().take(k + 1));
        }
        r.append("\n");
        proof {
            reveal_strlit("\n");
            assert("\n"@ =~= seq!['\n']);
        }
        r.append(parts[k].as_str());
        k = k + 1;
    }
    proof {
        assert(parts.deep_view().take(len as int) =~= parts.deep_view());
    }
    r
}

/// Lexicographic comparison of string slices, executably.
pub fn str_lt(a: &str, b: &str) -> (r: bool)
    ensures
        r == lex_lt(a@, b@),
{
    let n = a.unicode_len();
    let m = b.unicode_len();
    let mut k: usize = 0;
    proof {
        assert(a@.skip(0) =~= a@);
        assert(b@.skip(0) =~= b@);
    }
    while k < n && k < m
        invariant
            n == a@.len(),
            m == b@.len(),
            0 <= k <= n,
            0 <= k <= m,
            lex_lt(a@, b@) == lex_lt(a@.skip(k as int), b@.skip(k as int)),
        decreases n - k,
    {
        let ca = a.get_char(k);
        let cb = b.get_char(k);
        proof {
            assert(a@.skip(k as int)[0] == a@[k as int]);
            assert(b@.skip(k as int)[0] == b@[k as int]);
            assert(a@.skip(k as int).drop_first() =~= a@.skip(k + 1));
            assert(b@.skip(k as int).drop_first() =~= b@.skip(k + 1));
        }
        if ca != cb {
            return (ca as u32) < (cb as u32);
        }
        k = k + 1;
    }
    proof {
        assert(lex_lt(a@.skip(k as int), b@.skip(k as int)) == (k == n && k < m));
    }
    k == n && k < m
}

} // verus!
