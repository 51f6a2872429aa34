//! Character-level model of a line of text and the scans over it.
use vstd::prelude::*;

verus! {

/// The characters with the Unicode `White_Space` property, which is what
/// `char::is_whitespace` tests.
pub open spec fn is_ws(c: char) -> bool {
    let n = c as u32;
    (0x09 <= n && n <= 0x0d) || n == 0x20 || n == 0x85 || n == 0xa0 || n == 0x1680 || (0x2000
        <= n && n <= 0x200a) || n == 0x2028 || n == 0x2029 || n == 0x202f || n == 0x205f || n
        == 0x3000
}

/// The line with its leading whitespace removed.
pub open spec fn trim_ws(s: Seq<char>) -> Seq<char>
    decreases s.len(),
{
    if s.len() > 0 && is_ws(s[0]) {
        trim_ws(s.drop_first())
    } else {
        s
    }
}

/// `n` space characters.
pub open spec fn spaces(n: nat) -> Seq<char> {
    Seq::new(n, |_i: int| ' ')
}

/// `p` occurs in `s` starting at index `i`.
pub open spec fn occurs_at(s: Seq<char>, p: Seq<char>, i: int) -> bool {
    0 <= i && i + p.len() <= s.len() && s.subrange(i, i + p.len()) == p
}

/// `p` occurs somewhere in `s`.
pub open spec fn contains_text(s: Seq<char>, p: Seq<char>) -> bool {
    exists|i: int| occurs_at(s, p, i)
}

/// Trimming drops any spaces put in front of a line.
pub proof fn lemma_trim_spaces(n: nat, t: Seq<char>)
    ensures
        trim_ws(spaces(n) + t) == trim_ws(t),
    decreases n,
{
    if n > 0 {
        assert((spaces(n) + t)[0] == ' ');
        assert((spaces(n) + t).drop_first() =~= spaces((n - 1) as nat) + t);
        lemma_trim_spaces((n - 1) as nat, t);
    } else {
        assert(spaces(n) + t =~= t);
    }
}

/// A trimmed line starts with no whitespace, so trimming it again keeps it.
pub proof fn lemma_trim_trimmed(s: Seq<char>)
    ensures
        trim_ws(trim_ws(s)) == trim_ws(s),
        trim_ws(s).len() > 0 ==> !is_ws(trim_ws(s)[0]),
    decreases s.len(),
{
    if s.len() > 0 && is_ws(s[0]) {
        lemma_trim_trimmed(s.drop_first());
    }
}

/// Where `p` does not begin with whitespace, it occurs in a line exactly when
/// it occurs in the trimmed line.
pub proof fn lemma_contains_trimmed(s: Seq<char>, p: Seq<char>)
    requires
        p.len() > 0,
        !is_ws(p[0]),
    ensures
        contains_text(s, p) == contains_text(trim_ws(s), p),
    decreases s.len(),
{
    if s.len() > 0 && is_ws(s[0]) {
        let d = s.drop_first();
        if contains_text(s, p) {
            let i = choose|i: int| occurs_at(s, p, i);
            assert(s.subrange(i, i + p.len())[0] == s[i]);
            assert(i != 0);
            assert(d.subrange(i - 1, i - 1 + p.len()) =~= s.subrange(i, i + p.len()));
            assert(occurs_at(d, p, i - 1));
        }
        if contains_text(d, p) {
            let i = choose|i: int| occurs_at(d, p, i);
            assert(d.subrange(i, i + p.len()) =~= s.subrange(i + 1, i + 1 + p.len()));
            assert(occurs_at(s, p, i + 1));
        }
        lemma_contains_trimmed(d, p);
    }
}

/// A character that is not whitespace occurs in a line exactly when it
/// occurs in the trimmed line.
pub proof fn lemma_has_char_trimmed(s: Seq<char>, c: char)
    requires
        !is_ws(c),
    ensures
        s.contains(c) == trim_ws(s).contains(c),
    decreases s.len(),
{
    if s.len() > 0 && is_ws(s[0]) {
        let d = s.drop_first();
        if s.contains(c) {
            let i = choose|i: int| 0 <= i < s.len() && s[i] == c;
            assert(d[i - 1] == c);
        }
        if d.contains(c) {
            let i = choose|i: int| 0 <= i < d.len() && d[i] == c;
            assert(s[i + 1] == c);
        }
        lemma_has_char_trimmed(d, c);
    }
}

/// Tests whether `c` is a whitespace character.
pub fn is_whitespace(c: char) -> (r: bool)
    ensures
        r == is_ws(c),
{
    let n = c as u32;
    (0x09 <= n && n <= 0x0d) || n == 0x20 || n == 0x85 || n == 0xa0 || n == 0x1680 || (0x2000
        <= n && n <= 0x200a) || n == 0x2028 || n == 0x2029 || n == 0x202f || n == 0x205f || n
        == 0x3000
}

/// The line without its leading whitespace.
pub fn trim_leading(s: &str) -> (r: &str)
    ensures
        r@ == trim_ws(s@),
{
    let n = s.unicode_len();
    let mut k: usize = 0;
    assert(s@.skip(0) =~= s@);
    while k < n && is_whitespace(s.get_char(k))
        invariant
            k <= n,
            n == s@.len(),
            trim_ws(s@.skip(k as int)) == trim_ws(s@),
        decreases n - k,
    {
        assert(s@.skip(k as int).drop_first() =~= s@.skip(k + 1));
        k += 1;
    }
    s.substring_char(k, n)
}

/// Tests whether `p` occurs in `s` at index `i`.
pub fn text_occurs_at(s: &str, p: &str, i: usize) -> (r: bool)
    requires
        i + p@.len() <= s@.len(),
    ensures
        r == occurs_at(s@, p@, i as int),
{
    let n = s.unicode_len();
    let m = p.unicode_len();
    let mut j: usize = 0;
    while j < m
        invariant
            j <= m,
            m == p@.len(),
            n == s@.len(),
            i + m <= n,
            forall|k: int| 0 <= k < j ==> s@[i + k] == p@[k],
        decreases m - j,
    {
        if s.get_char(i + j) != p.get_char(j) {
            assert(s@.subrange(i as int, i + m)[j as int] != p@[j as int]);
            return false;
        }
        j += 1;
    }
    assert(s@.subrange(i as int, i + m) =~= p@);
    true
}

/// Tests whether `p` occurs anywhere in `s`.
pub fn text_contains(s: &str, p: &str) -> (r: bool)
    ensures
        r == contains_text(s@, p@),
{
    let n = s.unicode_len();
    let m = p.unicode_len();
    if m > n {
        return false;
    }
    if m == 0 {
        assert(s@.subrange(0, 0) =~= p@);
        assert(occurs_at(s@, p@, 0));
        return true;
    }
    let mut i: usize = 0;
    while i <= n - m
        invariant
            n == s@.len(),
            m == p@.len(),
            1 <= m <= n,
            i <= n - m + 1,
            forall|k: int| 0 <= k < i ==> !occurs_at(s@, p@, k),
        decreases n - m + 1 - i,
    {
        if text_occurs_at(s, p, i) {
            return true;
        }
        i += 1;
    }
    false
}

/// Tests whether `s` begins with `p`.
pub fn text_starts_with(s: &str, p: &str) -> (r: bool)
    ensures
        r == p@.is_prefix_of(s@),
{
    if p.unicode_len() > s.unicode_len() {
        return false;
    }
    text_occurs_at(s, p, 0)
}

/// Tests whether the character `c` occurs in `s`.
pub fn has_char(s: &str, c: char) -> (r: bool)
    ensures
        r == s@.contains(c),
{
    let n = s.unicode_len();
    let mut i: usize = 0;
    while i < n
        invariant
            i <= n,
            n == s@.len(),
            forall|k: int| 0 <= k < i ==> s@[k] != c,
        decreases n - i,
    {
        if s.get_char(i) == c {
            return true;
        }
        i += 1;
    }
    false
}

/// `t` preceded by `n` spaces.
pub fn indented(n: usize, t: &str) -> (r: String)
    ensures
        r@ == spaces(n as nat) + t@,
{
    let mut r = String::new();
    let mut k: usize = 0;
    while k < n
        invariant
            k <= n,
            r@ == spaces(k as nat),
        decreases n - k,
    {
        proof {
            reveal_strlit(" ");
        }
        r.append(" ");
        assert(spaces(k as nat) + " "@ =~= spaces((k + 1) as nat));
        k += 1;
    }
    r.append(t);
    r
}

} // verus!
