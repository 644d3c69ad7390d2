//! Matching of texts: prefixes, substrings, line prefixes, subsequences and wildcards.
use vstd::prelude::*;

verus! {

/// Whether `t` is a prefix of `s`.
pub open spec fn is_prefix(t: Seq<char>, s: Seq<char>) -> bool {
    t.len() <= s.len() && s.subrange(0, t.len() as int) == t
}

/// Whether `t` occurs in `s` at position `i`.
pub open spec fn occurs_at(t: Seq<char>, s: Seq<char>, i: int) -> bool {
    0 <= i && i + t.len() <= s.len() && s.subrange(i, i + t.len()) == t
}

/// Whether `t` occurs anywhere in `s`.
pub open spec fn contains_text(s: Seq<char>, t: Seq<char>) -> bool {
    exists|i: int| occurs_at(t, s, i)
}

/// Whether some line of `s` (the text between newlines) starts with `t`.
pub open spec fn line_prefix(t: Seq<char>, s: Seq<char>) -> bool {
    !t.contains('\n') && exists|i: int| (i == 0 || (0 < i <= s.len() && s[i - 1] == '\n')) && occurs_at(t, s, i)
}

/// Whether the characters of `t` appear in `s` in order.
pub open spec fn is_subsequence(t: Seq<char>, s: Seq<char>) -> bool
    decreases s.len(),
{
    if t.len() == 0 {
        true
    } else if s.len() == 0 {
        false
    } else if t[0] == s[0] {
        is_subsequence(t.drop_first(), s.drop_first())
    } else {
        is_subsequence(t, s.drop_first())
    }
}

fn matches_at(t: &Vec<char>, s: &Vec<char>, i: usize) -> (r: bool)
    requires
        i <= s@.len(),
    ensures
        r == occurs_at(t@, s@, i as int),
{
    if t.len() > s.len() - i {
        return false;
    }
    let ns = s.len();
    let mut k: usize = 0;
    while k < t.len()
        invariant
            ns == s@.len(),
            k <= t@.len(),
            i <= s@.len(),
            i + t@.len() <= s@.len(),
            forall|q: int| 0 <= q < k ==> s@[i + q] == t@[q],
        decreases t@.len() - k,
    {
        assert(i + k < ns);
        if s[i + k] != t[k] {
            proof {
                assert(s@.subrange(i as int, i + t@.len())[k as int] != t@[k as int]);
            }
            return false;
        }
        k = k + 1;
    }
    proof {
        assert(s@.subrange(i as int, i + t@.len()) =~= t@);
    }
    true
}

/// Whether `t` is a prefix of `s`.
pub fn starts_with(s: &Vec<char>, t: &Vec<char>) -> (r: bool)
    ensures
        r == is_prefix(t@, s@),
{
    matches_at(t, s, 0)
}

/// The first position at which `t` occurs in `s`, if any.
pub fn find_text(s: &Vec<char>, t: &Vec<char>) -> (r: Option<usize>)
    ensures
        r matches Some(i) ==> occurs_at(t@, s@, i as int) && forall|j: int| 0 <= j < i ==> !occurs_at(t@, s@, j),
        r is None ==> !contains_text(s@, t@),
{
    let mut i: usize = 0;
    while i < s.len()
        invariant
            i <= s@.len(),
            forall|j: int| 0 <= j < i ==> !occurs_at(t@, s@, j),
        decreases s@.len() - i,
    {
        if matches_at(t, s, i) {
            return Some(i);
        }
        i = i + 1;
    }
    if matches_at(t, s, i) {
        return Some(i);
    }
    proof {
        assert forall|j: int| !occurs_at(t@, s@, j) by {
            if j > s@.len() {
                assert(!(j + t@.len() <= s@.len()));
            }
        }
    }
    None
}

/// Whether some line of `s` starts with `t`.
pub fn any_line_starts_with(s: &Vec<char>, t: &Vec<char>) -> (r: bool)
    ensures
        r == line_prefix(t@, s@),
{
    let mut k: usize = 0;
    while k < t.len()
        invariant
            k <= t@.len(),
            forall|q: int| 0 <= q < k ==> t@[q] != '\n',
        decreases t@.len() - k,
    {
        if t[k] == '\n' {
            proof {
                assert(t@.contains('\n'));
            }
            return false;
        }
        k = k + 1;
    }
    let mut i: usize = 0;
    while i < s.len()
        invariant
            !t@.contains('\n'),
            i <= s@.len(),
            forall|j: int| 0 <= j < i ==> !((j == 0 || (0 < j <= s@.len() && s@[j - 1] == '\n')) && occurs_at(t@, s@, j)),
        decreases s@.len() - i,
    {
        if (i == 0 || s[i - 1] == '\n') && matches_at(t, s, i) {
            return true;
        }
        i = i + 1;
    }
    if (i == 0 || s[i - 1] == '\n') && matches_at(t, s, i) {
        return true;
    }
    proof {
        assert forall|j: int| !((j == 0 || (0 < j <= s@.len() && s@[j - 1] == '\n')) && occurs_at(t@, s@, j)) by {
            if j > s@.len() {
                assert(!occurs_at(t@, s@, j));
            }
        }
    }
    false
}

/// Whether the characters of `t` appear in `s` in order.
pub fn subsequence_in_string(t: &Vec<char>, s: &Vec<char>) -> (r: bool)
    ensures
        r == is_subsequence(t@, s@),
{
    let mut i: usize = 0;
    let mut j: usize = 0;
    proof {
        assert(t@.subrange(0, t@.len() as int) =~= t@);
        assert(s@.subrange(0, s@.len() as int) =~= s@);
    }
    while j < s.len()
        invariant
            i <= t@.len(),
            j <= s@.len(),
            is_subsequence(t@, s@) == is_subsequence(t@.subrange(i as int, t@.len() as int), s@.subrange(j as int, s@.len() as int)),
        decreases s@.len() - j,
    {
        if i == t.len() {
            proof {
                assert(t@.subrange(i as int, t@.len() as int).len() == 0);
            }
            return true;
        }
        let ghost tt = t@.subrange(i as int, t@.len() as int);
        let ghost ss = s@.subrange(j as int, s@.len() as int);
        proof {
            assert(tt.drop_first() =~= t@.subrange(i + 1, t@.len() as int));
            assert(ss.drop_first() =~= s@.subrange(j + 1, s@.len() as int));
            assert(tt[0] == t@[i as int]);
            assert(ss[0] == s@[j as int]);
        }
        if t[i] == s[j] {
            i = i + 1;
        }
        j = j + 1;
    }
    proof {
        assert(s@.subrange(j as int, s@.len() as int).len() == 0);
    }
    i == t.len()
}

/// A piece of a wildcard pattern.
#[derive(Clone, Copy, Debug, PartialEq, Eq, Structural)]
pub enum GlobToken {
    /// Any run of characters, written `*`.
    AnyString,
    /// Exactly one character, written `?`.
    AnyChar,
    /// This character; a backslash makes the next character literal.
    Literal(char),
}

/// The token of one unescaped pattern character: `*` is any run of characters, `?` any
/// one character, and every other character stands for itself.
pub open spec fn glob_token(c: char) -> GlobToken {
    if c == '*' {
        GlobToken::AnyString
    } else if c == '?' {
        GlobToken::AnyChar
    } else {
        GlobToken::Literal(c)
    }
}

/// Whether a character is the backslash.
pub open spec fn is_backslash(c: char) -> bool {
    c as u32 == 92
}

/// The tokens of a pattern from position `i` on; `escaped` tells that the character before
/// `i` was a backslash that makes this one literal. A backslash makes the next character
/// literal; a final backslash stands for itself.
pub open spec fn glob_tokens_from(p: Seq<char>, i: int, escaped: bool) -> Seq<GlobToken>
    decreases p.len() - i,
{
    if i < 0 || i >= p.len() {
        Seq::empty()
    } else if escaped {
        seq![GlobToken::Literal(p[i])].add(glob_tokens_from(p, i + 1, false))
    } else if is_backslash(p[i]) && i + 1 < p.len() {
        glob_tokens_from(p, i + 1, true)
    } else {
        seq![glob_token(p[i])].add(glob_tokens_from(p, i + 1, false))
    }
}

/// The tokens of a wildcard pattern.
pub open spec fn glob_tokens(p: Seq<char>) -> Seq<GlobToken> {
    glob_tokens_from(p, 0, false)
}

/// Whether the text `s` matches the whole token sequence `p`.
pub open spec fn glob_match(s: Seq<char>, p: Seq<GlobToken>) -> bool
    decreases p.len() + s.len(),
{
    if p.len() == 0 {
        s.len() == 0
    } else {
        match p[0] {
            GlobToken::AnyString => glob_match(s, p.drop_first()) || (s.len() > 0 && glob_match(s.drop_first(), p)),
            GlobToken::AnyChar => s.len() > 0 && glob_match(s.drop_first(), p.drop_first()),
            GlobToken::Literal(c) => s.len() > 0 && s[0] == c && glob_match(s.drop_first(), p.drop_first()),
        }
    }
}

/// The tokens of a wildcard pattern.
pub fn parse_glob(p: &Vec<char>) -> (r: Vec<GlobToken>)
    ensures
        r@ == glob_tokens(p@),
{
    let mut out: Vec<GlobToken> = Vec::new();
    let mut i: usize = 0;
    let mut escaped = false;
    proof {
        assert(out@ + glob_tokens_from(p@, 0, false) =~= glob_tokens(p@));
    }
    while i < p.len()
        invariant
            i <= p@.len(),
            glob_tokens(p@) == out@ + glob_tokens_from(p@, i as int, escaped),
        decreases p@.len() - i,
    {
        let ghost before = out@;
        let ghost e0 = escaped;
        let c = p[i];
        if escaped {
            out.push(GlobToken::Literal(c));
            escaped = false;
            proof {
                assert(glob_tokens_from(p@, i as int, e0) == seq![GlobToken::Literal(c)].add(glob_tokens_from(p@, i + 1, false)));
                assert(out@ + glob_tokens_from(p@, i + 1, false) =~= before + glob_tokens_from(p@, i as int, e0));
            }
        } else if (c as u32) == 92 && i + 1 < p.len() {
            escaped = true;
            proof {
                assert(glob_tokens_from(p@, i as int, e0) == glob_tokens_from(p@, i + 1, true));
            }
        } else {
            let t = if c == '*' {
                GlobToken::AnyString
            } else if c == '?' {
                GlobToken::AnyChar
            } else {
                GlobToken::Literal(c)
            };
            out.push(t);
            proof {
                assert(t == glob_token(c));
                assert(glob_tokens_from(p@, i as int, e0) == seq![t].add(glob_tokens_from(p@, i + 1, false)));
                assert(out@ + glob_tokens_from(p@, i + 1, false) =~= before + glob_tokens_from(p@, i as int, e0));
            }
        }
        i = i + 1;
    }
    proof {
        assert(out@ + glob_tokens_from(p@, i as int, escaped) =~= out@);
    }
    out
}

fn glob_from(s: &Vec<char>, p: &Vec<GlobToken>, i: usize, j: usize) -> (r: bool)
    requires
        i <= s@.len(),
        j <= p@.len(),
    ensures
        r == glob_match(s@.subrange(i as int, s@.len() as int), p@.subrange(j as int, p@.len() as int)),
    decreases p@.len() - j + s@.len() - i,
{
    let ghost ss = s@.subrange(i as int, s@.len() as int);
    let ghost pp = p@.subrange(j as int, p@.len() as int);
    if j == p.len() {
        return i == s.len();
    }
    proof {
        assert(pp.drop_first() =~= p@.subrange(j + 1, p@.len() as int));
        assert(pp[0] == p@[j as int]);
        if i < s@.len() {
            assert(ss.drop_first() =~= s@.subrange(i + 1, s@.len() as int));
            assert(ss[0] == s@[i as int]);
        }
    }
    match p[j] {
        GlobToken::AnyString => glob_from(s, p, i, j + 1) || (i < s.len() && glob_from(s, p, i + 1, j)),
        GlobToken::AnyChar => i < s.len() && glob_from(s, p, i + 1, j + 1),
        GlobToken::Literal(c) => i < s.len() && s[i] == c && glob_from(s, p, i + 1, j + 1),
    }
}

/// Whether `s` matches the whole token sequence `p`.
pub fn wildcard_match(s: &Vec<char>, p: &Vec<GlobToken>) -> (r: bool)
    ensures
        r == glob_match(s@, p@),
{
    proof {
        assert(s@.subrange(0, s@.len() as int) =~= s@);
        assert(p@.subrange(0, p@.len() as int) =~= p@);
    }
    glob_from(s, p, 0, 0)
}

/// Whether a character is removed by trimming: space, tab, newline, carriage return,
/// vertical tab or form feed.
pub open spec fn is_trim_space(c: char) -> bool {
    c == ' ' || c == '\t' || c == '\n' || c == '\r' || c == '\x0B' || c == '\x0C'
}

/// The text without leading whitespace.
pub open spec fn trim_start(s: Seq<char>) -> Seq<char>
    decreases s.len(),
{
    if s.len() > 0 && is_trim_space(s[0]) { trim_start(s.drop_first()) } else { s }
}

/// The text without trailing whitespace.
pub open spec fn trim_end(s: Seq<char>) -> Seq<char>
    decreases s.len(),
{
    if s.len() > 0 && is_trim_space(s.last()) { trim_end(s.drop_last()) } else { s }
}

/// The text without leading and trailing whitespace.
pub open spec fn trimmed(s: Seq<char>) -> Seq<char> {
    trim_end(trim_start(s))
}

fn is_trim_space_exec(c: char) -> (r: bool)
    ensures
        r == is_trim_space(c),
{
    c == ' ' || c == '\t' || c == '\n' || c == '\r' || c == '\x0B' || c == '\x0C'
}

/// The characters without leading and trailing whitespace.
pub fn trim(s: &Vec<char>) -> (r: Vec<char>)
    ensures
        r@ == trimmed(s@),
{
    let mut a: usize = 0;
    proof {
        assert(s@.subrange(0, s@.len() as int) =~= s@);
    }
    while a < s.len() && is_trim_space_exec(s[a])
        invariant
            a <= s@.len(),
            trim_start(s@) == trim_start(s@.subrange(a as int, s@.len() as int)),
        decreases s@.len() - a,
    {
        proof {
            assert(s@.subrange(a as int, s@.len() as int).drop_first() =~= s@.subrange(a + 1, s@.len() as int));
        }
        a = a + 1;
    }
    proof {
        assert(s@.subrange(0, s@.len() as int) =~= s@);
    }
    let ghost ts = s@.subrange(a as int, s@.len() as int);
    let mut b: usize = s.len();
    while b > a && is_trim_space_exec(s[b - 1])
        invariant
            a <= b <= s@.len(),
            trim_start(s@) == ts,
            ts == s@.subrange(a as int, s@.len() as int),
            trim_end(ts) == trim_end(s@.subrange(a as int, b as int)),
        decreases b,
    {
        proof {
            assert(s@.subrange(a as int, b as int).drop_last() =~= s@.subrange(a as int, b - 1));
        }
        b = b - 1;
    }
    proof {
        assert(ts =~= s@.subrange(a as int, s@.len() as int));
    }
    let mut out: Vec<char> = Vec::new();
    let mut k = a;
    while k < b
        invariant
            a <= k <= b,
            b <= s@.len(),
            out@ == s@.subrange(a as int, k as int),
        decreases b - k,
    {
        out.push(s[k]);
        proof {
            assert(s@.subrange(a as int, k + 1) =~= s@.subrange(a as int, k as int).push(s@[k as int]));
        }
        k = k + 1;
    }
    out
}

} // verus!
