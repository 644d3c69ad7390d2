//! Comparison of file names in the order people expect: runs of digits compare as numbers.
use vstd::prelude::*;
use crate::text::chars_of;

verus! {

/// A name for the first character of `char::to_uppercase`.
pub uninterp spec fn upper_first(c: char) -> char;

/// A name for the first character of `char::to_lowercase`.
pub uninterp spec fn lower_first(c: char) -> char;

/// A name for what `char::is_whitespace` says of a character.
pub uninterp spec fn char_is_whitespace(c: char) -> bool;

/// Relies on `char::to_uppercase`, which yields at least one character; its first one.
#[verifier::external_body]
fn to_upper_first(c: char) -> (r: char)
    ensures
        r == upper_first(c),
{
    c.to_uppercase().next().unwrap_or(c)
}

/// Relies on `char::to_lowercase`, which yields at least one character; its first one.
#[verifier::external_body]
fn to_lower_first(c: char) -> (r: char)
    ensures
        r == lower_first(c),
{
    c.to_lowercase().next().unwrap_or(c)
}

/// Relies on `char::is_whitespace`.
#[verifier::external_body]
fn is_whitespace(c: char) -> (r: bool)
    ensures
        r == char_is_whitespace(c),
{
    c.is_whitespace()
}

/// Relies on `std::time::SystemTime::now`: the current time in microseconds since the
/// epoch (zero before it). Nothing is known of its value.
#[verifier::external_body]
pub fn get_time() -> (r: u64) {
    match std::time::SystemTime::now().duration_since(std::time::UNIX_EPOCH) {
        Ok(d) => d.as_micros() as u64,
        Err(_) => 0,
    }
}

/// Lexicographic comparison of two texts by code point: -1, 0 or 1.
pub open spec fn lex_cmp(a: Seq<char>, b: Seq<char>) -> int
    decreases a.len(),
{
    if a.len() == 0 {
        if b.len() == 0 { 0 } else { -1 }
    } else if b.len() == 0 {
        1
    } else if a[0] < b[0] {
        -1
    } else if a[0] > b[0] {
        1
    } else {
        lex_cmp(a.drop_first(), b.drop_first())
    }
}

proof fn lemma_lex_cmp_zero(a: Seq<char>, b: Seq<char>)
    ensures
        -1 <= lex_cmp(a, b) <= 1,
        lex_cmp(a, b) == 0 ==> a == b,
    decreases a.len(),
{
    if a.len() > 0 && b.len() > 0 && a[0] == b[0] {
        lemma_lex_cmp_zero(a.drop_first(), b.drop_first());
        if lex_cmp(a, b) == 0 {
            assert(a =~= seq![a[0]] + a.drop_first());
            assert(b =~= seq![b[0]] + b.drop_first());
        }
    }
}

fn compare_chars(a: &Vec<char>, b: &Vec<char>) -> (r: i32)
    ensures
        r == lex_cmp(a@, b@),
{
    let mut i: usize = 0;
    proof {
        assert(a@.subrange(0, a@.len() as int) =~= a@);
        assert(b@.subrange(0, b@.len() as int) =~= b@);
    }
    while i < a.len() && i < b.len()
        invariant
            i <= a@.len(),
            i <= b@.len(),
            lex_cmp(a@, b@) == lex_cmp(a@.subrange(i as int, a@.len() as int), b@.subrange(i as int, b@.len() as int)),
        decreases a@.len() - i,
    {
        let ghost sa = a@.subrange(i as int, a@.len() as int);
        let ghost sb = b@.subrange(i as int, b@.len() as int);
        proof {
            assert(sa[0] == a@[i as int]);
            assert(sb[0] == b@[i as int]);
            assert(sa.drop_first() =~= a@.subrange(i + 1, a@.len() as int));
            assert(sb.drop_first() =~= b@.subrange(i + 1, b@.len() as int));
        }
        if a[i] < b[i] {
            return -1;
        }
        if a[i] > b[i] {
            return 1;
        }
        i = i + 1;
    }
    if i == a.len() {
        if i == b.len() { 0 } else { -1 }
    } else {
        1
    }
}

fn is_digit(c: char) -> (r: bool)
    ensures
        r == ('0' <= c && c <= '9'),
{
    '0' <= c && c <= '9'
}

pub open spec fn is_digit_char(c: char) -> bool {
    '0' <= c && c <= '9'
}

/// The first position at or after `i` that does not hold `'0'`.
pub open spec fn zeros_end(s: Seq<char>, i: int) -> int
    decreases s.len() - i,
{
    if 0 <= i < s.len() && s[i] == '0' { zeros_end(s, i + 1) } else { i }
}

/// The first position at or after `i` that holds no whitespace.
pub open spec fn space_end(s: Seq<char>, i: int) -> int
    decreases s.len() - i,
{
    if 0 <= i < s.len() && char_is_whitespace(s[i]) { space_end(s, i + 1) } else { i }
}

/// Walking two digit runs together from `i` and `j`: the comparison of the first differing
/// digits (`ret` so far) until one run ends, where the longer run is larger. Returns the
/// comparison and the two positions where the walk stopped.
pub open spec fn digit_walk(a: Seq<char>, b: Seq<char>, i: int, j: int, ret: int) -> (int, int, int)
    decreases a.len() - i,
{
    let ad = 0 <= i < a.len() && is_digit_char(a[i]);
    let bd = 0 <= j < b.len() && is_digit_char(b[j]);
    if ad && bd {
        let r = if ret != 0 { ret } else if a[i] > b[j] { 1 } else if b[j] > a[i] { -1 } else { 0 };
        digit_walk(a, b, i + 1, j + 1, r)
    } else {
        (if ad { 1 } else if bd { -1 } else { ret }, i, j)
    }
}

/// The comparison of the numbers at `i` in `a` and `j` in `b`: leading zeros skipped, then
/// compared by length and first differing digit; whitespace after them is skipped.
pub open spec fn number_cmp(a: Seq<char>, b: Seq<char>, i: int, j: int) -> (int, int, int) {
    let w = digit_walk(a, b, zeros_end(a, i), zeros_end(b, j), 0);
    (w.0, space_end(a, w.1), space_end(b, w.2))
}

/// How the comparison ends once one name is used up: a logical tie is decided by code
/// points, and a name that ran out first is smaller.
pub open spec fn filecmp_tail(a: Seq<char>, b: Seq<char>, i: int, j: int) -> int {
    if i >= a.len() {
        if j >= b.len() { lex_cmp(a, b) } else { -1 }
    } else {
        1
    }
}

/// A character as names are compared: lowercased for globs; otherwise a dash is put after
/// `Z` and the character uppercased.
pub open spec fn folded_char(c: char, glob: bool) -> char {
    if glob { lower_first(c) } else { upper_first(if c == '-' { '[' } else { c }) }
}

/// The comparison of two names from positions `i` and `j` on.
pub open spec fn filecmp_from(a: Seq<char>, b: Seq<char>, glob: bool, i: int, j: int) -> int
    decreases a.len() - i + b.len() - j,
{
    if 0 <= i < a.len() && 0 <= j < b.len() {
        if is_digit_char(a[i]) && is_digit_char(b[j]) {
            let n = number_cmp(a, b, i, j);
            if n.0 != 0 {
                n.0
            } else if n.1 >= a.len() || n.2 >= b.len() || n.1 <= i || n.2 <= j {
                filecmp_tail(a, b, n.1, n.2)
            } else {
                filecmp_from(a, b, glob, n.1, n.2)
            }
        } else if a[i] == b[j] {
            filecmp_from(a, b, glob, i + 1, j + 1)
        } else if folded_char(a[i], glob) < folded_char(b[j], glob) {
            -1
        } else if folded_char(a[i], glob) > folded_char(b[j], glob) {
            1
        } else {
            filecmp_from(a, b, glob, i + 1, j + 1)
        }
    } else {
        filecmp_tail(a, b, i, j)
    }
}

proof fn lemma_zeros_end(s: Seq<char>, i: int)
    requires
        0 <= i <= s.len(),
    ensures
        i <= zeros_end(s, i) <= s.len(),
        zeros_end(s, i) < s.len() ==> s[zeros_end(s, i)] != '0',
    decreases s.len() - i,
{
    if i < s.len() && s[i] == '0' {
        lemma_zeros_end(s, i + 1);
    }
}

proof fn lemma_space_end(s: Seq<char>, i: int)
    requires
        0 <= i <= s.len(),
    ensures
        i <= space_end(s, i) <= s.len(),
    decreases s.len() - i,
{
    if i < s.len() && char_is_whitespace(s[i]) {
        lemma_space_end(s, i + 1);
    }
}

fn wcsfilecmp_leading_digits(a: &Vec<char>, ai0: usize, b: &Vec<char>, bi0: usize) -> (r: (i32, usize, usize))
    requires
        ai0 < a@.len(),
        bi0 < b@.len(),
        is_digit_char(a@[ai0 as int]),
        is_digit_char(b@[bi0 as int]),
    ensures
        (r.0 as int, r.1 as int, r.2 as int) == number_cmp(a@, b@, ai0 as int, bi0 as int),
        -1 <= r.0 <= 1,
        ai0 <= r.1 <= a@.len(),
        bi0 <= r.2 <= b@.len(),
        r.0 == 0 ==> ai0 < r.1 && bi0 < r.2,
{
    let mut ai = ai0;
    while ai < a.len() && a[ai] == '0'
        invariant
            ai0 <= ai <= a@.len(),
            zeros_end(a@, ai0 as int) == zeros_end(a@, ai as int),
        decreases a@.len() - ai,
    {
        ai = ai + 1;
    }
    let mut bi = bi0;
    while bi < b.len() && b[bi] == '0'
        invariant
            bi0 <= bi <= b@.len(),
            zeros_end(b@, bi0 as int) == zeros_end(b@, bi as int),
        decreases b@.len() - bi,
    {
        bi = bi + 1;
    }
    let za = ai;
    let zb = bi;
    proof {
        lemma_zeros_end(a@, ai0 as int);
        lemma_zeros_end(b@, bi0 as int);
    }
    let ghost walk = digit_walk(a@, b@, za as int, zb as int, 0);
    let mut ret: i32 = 0;
    let mut done = false;
    while !done
        invariant
            ai0 < a@.len(),
            bi0 < b@.len(),
            is_digit_char(a@[ai0 as int]),
            is_digit_char(b@[bi0 as int]),
            ai0 <= za <= ai <= a@.len(),
            bi0 <= zb <= bi <= b@.len(),
            ai - za == bi - zb,
            za == zeros_end(a@, ai0 as int),
            zb == zeros_end(b@, bi0 as int),
            za < a@.len() ==> a@[za as int] != '0',
            zb < b@.len() ==> b@[zb as int] != '0',
            -1 <= ret <= 1,
            !done ==> digit_walk(a@, b@, ai as int, bi as int, ret as int) == walk,
            done ==> walk == (ret as int, ai as int, bi as int),
            done ==> (ret == 0 ==> ai0 < ai && bi0 < bi),
        decreases a@.len() - ai + if done { 0int } else { 1int },
    {
        let ac_digit = ai < a.len() && is_digit(a[ai]);
        let bc_digit = bi < b.len() && is_digit(b[bi]);
        if ac_digit && bc_digit {
            if ret == 0 {
                if a[ai] > b[bi] {
                    ret = 1;
                }
                if b[bi] > a[ai] {
                    ret = -1;
                }
            }
            ai = ai + 1;
            bi = bi + 1;
        } else {
            if ac_digit {
                ret = 1;
            }
            if bc_digit {
                ret = -1;
            }
            proof {
                if ret == 0 && ai == za {
                    assert(!ac_digit && !bc_digit);
                    assert(za != ai0);
                    assert(zb != bi0);
                }
            }
            done = true;
        }
    }
    let wa = ai;
    let wb = bi;
    while ai < a.len() && is_whitespace(a[ai])
        invariant
            wa <= ai <= a@.len(),
            ai0 <= wa,
            ret == 0 ==> ai0 < ai,
            space_end(a@, wa as int) == space_end(a@, ai as int),
        decreases a@.len() - ai,
    {
        ai = ai + 1;
    }
    while bi < b.len() && is_whitespace(b[bi])
        invariant
            wb <= bi <= b@.len(),
            bi0 <= wb,
            ret == 0 ==> bi0 < bi,
            space_end(b@, wb as int) == space_end(b@, bi as int),
        decreases b@.len() - bi,
    {
        bi = bi + 1;
    }
    (ret, ai, bi)
}

fn fold_char(c: char, glob: bool) -> (r: char)
    ensures
        r == folded_char(c, glob),
{
    if glob {
        to_lower_first(c)
    } else {
        to_upper_first(if c == '-' { '[' } else { c })
    }
}

fn filecmp(a: &Vec<char>, b: &Vec<char>, glob: bool) -> (r: i32)
    ensures
        r == filecmp_from(a@, b@, glob, 0, 0),
        -1 <= r <= 1,
        r == 0 ==> a@ == b@,
{
    let mut retval: i32 = 0;
    let mut ai: usize = 0;
    let mut bi: usize = 0;
    let mut done = false;
    while !done && ai < a.len() && bi < b.len()
        invariant
            ai <= a@.len(),
            bi <= b@.len(),
            -1 <= retval <= 1,
            !done ==> retval == 0 && filecmp_from(a@, b@, glob, ai as int, bi as int) == filecmp_from(a@, b@, glob, 0, 0),
            done ==> (retval != 0 && retval == filecmp_from(a@, b@, glob, 0, 0)) || (retval == 0 && filecmp_tail(a@, b@, ai as int, bi as int) == filecmp_from(a@, b@, glob, 0, 0)),
        decreases a@.len() - ai + b@.len() - bi + if done { 0int } else { 1int },
    {
        let ac = a[ai];
        let bc = b[bi];
        if is_digit(ac) && is_digit(bc) {
            let (ret, ad, bd) = wcsfilecmp_leading_digits(a, ai, b, bi);
            if ret != 0 {
                retval = ret;
                done = true;
            } else {
                ai = ad;
                bi = bd;
                if ai == a.len() || bi == b.len() {
                    done = true;
                }
            }
        } else if ac == bc {
            ai = ai + 1;
            bi = bi + 1;
        } else {
            let acl = fold_char(ac, glob);
            let bcl = fold_char(bc, glob);
            if acl < bcl {
                retval = -1;
                done = true;
            } else if acl > bcl {
                retval = 1;
                done = true;
            } else {
                ai = ai + 1;
                bi = bi + 1;
            }
        }
    }
    if retval != 0 {
        return retval;
    }
    proof {
        lemma_lex_cmp_zero(a@, b@);
    }
    if ai == a.len() {
        if bi == b.len() {
            compare_chars(a, b)
        } else {
            -1
        }
    } else {
        1
    }
}

/// Compare two file names with runs of digits taken as numbers, and dashes after `Z`;
/// case and leading zeros only decide between names that are otherwise equal. Returns -1,
/// 0 or 1, and 0 only for equal names.
pub fn wcsfilecmp_(a: &str, b: &str) -> (r: i32)
    ensures
        r == filecmp_from(a@, b@, false, 0, 0),
        -1 <= r <= 1,
        r == 0 ==> a@ == b@,
{
    filecmp(&chars_of(a), &chars_of(b), false)
}

/// Compare two file names as `wcsfilecmp_` does.
pub fn wcsfilecmp(a: &str, b: &str) -> (r: i32)
    ensures
        r == filecmp_from(a@, b@, false, 0, 0),
        -1 <= r <= 1,
        r == 0 ==> a@ == b@,
{
    wcsfilecmp_(a, b)
}

/// Compare two file names in the order that globs use: as `wcsfilecmp_`, but letters are
/// compared lowercased and dashes are not moved.
pub fn wcsfilecmp_glob_(a: &str, b: &str) -> (r: i32)
    ensures
        r == filecmp_from(a@, b@, true, 0, 0),
        -1 <= r <= 1,
        r == 0 ==> a@ == b@,
{
    filecmp(&chars_of(a), &chars_of(b), true)
}

/// Compare two file names as `wcsfilecmp_glob_` does.
pub fn wcsfilecmp_glob(a: &str, b: &str) -> (r: i32)
    ensures
        r == filecmp_from(a@, b@, true, 0, 0),
        -1 <= r <= 1,
        r == 0 ==> a@ == b@,
{
    wcsfilecmp_glob_(a, b)
}

} // verus!
