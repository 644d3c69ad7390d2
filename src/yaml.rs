//! Reading the legacy history format of fish 2.0, a near-YAML file:
//!
//! ```text
//! - cmd: ssh blah blah blah
//!   when: 2348237
//!   paths:
//!     - /path/to/something
//! ```
//!
//! Newlines in values are written `\n` and backslashes `\\`.
use vstd::prelude::*;
use crate::id::{pack_id, HistoryItemId};
use crate::item::{HistoryItem, ItemModel};
use crate::text::{lossy_text, utf8_lossy};

verus! {

pub open spec fn is_ascii_ws(b: u8) -> bool {
    b == 32 || b == 9 || b == 10 || b == 12 || b == 13
}

/// The bytes with escapes undone: `\\` is a backslash and `\n` a newline; at any other
/// backslash the text ends.
pub open spec fn unescaped(s: Seq<u8>) -> Seq<u8>
    decreases s.len(),
{
    if s.len() == 0 {
        s
    } else if s[0] != 92 {
        seq![s[0]] + unescaped(s.drop_first())
    } else if s.len() >= 2 && s[1] == 92 {
        seq![92u8] + unescaped(s.subrange(2, s.len() as int))
    } else if s.len() >= 2 && s[1] == 110 {
        seq![10u8] + unescaped(s.subrange(2, s.len() as int))
    } else {
        Seq::empty()
    }
}

/// Undo the escapes of the legacy format.
pub fn unescape_yaml_fish_2_0(s: &[u8]) -> (r: Vec<u8>)
    ensures
        r@ == unescaped(s@),
{
    let mut out: Vec<u8> = Vec::new();
    let mut i: usize = 0;
    proof {
        assert(s@.subrange(0, s@.len() as int) =~= s@);
        assert(out@ + unescaped(s@) =~= unescaped(s@));
    }
    while i < s.len()
        invariant
            i <= s@.len(),
            unescaped(s@) == out@ + unescaped(s@.subrange(i as int, s@.len() as int)),
        decreases s@.len() - i,
    {
        let ghost rest = s@.subrange(i as int, s@.len() as int);
        let ghost before = out@;
        proof {
            assert(rest[0] == s@[i as int]);
            if i + 1 < s@.len() {
                assert(rest[1] == s@[i + 1]);
                assert(rest.subrange(2, rest.len() as int) =~= s@.subrange(i + 2, s@.len() as int));
            }
            assert(rest.drop_first() =~= s@.subrange(i + 1, s@.len() as int));
        }
        if s[i] != 92 {
            out.push(s[i]);
            proof {
                assert(out@ + unescaped(s@.subrange(i + 1, s@.len() as int)) =~= before + unescaped(rest));
            }
            i = i + 1;
        } else if i + 1 < s.len() && s[i + 1] == 92 {
            out.push(92u8);
            proof {
                assert(out@ + unescaped(s@.subrange(i + 2, s@.len() as int)) =~= before + unescaped(rest));
            }
            i = i + 2;
        } else if i + 1 < s.len() && s[i + 1] == 110 {
            out.push(10u8);
            proof {
                assert(out@ + unescaped(s@.subrange(i + 2, s@.len() as int)) =~= before + unescaped(rest));
            }
            i = i + 2;
        } else {
            proof {
                assert(unescaped(rest) =~= Seq::<u8>::empty());
                assert(out@ + Seq::<u8>::empty() =~= out@);
            }
            return out;
        }
    }
    proof {
        assert(s@.subrange(i as int, s@.len() as int) =~= Seq::<u8>::empty());
        assert(out@ + Seq::<u8>::empty() =~= out@);
    }
    out
}

/// The number of leading bytes of `s` from `i` that satisfy ASCII whitespace.
pub open spec fn ws_run_end(s: Seq<u8>, i: int) -> int
    decreases s.len() - i,
{
    if 0 <= i < s.len() && is_ascii_ws(s[i]) { ws_run_end(s, i + 1) } else { i }
}

fn skip_ascii_ws(s: &[u8], i: usize) -> (r: usize)
    requires
        i <= s@.len(),
    ensures
        r == ws_run_end(s@, i as int),
        i <= r <= s@.len(),
    decreases s@.len() - i,
{
    if i < s.len() && (s[i] == 32 || s[i] == 9 || s[i] == 10 || s[i] == 12 || s[i] == 13) {
        skip_ascii_ws(s, i + 1)
    } else {
        i
    }
}

/// The first index of `c` in `s`, or the length.
pub open spec fn first_index_of(s: Seq<u8>, c: u8, i: int) -> int
    decreases s.len() - i,
{
    if i < 0 || i >= s.len() || s[i] == c { if i < 0 { 0 } else if i > s.len() { s.len() as int } else { i } } else { first_index_of(s, c, i + 1) }
}

fn find_byte(s: &[u8], c: u8, i: usize) -> (r: usize)
    requires
        i <= s@.len(),
    ensures
        r == first_index_of(s@, c, i as int),
        i <= r <= s@.len(),
    decreases s@.len() - i,
{
    if i >= s.len() || s[i] == c {
        i
    } else {
        find_byte(s, c, i + 1)
    }
}

/// The key and value of a `key: value` line, both unescaped; the value loses its leading
/// whitespace. None when the line has no colon.
pub open spec fn key_value(line: Seq<u8>) -> Option<(Seq<u8>, Seq<u8>)> {
    let c = first_index_of(line, 58, 0);
    if c >= line.len() {
        None
    } else {
        let v = ws_run_end(line, c + 1);
        Some((unescaped(line.subrange(0, c)), unescaped(line.subrange(v, line.len() as int))))
    }
}

/// The unescaped value of a `key: value` line; empty without a colon.
pub open spec fn value_of(line: Seq<u8>) -> Seq<u8> {
    match key_value(line) {
        Some(kv) => kv.1,
        None => Seq::empty(),
    }
}

/// Split a `key: value` line into its unescaped key and value.
pub fn extract_prefix_and_unescape_yaml(line: &[u8]) -> (r: Option<(Vec<u8>, Vec<u8>)>)
    ensures
        r matches Some(kv) ==> key_value(line@) == Some((kv.0@, kv.1@)),
        r is None ==> key_value(line@) is None,
{
    let c = find_byte(line, 58, 0);
    if c >= line.len() {
        return None;
    }
    let v = skip_ascii_ws(line, c + 1);
    let key = unescape_yaml_fish_2_0(&line[0..c]);
    let value = unescape_yaml_fish_2_0(&line[v..line.len()]);
    Some((key, value))
}

/// Whether `p` is a prefix of `s`.
pub open spec fn bytes_prefix(p: Seq<u8>, s: Seq<u8>) -> bool {
    p.len() <= s.len() && s.subrange(0, p.len() as int) == p
}

fn has_prefix(s: &[u8], p: &[u8]) -> (r: bool)
    ensures
        r == bytes_prefix(p@, s@),
{
    if p.len() > s.len() {
        return false;
    }
    let mut k: usize = 0;
    while k < p.len()
        invariant
            k <= p@.len(),
            p@.len() <= s@.len(),
            forall|q: int| 0 <= q < k ==> s@[q] == p@[q],
        decreases p@.len() - k,
    {
        if s[k] != p[k] {
            proof {
                assert(s@.subrange(0, p@.len() as int)[k as int] != p@[k as int]);
            }
            return false;
        }
        k = k + 1;
    }
    proof {
        assert(s@.subrange(0, p@.len() as int) =~= p@);
    }
    true
}

/// The span of the line at `pos`: its start, the position of its newline and the position
/// after it. A last line without a newline is not read: all three are the end.
pub open spec fn line_span(data: Seq<u8>, pos: int) -> (int, int, int) {
    let e = first_index_of(data, 10, pos);
    if e < data.len() {
        (pos, e, e + 1)
    } else {
        (data.len() as int, data.len() as int, data.len() as int)
    }
}

fn read_line(data: &[u8], pos: usize) -> (r: (usize, usize, usize))
    requires
        pos <= data@.len(),
    ensures
        (r.0 as int, r.1 as int, r.2 as int) == line_span(data@, pos as int),
        pos <= r.0 <= r.1 <= r.2 <= data@.len(),
        r.2 > pos || r.2 == data@.len(),
        r.1 < data@.len() ==> data@[r.1 as int] == 10,
{
    let nl = find_byte(data, 10, pos);
    if nl < data.len() {
        proof {
            lemma_first_index(data@, 10, pos as int);
        }
        (pos, nl, nl + 1)
    } else {
        (data.len(), data.len(), data.len())
    }
}

proof fn lemma_first_index(s: Seq<u8>, c: u8, i: int)
    requires
        0 <= i <= s.len(),
    ensures
        i <= first_index_of(s, c, i) <= s.len(),
        first_index_of(s, c, i) < s.len() ==> s[first_index_of(s, c, i)] == c,
    decreases s.len() - i,
{
    if i < s.len() && s[i] != c {
        lemma_first_index(s, c, i + 1);
    }
}

/// The first position at or after `i` and before `end` that holds no space.
pub open spec fn spaces_end(data: Seq<u8>, i: int, end: int) -> int
    decreases end - i,
{
    if 0 <= i < end && i < data.len() && data[i] == 32 { spaces_end(data, i + 1, end) } else { i }
}

fn count_spaces(s: &[u8], start: usize, end: usize) -> (r: usize)
    requires
        start <= end <= s@.len(),
    ensures
        r == spaces_end(s@, start as int, end as int),
        start <= r <= end,
    decreases end - start,
{
    if start < end && s[start] == 32 {
        count_spaces(s, start + 1, end)
    } else {
        start
    }
}

/// The digits of a `when:` value: the value without a leading sign.
pub open spec fn seconds_digits(v: Seq<u8>) -> Seq<u8> {
    if v.len() > 0 && (v[0] == 45 || v[0] == 43) { v.drop_first() } else { v }
}

/// Whether every byte is a decimal digit.
pub open spec fn all_digits(s: Seq<u8>) -> bool {
    forall|i: int| 0 <= i < s.len() ==> crate::lines::is_digit(#[trigger] s[i])
}

/// The seconds that a `when:` value gives, as `str::parse::<i64>` reads it: an optional
/// sign and at least one decimal digit, within the range of `i64`; anything else is 0.
pub open spec fn seconds_value(v: Seq<u8>) -> i64 {
    let ds = seconds_digits(v);
    if ds.len() == 0 || !all_digits(ds) {
        0
    } else if v[0] == 45 {
        if crate::lines::decimal_value(ds) <= 0x8000000000000000 { (-crate::lines::decimal_value(ds)) as i64 } else { 0 }
    } else {
        if crate::lines::decimal_value(ds) <= 0x7fffffffffffffff { crate::lines::decimal_value(ds) as i64 } else { 0 }
    }
}

fn parse_seconds(v: &[u8]) -> (r: i64)
    ensures
        r == seconds_value(v@),
{
    let mut start: usize = 0;
    if v.len() > 0 && (v[0] == 45 || v[0] == 43) {
        start = 1;
    }
    let ghost ds = v@.subrange(start as int, v@.len() as int);
    proof {
        if start == 1 {
            assert(ds =~= v@.drop_first());
        } else {
            assert(ds =~= v@);
        }
    }
    if start >= v.len() {
        return 0;
    }
    let mut k = start;
    while k < v.len()
        invariant
            start <= k <= v@.len(),
            ds == v@.subrange(start as int, v@.len() as int),
            ds == seconds_digits(v@),
            forall|q: int| start <= q < k ==> crate::lines::is_digit(#[trigger] v@[q]),
        decreases v@.len() - k,
    {
        if v[k] < 48 || v[k] > 57 {
            proof {
                assert(ds[k - start] == v@[k as int]);
                assert(!crate::lines::is_digit(ds[k - start]));
                assert(!all_digits(ds));
                assert(seconds_value(v@) == 0);
            }
            return 0;
        }
        k = k + 1;
    }
    proof {
        assert forall|i: int| 0 <= i < ds.len() implies crate::lines::is_digit(#[trigger] ds[i]) by {
            assert(ds[i] == v@[start + i]);
        }
    }
    let limit: u64 = if v[0] == 45 { 0x8000000000000000 } else { 0x7fffffffffffffff };
    let mut n: u64 = 0;
    let mut i = start;
    while i < v.len()
        invariant
            start <= i <= v@.len(),
            start < v@.len(),
            ds == v@.subrange(start as int, v@.len() as int),
            ds == seconds_digits(v@),
            ds.len() > 0,
            forall|i: int| 0 <= i < ds.len() ==> crate::lines::is_digit(#[trigger] ds[i]),
            forall|q: int| start <= q < v@.len() ==> crate::lines::is_digit(#[trigger] v@[q]),
            n == crate::lines::decimal_value(v@.subrange(start as int, i as int)),
            n <= limit,
            0x7fffffffffffffff <= limit <= 0x8000000000000000,
            limit == (if v@[0] == 45 { 0x8000000000000000u64 } else { 0x7fffffffffffffffu64 }),
        decreases v@.len() - i,
    {
        let d = (v[i] - 48) as u64;
        proof {
            let t = v@.subrange(start as int, i + 1);
            assert(t.drop_last() =~= v@.subrange(start as int, i as int));
            assert(crate::lines::decimal_value(t) == n as int * 10 + d);
            crate::lines::lemma_decimal_grows(v@, start as int, i + 1, v@.len() as int);
        }
        if n > (limit - d) / 10 {
            proof {
                assert(n as int * 10 + d > limit) by (nonlinear_arith)
                    requires n > (limit - d) / 10, d <= 9, limit >= 9;
                assert(crate::lines::decimal_value(ds) > limit);
            }
            return 0;
        }
        proof {
            assert(n as int * 10 + d <= limit) by (nonlinear_arith)
                requires n <= (limit - d) / 10, d <= 9, limit >= 9;
        }
        n = n * 10 + d;
        i = i + 1;
    }
    proof {
        assert(v@.subrange(start as int, v@.len() as int) == ds);
    }
    if v[0] == 45 {
        if n == 0x8000000000000000 { i64::MIN } else { -(n as i64) }
    } else {
        n as i64
    }
}

/// The millisecond timestamp of a time in seconds since the epoch; times before the epoch
/// count as the epoch.
pub open spec fn seconds_to_ms(secs: i64) -> u64 {
    if secs <= 0 { 0 } else { ((secs as int * 1000) % 0x1_0000_0000_0000_0000) as u64 }
}

fn ms_of_seconds(secs: i64) -> (r: u64)
    ensures
        r == seconds_to_ms(secs),
{
    if secs <= 0 {
        0
    } else {
        let wide: u128 = (secs as u128) * 1000;
        (wide % 0x1_0000_0000_0000_0000u128) as u64
    }
}

/// The bytes `- cmd`.
pub open spec fn cmd_marker() -> Seq<u8> {
    seq![45u8, 32u8, 99u8, 109u8, 100u8]
}

/// The first line at `pos` without leading whitespace; empty when the line has no newline
/// or holds only whitespace.
pub open spec fn head_line(data: Seq<u8>, pos: int) -> Seq<u8> {
    let e = first_index_of(data, 10, pos);
    let t = ws_run_end(data, pos);
    if e >= data.len() || t > e {
        Seq::empty()
    } else {
        data.subrange(t, e)
    }
}

proof fn lemma_ws_run_end(s: Seq<u8>, i: int)
    requires
        0 <= i <= s.len(),
    ensures
        i <= ws_run_end(s, i) <= s.len(),
    decreases s.len() - i,
{
    if i < s.len() && is_ascii_ws(s[i]) {
        lemma_ws_run_end(s, i + 1);
    }
}

/// The key `when`.
pub open spec fn when_key() -> Seq<u8> {
    seq![119u8, 104u8, 101u8, 110u8]
}

/// The key `paths`.
pub open spec fn paths_key() -> Seq<u8> {
    seq![112u8, 97u8, 116u8, 104u8, 115u8]
}

/// The `when` seconds and the paths read from the body of an item, line by line from
/// `cursor`. Body lines are indented by the indent of the first one (`indent` is -1 until
/// it is known); a `when:` line sets the seconds, a `paths:` line is followed by more
/// indented `- <path>` lines (`in_paths`); the body ends at the first line that is not
/// indented like that, has no colon, or is not newline-terminated.
pub open spec fn scan_fields(data: Seq<u8>, cursor: int, indent: int, in_paths: bool, when: i64, paths: Seq<Seq<char>>) -> (i64, Seq<Seq<char>>)
    decreases (data.len() - cursor) * 2 + if in_paths { 1int } else { 0int },
{
    let (ls, le, next) = line_span(data, cursor);
    if cursor < 0 || cursor >= data.len() || next <= cursor {
        (when, paths)
    } else {
        let sp = spaces_end(data, ls, le);
        if in_paths {
            if sp - ls <= indent || !(le - sp >= 2 && data[sp] == 45 && data[sp + 1] == 32) {
                scan_fields(data, cursor, indent, false, when, paths)
            } else {
                scan_fields(data, next, indent, true, when, paths.push(lossy_text(unescaped(data.subrange(sp + 2, le)))))
            }
        } else {
            let ti = sp - ls;
            let ind = if indent < 0 { ti } else { indent };
            if ti == 0 || ind != ti {
                (when, paths)
            } else {
                match key_value(data.subrange(sp, le)) {
                    None => (when, paths),
                    Some(kv) => if kv.0 == when_key() {
                        scan_fields(data, next, ind, false, seconds_value(kv.1), paths)
                    } else if kv.0 == paths_key() {
                        scan_fields(data, next, ind, true, when, paths)
                    } else {
                        scan_fields(data, next, ind, false, when, paths)
                    },
                }
            }
        }
    }
}

/// The item decoded at `pos` with a nonce: None unless the first line (after whitespace)
/// starts with `- cmd` and has a colon. The text is the unescaped value of that line read
/// as UTF-8 with replacement characters, the identifier is made of the `when` time and the
/// nonce, and the paths are those listed under `paths:`.
pub open spec fn decoded_item(data: Seq<u8>, pos: int, nonce: u16) -> Option<ItemModel> {
    let line = head_line(data, pos);
    if bytes_prefix(cmd_marker(), line) && key_value(line) is Some {
        let body = scan_fields(data, line_span(data, pos).2, -1, false, 0, Seq::empty());
        Some(ItemModel {
            contents: lossy_text(value_of(line)),
            paths: body.1,
            ..crate::item::empty_item(pack_id(seconds_to_ms(body.0), nonce))
        })
    } else {
        None
    }
}

/// Decode one item that starts at `pos`: a line `- cmd: <text>`, then indented `when:`
/// and `paths:` entries.
pub fn decode_item_fish_2_0(data: &[u8], pos: usize, nonce: u16) -> (r: Option<HistoryItem>)
    requires
        pos <= data@.len(),
    ensures
        r is Some <==> decoded_item(data@, pos as int, nonce) is Some,
        r matches Some(it) ==> decoded_item(data@, pos as int, nonce) == Some(it@),
{
    let (ls, le, next) = read_line(data, pos);
    let t = skip_ascii_ws(data, ls);
    let first: &[u8] = if t <= le { &data[t..le] } else { &data[le..le] };
    proof {
        lemma_ws_run_end(data@, pos as int);
        lemma_first_index(data@, 10, pos as int);
        if first_index_of(data@, 10, pos as int) >= data@.len() {
            assert(first@ =~= Seq::<u8>::empty());
            assert(ws_run_end(data@, data@.len() as int) == data@.len());
        }
        assert(first@ =~= head_line(data@, pos as int));
    }
    let marker: Vec<u8> = vec![45, 32, 99, 109, 100];
    proof {
        assert(marker@ =~= cmd_marker());
    }
    if !has_prefix(first, marker.as_slice()) {
        return None;
    }
    let (_key, value) = match extract_prefix_and_unescape_yaml(first) {
        Some(kv) => kv,
        None => return None,
    };
    let cmd = utf8_lossy(value.as_slice());
    let ghost target = scan_fields(data@, next as int, -1, false, 0, Seq::empty());
    let mut cursor = next;
    let mut indent: Option<usize> = None;
    let mut when: i64 = 0;
    let mut paths: Vec<String> = Vec::new();
    proof {
        assert(paths.deep_view() =~= Seq::<Seq<char>>::empty());
    }
    let mut done = false;
    while !done
        invariant
            cursor <= data@.len(),
            !done ==> scan_fields(data@, cursor as int, match indent { Some(x) => x as int, None => -1 }, false, when, paths.deep_view()) == target,
            done ==> target == (when, paths.deep_view()),
        decreases data@.len() - cursor + if done { 0int } else { 1int },
    {
        if cursor >= data.len() {
            proof {
                assert(scan_fields(data@, cursor as int, match indent { Some(x) => x as int, None => -1 }, false, when, paths.deep_view()) == (when, paths.deep_view()));
            }
            done = true;
            continue;
        }
        let ghost c0 = cursor as int;
        let ghost ind0: int = match indent { Some(x) => x as int, None => -1 };
        let ghost w0 = when;
        let ghost p0 = paths.deep_view();
        let (ls2, le2, next2) = read_line(data, cursor);
        let sp = count_spaces(data, ls2, le2);
        let this_indent = sp - ls2;
        let ind = match indent {
            Some(x) => x,
            None => {
                indent = Some(this_indent);
                this_indent
            },
        };
        proof {
            assert(ind as int == (if ind0 < 0 { (sp - ls2) as int } else { ind0 }));
        }
        if this_indent == 0 || ind != this_indent {
            proof {
                assert(scan_fields(data@, c0, ind0, false, w0, p0) == (w0, p0));
            }
            done = true;
            continue;
        }
        let line2 = &data[sp..le2];
        let (key, value) = match extract_prefix_and_unescape_yaml(line2) {
            Some(kv) => kv,
            None => {
                proof {
                    assert(scan_fields(data@, c0, ind0, false, w0, p0) == (w0, p0));
                }
                done = true;
                continue;
            },
        };
        proof {
            assert(key_value(data@.subrange(sp as int, le2 as int)) == Some((key@, value@)));
        }
        cursor = next2;
        if key.len() == 4 && key[0] == 119 && key[1] == 104 && key[2] == 101 && key[3] == 110 {
            proof {
                assert(key@ =~= when_key());
            }
            when = parse_seconds(value.as_slice());
            proof {
                assert(scan_fields(data@, c0, ind0, false, w0, p0) == scan_fields(data@, next2 as int, ind as int, false, when, p0));
            }
        } else if key.len() == 5 && key[0] == 112 && key[1] == 97 && key[2] == 116 && key[3] == 104 && key[4] == 115 {
            proof {
                assert(key@ =~= paths_key());
                assert(key@ != when_key());
                assert(scan_fields(data@, c0, ind0, false, w0, p0) == scan_fields(data@, next2 as int, ind as int, true, w0, p0));
            }
            let mut in_paths = true;
            while in_paths
                invariant
                    next2 <= cursor <= data@.len(),
                    indent == Some(ind),
                    in_paths ==> scan_fields(data@, cursor as int, ind as int, true, when, paths.deep_view()) == target,
                    !in_paths ==> scan_fields(data@, cursor as int, ind as int, false, when, paths.deep_view()) == target,
                decreases data@.len() - cursor + if in_paths { 1int } else { 0int },
            {
                let ghost c1 = cursor as int;
                let ghost p1 = paths.deep_view();
                if cursor >= data.len() {
                    proof {
                        assert(scan_fields(data@, c1, ind as int, true, when, p1) == (when, p1));
                        assert(scan_fields(data@, c1, ind as int, false, when, p1) == (when, p1));
                    }
                    in_paths = false;
                } else {
                    let (ls3, le3, next3) = read_line(data, cursor);
                    let sp3 = count_spaces(data, ls3, le3);
                    if sp3 - ls3 <= ind || !(le3 - sp3 >= 2 && data[sp3] == 45 && data[sp3 + 1] == 32) {
                        proof {
                            assert(scan_fields(data@, c1, ind as int, true, when, p1) == scan_fields(data@, c1, ind as int, false, when, p1));
                        }
                        in_paths = false;
                    } else {
                        cursor = next3;
                        let p = unescape_yaml_fish_2_0(&data[sp3 + 2..le3]);
                        let text = utf8_lossy(p.as_slice());
                        let ghost tv = text@;
                        paths.push(text);
                        proof {
                            assert(paths.deep_view() =~= p1.push(tv));
                            assert(tv == lossy_text(unescaped(data@.subrange(sp3 + 2, le3 as int))));
                            assert(scan_fields(data@, c1, ind as int, true, when, p1) == scan_fields(data@, next3 as int, ind as int, true, when, p1.push(tv)));
                        }
                    }
                }
            }
        } else {
            proof {
                if key@ == when_key() {
                    assert(key@.len() == 4);
                    assert(key@[0] == 119 && key@[1] == 104 && key@[2] == 101 && key@[3] == 110);
                }
                if key@ == paths_key() {
                    assert(key@.len() == 5);
                    assert(key@[0] == 112 && key@[1] == 97 && key@[2] == 116 && key@[3] == 104 && key@[4] == 115);
                }
                assert(scan_fields(data@, c0, ind0, false, w0, p0) == scan_fields(data@, next2 as int, ind as int, false, w0, p0));
            }
        }
    }
    let ms = ms_of_seconds(when);
    let id = HistoryItemId::new(ms, nonce);
    let mut result = HistoryItem::with_id(id);
    result.contents = cmd;
    result.set_required_paths(paths);
    Some(result)
}

/// The bytes `- cmd: - cmd: `, which a file rewritten by fish 1.x may repeat at the
/// start of a line.
pub open spec fn repeated_marker() -> Seq<u8> {
    seq![45u8, 32u8, 99u8, 109u8, 100u8, 58u8, 32u8, 45u8, 32u8, 99u8, 109u8, 100u8, 58u8, 32u8]
}

/// The bytes `- cmd:    when:`, a leftover of fish 1.x.
pub open spec fn stray_when_marker() -> Seq<u8> {
    seq![45u8, 32u8, 99u8, 109u8, 100u8, 58u8, 32u8, 32u8, 32u8, 32u8, 119u8, 104u8, 101u8, 110u8, 58u8]
}

/// Where a line's text starts once repeated `- cmd: ` markers are cut to one.
pub open spec fn strip_repeats(data: Seq<u8>, start: int, le: int) -> int
    decreases le - start,
{
    if 0 <= start <= le && le <= data.len() && bytes_prefix(repeated_marker(), data.subrange(start, le)) {
        strip_repeats(data, start + 7, le)
    } else {
        start
    }
}

/// Whether a line does not begin an item: indented, a YAML marker (`%`, `---`, `...`), a
/// leftover `- cmd:    when:`, starting with a NUL byte, or not starting with `- cmd`.
pub open spec fn skipped_line(line: Seq<u8>) -> bool {
    bytes_prefix(seq![32u8], line) || bytes_prefix(seq![37u8], line) || bytes_prefix(seq![45u8, 45u8, 45u8], line)
        || bytes_prefix(seq![46u8, 46u8, 46u8], line) || bytes_prefix(stray_when_marker(), line)
        || bytes_prefix(seq![0u8], line) || !bytes_prefix(cmd_marker(), line)
}

/// The next nonce, wrapping at the end of `u16`.
pub open spec fn next_nonce(n: u16) -> u16 {
    if n == u16::MAX { 0 } else { (n + 1) as u16 }
}

/// The items of a legacy file from `cursor` on, in file order: each newline-terminated line
/// that begins an item and decodes gives one item, with nonces counting up from `nonce`.
pub open spec fn legacy_items(data: Seq<u8>, cursor: int, nonce: u16) -> Seq<ItemModel>
    decreases data.len() - cursor,
{
    let (ls, le, next) = line_span(data, cursor);
    if cursor < 0 || cursor >= data.len() || le >= data.len() || next <= cursor {
        Seq::empty()
    } else {
        let start = strip_repeats(data, ls, le);
        if !skipped_line(data.subrange(start, le)) && decoded_item(data, start, nonce) is Some {
            seq![decoded_item(data, start, nonce)->0] + legacy_items(data, next, next_nonce(nonce))
        } else {
            legacy_items(data, next, nonce)
        }
    }
}

fn byte_vec_prefix(line: &[u8], p: &Vec<u8>) -> (r: bool)
    ensures
        r == bytes_prefix(p@, line@),
{
    has_prefix(line, p.as_slice())
}

/// Every item of a legacy file, in file order, with nonces 0, 1, 2, ...
pub fn iterate_fish_2_0_history(contents: &[u8]) -> (r: Vec<HistoryItem>)
    ensures
        crate::history::item_views(r@) == legacy_items(contents@, 0, 0),
{
    let repeated: Vec<u8> = vec![45, 32, 99, 109, 100, 58, 32, 45, 32, 99, 109, 100, 58, 32];
    let space: Vec<u8> = vec![32];
    let percent: Vec<u8> = vec![37];
    let dashes: Vec<u8> = vec![45, 45, 45];
    let dots: Vec<u8> = vec![46, 46, 46];
    let stray: Vec<u8> = vec![45, 32, 99, 109, 100, 58, 32, 32, 32, 32, 119, 104, 101, 110, 58];
    let nul: Vec<u8> = vec![0];
    let marker: Vec<u8> = vec![45, 32, 99, 109, 100];
    proof {
        assert(repeated@ =~= repeated_marker());
        assert(space@ =~= seq![32u8]);
        assert(percent@ =~= seq![37u8]);
        assert(dashes@ =~= seq![45u8, 45u8, 45u8]);
        assert(dots@ =~= seq![46u8, 46u8, 46u8]);
        assert(stray@ =~= stray_when_marker());
        assert(nul@ =~= seq![0u8]);
        assert(marker@ =~= cmd_marker());
    }
    let mut out: Vec<HistoryItem> = Vec::new();
    let mut nonce: u16 = 0;
    let mut cursor: usize = 0;
    let mut done = false;
    proof {
        assert(crate::history::item_views(out@) + legacy_items(contents@, 0, 0) =~= legacy_items(contents@, 0, 0));
    }
    while !done && cursor < contents.len()
        invariant
            cursor <= contents@.len(),
            repeated@ == repeated_marker(),
            space@ == seq![32u8],
            percent@ == seq![37u8],
            dashes@ == seq![45u8, 45u8, 45u8],
            dots@ == seq![46u8, 46u8, 46u8],
            stray@ == stray_when_marker(),
            nul@ == seq![0u8],
            marker@ == cmd_marker(),
            !done ==> crate::history::item_views(out@) + legacy_items(contents@, cursor as int, nonce) == legacy_items(contents@, 0, 0),
            done ==> crate::history::item_views(out@) == legacy_items(contents@, 0, 0),
        decreases contents@.len() - cursor + if done { 0int } else { 1int },
    {
        let ghost c0 = cursor as int;
        let ghost n0 = nonce;
        let (ls, le, next) = read_line(contents, cursor);
        if le >= contents.len() {
            proof {
                assert(legacy_items(contents@, c0, n0) =~= Seq::<ItemModel>::empty());
                assert(crate::history::item_views(out@) + Seq::<ItemModel>::empty() =~= crate::history::item_views(out@));
            }
            done = true;
        } else {
            let mut start = ls;
            while start <= le && has_prefix(&contents[start..le], repeated.as_slice())
                invariant
                    ls <= start <= le,
                    le < contents@.len(),
                    repeated@ == repeated_marker(),
                    repeated@.len() == 14,
                    strip_repeats(contents@, ls as int, le as int) == strip_repeats(contents@, start as int, le as int),
                decreases le - start,
            {
                start = start + 7;
            }
            proof {
                assert(strip_repeats(contents@, start as int, le as int) == start);
            }
            let line = &contents[start..le];
            let skip = byte_vec_prefix(line, &space) || byte_vec_prefix(line, &percent) || byte_vec_prefix(line, &dashes)
                || byte_vec_prefix(line, &dots) || byte_vec_prefix(line, &stray) || byte_vec_prefix(line, &nul)
                || !byte_vec_prefix(line, &marker);
            proof {
                assert(skip == skipped_line(contents@.subrange(start as int, le as int)));
            }
            let ghost before = crate::history::item_views(out@);
            if !skip {
                match decode_item_fish_2_0(contents, start, nonce) {
                    Some(item) => {
                        let ghost iv = item@;
                        out.push(item);
                        proof {
                            assert(legacy_items(contents@, c0, n0) == seq![iv] + legacy_items(contents@, next as int, next_nonce(n0)));
                            assert(crate::history::item_views(out@) =~= before.push(iv));
                            assert(before.push(iv) + legacy_items(contents@, next as int, next_nonce(n0)) =~= before + (seq![iv] + legacy_items(contents@, next as int, next_nonce(n0))));
                        }
                        nonce = if nonce == u16::MAX { 0 } else { nonce + 1 };
                    },
                    None => {
                        proof {
                            assert(legacy_items(contents@, c0, n0) == legacy_items(contents@, next as int, n0));
                        }
                    },
                }
            } else {
                proof {
                    assert(legacy_items(contents@, c0, n0) == legacy_items(contents@, next as int, n0));
                }
            }
            cursor = next;
        }
    }
    proof {
        if !done {
            assert(legacy_items(contents@, cursor as int, nonce) =~= Seq::<ItemModel>::empty());
            assert(crate::history::item_views(out@) + Seq::<ItemModel>::empty() =~= crate::history::item_views(out@));
        }
    }
    out
}

} // verus!
