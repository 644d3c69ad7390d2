//! Lines of a record file, and the fast reading of the identifier at the head of a record.
use vstd::prelude::*;
use crate::id::{b64_decoded, base64_decode_u64};

verus! {

pub const NEWLINE: u8 = 10;

/// The index of the first newline at or after `i`, or the length when there is none.
pub open spec fn line_end(buf: Seq<u8>, i: int) -> int
    decreases buf.len() - i,
{
    if i < 0 || i >= buf.len() || buf[i] == NEWLINE {
        if i < 0 {
            0
        } else if i > buf.len() {
            buf.len() as int
        } else {
            i
        }
    } else {
        line_end(buf, i + 1)
    }
}

/// The line that starts at `start`, without its newline; empty past the end.
pub open spec fn line_at(buf: Seq<u8>, start: int) -> Seq<u8> {
    if 0 <= start <= buf.len() {
        buf.subrange(start, line_end(buf, start))
    } else {
        Seq::empty()
    }
}

/// Where the line after the one at `start` begins, if that is before the end of the buffer.
pub open spec fn next_line_start(buf: Seq<u8>, start: int) -> Option<int> {
    if 0 <= start <= buf.len() && line_end(buf, start) + 1 < buf.len() {
        Some(line_end(buf, start) + 1)
    } else {
        None
    }
}

/// Whether a line begins at `off`: inside the buffer, at its start or after a newline.
pub open spec fn is_line_start(buf: Seq<u8>, off: int) -> bool {
    0 <= off < buf.len() && (off == 0 || buf[off - 1] == NEWLINE)
}

/// A line's end lies between its start and the buffer's end, at a newline unless at the end;
/// no newline comes before it, and every position up to it has the same end.
pub proof fn lemma_line_end_bounds(buf: Seq<u8>, i: int)
    requires
        0 <= i <= buf.len(),
    ensures
        i <= line_end(buf, i) <= buf.len(),
        line_end(buf, i) < buf.len() ==> buf[line_end(buf, i)] == NEWLINE,
        forall|j: int| i <= j < line_end(buf, i) ==> buf[j] != NEWLINE,
        forall|j: int| i <= j <= line_end(buf, i) ==> line_end(buf, j) == line_end(buf, i),
    decreases buf.len() - i,
{
    if i < buf.len() && buf[i] != NEWLINE {
        lemma_line_end_bounds(buf, i + 1);
    }
}

/// Read the line starting at `line_start`. Returns the line (without its newline) and the
/// offset of the next line, or None if this is the last line.
pub fn read_line_at(buf: &[u8], line_start: usize) -> (r: (&[u8], Option<usize>))
    ensures
        r.0@ == line_at(buf@, line_start as int),
        r.1 matches Some(n) ==> next_line_start(buf@, line_start as int) == Some(n as int),
        r.1 is None ==> next_line_start(buf@, line_start as int) is None,
{
    if line_start > buf.len() {
        return (&buf[0..0], None);
    }
    let mut i = line_start;
    proof {
        lemma_line_end_bounds(buf@, line_start as int);
    }
    while i < buf.len() && buf[i] != NEWLINE
        invariant
            line_start <= i <= buf@.len(),
            line_end(buf@, i as int) == line_end(buf@, line_start as int),
        decreases buf@.len() - i,
    {
        i = i + 1;
    }
    let line = &buf[line_start..i];
    if i < buf.len() && i + 1 < buf.len() {
        (line, Some(i + 1))
    } else {
        (line, None)
    }
}

/// The offsets at which lines begin, in order, as iter_lines yields them.
pub open spec fn line_starts_from(buf: Seq<u8>, start: int) -> Seq<int>
    decreases buf.len() - start,
{
    if start < 0 || start >= buf.len() {
        Seq::empty()
    } else {
        let e = line_end(buf, start);
        if e + 1 <= start || e + 1 >= buf.len() {
            seq![start]
        } else {
            seq![start] + line_starts_from(buf, e + 1)
        }
    }
}

/// Every line of a buffer with its offset, in order; newlines are not retained. A final
/// newline does not begin another, empty, line.
pub fn iter_lines(buf: &[u8]) -> (r: Vec<(usize, &[u8])>)
    ensures
        r@.len() == line_starts_from(buf@, 0).len(),
        forall|k: int|
            0 <= k < r@.len() ==> {
                &&& (#[trigger] r@[k]).0 as int == line_starts_from(buf@, 0)[k]
                &&& r@[k].1@ == line_at(buf@, r@[k].0 as int)
            },
{
    let mut out: Vec<(usize, &[u8])> = Vec::new();
    let mut offset: usize = 0;
    while offset < buf.len()
        invariant
            offset <= buf@.len(),
            line_starts_from(buf@, 0) == out@.map_values(|p: (usize, &[u8])| p.0 as int)
                + line_starts_from(buf@, offset as int),
            forall|k: int|
                0 <= k < out@.len() ==> (#[trigger] out@[k]).1@ == line_at(
                    buf@,
                    out@[k].0 as int,
                ),
        decreases buf@.len() - offset,
    {
        let start = offset;
        let (line, next) = read_line_at(buf, start);
        proof {
            lemma_line_end_bounds(buf@, start as int);
        }
        let ghost before = out@;
        out.push((start, line));
        offset = match next {
            Some(n) => n,
            None => buf.len(),
        };
        proof {
            let e = line_end(buf@, start as int);
            assert(line_starts_from(buf@, start as int) =~= seq![start as int]
                + line_starts_from(buf@, e + 1));
            if next is None {
                assert(line_starts_from(buf@, e + 1) =~= Seq::<int>::empty());
                assert(line_starts_from(buf@, offset as int) =~= Seq::<int>::empty());
            }
            assert(out@.map_values(|p: (usize, &[u8])| p.0 as int) =~= before.map_values(
                |p: (usize, &[u8])| p.0 as int,
            ).push(start as int));
        }
    }
    proof {
        assert(line_starts_from(buf@, offset as int) =~= Seq::<int>::empty());
        assert(line_starts_from(buf@, 0) =~= out@.map_values(|p: (usize, &[u8])| p.0 as int));
    }
    out
}

/// ASCII whitespace as `u8::is_ascii_whitespace` has it: space, tab, line feed, form feed,
/// carriage return.
pub open spec fn is_ws(b: u8) -> bool {
    b == 32 || b == 9 || b == 10 || b == 12 || b == 13
}

pub open spec fn is_digit(b: u8) -> bool {
    48 <= b <= 57
}

/// The first index at or after `i` that holds no whitespace.
pub open spec fn skip_ws(s: Seq<u8>, i: int) -> int
    decreases s.len() - i,
{
    if 0 <= i < s.len() && is_ws(s[i]) {
        skip_ws(s, i + 1)
    } else {
        i
    }
}

/// The first index at or after `i` that holds no decimal digit.
pub open spec fn digits_end(s: Seq<u8>, i: int) -> int
    decreases s.len() - i,
{
    if 0 <= i < s.len() && is_digit(s[i]) {
        digits_end(s, i + 1)
    } else {
        i
    }
}

/// The number that a run of decimal digits spells.
pub open spec fn decimal_value(s: Seq<u8>) -> int
    decreases s.len(),
{
    if s.len() == 0 {
        0
    } else {
        decimal_value(s.drop_last()) * 10 + (s.last() - 48)
    }
}

/// The bytes `"id"`.
pub open spec fn id_key() -> Seq<u8> {
    seq![34u8, 105u8, 100u8, 34u8]
}

/// Where the value of the identifier begins, for a line that opens with `{`, the key
/// `"id"` and a colon, whitespace allowed around each.
pub open spec fn id_value_start(s: Seq<u8>) -> Option<int> {
    let a = skip_ws(s, 0);
    if a < s.len() && s[a] == 123 {
        let b = skip_ws(s, a + 1);
        if b + 4 <= s.len() && s.subrange(b, b + 4) == id_key() {
            let c = skip_ws(s, b + 4);
            if c < s.len() && s[c] == 58 {
                Some(skip_ws(s, c + 1))
            } else {
                None
            }
        } else {
            None
        }
    } else {
        None
    }
}

/// The identifier that a line gives at its head: a decimal number without leading zeros
/// that fits in 64 bits, or a string of eleven base64 digits. Whatever follows is not read.
pub open spec fn fast_id(s: Seq<u8>) -> Option<u64> {
    match id_value_start(s) {
        None => None,
        Some(v) => if v < s.len() && is_digit(s[v]) {
            let e = digits_end(s, v);
            if s[v] == 48 && e > v + 1 {
                None
            } else if decimal_value(s.subrange(v, e)) <= u64::MAX {
                Some(decimal_value(s.subrange(v, e)) as u64)
            } else {
                None
            }
        } else if v + 12 < s.len() && s[v] == 34 && s[v + 12] == 34 {
            b64_decoded(s.subrange(v + 1, v + 12))
        } else {
            None
        },
    }
}

fn skip_ws_exec(line: &[u8], i: usize) -> (r: usize)
    requires
        i <= line@.len(),
    ensures
        r == skip_ws(line@, i as int),
        i <= r <= line@.len(),
    decreases line@.len() - i,
{
    if i < line.len() && (line[i] == 32 || line[i] == 9 || line[i] == 10 || line[i] == 12
        || line[i] == 13) {
        skip_ws_exec(line, i + 1)
    } else {
        i
    }
}

pub proof fn lemma_decimal_grows(s: Seq<u8>, v: int, j: int, e: int)
    requires
        0 <= v <= j <= e <= s.len(),
        forall|k: int| v <= k < e ==> is_digit(#[trigger] s[k]),
    ensures
        decimal_value(s.subrange(v, j)) <= decimal_value(s.subrange(v, e)),
        decimal_value(s.subrange(v, j)) >= 0,
    decreases e - v,
{
    if e > v {
        let t = s.subrange(v, e);
        assert(t.drop_last() =~= s.subrange(v, e - 1));
        assert(is_digit(s[e - 1]));
        lemma_decimal_grows(s, v, if j == e { e - 1 } else { j }, e - 1);
        lemma_decimal_grows(s, v, e - 1, e - 1);
        if j < e {
            lemma_decimal_grows(s, v, j, e - 1);
        }
    }
}

pub proof fn lemma_digits_end(s: Seq<u8>, i: int)
    requires
        0 <= i <= s.len(),
    ensures
        i <= digits_end(s, i) <= s.len(),
        forall|k: int| i <= k < digits_end(s, i) ==> is_digit(#[trigger] s[k]),
        digits_end(s, i) < s.len() ==> !is_digit(s[digits_end(s, i)]),
        forall|k: int| i <= k <= digits_end(s, i) ==> digits_end(s, k) == digits_end(s, i),
    decreases s.len() - i,
{
    if i < s.len() && is_digit(s[i]) {
        lemma_digits_end(s, i + 1);
    }
}

/// Read the identifier at the head of a line without parsing the line as JSON. A line
/// whose identifier is found here is not otherwise checked: that happens when the item
/// is assembled.
pub fn try_parse_id_fast(line: &[u8]) -> (r: Option<u64>)
    ensures
        r == fast_id(line@),
{
    let a = skip_ws_exec(line, 0);
    if !(a < line.len() && line[a] == 123) {
        return None;
    }
    let b = skip_ws_exec(line, a + 1);
    if !(b < line.len() && line.len() - b >= 4 && line[b] == 34 && line[b + 1] == 105 && line[b + 2] == 100
        && line[b + 3] == 34) {
        proof {
            if b + 4 <= line@.len() {
                if line@.subrange(b as int, b + 4) == id_key() {
                    assert(line@.subrange(b as int, b + 4)[0] == line@[b as int]);
                    assert(line@.subrange(b as int, b + 4)[1] == line@[b + 1]);
                    assert(line@.subrange(b as int, b + 4)[2] == line@[b + 2]);
                    assert(line@.subrange(b as int, b + 4)[3] == line@[b + 3]);
                }
            }
        }
        return None;
    }
    proof {
        assert(line@.subrange(b as int, b + 4) =~= id_key());
    }
    let c = skip_ws_exec(line, b + 4);
    if !(c < line.len() && line[c] == 58) {
        return None;
    }
    let v = skip_ws_exec(line, c + 1);
    if v < line.len() && 48 <= line[v] && line[v] <= 57 {
        proof {
            lemma_digits_end(line@, v as int);
        }
        if line[v] == 48 && v + 1 < line.len() && 48 <= line[v + 1] && line[v + 1] <= 57 {
            return None;
        }
        let ghost e = digits_end(line@, v as int);
        proof {
            assert(id_value_start(line@) == Some(v as int));
            if line@[v as int] == 48 && e > v + 1 {
                assert(is_digit(line@[v + 1]));
            }
            assert(!(line@[v as int] == 48 && e > v + 1));
        }
        let mut i = v;
        let mut id: u64 = 0;
        while i < line.len() && 48 <= line[i] && line[i] <= 57
            invariant
                v <= i <= e,
                e == digits_end(line@, v as int),
                digits_end(line@, i as int) == e,
                id == decimal_value(line@.subrange(v as int, i as int)),
                forall|k: int| v <= k < e ==> is_digit(#[trigger] line@[k]),
                e <= line@.len(),
                v < line@.len(),
                is_digit(line@[v as int]),
                id_value_start(line@) == Some(v as int),
                !(line@[v as int] == 48 && e > v + 1),
            decreases line@.len() - i,
        {
            let d = (line[i] - 48) as u64;
            proof {
                lemma_digits_end(line@, i as int);
                let t = line@.subrange(v as int, i + 1);
                assert(t.drop_last() =~= line@.subrange(v as int, i as int));
                assert(decimal_value(t) == id as int * 10 + d);
                lemma_decimal_grows(line@, v as int, i + 1, e);
            }
            match id.checked_mul(10) {
                None => {
                    proof {
                        assert(decimal_value(line@.subrange(v as int, i + 1)) > u64::MAX);
                        assert(decimal_value(line@.subrange(v as int, e)) > u64::MAX);
                    }
                    return None;
                },
                Some(m) => match m.checked_add(d) {
                    None => {
                        proof {
                            assert(decimal_value(line@.subrange(v as int, i + 1)) > u64::MAX);
                            assert(decimal_value(line@.subrange(v as int, e)) > u64::MAX);
                        }
                        return None;
                    },
                    Some(n) => {
                        id = n;
                    },
                },
            }
            i = i + 1;
        }
        proof {
            assert(i == e);
        }
        return Some(id);
    }
    if v < line.len() && line.len() - v > 12 && line[v] == 34 && line[v + 12] == 34 {
        let text = &line[v + 1..v + 12];
        base64_decode_u64(text)
    } else {
        None
    }
}

} // verus!
