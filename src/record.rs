//! One record (line) of the history file: reading the identifier and fields it carries,
//! and writing an item as a record.
use vstd::prelude::*;
use vstd::utf8::{decode_utf8, valid_utf8, encode_utf8};
use crate::lines::line_starts_from;
use crate::id::{b64_decoded, base64_decode_u64, base64_encode_u64, b64_digits_of, HistoryItemId};
use crate::item::{HistoryItem, ItemModel, opt_text};
use crate::json_doc::{json_accepts, json_array_len, json_array_str, json_i32_member, json_quoted, json_str_member, json_u64_member, member_array_len, member_array_str, member_i32, member_str, member_u64, parse_json_text, quote_json, JsonDoc};
use crate::lines::{fast_id, try_parse_id_fast};
use crate::text::{append_str, push_char, string_from_ascii, utf8_decode};

verus! {

/// The text of a record line, if it is UTF-8 that `json::parse` accepts.
pub open spec fn record_text(line: Seq<u8>) -> Option<Seq<char>> {
    if valid_utf8(line) && json_accepts(decode_utf8(line)) {
        Some(decode_utf8(line))
    } else {
        None
    }
}

/// An identifier written as a number, or as a string of eleven base64 digits.
pub open spec fn id_member(t: Seq<char>, key: Seq<char>) -> Option<u64> {
    match json_u64_member(t, key) {
        Some(x) => Some(x),
        None => match json_str_member(t, key) {
            Some(s) => b64_decoded(encode_utf8(s)),
            None => None,
        },
    }
}

/// The identifier of a record line: read at its head when it opens with it, else from
/// the parsed record.
pub open spec fn line_id(line: Seq<u8>) -> Option<u64> {
    match fast_id(line) {
        Some(x) => Some(x),
        None => match record_text(line) {
            Some(t) => id_member(t, "id"@),
            None => None,
        },
    }
}

/// The string entries of the first `n` entries of an array member, in order.
pub open spec fn array_strings(t: Seq<char>, key: Seq<char>, n: nat) -> Seq<Seq<char>>
    decreases n,
{
    if n == 0 {
        Seq::empty()
    } else {
        let front = array_strings(t, key, (n - 1) as nat);
        match json_array_str(t, key, n - 1) {
            Some(s) => front.push(s),
            None => front,
        }
    }
}

/// The item after the fields of one parsed record are merged into it. A present field
/// replaces the item's; an empty command leaves the command as it was; an array of paths
/// replaces the paths, keeping its string entries.
pub open spec fn annotate(m: ItemModel, t: Seq<char>) -> ItemModel {
    ItemModel {
        contents: match json_str_member(t, "cmd"@) {
            Some(c) => if c.len() > 0 { c } else { m.contents },
            None => m.contents,
        },
        exit_code: match json_i32_member(t, "exit"@) {
            Some(e) => Some(e),
            None => m.exit_code,
        },
        paths: match json_array_len(t, "paths"@) {
            Some(n) => array_strings(t, "paths"@, n),
            None => m.paths,
        },
        duration: match json_u64_member(t, "dur"@) {
            Some(d) => Some(d),
            None => m.duration,
        },
        cwd: match json_str_member(t, "cwd"@) {
            Some(c) => Some(c),
            None => m.cwd,
        },
        session_id: match id_member(t, "sid"@) {
            Some(s) => Some(s),
            None => m.session_id,
        },
        ..m
    }
}

/// The item after one record line is merged into it; a line that does not parse leaves it.
pub open spec fn apply_line(m: ItemModel, line: Seq<u8>) -> ItemModel {
    match record_text(line) {
        Some(t) => annotate(m, t),
        None => m,
    }
}

/// Parse a record line: UTF-8, then JSON.
pub fn parse_record(line: &[u8]) -> (r: Option<JsonDoc>)
    ensures
        r is Some <==> record_text(line@) is Some,
        r matches Some(d) ==> record_text(line@) == Some(d.source()),
{
    match utf8_decode(line) {
        None => None,
        Some(s) => parse_json_text(s.as_str()),
    }
}

fn read_id_member(d: &JsonDoc, key: &str) -> (r: Option<u64>)
    ensures
        r == id_member(d.source(), key@),
{
    match member_u64(d, key) {
        Some(x) => Some(x),
        None => match member_str(d, key) {
            Some(s) => base64_decode_u64(s.as_str().as_bytes()),
            None => None,
        },
    }
}

/// The identifier of a record line, or None where the line has none that can be read.
pub fn id_for_json_line(line: &[u8]) -> (r: Option<u64>)
    ensures
        r == line_id(line@),
{
    if let Some(id) = try_parse_id_fast(line) {
        return Some(id);
    }
    match parse_record(line) {
        None => None,
        Some(d) => read_id_member(&d, "id"),
    }
}

fn read_paths(d: &JsonDoc, n: usize) -> (r: Vec<String>)
    requires
        json_array_len(d.source(), "paths"@) == Some(n as nat),
    ensures
        r.deep_view() == array_strings(d.source(), "paths"@, n as nat),
{
    let mut out: Vec<String> = Vec::new();
    let mut i: usize = 0;
    while i < n
        invariant
            i <= n,
            out.deep_view() == array_strings(d.source(), "paths"@, i as nat),
        decreases n - i,
    {
        let ghost before = out.deep_view();
        match member_array_str(d, "paths", i) {
            Some(s) => {
                out.push(s);
                proof {
                    assert(out.deep_view() =~= before.push(s@));
                }
            },
            None => {},
        }
        i = i + 1;
    }
    out
}

impl HistoryItem {
    /// Merge the fields of a parsed record into this item.
    pub fn annotate_from_json(&mut self, d: &JsonDoc)
        ensures
            final(self)@ == annotate(old(self)@, d.source()),
    {
        if let Some(cmd) = member_str(d, "cmd") {
            if !cmd.as_str().is_empty() {
                self.contents = cmd;
            }
        }
        if let Some(exit) = member_i32(d, "exit") {
            self.exit_code = Some(exit);
        }
        if let Some(n) = member_array_len(d, "paths") {
            self.required_paths = read_paths(d, n);
        }
        if let Some(dur) = member_u64(d, "dur") {
            self.duration = Some(dur);
        }
        if let Some(cwd) = member_str(d, "cwd") {
            self.cwd = Some(cwd);
        }
        if let Some(sid) = read_id_member(d, "sid") {
            self.session_id = Some(sid);
        }
    }

    /// Merge one record line into this item; a line that does not parse changes nothing.
    pub fn apply_record_line(&mut self, line: &[u8])
        ensures
            final(self)@ == apply_line(old(self)@, line@),
    {
        if let Some(d) = parse_record(line) {
            self.annotate_from_json(&d);
        }
    }
}

/// The decimal digits of a number.
pub open spec fn decimal_chars(n: nat) -> Seq<char>
    decreases n,
{
    if n < 10 {
        seq![((n + 48) as u8) as char]
    } else {
        decimal_chars(n / 10).push((((n % 10) + 48) as u8) as char)
    }
}

/// The decimal text of a signed number.
pub open spec fn signed_chars(e: i32) -> Seq<char> {
    if e < 0 {
        "-"@ + decimal_chars((-e) as nat)
    } else {
        decimal_chars(e as nat)
    }
}

/// An identifier as written in a record: its eleven base64 digits, quoted.
pub open spec fn id_text(x: u64) -> Seq<char> {
    "\""@ + b64_digits_of(4 * x, 11).map_values(|b: u8| b as char) + "\""@
}

/// Quoted strings separated by commas.
pub open spec fn quoted_list(v: Seq<Seq<char>>) -> Seq<char>
    decreases v.len(),
{
    if v.len() == 0 {
        Seq::empty()
    } else if v.len() == 1 {
        json_quoted(v[0])
    } else {
        quoted_list(v.drop_last()) + ","@ + json_quoted(v.last())
    }
}

/// The command member of a record, when the command is not empty.
pub open spec fn cmd_part(m: ItemModel) -> Seq<char> {
    if m.contents.len() > 0 { ",\"cmd\":"@ + json_quoted(m.contents) } else { Seq::empty() }
}

/// The paths member of a record, when there are paths.
pub open spec fn paths_part(m: ItemModel) -> Seq<char> {
    if m.paths.len() > 0 { ",\"paths\":["@ + quoted_list(m.paths) + "]"@ } else { Seq::empty() }
}

/// The working-directory member of a record, when present.
pub open spec fn cwd_part(m: ItemModel) -> Seq<char> {
    match m.cwd { Some(c) => ",\"cwd\":"@ + json_quoted(c), None => Seq::empty() }
}

/// The exit-status member of a record, when present.
pub open spec fn exit_part(m: ItemModel) -> Seq<char> {
    match m.exit_code { Some(e) => ",\"exit\":"@ + signed_chars(e), None => Seq::empty() }
}

/// The duration member of a record, when present.
pub open spec fn dur_part(m: ItemModel) -> Seq<char> {
    match m.duration { Some(d) => ",\"dur\":"@ + decimal_chars(d as nat), None => Seq::empty() }
}

/// The session member of a record, when present.
pub open spec fn sid_part(m: ItemModel) -> Seq<char> {
    match m.session_id { Some(s) => ",\"sid\":"@ + id_text(s), None => Seq::empty() }
}

/// The record line of an item: a JSON object with the identifier first and then each
/// field that is present and non-empty, in the order cmd, paths, cwd, exit, dur, sid,
/// ended by a newline. The persistence mode is not written.
pub open spec fn record_line(m: ItemModel) -> Seq<char> {
    "{\"id\":"@ + id_text(m.id) + cmd_part(m) + paths_part(m) + cwd_part(m) + exit_part(m)
        + dur_part(m) + sid_part(m) + "}\n"@
}

/// Append the decimal digits of a number.
pub fn push_decimal(s: &mut String, n: u64)
    ensures
        final(s)@ == old(s)@ + decimal_chars(n as nat),
    decreases n,
{
    if n < 10 {
        push_char(s, ((n as u8) + 48) as char);
        proof {
            assert(decimal_chars(n as nat) =~= seq![((n + 48) as u8) as char]);
        }
    } else {
        push_decimal(s, n / 10);
        push_char(s, (((n % 10) as u8) + 48) as char);
    }
}

fn push_signed(s: &mut String, e: i32)
    ensures
        final(s)@ == old(s)@ + signed_chars(e),
{
    if e < 0 {
        append_str(s, "-");
        let m: u64 = (-(e as i64)) as u64;
        push_decimal(s, m);
    } else {
        push_decimal(s, e as u64);
    }
}

fn push_id(s: &mut String, x: u64)
    ensures
        final(s)@ == old(s)@ + id_text(x),
{
    let digits = base64_encode_u64(x);
    let t = string_from_ascii(digits.as_slice());
    append_str(s, "\"");
    append_str(s, t.as_str());
    append_str(s, "\"");
}

fn push_quoted_list(s: &mut String, v: &Vec<String>)
    ensures
        final(s)@ == old(s)@ + quoted_list(v.deep_view()),
{
    let ghost start = s@;
    let mut i: usize = 0;
    while i < v.len()
        invariant
            i <= v@.len(),
            s@ == start + quoted_list(v.deep_view().subrange(0, i as int)),
        decreases v@.len() - i,
    {
        let ghost pre = v.deep_view().subrange(0, i as int);
        let ghost cur = v.deep_view().subrange(0, i + 1);
        proof {
            assert(cur.drop_last() =~= pre);
            assert(cur.last() == v@[i as int]@);
        }
        if i > 0 {
            append_str(s, ",");
        }
        let q = quote_json(v[i].as_str());
        append_str(s, q.as_str());
        proof {
            if i == 0 {
                assert(pre =~= Seq::<Seq<char>>::empty());
                assert(s@ =~= start + quoted_list(cur));
            } else {
                assert(s@ =~= start + quoted_list(cur));
            }
        }
        i = i + 1;
    }
    proof {
        assert(v.deep_view().subrange(0, v@.len() as int) =~= v.deep_view());
    }
}

impl HistoryItem {
    fn push_cmd_part(&self, s: &mut String)
        ensures
            final(s)@ == old(s)@ + cmd_part(self@),
    {
        if !self.contents.as_str().is_empty() {
            append_str(s, ",\"cmd\":");
            let q = quote_json(self.contents.as_str());
            append_str(s, q.as_str());
        }
    }

    fn push_paths_part(&self, s: &mut String)
        ensures
            final(s)@ == old(s)@ + paths_part(self@),
    {
        if self.required_paths.len() > 0 {
            append_str(s, ",\"paths\":[");
            push_quoted_list(s, &self.required_paths);
            append_str(s, "]");
        }
    }

    fn push_cwd_part(&self, s: &mut String)
        ensures
            final(s)@ == old(s)@ + cwd_part(self@),
    {
        if let Some(cwd) = &self.cwd {
            append_str(s, ",\"cwd\":");
            let q = quote_json(cwd.as_str());
            append_str(s, q.as_str());
        }
    }

    fn push_numeric_parts(&self, s: &mut String)
        ensures
            final(s)@ == old(s)@ + exit_part(self@) + dur_part(self@) + sid_part(self@),
    {
        let ghost s0 = s@;
        if let Some(e) = self.exit_code {
            append_str(s, ",\"exit\":");
            push_signed(s, e);
        }
        let ghost s1 = s@;
        if let Some(d) = self.duration {
            append_str(s, ",\"dur\":");
            push_decimal(s, d);
        }
        let ghost s2 = s@;
        if let Some(sid) = self.session_id {
            append_str(s, ",\"sid\":");
            push_id(s, sid);
        }
        proof {
            assert(s1 =~= s0 + exit_part(self@));
            assert(s2 =~= s0 + exit_part(self@) + dur_part(self@));
            assert(s@ =~= s0 + exit_part(self@) + dur_part(self@) + sid_part(self@));
        }
    }

    /// This item as one record line: a JSON object and a newline.
    pub fn to_json_line(&self) -> (r: String)
        ensures
            r@ == record_line(self@),
    {
        let mut s = String::new();
        append_str(&mut s, "{\"id\":");
        push_id(&mut s, self.id.0);
        let ghost p0 = s@;
        self.push_cmd_part(&mut s);
        let ghost p1 = s@;
        self.push_paths_part(&mut s);
        let ghost p2 = s@;
        self.push_cwd_part(&mut s);
        let ghost p3 = s@;
        self.push_numeric_parts(&mut s);
        let ghost p4 = s@;
        append_str(&mut s, "}\n");
        proof {
            let m = self@;
            assert(p0 =~= "{\"id\":"@ + id_text(m.id));
            assert(p1 =~= p0 + cmd_part(m));
            assert(p2 =~= p0 + cmd_part(m) + paths_part(m));
            assert(p3 =~= p0 + cmd_part(m) + paths_part(m) + cwd_part(m));
            assert(p4 =~= p0 + cmd_part(m) + paths_part(m) + cwd_part(m) + exit_part(m) + dur_part(m) + sid_part(m));
            assert(s@ =~= record_line(m));
        }
        s
    }
}

proof fn lemma_encode_concat(a: Seq<char>, b: Seq<char>)
    ensures
        encode_utf8(a + b) == encode_utf8(a) + encode_utf8(b),
    decreases a.len(),
{
    if a.len() == 0 {
        assert(a + b =~= b);
        assert(encode_utf8(a) =~= Seq::<u8>::empty());
        assert(encode_utf8(a) + encode_utf8(b) =~= encode_utf8(b));
    } else {
        assert((a + b).drop_first() =~= a.drop_first() + b);
        assert((a + b)[0] == a[0]);
        lemma_encode_concat(a.drop_first(), b);
        assert(encode_utf8(a + b) =~= encode_utf8(a) + encode_utf8(b));
    }
}

proof fn lemma_encode_ascii(a: Seq<char>)
    requires
        forall|i: int| 0 <= i < a.len() ==> (#[trigger] a[i] as u32) < 128,
    ensures
        encode_utf8(a).len() == a.len(),
        forall|i: int| 0 <= i < a.len() ==> encode_utf8(a)[i] == (a[i] as u32) as u8,
    decreases a.len(),
{
    if a.len() > 0 {
        let c0 = a[0] as u32;
        assert(c0 < 128);
        assert(c0 as u8 == vstd::utf8::leading_byte_width_1(c0)) by (bit_vector)
            requires c0 < 128;
        assert(vstd::utf8::encode_scalar(c0) =~= seq![c0 as u8]);
        let r = a.drop_first();
        assert forall|i: int| 0 <= i < r.len() implies (#[trigger] r[i] as u32) < 128 by {
            assert(r[i] == a[i + 1]);
        }
        lemma_encode_ascii(r);
        assert forall|i: int| 0 <= i < a.len() implies encode_utf8(a)[i] == (a[i] as u32) as u8 by {
            if i > 0 {
                assert(encode_utf8(a)[i] == encode_utf8(r)[i - 1]);
                assert(r[i - 1] == a[i]);
            }
        }
    }
}

/// The identifier survives writing and reading: the line that a record is stored as (its
/// bytes without the final newline) is read back, at its head, as the item's identifier.
pub proof fn lemma_record_line_id(m: ItemModel)
    ensures
        ({
            let bytes = encode_utf8(record_line(m));
            let line = bytes.subrange(0, bytes.len() - 1);
            &&& bytes.len() >= 1
            &&& line_id(line) == Some(m.id)
        }),
{
    let digits = b64_digits_of(4 * m.id, 11);
    crate::id::lemma_base64_round_trip(digits, m.id);
    crate::id::lemma_b64_digits_of_ascii(4 * m.id, 11);
    let dchars = digits.map_values(|b: u8| b as char);
    reveal_strlit("{\"id\":");
    reveal_strlit("\"");
    reveal_strlit("}\n");
    let head = "{\"id\":"@ + "\""@ + dchars + "\""@;
    let tail = cmd_part(m) + paths_part(m) + cwd_part(m) + exit_part(m) + dur_part(m) + sid_part(m) + "}\n"@;
    assert(record_line(m) =~= head + tail);
    assert forall|i: int| 0 <= i < head.len() implies (#[trigger] head[i] as u32) < 128 by {
        if 7 <= i < 18 {
            assert(head[i] == dchars[i - 7]);
            assert(dchars[i - 7] == digits[i - 7] as char);
        }
    }
    lemma_encode_ascii(head);
    lemma_encode_concat(head, tail);
    let bytes = encode_utf8(record_line(m));
    let eh = encode_utf8(head);
    let et = encode_utf8(tail);
    assert(bytes == eh + et);
    assert(et.len() >= 2) by {
        lemma_encode_concat(cmd_part(m) + paths_part(m) + cwd_part(m) + exit_part(m) + dur_part(m) + sid_part(m), "}\n"@);
        lemma_encode_ascii("}\n"@);
        assert("}\n"@.len() == 2);
    }
    let line = bytes.subrange(0, bytes.len() - 1);
    assert(eh.len() == 19);
    assert forall|i: int| 0 <= i < 19 implies line[i] == eh[i] by {}
    assert(line[0] == 123u8);
    assert(line[1] == 34u8);
    assert(line[2] == 105u8);
    assert(line[3] == 100u8);
    assert(line[4] == 34u8);
    assert(line[5] == 58u8);
    assert(line[6] == 34u8);
    assert(line[18] == 34u8);
    assert(crate::lines::skip_ws(line, 0) == 0);
    assert(crate::lines::skip_ws(line, 1) == 1);
    assert(line.subrange(1, 5) =~= crate::lines::id_key());
    assert(crate::lines::skip_ws(line, 5) == 5);
    assert(crate::lines::skip_ws(line, 6) == 6);
    assert(crate::lines::id_value_start(line) == Some(6int));
    assert(line.subrange(7, 18) =~= digits) by {
        assert forall|i: int| 0 <= i < 11 implies line[7 + i] == digits[i] by {
            assert(line[7 + i] == eh[7 + i]);
            assert(eh[7 + i] == head[7 + i] as u8);
            assert(head[7 + i] == dchars[i]);
        }
    }
}

/// Whether a text holds no newline.
pub open spec fn no_newline(s: Seq<char>) -> bool {
    forall|i: int| 0 <= i < s.len() ==> s[i] != '\n'
}

proof fn lemma_no_newline_concat(a: Seq<char>, b: Seq<char>)
    requires
        no_newline(a),
        no_newline(b),
    ensures
        no_newline(a + b),
{
    assert forall|i: int| 0 <= i < (a + b).len() implies (a + b)[i] != '\n' by {
        if i < a.len() {
            assert((a + b)[i] == a[i]);
        } else {
            assert((a + b)[i] == b[i - a.len()]);
        }
    }
}

proof fn lemma_decimal_no_newline(n: nat)
    ensures
        no_newline(decimal_chars(n)),
    decreases n,
{
    if n >= 10 {
        lemma_decimal_no_newline(n / 10);
        let d = (((n % 10) + 48) as u8) as char;
        assert(d != '\n');
        let s = decimal_chars(n);
        assert forall|i: int| 0 <= i < s.len() implies s[i] != '\n' by {
            if i < s.len() - 1 {
                assert(s[i] == decimal_chars(n / 10)[i]);
            }
        }
    } else {
        assert((((n + 48) as u8) as char) != '\n');
    }
}

proof fn lemma_id_text_no_newline(x: u64)
    ensures
        no_newline(id_text(x)),
{
    let digits = b64_digits_of(4 * x, 11);
    crate::id::lemma_b64_digits_of(4 * x, 11);
    reveal_strlit("\"");
    let dchars = digits.map_values(|b: u8| b as char);
    assert forall|i: int| 0 <= i < dchars.len() implies dchars[i] != '\n' by {
        assert(digits[i] == crate::id::b64_symbol(crate::id::b64_digit(digits[i])));
        assert(crate::id::b64_digit(digits[i]) >= 0);
        assert(digits[i] != 10u8);
    }
    lemma_no_newline_concat("\""@, dchars);
    lemma_no_newline_concat("\""@ + dchars, "\""@);
}

proof fn lemma_quoted_list_no_newline(v: Seq<Seq<char>>)
    requires
        forall|k: int| 0 <= k < v.len() ==> no_newline(#[trigger] json_quoted(v[k])),
    ensures
        no_newline(quoted_list(v)),
    decreases v.len(),
{
    if v.len() == 1 {
        assert(no_newline(json_quoted(v[0])));
    } else if v.len() > 1 {
        let p = v.drop_last();
        assert forall|k: int| 0 <= k < p.len() implies no_newline(#[trigger] json_quoted(p[k])) by {
            assert(p[k] == v[k]);
        }
        lemma_quoted_list_no_newline(p);
        reveal_strlit(",");
        assert(no_newline(json_quoted(v[v.len() - 1])));
        lemma_no_newline_concat(quoted_list(p), ","@);
        lemma_no_newline_concat(quoted_list(p) + ","@, json_quoted(v.last()));
    }
}

/// Whether every text that the JSON quoting gives for this item's strings holds no newline;
/// `quote_json` guarantees this of every string it quotes.
pub open spec fn quotes_are_single_line(m: ItemModel) -> bool {
    &&& no_newline(json_quoted(m.contents))
    &&& forall|k: int| 0 <= k < m.paths.len() ==> no_newline(#[trigger] json_quoted(m.paths[k]))
    &&& m.cwd matches Some(c) ==> no_newline(json_quoted(c))
}

/// A record line holds exactly one newline, at its end.
pub proof fn lemma_record_line_single_line(m: ItemModel)
    ensures
        record_line(m).len() >= 1,
        record_line(m).last() == '\n',
        no_newline(record_line(m).drop_last()),
{
    lemma_quotes_are_single_line(m);
    reveal_strlit("{\"id\":");
    reveal_strlit(",\"cmd\":");
    reveal_strlit(",\"paths\":[");
    reveal_strlit("]");
    reveal_strlit(",\"cwd\":");
    reveal_strlit(",\"exit\":");
    reveal_strlit(",\"dur\":");
    reveal_strlit(",\"sid\":");
    reveal_strlit("-");
    reveal_strlit("}\n");
    reveal_strlit("}");
    lemma_id_text_no_newline(m.id);
    let c = cmd_part(m);
    if m.contents.len() > 0 {
        lemma_no_newline_concat(",\"cmd\":"@, json_quoted(m.contents));
    } else {
        assert(no_newline(c));
    }
    let p = paths_part(m);
    if m.paths.len() > 0 {
        lemma_quoted_list_no_newline(m.paths);
        lemma_no_newline_concat(",\"paths\":["@, quoted_list(m.paths));
        lemma_no_newline_concat(",\"paths\":["@ + quoted_list(m.paths), "]"@);
    } else {
        assert(no_newline(p));
    }
    let w = cwd_part(m);
    match m.cwd {
        Some(cc) => { lemma_no_newline_concat(",\"cwd\":"@, json_quoted(cc)); },
        None => { assert(no_newline(w)); },
    }
    let e = exit_part(m);
    match m.exit_code {
        Some(x) => {
            if x < 0 {
                lemma_decimal_no_newline((-x) as nat);
                lemma_no_newline_concat("-"@, decimal_chars((-x) as nat));
            } else {
                lemma_decimal_no_newline(x as nat);
            }
            lemma_no_newline_concat(",\"exit\":"@, signed_chars(x));
        },
        None => { assert(no_newline(e)); },
    }
    let d = dur_part(m);
    match m.duration {
        Some(x) => {
            lemma_decimal_no_newline(x as nat);
            lemma_no_newline_concat(",\"dur\":"@, decimal_chars(x as nat));
        },
        None => { assert(no_newline(d)); },
    }
    let q = sid_part(m);
    match m.session_id {
        Some(x) => {
            lemma_id_text_no_newline(x);
            lemma_no_newline_concat(",\"sid\":"@, id_text(x));
        },
        None => { assert(no_newline(q)); },
    }
    let h = "{\"id\":"@ + id_text(m.id);
    lemma_no_newline_concat("{\"id\":"@, id_text(m.id));
    lemma_no_newline_concat(h, c);
    lemma_no_newline_concat(h + c, p);
    lemma_no_newline_concat(h + c + p, w);
    lemma_no_newline_concat(h + c + p + w, e);
    lemma_no_newline_concat(h + c + p + w + e, d);
    lemma_no_newline_concat(h + c + p + w + e + d, q);
    lemma_no_newline_concat(h + c + p + w + e + d + q, "}"@);
    let body = h + c + p + w + e + d + q + "}"@;
    assert(record_line(m) =~= body.push('\n'));
    assert(record_line(m).drop_last() =~= body);
}

proof fn lemma_scalar_no_newline_byte(c: char)
    requires
        c != '\n',
    ensures
        forall|i: int| 0 <= i < vstd::utf8::encode_scalar(c as u32).len() ==> #[trigger] vstd::utf8::encode_scalar(c as u32)[i] != 10u8,
{
    let v = c as u32;
    let e = vstd::utf8::encode_scalar(v);
    if vstd::utf8::has_width_1_encoding(v) {
        assert(v != 10u32);
        assert((v & 0x7F) as u8 != 10u8) by (bit_vector)
            requires v <= 0x7F, v != 10u32;
    } else {
        let a = ((v >> 6) & 0x1F) as u8;
        let b = ((v >> 12) & 0x0F) as u8;
        let d = ((v >> 18) & 0x7) as u8;
        let x = (v & 0x3F) as u8;
        let y = ((v >> 6) & 0x3F) as u8;
        let z = ((v >> 12) & 0x3F) as u8;
        assert((0xC0u8 | a) != 10u8) by (bit_vector);
        assert((0xE0u8 | b) != 10u8) by (bit_vector);
        assert((0xF0u8 | d) != 10u8) by (bit_vector);
        assert((0x80u8 | x) != 10u8) by (bit_vector);
        assert((0x80u8 | y) != 10u8) by (bit_vector);
        assert((0x80u8 | z) != 10u8) by (bit_vector);
    }
}

/// UTF-8 encoding of a text without newlines holds no newline byte.
pub proof fn lemma_encode_no_newline(s: Seq<char>)
    requires
        no_newline(s),
    ensures
        forall|i: int| 0 <= i < encode_utf8(s).len() ==> encode_utf8(s)[i] != 10u8,
    decreases s.len(),
{
    if s.len() > 0 {
        let r = s.drop_first();
        assert(no_newline(r)) by {
            assert forall|i: int| 0 <= i < r.len() implies r[i] != '\n' by {
                assert(r[i] == s[i + 1]);
            }
        }
        lemma_encode_no_newline(r);
        assert(s[0] != '\n');
        lemma_scalar_no_newline_byte(s[0]);
        let e0 = vstd::utf8::encode_scalar(s[0] as u32);
        let er = encode_utf8(r);
        assert(encode_utf8(s) == e0 + er);
        assert forall|i: int| 0 <= i < encode_utf8(s).len() implies encode_utf8(s)[i] != 10u8 by {
            if i < e0.len() {
                assert(encode_utf8(s)[i] == e0[i]);
            } else {
                assert(encode_utf8(s)[i] == er[i - e0.len()]);
            }
        }
    }
}

/// The stored bytes of a record: its UTF-8 encoding ends with the only newline byte.
pub proof fn lemma_record_bytes(m: ItemModel)
    ensures
        ({
            let bytes = encode_utf8(record_line(m));
            &&& bytes.len() >= 1
            &&& bytes.last() == 10u8
            &&& forall|i: int| 0 <= i < bytes.len() - 1 ==> bytes[i] != 10u8
            &&& line_id(bytes.subrange(0, bytes.len() - 1)) == Some(m.id)
        }),
{
    lemma_quotes_are_single_line(m);
    lemma_record_line_single_line(m);
    lemma_record_line_id(m);
    let body = record_line(m).drop_last();
    assert(record_line(m) =~= body + seq!['\n']);
    lemma_encode_concat(body, seq!['\n']);
    lemma_encode_no_newline(body);
    lemma_encode_ascii(seq!['\n']);
    let bytes = encode_utf8(record_line(m));
    let eb = encode_utf8(body);
    assert(bytes == eb + encode_utf8(seq!['\n']));
    assert(encode_utf8(seq!['\n']).len() == 1);
    assert(encode_utf8(seq!['\n'])[0] == 10u8);
    assert forall|i: int| 0 <= i < bytes.len() - 1 implies bytes[i] != 10u8 by {
        assert(bytes[i] == eb[i]);
    }
}

proof fn lemma_escaped_no_newline(s: Seq<char>)
    ensures
        no_newline(crate::json_doc::escaped_text(s)),
    decreases s.len(),
{
    if s.len() > 0 {
        lemma_escaped_no_newline(s.drop_last());
        let c = s.last();
        let e = crate::json_doc::escaped_char(c);
        let v = c as u32;
        assert(no_newline(e)) by {
            if v < 0x20 && v != 8 && v != 9 && v != 10 && v != 12 && v != 13 {
                assert(v / 16 < 2);
            }
        }
        lemma_no_newline_concat(crate::json_doc::escaped_text(s.drop_last()), e);
    }
}

/// JSON quoting never writes a raw newline.
pub proof fn lemma_quoted_single_line(s: Seq<char>)
    ensures
        no_newline(json_quoted(s)),
{
    lemma_escaped_no_newline(s);
    let q = seq![crate::json_doc::ascii(34)];
    lemma_no_newline_concat(q, crate::json_doc::escaped_text(s));
    lemma_no_newline_concat(q + crate::json_doc::escaped_text(s), q);
}

/// Every item's strings quote onto one line.
pub proof fn lemma_quotes_are_single_line(m: ItemModel)
    ensures
        quotes_are_single_line(m),
{
    lemma_quoted_single_line(m.contents);
    assert forall|k: int| 0 <= k < m.paths.len() implies no_newline(#[trigger] json_quoted(m.paths[k])) by {
        lemma_quoted_single_line(m.paths[k]);
    }
    if let Some(c) = m.cwd {
        lemma_quoted_single_line(c);
    }
}

} // verus!
