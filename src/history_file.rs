//! The parsed view of a history file: an index of (identifier, offset) pairs for its
//! record lines, sorted so that the lines of one item are contiguous and in file order,
//! and the positions where each item's lines begin.
use vstd::prelude::*;
use crate::id::HistoryItemId;
use crate::item::{empty_item, HistoryItem, ItemModel};
use crate::lines::{iter_lines, line_at, line_end, line_starts_from, read_line_at};
use crate::record::{apply_line, id_for_json_line, line_id};

verus! {

/// The offset of one record line, and the item it contributes to.
#[derive(Clone, Copy, Debug, PartialEq, Eq, Structural)]
pub struct FileLineOffset {
    /// The history item this line contributes to.
    pub id: HistoryItemId,
    /// Byte offset of the line within the file.
    pub offset: usize,
}

/// The abstract value of a history file.
pub struct FileModel {
    /// The bytes of the file.
    pub data: Seq<u8>,
    /// (identifier, offset) of each indexed line, in index order.
    pub lines: Seq<(u64, int)>,
    /// Index positions where the lines of each item begin, oldest item first.
    pub starts: Seq<int>,
}

/// Lexicographic order on (identifier, offset).
pub open spec fn lt(a: (u64, int), b: (u64, int)) -> bool {
    a.0 < b.0 || (a.0 == b.0 && a.1 < b.1)
}

/// Whether the lines are in strictly increasing (identifier, offset) order.
pub open spec fn sorted(lines: Seq<(u64, int)>) -> bool {
    forall|i: int, j: int| 0 <= i < j < lines.len() ==> lt(#[trigger] lines[i], #[trigger] lines[j])
}

/// Whether a line is kept under a cutoff timestamp (in ms): a line whose identifier's
/// timestamp is later than the cutoff is not.
pub open spec fn under_cutoff(id: u64, cutoff: Option<u64>) -> bool {
    match cutoff {
        Some(c) => id / crate::id::NONCE_SPAN <= c,
        None => true,
    }
}

/// Whether an (identifier, offset) pair describes a line of the data whose identifier can
/// be read and is not past the cutoff.
pub open spec fn indexed_line(data: Seq<u8>, cutoff: Option<u64>, x: (u64, int)) -> bool {
    &&& line_starts_from(data, 0).contains(x.1)
    &&& line_id(line_at(data, x.1)) == Some(x.0)
    &&& under_cutoff(x.0, cutoff)
}

/// Where the lines of item `j` end: the start of the next item, or the end of the index.
pub open spec fn group_end(m: FileModel, j: int) -> int {
    if j + 1 < m.starts.len() {
        m.starts[j + 1]
    } else {
        m.lines.len() as int
    }
}

/// The index of a history file is well formed: sorted, and `starts` holds exactly the
/// positions where the identifier changes.
pub open spec fn wf_model(m: FileModel) -> bool {
    &&& sorted(m.lines)
    &&& (m.lines.len() == 0 <==> m.starts.len() == 0)
    &&& m.starts.len() > 0 ==> m.starts[0] == 0
    &&& forall|j: int| 0 <= j < m.starts.len() ==> 0 <= #[trigger] m.starts[j] < group_end(m, j) <= m.lines.len()
    &&& forall|j: int| 0 < j < m.starts.len() ==> (#[trigger] m.lines[m.starts[j]]).0 != m.lines[m.starts[j] - 1].0
    &&& forall|j: int, k: int| 0 <= j < m.starts.len() && m.starts[j] <= k < group_end(m, j)
        ==> (#[trigger] m.lines[k]).0 == (#[trigger] m.lines[m.starts[j]]).0
}

/// The item assembled from index lines `lo..hi`, applied in index order to `base`.
pub open spec fn fold_lines(data: Seq<u8>, lines: Seq<(u64, int)>, base: ItemModel, lo: int, hi: int) -> ItemModel
    decreases hi - lo,
{
    if hi <= lo {
        base
    } else {
        apply_line(fold_lines(data, lines, base, lo, hi - 1), line_at(data, lines[hi - 1].1))
    }
}

/// Item `k` of the file, oldest first: an empty item with its identifier, into which each
/// of its lines is merged in turn.
pub open spec fn file_item(m: FileModel, k: int) -> ItemModel {
    let s = m.starts[k];
    fold_lines(m.data, m.lines, empty_item(m.lines[s].0), s, group_end(m, k))
}

/// The file after keeping only its newest `n` items. The data are not changed.
pub open spec fn shrunk(m: FileModel, n: nat) -> FileModel {
    let count = m.starts.len();
    if n >= count {
        m
    } else if n == 0 {
        FileModel { data: m.data, lines: Seq::empty(), starts: Seq::empty() }
    } else {
        let s = m.starts[count - n];
        FileModel {
            data: m.data,
            lines: m.lines.subrange(s, m.lines.len() as int),
            starts: m.starts.subrange(count - n, count as int).map_values(|x: int| x - s),
        }
    }
}

/// The parsed view of a history file.
pub struct HistoryFile {
    backing: Vec<u8>,
    line_offsets: Vec<FileLineOffset>,
    item_starts: Vec<usize>,
}

impl View for HistoryFile {
    type V = FileModel;

    closed spec fn view(&self) -> FileModel {
        FileModel {
            data: self.backing@,
            lines: self.line_offsets@.map_values(|l: FileLineOffset| (l.id.0, l.offset as int)),
            starts: self.item_starts@.map_values(|s: usize| s as int),
        }
    }
}

impl HistoryFile {
    /// Whether the index is well formed.
    pub open spec fn wf(&self) -> bool {
        wf_model(self@)
    }

    /// An empty history.
    pub fn create_empty() -> (r: Self)
        ensures
            r.wf(),
            r@.data.len() == 0,
            r@.lines.len() == 0,
            r@.starts.len() == 0,
    {
        let r = HistoryFile { backing: Vec::new(), line_offsets: Vec::new(), item_starts: Vec::new() };
        proof {
            assert(r@.lines =~= Seq::<(u64, int)>::empty());
            assert(r@.starts =~= Seq::<int>::empty());
        }
        r
    }

    /// Whether the index holds no line.
    pub fn is_empty(&self) -> (r: bool)
        ensures
            r == (self@.lines.len() == 0),
    {
        self.line_offsets.len() == 0
    }

    /// The number of indexed lines.
    pub fn line_count(&self) -> (r: usize)
        ensures
            r == self@.lines.len(),
    {
        self.line_offsets.len()
    }

    /// The number of distinct items.
    pub fn item_count(&self) -> (r: usize)
        ensures
            r == self@.starts.len(),
    {
        self.item_starts.len()
    }
}

/// The (identifier, offset) pairs of a list of line offsets.
pub open spec fn pairs(v: Seq<FileLineOffset>) -> Seq<(u64, int)> {
    v.map_values(|l: FileLineOffset| (l.id.0, l.offset as int))
}

proof fn lemma_line_starts(buf: Seq<u8>, start: int)
    requires
        0 <= start,
    ensures
        forall|i: int| 0 <= i < line_starts_from(buf, start).len() ==> start <= #[trigger] line_starts_from(buf, start)[i] < buf.len(),
        forall|i: int, j: int| 0 <= i < j < line_starts_from(buf, start).len() ==> #[trigger] line_starts_from(buf, start)[i] < #[trigger] line_starts_from(buf, start)[j],
    decreases buf.len() - start,
{
    if start < buf.len() {
        let e = crate::lines::line_end(buf, start);
        crate::lines::lemma_line_end_bounds(buf, start);
        if !(e + 1 <= start || e + 1 >= buf.len()) {
            lemma_line_starts(buf, e + 1);
            let rest = line_starts_from(buf, e + 1);
            let all = line_starts_from(buf, start);
            assert(all =~= seq![start] + rest);
            assert forall|i: int| 0 <= i < all.len() implies start <= #[trigger] all[i] < buf.len() by {
                if i > 0 {
                    assert(all[i] == rest[i - 1]);
                }
            }
            assert forall|i: int, j: int| 0 <= i < j < all.len() implies #[trigger] all[i] < #[trigger] all[j] by {
                assert(all[j] == rest[j - 1]);
                if i > 0 {
                    assert(all[i] == rest[i - 1]);
                }
            }
        }
    }
}

fn insert_sorted(v: &mut Vec<FileLineOffset>, e: FileLineOffset)
    requires
        sorted(pairs(old(v)@)),
        forall|q: int| 0 <= q < old(v)@.len() ==> (#[trigger] old(v)@[q]).offset < e.offset,
    ensures
        sorted(pairs(final(v)@)),
        forall|x: (u64, int)| pairs(final(v)@).contains(x) <==> (pairs(old(v)@).contains(x) || x == (e.id.0, e.offset as int)),
        final(v)@.len() == old(v)@.len() + 1,
        forall|q: int| 0 <= q < final(v)@.len() ==> (#[trigger] final(v)@[q]).offset <= e.offset,
        forall|q: int| 0 <= q < final(v)@.len() ==> (#[trigger] final(v)@[q] == e || old(v)@.contains(final(v)@[q])),
{
    let ghost ov = v@;
    let ghost ep = (e.id.0, e.offset as int);
    let mut p = v.len();
    while p > 0 && (e.id.0 < v[p - 1].id.0 || (e.id.0 == v[p - 1].id.0 && e.offset < v[p - 1].offset))
        invariant
            p <= v@.len(),
            v@ == ov,
            ep == (e.id.0, e.offset as int),
            forall|q: int| p <= q < v@.len() ==> lt(ep, #[trigger] pairs(v@)[q]),
        decreases p,
    {
        proof {
            assert(pairs(v@)[p - 1] == (v@[p - 1].id.0, v@[p - 1].offset as int));
            assert(lt(ep, pairs(v@)[p - 1]));
        }
        p = p - 1;
    }
    v.insert(p, e);
    proof {
        let op = pairs(ov);
        let np = pairs(v@);
        assert(v@ == ov.insert(p as int, e));
        assert forall|q: int| 0 <= q < np.len() implies #[trigger] np[q] == (if q < p { op[q] } else if q == p { ep } else { op[q - 1] }) by {
            if q < p {
                assert(v@[q] == ov[q]);
            } else if q > p {
                assert(v@[q] == ov[q - 1]);
            }
        }
        if p > 0 {
            assert(op[p - 1].1 < ep.1);
            assert(lt(op[p - 1], ep));
        }
        assert forall|i: int, j: int| 0 <= i < j < np.len() implies lt(#[trigger] np[i], #[trigger] np[j]) by {
            if j < p {
                assert(lt(op[i], op[j]));
            } else if j == p {
                if i < p - 1 {
                    assert(lt(op[i], op[p - 1]));
                }
            } else if i < p {
                assert(lt(ep, op[j - 1]));
                if i < p - 1 {
                    assert(lt(op[i], op[p - 1]));
                }
            } else if i == p {
                assert(lt(ep, op[j - 1]));
            } else {
                assert(lt(op[i - 1], op[j - 1]));
            }
        }
        assert forall|x: (u64, int)| np.contains(x) <==> (op.contains(x) || x == ep) by {
            if np.contains(x) {
                let q = choose|q: int| 0 <= q < np.len() && np[q] == x;
                if q < p {
                    assert(op[q] == x);
                } else if q > p {
                    assert(op[q - 1] == x);
                }
            }
            if op.contains(x) {
                let q = choose|q: int| 0 <= q < op.len() && op[q] == x;
                if q < p {
                    assert(np[q] == x);
                } else {
                    assert(np[q + 1] == x);
                }
            }
            if x == ep {
                assert(np[p as int] == x);
            }
        }
        assert forall|q: int| 0 <= q < v@.len() implies (#[trigger] v@[q] == e || ov.contains(v@[q])) by {
            if q < p {
                assert(v@[q] == ov[q]);
            } else if q > p {
                assert(v@[q] == ov[q - 1]);
            }
        }
    }
}

impl HistoryFile {
    /// Parse a buffer of record lines into an index of line identifiers and offsets. Lines
    /// whose identifier cannot be read are dropped; with a cutoff timestamp, so are lines
    /// whose identifier is newer than the cutoff.
    pub fn from_data(backing: Vec<u8>, cutoff: Option<u64>) -> (r: Self)
        ensures
            r.wf(),
            r@.data == backing@,
            forall|x: (u64, int)| r@.lines.contains(x) <==> indexed_line(backing@, cutoff, x),
    {
        let cut: Option<u64> = cutoff;
        let ghost data = backing@;
        let ghost lsf = line_starts_from(data, 0);
        proof {
            lemma_line_starts(data, 0);
        }
        let mut offs: Vec<FileLineOffset> = Vec::new();
        {
            let ls = iter_lines(backing.as_slice());
            let mut k: usize = 0;
            while k < ls.len()
                invariant
                    k <= ls@.len(),
                    ls@.len() == lsf.len(),
                    cut == cutoff,
                    data == backing@,
                    lsf == line_starts_from(data, 0),
                    forall|j: int| 0 <= j < ls@.len() ==> {
                        &&& (#[trigger] ls@[j]).0 as int == lsf[j]
                        &&& ls@[j].1@ == line_at(data, ls@[j].0 as int)
                    },
                    forall|i: int, j: int| 0 <= i < j < lsf.len() ==> #[trigger] lsf[i] < #[trigger] lsf[j],
                    sorted(pairs(offs@)),
                    forall|q: int| 0 <= q < offs@.len() ==> indexed_line(data, cut, #[trigger] pairs(offs@)[q]),
                    forall|q: int| 0 <= q < offs@.len() ==> exists|j: int| 0 <= j < k && (#[trigger] offs@[q]).offset as int == lsf[j],
                    forall|j: int| 0 <= j < k ==> (line_id(line_at(data, lsf[j])) matches Some(x) && under_cutoff(x, cut)) ==> #[trigger] pairs(offs@).contains((line_id(line_at(data, lsf[j]))->0, lsf[j])),
                decreases ls@.len() - k,
            {
                let (off, line) = ls[k];
                let maybe = id_for_json_line(line);
                let keep = match maybe {
                    Some(id) => match cut {
                        Some(c) => id / crate::id::NONCE_SPAN <= c,
                        None => true,
                    },
                    None => false,
                };
                if keep {
                    let id = maybe.unwrap();
                    let e = FileLineOffset { id: HistoryItemId(id), offset: off };
                    proof {
                        assert forall|q: int| 0 <= q < offs@.len() implies (#[trigger] offs@[q]).offset < e.offset by {
                            let j = choose|j: int| 0 <= j < k && offs@[q].offset as int == lsf[j];
                            assert(lsf[j] < lsf[k as int]);
                        }
                    }
                    let ghost before = offs@;
                    insert_sorted(&mut offs, e);
                    proof {
                        assert(lsf.contains(off as int)) by {
                            assert(lsf[k as int] == off as int);
                        }
                        assert forall|q: int| 0 <= q < offs@.len() implies indexed_line(data, cut, #[trigger] pairs(offs@)[q]) by {
                            if offs@[q] != e {
                                assert(before.contains(offs@[q]));
                                let w = choose|w: int| 0 <= w < before.len() && before[w] == offs@[q];
                                assert(pairs(before)[w] == pairs(offs@)[q]);
                            }
                        }
                        assert forall|q: int| 0 <= q < offs@.len() implies exists|j: int| 0 <= j < k + 1 && (#[trigger] offs@[q]).offset as int == lsf[j] by {
                            if offs@[q] != e {
                                assert(before.contains(offs@[q]));
                                let w = choose|w: int| 0 <= w < before.len() && before[w] == offs@[q];
                                let j = choose|j: int| 0 <= j < k && (before[w]).offset as int == lsf[j];
                                assert(0 <= j < k + 1 && offs@[q].offset as int == lsf[j]);
                            } else {
                                assert(offs@[q].offset as int == lsf[k as int]);
                            }
                        }
                        assert forall|j: int| 0 <= j < k + 1 implies (line_id(line_at(data, lsf[j])) matches Some(x) && under_cutoff(x, cut)) ==> #[trigger] pairs(offs@).contains((line_id(line_at(data, lsf[j]))->0, lsf[j])) by {
                            if j < k {
                                if line_id(line_at(data, lsf[j])) matches Some(x) && under_cutoff(x, cut) {
                                    assert(pairs(before).contains((line_id(line_at(data, lsf[j]))->0, lsf[j])));
                                }
                            }
                        }
                    }
                } else {
                    proof {
                        assert forall|q: int| 0 <= q < offs@.len() implies exists|j: int| 0 <= j < k + 1 && (#[trigger] offs@[q]).offset as int == lsf[j] by {
                            let j = choose|j: int| 0 <= j < k && offs@[q].offset as int == lsf[j];
                            assert(0 <= j < k + 1);
                        }
                    }
                }
                k = k + 1;
            }
        }
        let mut starts: Vec<usize> = Vec::new();
        let mut k: usize = 0;
        while k < offs.len()
            invariant
                k <= offs@.len(),
                sorted(pairs(offs@)),
                (k == 0) <==> starts@.len() == 0,
                starts@.len() > 0 ==> starts@[0] == 0,
                forall|j: int| 0 <= j < starts@.len() ==> #[trigger] starts@[j] < k,
                forall|i: int, j: int| 0 <= i < j < starts@.len() ==> #[trigger] starts@[i] < #[trigger] starts@[j],
                forall|j: int| 0 < j < starts@.len() ==> (#[trigger] offs@[starts@[j] as int]).id.0 != offs@[starts@[j] - 1].id.0,
                forall|j: int, q: int| 0 <= j < starts@.len() && starts@[j] <= q < (if j + 1 < starts@.len() { starts@[j + 1] as int } else { k as int })
                    ==> (#[trigger] offs@[q]).id.0 == (#[trigger] offs@[starts@[j] as int]).id.0,
            decreases offs@.len() - k,
        {
            if k == 0 || offs[k].id.0 != offs[k - 1].id.0 {
                starts.push(k);
            }
            k = k + 1;
        }
        let r = HistoryFile { backing, line_offsets: offs, item_starts: starts };
        proof {
            let m = r@;
            assert(m.lines == pairs(offs@));
            assert forall|j: int| 0 <= j < m.starts.len() implies 0 <= #[trigger] m.starts[j] < group_end(m, j) <= m.lines.len() by {
                if j + 1 < m.starts.len() {
                    assert(starts@[j] < starts@[j + 1]);
                }
            }
            assert forall|j: int, q: int| 0 <= j < m.starts.len() && m.starts[j] <= q < group_end(m, j)
                implies (#[trigger] m.lines[q]).0 == (#[trigger] m.lines[m.starts[j]]).0 by {
                assert(offs@[q].id.0 == offs@[starts@[j] as int].id.0);
            }
            assert forall|j: int| 0 < j < m.starts.len() implies (#[trigger] m.lines[m.starts[j]]).0 != m.lines[m.starts[j] - 1].0 by {
                assert(offs@[starts@[j] as int].id.0 != offs@[starts@[j] - 1].id.0);
            }
            assert forall|x: (u64, int)| m.lines.contains(x) <==> indexed_line(data, cutoff, x) by {
                if m.lines.contains(x) {
                    let q = choose|q: int| 0 <= q < m.lines.len() && m.lines[q] == x;
                    assert(indexed_line(data, cut, pairs(offs@)[q]));
                }
                if indexed_line(data, cutoff, x) {
                    let j = choose|j: int| 0 <= j < lsf.len() && lsf[j] == x.1;
                    assert(line_id(line_at(data, lsf[j])) == Some(x.0));
                    assert(pairs(offs@).contains((line_id(line_at(data, lsf[j]))->0, lsf[j])));
                }
            }
        }
        r
    }
}

impl HistoryFile {
    /// The item whose lines begin at index position `start`: an empty item with its
    /// identifier, into which each of its lines is merged in index order.
    fn item_at(&self, k: usize) -> (r: HistoryItem)
        requires
            self.wf(),
            k < self@.starts.len(),
        ensures
            r@ == file_item(self@, k as int),
    {
        let start = self.item_starts[k];
        let id = self.line_offsets[start].id;
        let ghost m = self@;
        let ghost end = group_end(m, k as int);
        let mut item = HistoryItem::with_id(id);
        let mut idx = start;
        proof {
            assert(m.starts[k as int] == start as int);
            assert(m.lines[start as int].0 == id.0);
        }
        while idx < self.line_offsets.len() && self.line_offsets[idx].id.0 == id.0
            invariant
                self.wf(),
                m == self@,
                k < m.starts.len(),
                start == m.starts[k as int],
                end == group_end(m, k as int),
                id.0 == m.lines[start as int].0,
                start <= idx <= end,
                item@ == fold_lines(m.data, m.lines, empty_item(id.0), start as int, idx as int),
            decreases self@.lines.len() - idx,
        {
            proof {
                assert(m.lines[idx as int] == (self.line_offsets@[idx as int].id.0, self.line_offsets@[idx as int].offset as int));
                if idx == end {
                    assert(k + 1 < m.starts.len());
                    assert(m.lines[m.starts[k + 1]].0 != m.lines[m.starts[k + 1] - 1].0);
                    assert(m.lines[m.starts[k + 1] - 1].0 == m.lines[m.starts[k as int]].0);
                }
            }
            let (line, _) = read_line_at(self.backing.as_slice(), self.line_offsets[idx].offset);
            item.apply_record_line(line);
            idx = idx + 1;
        }
        proof {
            if idx < end {
                assert(m.lines[idx as int] == (self.line_offsets@[idx as int].id.0, self.line_offsets@[idx as int].offset as int));
                assert(m.lines[idx as int].0 == m.lines[m.starts[k as int]].0);
            }
        }
        item
    }

    /// The item `idx` places back from the newest: 0 is the most recent item.
    pub fn get_from_back(&self, idx: usize) -> (r: Option<HistoryItem>)
        requires
            self.wf(),
        ensures
            idx < self@.starts.len() ==> (r matches Some(it) && it@ == file_item(self@, self@.starts.len() - 1 - idx)),
            idx >= self@.starts.len() ==> r is None,
    {
        if idx >= self.item_starts.len() {
            return None;
        }
        Some(self.item_at(self.item_starts.len() - idx - 1))
    }

    /// Every item of the file, oldest first.
    pub fn items(&self) -> (r: Vec<HistoryItem>)
        requires
            self.wf(),
        ensures
            r@.len() == self@.starts.len(),
            forall|k: int| 0 <= k < r@.len() ==> (#[trigger] r@[k])@ == file_item(self@, k),
    {
        let mut out: Vec<HistoryItem> = Vec::new();
        let mut k: usize = 0;
        while k < self.item_starts.len()
            invariant
                self.wf(),
                k <= self@.starts.len(),
                out@.len() == k,
                forall|q: int| 0 <= q < k ==> (#[trigger] out@[q])@ == file_item(self@, q),
            decreases self@.starts.len() - k,
        {
            let it = self.item_at(k);
            out.push(it);
            k = k + 1;
        }
        out
    }

    /// Keep at most `max_records` items, dropping the oldest. Only the index changes; the
    /// data stay as they are.
    pub fn shrink_to_max_records(&mut self, max_records: usize)
        requires
            old(self).wf(),
        ensures
            final(self).wf(),
            final(self)@ == shrunk(old(self)@, max_records as nat),
    {
        let num_records = self.item_starts.len();
        if num_records <= max_records {
            return;
        } else if max_records == 0 {
            self.line_offsets.clear();
            self.item_starts.clear();
            proof {
                assert(self@.lines =~= Seq::<(u64, int)>::empty());
                assert(self@.starts =~= Seq::<int>::empty());
            }
            return;
        }
        let ghost m = self@;
        let first = num_records - max_records;
        let oldest = self.item_starts[first];
        let ghost n = max_records as nat;
        let ghost target = shrunk(m, n);
        proof {
            assert(m.starts[first as int] == oldest as int);
        }
        let kept_lines = self.line_offsets.split_off(oldest);
        self.line_offsets = kept_lines;
        let kept_starts = self.item_starts.split_off(first);
        let mut starts: Vec<usize> = Vec::new();
        let mut i: usize = 0;
        while i < kept_starts.len()
            invariant
                i <= kept_starts@.len(),
                kept_starts@ == old(self).item_starts@.subrange(first as int, num_records as int),
                m == old(self)@,
                first < num_records,
                num_records == m.starts.len(),
                oldest as int == m.starts[first as int],
                wf_model(m),
                starts@.len() == i,
                forall|q: int| 0 <= q < i ==> #[trigger] starts@[q] as int == kept_starts@[q] - oldest,
            decreases kept_starts@.len() - i,
        {
            proof {
                assert(kept_starts@[i as int] == old(self).item_starts@[first + i]);
                assert(m.starts[first + i] == kept_starts@[i as int] as int);
                if i > 0 {
                    assert(m.starts[first as int] < m.starts[first + i]) by {
                        lemma_starts_increasing(m, first as int, first + i);
                    }
                }
            }
            starts.push(kept_starts[i] - oldest);
            i = i + 1;
        }
        self.item_starts = starts;
        proof {
            let nm = self@;
            assert(nm.data == target.data);
            assert(nm.lines =~= target.lines);
            assert(nm.starts =~= target.starts);
            lemma_shrunk_wf(m, n);
        }
    }
}

#[verifier::rlimit(40)]
proof fn lemma_starts_increasing(m: FileModel, i: int, j: int)
    requires
        wf_model(m),
        0 <= i < j < m.starts.len(),
    ensures
        m.starts[i] < m.starts[j],
    decreases j - i,
{
    assert(0 <= m.starts[i] < group_end(m, i));
    assert(group_end(m, i) == m.starts[i + 1]);
    if j > i + 1 {
        lemma_starts_increasing(m, i + 1, j);
    }
}

proof fn lemma_shrunk_index(m: FileModel, n: nat)
    requires
        wf_model(m),
        0 < n < m.starts.len(),
    ensures
        ({
            let t = shrunk(m, n);
            let f = m.starts.len() - n;
            let s = m.starts[f];
            &&& 0 <= s < m.lines.len()
            &&& t.lines.len() == m.lines.len() - s
            &&& t.starts.len() == n
            &&& forall|k: int| 0 <= k < t.lines.len() ==> #[trigger] t.lines[k] == m.lines[k + s]
            &&& forall|j: int| 0 <= j < t.starts.len() ==> #[trigger] t.starts[j] == m.starts[f + j] - s
            &&& forall|j: int| 0 <= j < t.starts.len() ==> #[trigger] group_end(t, j) == group_end(m, f + j) - s
            &&& forall|j: int| 0 <= j < t.starts.len() ==> s <= #[trigger] m.starts[f + j]
        }),
{
    let f = m.starts.len() - n;
    assert(m.starts[f] < group_end(m, f));
    assert forall|j: int| 0 <= j < n implies m.starts[f] <= #[trigger] m.starts[f + j] by {
        if j > 0 {
            lemma_starts_increasing(m, f, f + j);
        }
    }
}

proof fn lemma_shrunk_wf(m: FileModel, n: nat)
    requires
        wf_model(m),
    ensures
        wf_model(shrunk(m, n)),
{
    let count = m.starts.len();
    if 0 < n < count {
        let t = shrunk(m, n);
        let f = count - n;
        let s = m.starts[f];
        lemma_shrunk_index(m, n);
        assert(sorted(t.lines)) by {
            assert forall|i: int, j: int| 0 <= i < j < t.lines.len() implies lt(#[trigger] t.lines[i], #[trigger] t.lines[j]) by {
                assert(t.lines[i] == m.lines[i + s]);
                assert(t.lines[j] == m.lines[j + s]);
            }
        }
        assert forall|j: int| 0 <= j < t.starts.len() implies 0 <= #[trigger] t.starts[j] < group_end(t, j) <= t.lines.len() by {
            assert(m.starts[f + j] < group_end(m, f + j));
            assert(t.starts[j] == m.starts[f + j] - s);
            assert(group_end(t, j) == group_end(m, f + j) - s);
        }
        assert forall|j: int| 0 < j < t.starts.len() implies (#[trigger] t.lines[t.starts[j]]).0 != t.lines[t.starts[j] - 1].0 by {
            assert(t.starts[j] == m.starts[f + j] - s);
            assert(s <= m.starts[f + j]);
            lemma_starts_increasing(m, f, f + j);
            assert(t.lines[t.starts[j]] == m.lines[m.starts[f + j]]);
            assert(t.lines[t.starts[j] - 1] == m.lines[m.starts[f + j] - 1]);
        }
        assert forall|j: int, k: int| 0 <= j < t.starts.len() && t.starts[j] <= k < group_end(t, j)
            implies (#[trigger] t.lines[k]).0 == (#[trigger] t.lines[t.starts[j]]).0 by {
            assert(t.starts[j] == m.starts[f + j] - s);
            assert(s <= m.starts[f + j]);
            assert(group_end(t, j) == group_end(m, f + j) - s);
            assert(t.lines[k] == m.lines[k + s]);
            assert(t.lines[t.starts[j]] == m.lines[m.starts[f + j]]);
            assert(m.starts[f + j] <= k + s < group_end(m, f + j));
        }
        assert(t.starts[0] == 0);
    }
}

/// In a well-formed index, identifiers never decrease, and the lines of one identifier
/// keep the order in which they were appended to the file.
pub proof fn lemma_index_order(m: FileModel)
    requires
        wf_model(m),
    ensures
        forall|i: int, j: int| 0 <= i < j < m.lines.len() ==> {
            &&& (#[trigger] m.lines[i]).0 <= (#[trigger] m.lines[j]).0
            &&& m.lines[i].0 == m.lines[j].0 ==> m.lines[i].1 < m.lines[j].1
        },
{
}

proof fn lemma_shrunk_count(m: FileModel, n: nat)
    requires
        wf_model(m),
    ensures
        shrunk(m, n).starts.len() == if n < m.starts.len() { n as int } else { m.starts.len() as int },
        wf_model(shrunk(m, n)),
{
    lemma_shrunk_wf(m, n);
}

#[verifier::rlimit(60)]
proof fn lemma_shrunk_compose(m: FileModel, a: nat, b: nat)
    requires
        wf_model(m),
        0 < a < b,
        b < m.starts.len(),
    ensures
        shrunk(shrunk(m, b), a) == shrunk(m, a),
{
    let count = m.starts.len();
    let fb = count - b;
    let fa = count - a;
    let sb = m.starts[fb];
    let sa = m.starts[fa];
    let len = m.lines.len() as int;
    assert(sb < group_end(m, fb));
    assert(sa < group_end(m, fa));
    lemma_starts_increasing(m, fb, fa);
    let mb = shrunk(m, b);
    assert(mb.starts.len() == b);
    assert(mb.starts[b - a] == sa - sb);
    let x = shrunk(mb, a);
    let y = shrunk(m, a);
    assert(x.lines =~= y.lines);
    assert(x.starts =~= y.starts) by {
        assert forall|k: int| 0 <= k < x.starts.len() implies x.starts[k] == y.starts[k] by {
            assert(x.starts[k] == mb.starts[(b - a) + k] - (sa - sb));
            assert(mb.starts[(b - a) + k] == m.starts[fb + (b - a) + k] - sb);
        }
    }
}

/// Shrinking keeps min(n, count) items, so more is kept for a larger bound; shrinking
/// twice to the same bound is shrinking once; shrinking to `a` after shrinking to a larger
/// `b` is shrinking to `a`.
pub proof fn lemma_shrink_laws(m: FileModel, a: nat, b: nat)
    requires
        wf_model(m),
        a <= b,
    ensures
        shrunk(m, a).starts.len() == if a < m.starts.len() { a as int } else { m.starts.len() as int },
        shrunk(m, a).starts.len() <= shrunk(m, b).starts.len(),
        shrunk(shrunk(m, a), a) == shrunk(m, a),
        shrunk(shrunk(m, b), a) == shrunk(m, a),
{
    lemma_shrunk_count(m, a);
    lemma_shrunk_count(m, b);
    if 0 < a < b && b < m.starts.len() {
        lemma_shrunk_compose(m, a, b);
    }
}

/// Shrinking to zero empties the index; shrinking to at least the item count changes
/// nothing.
pub proof fn lemma_shrink_bounds(m: FileModel, n: nat)
    requires
        wf_model(m),
    ensures
        shrunk(m, 0).lines.len() == 0,
        shrunk(m, 0).starts.len() == 0,
        n >= m.starts.len() ==> shrunk(m, n) == m,
{
}

/// A line is indexed under a cutoff exactly when its identifier's timestamp is not later
/// than the cutoff (a line stamped in the cutoff millisecond stays, whatever its nonce);
/// without a cutoff, every line whose identifier can be read is.
pub proof fn lemma_cutoff_visibility(data: Seq<u8>, ts: u64, x: (u64, int))
    requires
        line_starts_from(data, 0).contains(x.1),
        line_id(line_at(data, x.1)) == Some(x.0),
    ensures
        indexed_line(data, Some(ts), x) <==> x.0 / crate::id::NONCE_SPAN <= ts,
        indexed_line(data, None, x),
{
}

/// The offsets `s`, each moved by `d`.
pub open spec fn shifted(s: Seq<int>, d: int) -> Seq<int> {
    s.map_values(|x: int| x + d)
}

proof fn lemma_line_end_in_prefix(a: Seq<u8>, b: Seq<u8>, i: int)
    requires
        0 <= i < a.len(),
        a.len() > 0,
        a.last() == crate::lines::NEWLINE,
    ensures
        line_end(a + b, i) == line_end(a, i),
        line_end(a, i) < a.len(),
    decreases a.len() - i,
{
    assert((a + b)[a.len() - 1] == crate::lines::NEWLINE);
    assert((a + b)[i] == a[i]);
    if a[i] != crate::lines::NEWLINE {
        lemma_line_end_in_prefix(a, b, i + 1);
    }
}

proof fn lemma_line_end_in_suffix(a: Seq<u8>, b: Seq<u8>, j: int)
    requires
        0 <= j <= b.len(),
    ensures
        line_end(a + b, a.len() + j) == a.len() + line_end(b, j),
    decreases b.len() - j,
{
    if j < b.len() {
        assert((a + b)[a.len() + j] == b[j]);
        if b[j] != crate::lines::NEWLINE {
            lemma_line_end_in_suffix(a, b, j + 1);
        }
    }
}

proof fn lemma_starts_in_suffix(a: Seq<u8>, b: Seq<u8>, j: int)
    requires
        0 <= j,
    ensures
        line_starts_from(a + b, a.len() + j) == shifted(line_starts_from(b, j), a.len() as int),
    decreases b.len() - j,
{
    if j < b.len() {
        lemma_line_end_in_suffix(a, b, j);
        crate::lines::lemma_line_end_bounds(b, j);
        let e = line_end(b, j);
        if !(e + 1 <= j || e + 1 >= b.len()) {
            lemma_starts_in_suffix(a, b, e + 1);
            assert(shifted(line_starts_from(b, j), a.len() as int) =~= seq![a.len() + j] + shifted(line_starts_from(b, e + 1), a.len() as int));
        } else {
            assert(shifted(line_starts_from(b, j), a.len() as int) =~= seq![a.len() + j]);
        }
    } else {
        assert(shifted(line_starts_from(b, j), a.len() as int) =~= Seq::<int>::empty());
    }
}

proof fn lemma_starts_in_prefix(a: Seq<u8>, b: Seq<u8>, i: int)
    requires
        0 <= i <= a.len(),
        a.len() > 0,
        a.last() == crate::lines::NEWLINE,
    ensures
        line_starts_from(a + b, i) == line_starts_from(a, i) + shifted(line_starts_from(b, 0), a.len() as int),
    decreases a.len() - i,
{
    if i == a.len() {
        lemma_starts_in_suffix(a, b, 0);
        assert(line_starts_from(a, i) =~= Seq::<int>::empty());
        assert(Seq::<int>::empty() + shifted(line_starts_from(b, 0), a.len() as int) =~= shifted(line_starts_from(b, 0), a.len() as int));
    } else {
        lemma_line_end_in_prefix(a, b, i);
        crate::lines::lemma_line_end_bounds(a, i);
        let e = line_end(a, i);
        if e + 1 < a.len() {
            lemma_starts_in_prefix(a, b, e + 1);
            assert(line_starts_from(a + b, i) =~= seq![i] + line_starts_from(a + b, e + 1));
            assert(line_starts_from(a, i) =~= seq![i] + line_starts_from(a, e + 1));
            assert(line_starts_from(a + b, i) =~= line_starts_from(a, i) + shifted(line_starts_from(b, 0), a.len() as int));
        } else {
            assert(e + 1 == a.len());
            lemma_starts_in_suffix(a, b, 0);
            assert(line_starts_from(a, i) =~= seq![i]);
            if b.len() == 0 {
                assert(line_starts_from(b, 0) =~= Seq::<int>::empty());
                assert(line_starts_from(a + b, i) =~= seq![i]);
                assert(shifted(line_starts_from(b, 0), a.len() as int) =~= Seq::<int>::empty());
            } else {
                assert(line_starts_from(a + b, i) =~= seq![i] + line_starts_from(a + b, e + 1));
            }
            assert(line_starts_from(a + b, i) =~= line_starts_from(a, i) + shifted(line_starts_from(b, 0), a.len() as int));
        }
    }
}

proof fn lemma_line_at_prefix(a: Seq<u8>, b: Seq<u8>, i: int)
    requires
        0 <= i < a.len(),
        a.last() == crate::lines::NEWLINE,
    ensures
        line_at(a + b, i) == line_at(a, i),
{
    lemma_line_end_in_prefix(a, b, i);
    crate::lines::lemma_line_end_bounds(a, i);
    assert((a + b).subrange(i, line_end(a, i)) =~= a.subrange(i, line_end(a, i)));
}

proof fn lemma_line_at_suffix(a: Seq<u8>, b: Seq<u8>, j: int)
    requires
        0 <= j <= b.len(),
    ensures
        line_at(a + b, a.len() + j) == line_at(b, j),
{
    lemma_line_end_in_suffix(a, b, j);
    crate::lines::lemma_line_end_bounds(b, j);
    assert((a + b).subrange(a.len() + j, a.len() + line_end(b, j)) =~= b.subrange(j, line_end(b, j)));
}

/// The bytes of a file made of the record lines of the given items, in order.
pub open spec fn records_file(ms: Seq<ItemModel>) -> Seq<u8>
    decreases ms.len(),
{
    if ms.len() == 0 {
        Seq::empty()
    } else {
        records_file(ms.drop_last()) + vstd::utf8::encode_utf8(crate::record::record_line(ms.last()))
    }
}

/// Where the record of item `k` starts in such a file.
pub open spec fn record_offset(ms: Seq<ItemModel>, k: int) -> int {
    records_file(ms.subrange(0, k)).len() as int
}

proof fn lemma_single_record(m: ItemModel)
    ensures
        ({
            let r = vstd::utf8::encode_utf8(crate::record::record_line(m));
            &&& r.len() >= 1
            &&& r.last() == crate::lines::NEWLINE
            &&& line_starts_from(r, 0) == seq![0int]
            &&& line_at(r, 0) == r.subrange(0, r.len() - 1)
            &&& line_id(line_at(r, 0)) == Some(m.id)
        }),
{
    crate::record::lemma_record_bytes(m);
    let r = vstd::utf8::encode_utf8(crate::record::record_line(m));
    assert forall|i: int| 0 <= i <= r.len() - 1 implies line_end(r, i) == r.len() - 1 by {
        lemma_line_end_last(r, i);
    }
    assert(line_end(r, 0) == r.len() - 1);
    assert(line_starts_from(r, 0) =~= seq![0int]);
}

proof fn lemma_line_end_last(r: Seq<u8>, i: int)
    requires
        r.len() >= 1,
        r.last() == crate::lines::NEWLINE,
        forall|k: int| 0 <= k < r.len() - 1 ==> r[k] != crate::lines::NEWLINE,
        0 <= i <= r.len() - 1,
    ensures
        line_end(r, i) == r.len() - 1,
    decreases r.len() - i,
{
    if i < r.len() - 1 {
        lemma_line_end_last(r, i + 1);
    }
}

/// A file written as the record lines of some items has one line per item, at that item's
/// record, and the identifier read from each line is that item's. (The other fields go
/// through the JSON parser, of which only names are known here.)
pub proof fn lemma_records_file_lines(ms: Seq<ItemModel>)
    ensures
        line_starts_from(records_file(ms), 0).len() == ms.len(),
        forall|k: int| 0 <= k < ms.len() ==> {
            &&& #[trigger] line_starts_from(records_file(ms), 0)[k] == record_offset(ms, k)
            &&& line_id(line_at(records_file(ms), record_offset(ms, k))) == Some(ms[k].id)
        },
        ms.len() > 0 ==> records_file(ms).last() == crate::lines::NEWLINE,
    decreases ms.len(),
{
    if ms.len() > 0 {
        let p = ms.drop_last();
        lemma_records_file_lines(p);
        let a = records_file(p);
        let m = ms.last();
        lemma_single_record(m);
        let r = vstd::utf8::encode_utf8(crate::record::record_line(m));
        let data = records_file(ms);
        assert(data == a + r);
        assert((a + r).last() == r.last());
        assert forall|k: int| 0 <= k <= p.len() implies record_offset(ms, k) == record_offset(p, k) by {
            assert(ms.subrange(0, k) =~= p.subrange(0, k));
        }
        assert(record_offset(ms, p.len() as int) == a.len()) by {
            assert(p.subrange(0, p.len() as int) =~= p);
        }
        if p.len() == 0 {
            assert(a =~= Seq::<u8>::empty());
            assert(data =~= r);
            assert(line_starts_from(data, 0) =~= seq![0int]);
        } else {
            lemma_starts_in_prefix(a, r, 0);
            assert(shifted(line_starts_from(r, 0), a.len() as int) =~= seq![a.len() as int]);
            let ls = line_starts_from(data, 0);
            assert(ls =~= line_starts_from(a, 0) + seq![a.len() as int]);
            assert forall|k: int| 0 <= k < ms.len() implies {
                &&& #[trigger] line_starts_from(records_file(ms), 0)[k] == record_offset(ms, k)
                &&& line_id(line_at(records_file(ms), record_offset(ms, k))) == Some(ms[k].id)
            } by {
                if k < p.len() {
                    assert(ls[k] == line_starts_from(a, 0)[k]);
                    assert(ms[k] == p[k]);
                    let off = record_offset(p, k);
                    lemma_line_starts(a, 0);
                    assert(0 <= off < a.len());
                    lemma_line_at_prefix(a, r, off);
                } else {
                    assert(ls[k] == a.len());
                    lemma_line_at_suffix(a, r, 0);
                }
            }
        }
        if p.len() == 0 {
            assert(record_offset(ms, 0) == 0) by {
                assert(ms.subrange(0, 0) =~= Seq::<ItemModel>::empty());
            }
        }
    }
}

/// Parsing, without a cutoff, a file written as the record lines of some items indexes
/// exactly one line per item: the line at that item's record, under that item's identifier.
pub proof fn lemma_records_file_index(ms: Seq<ItemModel>)
    ensures
        forall|x: (u64, int)| indexed_line(records_file(ms), None, x) <==> exists|k: int|
            0 <= k < ms.len() && x == (ms[k].id, #[trigger] record_offset(ms, k)),
{
    lemma_records_file_lines(ms);
    let data = records_file(ms);
    let ls = line_starts_from(data, 0);
    assert forall|x: (u64, int)| indexed_line(data, None, x) <==> exists|k: int|
        0 <= k < ms.len() && x == (ms[k].id, #[trigger] record_offset(ms, k)) by {
        if indexed_line(data, None, x) {
            let k = choose|k: int| 0 <= k < ls.len() && ls[k] == x.1;
            assert(ls[k] == record_offset(ms, k));
            assert(x == (ms[k].id, record_offset(ms, k)));
        }
        if exists|k: int| 0 <= k < ms.len() && x == (ms[k].id, #[trigger] record_offset(ms, k)) {
            let k = choose|k: int| 0 <= k < ms.len() && x == (ms[k].id, #[trigger] record_offset(ms, k));
            assert(ls[k] == record_offset(ms, k));
            assert(ls.contains(x.1));
        }
    }
}

proof fn lemma_fold_keeps_id(data: Seq<u8>, lines: Seq<(u64, int)>, base: ItemModel, lo: int, hi: int)
    ensures
        fold_lines(data, lines, base, lo, hi).id == base.id,
    decreases hi - lo,
{
    if hi > lo {
        lemma_fold_keeps_id(data, lines, base, lo, hi - 1);
    }
}

/// The items of a well-formed file have strictly increasing identifiers, so each
/// identifier of the index gives exactly one item; every line belongs to the item whose
/// lines surround it.
pub proof fn lemma_item_ids_increase(m: FileModel)
    requires
        wf_model(m),
    ensures
        forall|k: int| 0 <= k < m.starts.len() ==> (#[trigger] file_item(m, k)).id == m.lines[m.starts[k]].0,
        forall|k: int, q: int| 0 <= k < q < m.starts.len() ==> (#[trigger] file_item(m, k)).id < (#[trigger] file_item(m, q)).id,
{
    assert forall|k: int| 0 <= k < m.starts.len() implies (#[trigger] file_item(m, k)).id == m.lines[m.starts[k]].0 by {
        lemma_fold_keeps_id(m.data, m.lines, empty_item(m.lines[m.starts[k]].0), m.starts[k], group_end(m, k));
    }
    assert forall|k: int, q: int| 0 <= k < q < m.starts.len() implies (#[trigger] file_item(m, k)).id < (#[trigger] file_item(m, q)).id by {
        lemma_start_ids_increase(m, k, q);
        lemma_fold_keeps_id(m.data, m.lines, empty_item(m.lines[m.starts[k]].0), m.starts[k], group_end(m, k));
        lemma_fold_keeps_id(m.data, m.lines, empty_item(m.lines[m.starts[q]].0), m.starts[q], group_end(m, q));
    }
}

#[verifier::rlimit(80)]
proof fn lemma_start_ids_increase(m: FileModel, k: int, q: int)
    requires
        wf_model(m),
        0 <= k < q < m.starts.len(),
    ensures
        m.lines[m.starts[k]].0 < m.lines[m.starts[q]].0,
    decreases q - k,
{
    let a = m.starts[k + 1];
    assert(0 <= m.starts[k] < group_end(m, k));
    assert(group_end(m, k) == a);
    assert(m.starts[k] <= a - 1 < group_end(m, k));
    assert(0 <= a - 1 < a < m.lines.len()) by {
        assert(0 <= m.starts[k + 1] < group_end(m, k + 1) <= m.lines.len());
    }
    assert(m.lines[a - 1].0 == m.lines[m.starts[k]].0);
    assert(m.lines[a].0 != m.lines[a - 1].0);
    assert(lt(m.lines[a - 1], m.lines[a]));
    if q > k + 1 {
        lemma_start_ids_increase(m, k + 1, q);
    }
}

proof fn lemma_fold_shift(data: Seq<u8>, lines: Seq<(u64, int)>, s: int, base: ItemModel, lo: int, hi: int)
    requires
        0 <= s <= lo,
        hi <= lines.len(),
    ensures
        fold_lines(data, lines.subrange(s, lines.len() as int), base, lo - s, hi - s) == fold_lines(data, lines, base, lo, hi),
    decreases hi - lo,
{
    if hi > lo {
        lemma_fold_shift(data, lines, s, base, lo, hi - 1);
        assert(lines.subrange(s, lines.len() as int)[hi - 1 - s] == lines[hi - 1]);
    }
}

/// Shrinking keeps the newest items unchanged: item `k` of the shrunk file is item
/// `k + (count - kept)` of the original, where `kept` is min(n, count).
pub proof fn lemma_shrink_keeps_suffix(m: FileModel, n: nat)
    requires
        wf_model(m),
    ensures
        forall|k: int| 0 <= k < shrunk(m, n).starts.len() ==> #[trigger] file_item(shrunk(m, n), k)
            == file_item(m, k + m.starts.len() - shrunk(m, n).starts.len()),
{
    let count = m.starts.len();
    lemma_shrunk_count(m, n);
    if 0 < n < count {
        lemma_shrunk_index(m, n);
        let t = shrunk(m, n);
        let f = count - n;
        let s = m.starts[f];
        assert forall|k: int| 0 <= k < t.starts.len() implies #[trigger] file_item(t, k) == file_item(m, k + count - t.starts.len()) by {
            assert(t.starts[k] == m.starts[f + k] - s);
            assert(group_end(t, k) == group_end(m, f + k) - s);
            assert(s <= m.starts[f + k]);
            assert(m.starts[f + k] < group_end(m, f + k) <= m.lines.len());
            assert(t.lines[t.starts[k]] == m.lines[m.starts[f + k]]);
            lemma_fold_shift(m.data, m.lines, s, empty_item(m.lines[m.starts[f + k]].0), m.starts[f + k], group_end(m, f + k));
        }
    }
}

} // verus!
