//! The store of one history namespace: items added by this process, merged with the items
//! of the history file as it was when last loaded.
//!
//! The store does no I/O. Record lines that are to be appended to the file wait in an
//! outbox; the bytes of the file are handed in when the caller loads them; a rewrite of the
//! file is computed from the bytes that the caller read.
use vstd::prelude::*;
use crate::history_file::{file_item, wf_model, FileModel, HistoryFile};
use crate::id::{pack_id, HistoryItemId};
use crate::item::{empty_item, HistoryItem, ItemModel, PersistenceMode};
use crate::record::record_line;
use crate::text::{chars_of, char_is_alphanumeric, copy_string, is_alphanumeric, str_eq, string_from_chars, utf8_decode};
use crate::textmatch::{is_prefix, starts_with, trim, trimmed, contains_text, find_text};
use crate::lines::{iter_lines, line_at, line_starts_from};
use vstd::utf8::{decode_utf8, valid_utf8};
use rand::Rng;

verus! {

/// Items are added this many times between two rewrites of the file.
pub const VACUUM_FREQUENCY: usize = 25;

/// The namespace used when none is configured.
pub const DEFAULT_NAMESPACE: &'static str = "fish";

/// Whether a deletion applies to this session only or to every session.
#[derive(Clone, Copy, Debug, PartialEq, Eq, Structural)]
pub enum DeletionScope {
    SessionOnly,
    AllSessions,
}

/// The abstract value of a store.
pub struct StoreModel {
    /// The namespace; empty for a store that keeps no file.
    pub name: Seq<char>,
    /// Items added by this process, oldest first.
    pub new_items: Seq<ItemModel>,
    /// Whether the last new item is pending.
    pub pending: bool,
    /// The file as last loaded, if it is loaded.
    pub file: Option<FileModel>,
    /// Items of the file newer than this timestamp (in ms) are not visible.
    pub boundary: u64,
    /// Deleted texts with their scope; a later entry for a text overrides an earlier one.
    pub deleted: Seq<(Seq<char>, DeletionScope)>,
    /// Record lines waiting to be appended to the file, oldest first.
    pub outbox: Seq<Seq<char>>,
}

/// The number of new items that are not pending.
pub open spec fn resolved_count(m: StoreModel) -> int {
    if m.pending && m.new_items.len() > 0 {
        m.new_items.len() - 1
    } else {
        m.new_items.len() as int
    }
}

/// The number of items of the loaded file; none when no file is loaded.
pub open spec fn old_count(m: StoreModel) -> int {
    match m.file {
        Some(f) => f.starts.len() as int,
        None => 0,
    }
}

/// The number of history entries.
pub open spec fn store_size(m: StoreModel) -> int {
    resolved_count(m) + old_count(m)
}

/// The entry at a 1-based index, newest first: resolved new items, then file items.
/// Index 0 stands for the command line being edited and has no entry.
pub open spec fn entry_at(m: StoreModel, idx: int) -> Option<ItemModel> {
    let r = resolved_count(m);
    if idx <= 0 {
        None
    } else if idx <= r {
        Some(m.new_items[r - idx])
    } else {
        match m.file {
            Some(f) => if idx - r - 1 < f.starts.len() {
                Some(file_item(f, f.starts.len() - 1 - (idx - r - 1)))
            } else {
                None
            },
            None => None,
        }
    }
}

/// The items with trailing ephemeral items removed.
pub open spec fn strip_ephemeral(s: Seq<ItemModel>) -> Seq<ItemModel>
    decreases s.len(),
{
    if s.len() > 0 && s.last().persist_mode == PersistenceMode::Ephemeral {
        strip_ephemeral(s.drop_last())
    } else {
        s
    }
}

/// The store after an item is added: trailing ephemeral items go first unless the new
/// item is itself ephemeral; an item to be kept on disk is queued as a record line unless
/// the store keeps no file.
pub open spec fn added(m: StoreModel, it: ItemModel, pending: bool) -> StoreModel {
    let kept = if it.persist_mode == PersistenceMode::Ephemeral {
        m.new_items
    } else {
        strip_ephemeral(m.new_items)
    };
    StoreModel {
        new_items: kept.push(it),
        pending,
        outbox: if it.persist_mode == PersistenceMode::Disk && m.name.len() > 0 {
            m.outbox.push(record_line(it))
        } else {
            m.outbox
        },
        ..m
    }
}

/// The store after peers' changes are taken in at time `now`: if the clock moved past the
/// boundary, the boundary moves to `now`, the loaded file is dropped and so are the new
/// items (they are read back from the file).
pub open spec fn incorporated(m: StoreModel, now: u64) -> StoreModel {
    if now > m.boundary {
        StoreModel { boundary: now, file: None, new_items: Seq::empty(), ..m }
    } else {
        m
    }
}

/// A command line as a resolved item kept on disk.
pub open spec fn commandline_item(s: Seq<char>, id: u64) -> ItemModel {
    ItemModel { contents: s, ..empty_item(id) }
}

/// The store of one history namespace.
pub struct History {
    name: String,
    custom_directory: Option<String>,
    new_items: Vec<HistoryItem>,
    has_pending_item: bool,
    deleted_items: Vec<(String, DeletionScope)>,
    file_contents: Option<HistoryFile>,
    boundary_timestamp: u64,
    next_item_id_nonce: u16,
    countdown_to_vacuum: Option<usize>,
    pending_writes: Vec<String>,
    vacuum_requested: bool,
}

pub open spec fn item_views(v: Seq<HistoryItem>) -> Seq<ItemModel> {
    v.map_values(|i: HistoryItem| i@)
}

impl View for History {
    type V = StoreModel;

    closed spec fn view(&self) -> StoreModel {
        StoreModel {
            name: self.name@,
            new_items: item_views(self.new_items@),
            pending: self.has_pending_item,
            file: match self.file_contents {
                Some(f) => Some(f@),
                None => None,
            },
            boundary: self.boundary_timestamp,
            deleted: self.deleted_items@.map_values(|d: (String, DeletionScope)| (d.0@, d.1)),
            outbox: self.pending_writes@.map_values(|s: String| s@),
        }
    }
}

/// Relies on `rand::Rng::random_range`: a value in `0..n`, which must not be empty.
#[verifier::external_body]
fn random_below(n: usize) -> (r: usize)
    requires
        n > 0,
    ensures
        r < n,
{
    rand::rng().random_range(0..n)
}

/// Relies on `rand::Rng::random`: any 16-bit value.
#[verifier::external_body]
fn random_nonce() -> (r: u16) {
    rand::rng().random::<u16>()
}

/// Relies on `std::time::SystemTime::now`: the current time in milliseconds since the epoch
/// (zero before the epoch). Nothing is known of its value.
#[verifier::external_body]
pub fn now_ms() -> (r: u64) {
    match std::time::SystemTime::now().duration_since(std::time::UNIX_EPOCH) {
        Ok(d) => d.as_millis() as u64,
        Err(_) => 0,
    }
}

impl History {
    /// Whether the store's invariant holds: a loaded file is well formed.
    pub open spec fn wf(&self) -> bool {
        self@.file matches Some(f) ==> wf_model(f)
    }

    /// A store for the namespace `name`, with no file loaded. Its file lives in `directory`
    /// when one is given; the boundary is the current time.
    pub fn new(name: &str, directory: Option<String>) -> (r: Self)
        ensures
            r.wf(),
            r@.name == name@,
            r@.new_items.len() == 0,
            !r@.pending,
            r@.file is None,
            r@.deleted.len() == 0,
            r@.outbox.len() == 0,
    {
        Self::new_at(name, directory, now_ms(), random_nonce())
    }

    /// A store for the namespace `name` whose boundary is `now` and whose item nonces start
    /// at `nonce`.
    pub fn new_at(name: &str, directory: Option<String>, now: u64, nonce: u16) -> (r: Self)
        ensures
            r.wf(),
            r@.name == name@,
            r@.new_items.len() == 0,
            !r@.pending,
            r@.file is None,
            r@.boundary == now,
            r@.deleted.len() == 0,
            r@.outbox.len() == 0,
            r.custom_dir() == directory,
            !r.wants_vacuum(),
    {
        let r = History {
            name: copy_string(name),
            custom_directory: directory,
            new_items: Vec::new(),
            has_pending_item: false,
            deleted_items: Vec::new(),
            file_contents: None,
            boundary_timestamp: now,
            next_item_id_nonce: nonce,
            countdown_to_vacuum: None,
            pending_writes: Vec::new(),
            vacuum_requested: false,
        };
        proof {
            assert(r@.new_items =~= Seq::<ItemModel>::empty());
            assert(r@.deleted =~= Seq::<(Seq<char>, DeletionScope)>::empty());
            assert(r@.outbox =~= Seq::<Seq<char>>::empty());
        }
        r
    }

    /// The namespace of this store.
    pub fn name(&self) -> (r: &str)
        ensures
            r@ == self@.name,
    {
        self.name.as_str()
    }

    /// The directory given for the file, if any.
    pub fn custom_directory(&self) -> (r: &Option<String>)
        ensures
            *r == self.custom_dir(),
    {
        &self.custom_directory
    }

    /// Whether this store uses the default namespace.
    pub fn is_default(&self) -> (r: bool)
        ensures
            r == (self@.name == DEFAULT_NAMESPACE@),
    {
        str_eq(self.name.as_str(), DEFAULT_NAMESPACE)
    }

    /// The boundary timestamp, in milliseconds.
    pub fn boundary_timestamp(&self) -> (r: u64)
        ensures
            r == self@.boundary,
    {
        self.boundary_timestamp
    }

    /// Whether the file contents are loaded.
    pub fn is_loaded(&self) -> (r: bool)
        ensures
            r == self@.file is Some,
    {
        self.file_contents.is_some()
    }

    /// Load the bytes of the history file, hiding lines newer than the boundary.
    pub fn load_file_contents(&mut self, data: Vec<u8>)
        requires
            old(self).wf(),
        ensures
            final(self).wf(),
            final(self)@.file matches Some(f) && f.data == data@ && forall|x: (u64, int)|
                f.lines.contains(x) <==> crate::history_file::indexed_line(
                    data@,
                    Some(old(self)@.boundary),
                    x,
                ),
            final(self)@ == (StoreModel { file: final(self)@.file, ..old(self)@ }),
    {
        let f = HistoryFile::from_data(data, Some(self.boundary_timestamp));
        self.file_contents = Some(f);
    }

    /// Drop the loaded file contents, so that the next load reads the file again.
    pub fn clear_file_state(&mut self)
        requires
            old(self).wf(),
        ensures
            final(self).wf(),
            final(self)@ == (StoreModel { file: None, ..old(self)@ }),
    {
        self.file_contents = None;
    }

    /// Take the record lines waiting to be appended to the file, oldest first.
    pub fn take_pending_writes(&mut self) -> (r: Vec<String>)
        requires
            old(self).wf(),
        ensures
            final(self).wf(),
            r@.map_values(|s: String| s@) == old(self)@.outbox,
            final(self)@ == (StoreModel { outbox: Seq::empty(), ..old(self)@ }),
    {
        let r = self.pending_writes.split_off(0);
        proof {
            assert(self@.outbox =~= Seq::<Seq<char>>::empty());
        }
        r
    }

    /// The directory given for the file, if any.
    pub closed spec fn custom_dir(&self) -> Option<String> {
        self.custom_directory
    }

    /// Whether a rewrite has been asked for and not yet done.
    pub closed spec fn wants_vacuum(&self) -> bool {
        self.vacuum_requested
    }

    /// Whether a rewrite of the file has been asked for since it was last done.
    pub fn vacuum_requested(&self) -> (r: bool)
        ensures
            r == self.wants_vacuum(),
    {
        self.vacuum_requested
    }
}

impl History {
    fn strip_trailing_ephemeral(&mut self)
        requires
            old(self).wf(),
        ensures
            final(self).wf(),
            final(self)@ == (StoreModel { new_items: strip_ephemeral(old(self)@.new_items), ..old(self)@ }),
    {
        while self.new_items.len() > 0 && self.new_items[self.new_items.len() - 1].persist_mode == PersistenceMode::Ephemeral
            invariant
                self.wf(),
                strip_ephemeral(self@.new_items) == strip_ephemeral(old(self)@.new_items),
                self@ == (StoreModel { new_items: self@.new_items, ..old(self)@ }),
            decreases self@.new_items.len(),
        {
            let ghost before = self@.new_items;
            self.new_items.pop();
            proof {
                assert(self@.new_items =~= before.drop_last());
            }
        }
    }

    /// Remove trailing ephemeral items.
    pub fn remove_ephemeral_items(&mut self)
        requires
            old(self).wf(),
        ensures
            final(self).wf(),
            final(self)@ == (StoreModel { new_items: strip_ephemeral(old(self)@.new_items), ..old(self)@ }),
    {
        self.strip_trailing_ephemeral();
    }

    /// Add an item to the end. A pending item is not returned by `item_at_index` until it is
    /// resolved; adding any item resolves an earlier pending one. Trailing ephemeral items
    /// are dropped first unless the new item is ephemeral too. An item kept on disk is
    /// queued as a record line; every so many such items a rewrite of the file is asked for.
    pub fn add(&mut self, item: HistoryItem, pending: bool) -> (r: HistoryItemId)
        requires
            old(self).wf(),
            item@.contents.len() > 0,
        ensures
            final(self).wf(),
            r == item.id,
            final(self)@ == added(old(self)@, item@, pending),
    {
        let id = item.id;
        if item.persist_mode != PersistenceMode::Ephemeral {
            self.strip_trailing_ephemeral();
        }
        let ghost before = self@;
        let write = item.persist_mode == PersistenceMode::Disk && !self.name.as_str().is_empty();
        if write {
            let line = item.to_json_line();
            self.pending_writes.push(line);
        }
        self.new_items.push(item);
        self.has_pending_item = pending;
        proof {
            assert(item_views(self.new_items@) =~= before.new_items.push(item@));
            if write {
                assert(self@.outbox =~= before.outbox.push(record_line(item@)));
            }
        }
        if write {
            self.count_towards_vacuum();
        }
        id
    }

    fn count_towards_vacuum(&mut self)
        ensures
            final(self)@ == old(self)@,
    {
        let mut countdown = match self.countdown_to_vacuum {
            Some(c) => c,
            None => random_below(VACUUM_FREQUENCY),
        };
        if countdown == 0 {
            countdown = VACUUM_FREQUENCY;
            self.vacuum_requested = true;
        }
        self.countdown_to_vacuum = Some(countdown - 1);
    }

    fn next_item_id(&mut self) -> (r: HistoryItemId)
        ensures
            final(self)@ == old(self)@,
    {
        let nonce = self.next_item_id_nonce;
        self.next_item_id_nonce = self.next_item_id_nonce.wrapping_add(1);
        HistoryItemId::new(now_ms(), nonce)
    }

    /// Add a command line as a resolved item kept on disk, with a fresh identifier.
    pub fn add_commandline(&mut self, s: String)
        requires
            old(self).wf(),
            s@.len() > 0,
        ensures
            final(self).wf(),
            exists|id: u64| final(self)@ == #[trigger] added(old(self)@, commandline_item(s@, id), false),
    {
        let id = self.next_item_id();
        let mut item = HistoryItem::with_id(id);
        item.contents = s;
        proof {
            assert(item@ == commandline_item(s@, id.0));
        }
        self.add(item, false);
    }

    /// Resolve the pending item, so that it is returned by `item_at_index`.
    pub fn resolve_pending(&mut self)
        requires
            old(self).wf(),
        ensures
            final(self).wf(),
            final(self)@ == (StoreModel { pending: false, ..old(self)@ }),
    {
        self.has_pending_item = false;
    }

    fn resolved_new_item_count(&self) -> (r: usize)
        ensures
            r == resolved_count(self@),
    {
        let n = self.new_items.len();
        if self.has_pending_item && n > 0 {
            n - 1
        } else {
            n
        }
    }

    /// The entry at a 1-based index, newest first. Index 0 stands for the command line being
    /// edited. Without a loaded file only new items are found.
    pub fn item_at_index(&self, idx: usize) -> (r: Option<HistoryItem>)
        requires
            self.wf(),
        ensures
            r matches Some(it) ==> entry_at(self@, idx as int) == Some(it@),
            r is None ==> entry_at(self@, idx as int) is None,
    {
        if idx == 0 {
            return None;
        }
        let resolved = self.resolved_new_item_count();
        if idx <= resolved {
            return Some(self.new_items[resolved - idx].duplicate());
        }
        match &self.file_contents {
            Some(f) => f.get_from_back(idx - resolved - 1),
            None => None,
        }
    }

    /// The number of history entries: resolved new items and items of the loaded file.
    pub fn size(&self) -> (r: usize)
        requires
            self.wf(),
            store_size(self@) <= usize::MAX,
        ensures
            r == store_size(self@),
    {
        let old_items = match &self.file_contents {
            Some(f) => f.item_count(),
            None => 0,
        };
        self.resolved_new_item_count() + old_items
    }

    /// Whether there are no entries: no new item, and no item in the loaded file.
    pub fn is_empty(&self) -> (r: bool)
        requires
            self.wf(),
        ensures
            r == (self@.new_items.len() == 0 && old_count(self@) == 0),
    {
        if self.new_items.len() > 0 {
            return false;
        }
        match &self.file_contents {
            Some(f) => f.item_count() == 0,
            None => true,
        }
    }

    /// Take in the changes of other shells at time `now`: when the clock has moved past the
    /// boundary, the boundary moves to `now` and the file is read again at the next load;
    /// new items are dropped, as they are read back from the file.
    pub fn incorporate_external_changes_at(&mut self, now: u64)
        requires
            old(self).wf(),
        ensures
            final(self).wf(),
            final(self)@ == incorporated(old(self)@, now),
    {
        if now > self.boundary_timestamp {
            self.boundary_timestamp = now;
            self.file_contents = None;
            self.new_items.clear();
            proof {
                assert(self@.new_items =~= Seq::<ItemModel>::empty());
            }
        }
    }

    /// Take in the changes of other shells, at the current time.
    pub fn incorporate_external_changes(&mut self)
        requires
            old(self).wf(),
        ensures
            final(self).wf(),
            exists|now: u64| final(self)@ == #[trigger] incorporated(old(self)@, now),
    {
        let now = now_ms();
        self.incorporate_external_changes_at(now);
    }
}

/// The items whose text is not `t`, in order.
pub open spec fn without_text(s: Seq<ItemModel>, t: Seq<char>) -> Seq<ItemModel>
    decreases s.len(),
{
    if s.len() == 0 {
        s
    } else {
        let r = without_text(s.drop_last(), t);
        if s.last().contents == t { r } else { r.push(s.last()) }
    }
}

/// The position of the newest item with identifier `id`, or -1.
pub open spec fn last_with_id(s: Seq<ItemModel>, id: u64) -> int
    decreases s.len(),
{
    if s.len() == 0 {
        -1
    } else if s.last().id == id {
        s.len() - 1
    } else {
        last_with_id(s.drop_last(), id)
    }
}

/// The store after a metadata update: the newest item with the update's identifier takes
/// the update's present fields, and the update is queued as a record line if that item is
/// kept on disk. Without such an item nothing changes.
pub open spec fn updated(m: StoreModel, u: ItemModel) -> StoreModel {
    let k = last_with_id(m.new_items, u.id);
    if k < 0 {
        m
    } else {
        StoreModel {
            new_items: m.new_items.update(k, crate::item::merged(m.new_items[k], u)),
            outbox: if m.new_items[k].persist_mode == PersistenceMode::Disk && m.name.len() > 0 {
                m.outbox.push(record_line(u))
            } else {
                m.outbox
            },
            ..m
        }
    }
}

/// The texts in order, each kept only where it first occurs.
pub open spec fn dedup(s: Seq<Seq<char>>) -> Seq<Seq<char>>
    decreases s.len(),
{
    if s.len() == 0 {
        s
    } else {
        let d = dedup(s.drop_last());
        if d.contains(s.last()) { d } else { d.push(s.last()) }
    }
}

/// The texts of the newest `i` resolved new items, newest first.
pub open spec fn new_texts(m: StoreModel, i: int) -> Seq<Seq<char>>
    decreases i,
{
    if i <= 0 {
        Seq::empty()
    } else {
        new_texts(m, i - 1).push(m.new_items[resolved_count(m) - i].contents)
    }
}

/// The non-empty texts of the newest `j` items of a file, newest first.
pub open spec fn file_texts(f: FileModel, j: int) -> Seq<Seq<char>>
    decreases j,
{
    if j <= 0 {
        Seq::empty()
    } else {
        let c = file_item(f, f.starts.len() - j).contents;
        if c.len() > 0 { file_texts(f, j - 1).push(c) } else { file_texts(f, j - 1) }
    }
}

/// Every text of the history, newest first, each once: resolved new items, then items of
/// the loaded file.
pub open spec fn history_texts(m: StoreModel) -> Seq<Seq<char>> {
    dedup(new_texts(m, resolved_count(m)) + match m.file {
        Some(f) => file_texts(f, f.starts.len() as int),
        None => Seq::empty(),
    })
}

proof fn lemma_push_contains(s: Seq<Seq<char>>, c: Seq<char>)
    ensures
        forall|x: Seq<char>| s.push(c).contains(x) <==> (s.contains(x) || x == c),
{
    assert forall|x: Seq<char>| s.push(c).contains(x) <==> (s.contains(x) || x == c) by {
        if s.contains(x) {
            let i = choose|i: int| 0 <= i < s.len() && s[i] == x;
            assert(s.push(c)[i] == x);
        }
        if x == c {
            assert(s.push(c)[s.len() as int] == x);
        }
        if s.push(c).contains(x) {
            let i = choose|i: int| 0 <= i < s.len() + 1 && s.push(c)[i] == x;
            if i < s.len() {
                assert(s[i] == x);
            }
        }
    }
}

impl History {
    /// Remove every new item with the text `s`, and remember the text as deleted in all
    /// sessions; the file loses it at the next rewrite.
    pub fn remove(&mut self, s: &str)
        requires
            old(self).wf(),
        ensures
            final(self).wf(),
            final(self)@ == (StoreModel {
                new_items: without_text(old(self)@.new_items, s@),
                deleted: old(self)@.deleted.push((s@, DeletionScope::AllSessions)),
                ..old(self)@
            }),
    {
        let ghost d0 = self@.deleted;
        self.deleted_items.push((copy_string(s), DeletionScope::AllSessions));
        proof {
            assert(self@.deleted =~= d0.push((s@, DeletionScope::AllSessions)));
        }
        let items = self.new_items.split_off(0);
        let ghost mid = self@;
        let ghost orig = item_views(items@);
        proof {
            assert(orig == old(self)@.new_items);
        }
        let mut i: usize = 0;
        while i < items.len()
            invariant
                self@ == (StoreModel { new_items: self@.new_items, ..mid }),
                mid.deleted == old(self)@.deleted.push((s@, DeletionScope::AllSessions)),
                mid == (StoreModel { new_items: mid.new_items, deleted: mid.deleted, ..old(self)@ }),
                self.file_contents == old(self).file_contents,
                i <= items@.len(),
                orig == item_views(items@),
                item_views(self.new_items@) == without_text(orig.subrange(0, i as int), s@),
            decreases items@.len() - i,
        {
            proof {
                assert(orig.subrange(0, i + 1).drop_last() =~= orig.subrange(0, i as int));
            }
            if !str_eq(items[i].contents.as_str(), s) {
                let ghost before = item_views(self.new_items@);
                self.new_items.push(items[i].duplicate());
                proof {
                    assert(item_views(self.new_items@) =~= before.push(orig[i as int]));
                }
            }
            i = i + 1;
        }
        proof {
            assert(orig.subrange(0, items@.len() as int) =~= orig);
        }
    }

    /// Forget every item and deletion, and the loaded file; the caller removes the file.
    pub fn clear(&mut self)
        requires
            old(self).wf(),
        ensures
            final(self).wf(),
            final(self)@ == (StoreModel {
                new_items: Seq::empty(),
                deleted: Seq::empty(),
                file: None,
                ..old(self)@
            }),
    {
        self.new_items.clear();
        self.deleted_items.clear();
        self.file_contents = None;
        proof {
            assert(self@.new_items =~= Seq::<ItemModel>::empty());
            assert(self@.deleted =~= Seq::<(Seq<char>, DeletionScope)>::empty());
        }
    }

    /// Forget the items of this session, remembering each text as deleted for this session.
    pub fn clear_session(&mut self)
        requires
            old(self).wf(),
        ensures
            final(self).wf(),
            final(self)@.new_items.len() == 0,
            final(self)@.deleted.len() == old(self)@.deleted.len() + old(self)@.new_items.len(),
            forall|k: int| 0 <= k < old(self)@.deleted.len() ==> final(self)@.deleted[k] == old(self)@.deleted[k],
            forall|k: int| 0 <= k < old(self)@.new_items.len() ==> #[trigger] final(self)@.deleted[old(self)@.deleted.len() + k]
                == (old(self)@.new_items[k].contents, DeletionScope::SessionOnly),
            final(self)@ == (StoreModel { new_items: final(self)@.new_items, deleted: final(self)@.deleted, ..old(self)@ }),
    {
        let ghost d0 = self@.deleted;
        let ghost items = self@.new_items;
        let mut i: usize = 0;
        while i < self.new_items.len()
            invariant
                i <= self@.new_items.len(),
                self@.new_items == items,
                self@ == (StoreModel { deleted: self@.deleted, ..old(self)@ }),
                self@.deleted.len() == d0.len() + i,
                forall|k: int| 0 <= k < d0.len() ==> self@.deleted[k] == d0[k],
                forall|k: int| 0 <= k < i ==> #[trigger] self@.deleted[d0.len() + k] == (items[k].contents, DeletionScope::SessionOnly),
            decreases self@.new_items.len() - i,
        {
            let t = copy_string(self.new_items[i].contents.as_str());
            let ghost before = self@.deleted;
            let ghost tv = t@;
            self.deleted_items.push((t, DeletionScope::SessionOnly));
            proof {
                assert(self@.deleted =~= before.push((tv, DeletionScope::SessionOnly)));
            }
            i = i + 1;
        }
        self.new_items.clear();
        proof {
            assert(self@.new_items =~= Seq::<ItemModel>::empty());
        }
    }

    /// Apply a metadata update to the newest item with its identifier; the update is queued
    /// as a record line if that item is kept on disk.
    pub fn emit_update(&mut self, update: HistoryItem)
        requires
            old(self).wf(),
        ensures
            final(self).wf(),
            final(self)@ == updated(old(self)@, update@),
    {
        let ghost m = self@;
        let mut k = self.new_items.len();
        proof {
            assert(m.new_items.subrange(0, k as int) =~= m.new_items);
        }
        while k > 0 && self.new_items[k - 1].id.0 != update.id.0
            invariant
                k <= self@.new_items.len(),
                self@ == m,
                last_with_id(m.new_items, update.id.0) == last_with_id(m.new_items.subrange(0, k as int), update.id.0),
            decreases k,
        {
            proof {
                assert(m.new_items.subrange(0, k as int).drop_last() =~= m.new_items.subrange(0, k - 1));
            }
            k = k - 1;
        }
        if k == 0 {
            proof {
                assert(m.new_items.subrange(0, 0) =~= Seq::<ItemModel>::empty());
            }
            return;
        }
        let idx = k - 1;
        proof {
            assert(m.new_items.subrange(0, k as int).last() == m.new_items[idx as int]);
            assert(last_with_id(m.new_items, update.id.0) == idx);
        }
        if self.new_items[idx].persist_mode == PersistenceMode::Disk && !self.name.as_str().is_empty() {
            let line = update.to_json_line();
            self.pending_writes.push(line);
        }
        let mut item = self.new_items.remove(idx);
        item.merge(update);
        self.new_items.insert(idx, item);
        proof {
            assert(item_views(self.new_items@) =~= m.new_items.update(idx as int, crate::item::merged(m.new_items[idx as int], update@)));
            assert(self@.outbox =~= updated(m, update@).outbox);
        }
    }

    /// Every text of the history, newest first, each once. A pending item is left out.
    pub fn get_history(&self) -> (r: Vec<String>)
        requires
            self.wf(),
        ensures
            r@.map_values(|s: String| s@) == history_texts(self@),
    {
        let ghost m = self@;
        let mut result: Vec<String> = Vec::new();
        let mut seen = vstd::hash_set::StringHashSet::new();
        let resolved = self.resolved_new_item_count();
        let mut i: usize = 0;
        while i < resolved
            invariant
                self@ == m,
                resolved == resolved_count(m),
                i <= resolved,
                result@.map_values(|s: String| s@) == dedup(new_texts(m, i as int)),
                forall|x: Seq<char>| seen@.contains(x) <==> result@.map_values(|s: String| s@).contains(x),
            decreases resolved - i,
        {
            let t = copy_string(self.new_items[resolved - 1 - i].contents.as_str());
            proof {
                assert(new_texts(m, i + 1).drop_last() =~= new_texts(m, i as int));
                assert(t@ == m.new_items[resolved_count(m) - (i + 1)].contents);
            }
            if !seen.contains(t.as_str()) {
                let ghost before = result@.map_values(|s: String| s@);
                seen.insert(copy_string(t.as_str()));
                result.push(t);
                proof {
                    assert(result@.map_values(|s: String| s@) =~= before.push(t@));
                    lemma_push_contains(before, t@);
                }
            }
            i = i + 1;
        }
        let ghost a = new_texts(m, resolved as int);
        match &self.file_contents {
            None => {
                proof {
                    assert(a + Seq::<Seq<char>>::empty() =~= a);
                }
            },
            Some(f) => {
                let count = f.item_count();
                let mut j: usize = 0;
                while j < count
                    invariant
                        self@ == m,
                        m.file == Some(f@),
                        wf_model(f@),
                        count == f@.starts.len(),
                        j <= count,
                        result@.map_values(|s: String| s@) == dedup(a + file_texts(f@, j as int)),
                        forall|x: Seq<char>| seen@.contains(x) <==> result@.map_values(|s: String| s@).contains(x),
                    decreases count - j,
                {
                    let it = f.get_from_back(j).unwrap();
                    proof {
                        assert(it@ == file_item(f@, f@.starts.len() - (j + 1)));
                    }
                    if !it.is_empty() {
                        proof {
                            assert((a + file_texts(f@, j + 1)).drop_last() =~= a + file_texts(f@, j as int));
                        }
                        let t = copy_string(it.contents.as_str());
                        if !seen.contains(t.as_str()) {
                            let ghost before = result@.map_values(|s: String| s@);
                            seen.insert(copy_string(t.as_str()));
                            result.push(t);
                            proof {
                                assert(result@.map_values(|s: String| s@) =~= before.push(t@));
                                lemma_push_contains(before, t@);
                            }
                        }
                    } else {
                        proof {
                            assert(a + file_texts(f@, j + 1) =~= a + file_texts(f@, j as int));
                        }
                    }
                    j = j + 1;
                }
            },
        }
        result
    }

    /// The texts of the entries at the given 1-based indexes; an index without an entry maps
    /// to the empty text.
    pub fn items_at_indexes(&self, indexes: Vec<usize>) -> (r: std::collections::HashMap<usize, String>)
        requires
            self.wf(),
        ensures
            forall|i: usize| #[trigger] r@.contains_key(i) <==> indexes@.contains(i),
            forall|i: usize| #[trigger] r@.contains_key(i) ==> r@[i]@ == match entry_at(self@, i as int) {
                Some(e) => e.contents,
                None => Seq::empty(),
            },
    {
        let mut result: std::collections::HashMap<usize, String> = std::collections::HashMap::new();
        let mut k: usize = 0;
        while k < indexes.len()
            invariant
                self.wf(),
                k <= indexes@.len(),
                forall|i: usize| #[trigger] result@.contains_key(i) <==> indexes@.subrange(0, k as int).contains(i),
                forall|i: usize| #[trigger] result@.contains_key(i) ==> result@[i]@ == match entry_at(self@, i as int) {
                    Some(e) => e.contents,
                    None => Seq::empty(),
                },
            decreases indexes@.len() - k,
        {
            let idx = indexes[k];
            proof {
                assert forall|i: usize| indexes@.subrange(0, k + 1).contains(i) <==> (indexes@.subrange(0, k as int).contains(i) || i == idx) by {
                    let s0 = indexes@.subrange(0, k as int);
                    let s1 = indexes@.subrange(0, k + 1);
                    if s1.contains(i) {
                        let w = choose|w: int| 0 <= w < s1.len() && s1[w] == i;
                        if w < k {
                            assert(s0[w] == i);
                        }
                    }
                    if s0.contains(i) {
                        let w = choose|w: int| 0 <= w < s0.len() && s0[w] == i;
                        assert(s1[w] == i);
                    }
                    if i == idx {
                        assert(s1[k as int] == i);
                    }
                }
            }
            if !result.contains_key(&idx) {
                let text = match self.item_at_index(idx) {
                    Some(it) => it.contents,
                    None => String::new(),
                };
                result.insert(idx, text);
            }
            k = k + 1;
        }
        proof {
            assert(indexes@.subrange(0, indexes@.len() as int) =~= indexes@);
        }
        result
    }
}

proof fn lemma_strip_ephemeral(s: Seq<ItemModel>)
    ensures
        strip_ephemeral(s).len() <= s.len(),
        strip_ephemeral(s) == s.subrange(0, strip_ephemeral(s).len() as int),
        strip_ephemeral(s).len() > 0 ==> strip_ephemeral(s).last().persist_mode != PersistenceMode::Ephemeral,
    decreases s.len(),
{
    if s.len() > 0 && s.last().persist_mode == PersistenceMode::Ephemeral {
        lemma_strip_ephemeral(s.drop_last());
        assert(s.drop_last().subrange(0, strip_ephemeral(s).len() as int) =~= s.subrange(0, strip_ephemeral(s).len() as int));
    } else {
        assert(s.subrange(0, s.len() as int) =~= s);
    }
}

/// An item added as resolved is the entry at index 1 right away. Adding an item that is
/// not ephemeral to a store with no pending item drops the trailing ephemeral items and
/// adds one entry; adding an ephemeral item adds one entry.
pub proof fn lemma_add_then_read(m: StoreModel, it: ItemModel)
    requires
        !m.pending,
    ensures
        entry_at(added(m, it, false), 1) == Some(it),
        it.persist_mode != PersistenceMode::Ephemeral ==> store_size(added(m, it, false))
            == store_size(m) - (m.new_items.len() - strip_ephemeral(m.new_items).len()) + 1,
        it.persist_mode == PersistenceMode::Ephemeral ==> store_size(added(m, it, false))
            == store_size(m) + 1,
{
    lemma_strip_ephemeral(m.new_items);
}

/// A metadata update keeps the number of new items and the identifier at each position.
pub proof fn lemma_update_keeps_order(m: StoreModel, u: ItemModel)
    ensures
        updated(m, u).new_items.len() == m.new_items.len(),
        forall|k: int| 0 <= k < m.new_items.len() ==> (#[trigger] updated(m, u).new_items[k]).id == m.new_items[k].id,
        updated(m, u).pending == m.pending,
        updated(m, u).file == m.file,
{
    let k = last_with_id(m.new_items, u.id);
    lemma_last_with_id(m.new_items, u.id);
}

proof fn lemma_last_with_id(s: Seq<ItemModel>, id: u64)
    ensures
        -1 <= last_with_id(s, id) < s.len(),
        last_with_id(s, id) >= 0 ==> s[last_with_id(s, id)].id == id,
    decreases s.len(),
{
    if s.len() > 0 && s.last().id != id {
        lemma_last_with_id(s.drop_last(), id);
    }
}

/// Taking in external changes twice at the same time is taking them in once; when the
/// clock has not moved past the boundary nothing changes.
pub proof fn lemma_incorporate_idempotent(m: StoreModel, now: u64)
    ensures
        incorporated(incorporated(m, now), now) == incorporated(m, now),
        now <= m.boundary ==> incorporated(m, now) == m,
{
}

/// Index 0 and the index just past the last entry have no entry.
pub proof fn lemma_index_bounds(m: StoreModel)
    ensures
        entry_at(m, 0) is None,
        entry_at(m, store_size(m) + 1) is None,
{
}

/// The store after each item is added in turn, resolved.
pub open spec fn added_all(m: StoreModel, its: Seq<ItemModel>) -> StoreModel
    decreases its.len(),
{
    if its.len() == 0 { m } else { added(added_all(m, its.drop_last()), its.last(), false) }
}

/// The number of items that are not ephemeral.
pub open spec fn lasting_count(its: Seq<ItemModel>) -> int
    decreases its.len(),
{
    if its.len() == 0 {
        0
    } else {
        lasting_count(its.drop_last()) + if its.last().persist_mode == PersistenceMode::Ephemeral { 0int } else { 1int }
    }
}

/// The number of ephemeral items at the end.
pub open spec fn trailing_ephemeral(its: Seq<ItemModel>) -> int
    decreases its.len(),
{
    if its.len() > 0 && its.last().persist_mode == PersistenceMode::Ephemeral {
        trailing_ephemeral(its.drop_last()) + 1
    } else {
        0
    }
}

proof fn lemma_strip_ephemeral_tail(s: Seq<ItemModel>, k: int)
    requires
        0 <= k <= s.len(),
        forall|i: int| s.len() - k <= i < s.len() ==> (#[trigger] s[i]).persist_mode == PersistenceMode::Ephemeral,
    ensures
        strip_ephemeral(s) == strip_ephemeral(s.subrange(0, s.len() - k)),
    decreases k,
{
    if k > 0 {
        assert(s.drop_last() =~= s.subrange(0, s.len() - 1));
        let t = s.drop_last();
        assert forall|i: int| t.len() - (k - 1) <= i < t.len() implies (#[trigger] t[i]).persist_mode == PersistenceMode::Ephemeral by {
            assert(t[i] == s[i]);
        }
        lemma_strip_ephemeral_tail(t, k - 1);
        assert(t.subrange(0, t.len() - (k - 1)) =~= s.subrange(0, s.len() - k));
    } else {
        assert(s.subrange(0, s.len() as int) =~= s);
    }
}

/// Resolved adds to a store with no pending item and no trailing ephemeral items: the new
/// items grow by the lasting items added plus the ephemeral ones added since the last
/// lasting one, which the next lasting add drops again. So when the last add is not
/// ephemeral, the size grows by exactly the number of items added that are not ephemeral.
pub proof fn lemma_adds_size(m: StoreModel, its: Seq<ItemModel>)
    requires
        !m.pending,
        strip_ephemeral(m.new_items) == m.new_items,
    ensures
        added_all(m, its).new_items.len() == m.new_items.len() + lasting_count(its) + trailing_ephemeral(its),
        strip_ephemeral(added_all(m, its).new_items).len() == m.new_items.len() + lasting_count(its),
        forall|i: int| added_all(m, its).new_items.len() - trailing_ephemeral(its) <= i < added_all(m, its).new_items.len()
            ==> (#[trigger] added_all(m, its).new_items[i]).persist_mode == PersistenceMode::Ephemeral,
        !added_all(m, its).pending,
        added_all(m, its).file == m.file,
        its.len() > 0 && its.last().persist_mode != PersistenceMode::Ephemeral ==> store_size(added_all(m, its)) == store_size(m) + lasting_count(its),
    decreases its.len(),
{
    if its.len() > 0 {
        let p = its.drop_last();
        lemma_adds_size(m, p);
        let mp = added_all(m, p);
        let it = its.last();
        let n = mp.new_items;
        let tp = trailing_ephemeral(p);
        lemma_strip_ephemeral(n);
        lemma_strip_ephemeral_tail(n, tp);
        let base = n.subrange(0, n.len() - tp);
        lemma_strip_ephemeral(base);
        if it.persist_mode == PersistenceMode::Ephemeral {
            let n2 = n.push(it);
            assert forall|i: int| n2.len() - (tp + 1) <= i < n2.len() implies (#[trigger] n2[i]).persist_mode == PersistenceMode::Ephemeral by {
                if i < n.len() {
                    assert(n2[i] == n[i]);
                }
            }
            lemma_strip_ephemeral_tail(n2, tp + 1);
            assert(n2.subrange(0, n2.len() - (tp + 1)) =~= base);
        } else {
            let kept = strip_ephemeral(n);
            let n2 = kept.push(it);
            assert(strip_ephemeral(n2) == n2);
        }
    }
}

/// Adding an ephemeral item and then an item kept on disk to a store with no new items
/// leaves one new entry: the ephemeral one is dropped.
pub proof fn lemma_ephemeral_then_disk(m: StoreModel, e: ItemModel, d: ItemModel)
    requires
        m.new_items.len() == 0,
        !m.pending,
        e.persist_mode == PersistenceMode::Ephemeral,
        d.persist_mode == PersistenceMode::Disk,
    ensures
        store_size(added(added(m, e, false), d, false)) == old_count(m) + 1,
        added(added(m, e, false), d, false).new_items == seq![d],
{
    let m1 = added(m, e, false);
    assert(m1.new_items =~= seq![e]);
    assert(m1.new_items.drop_last() =~= Seq::<ItemModel>::empty());
    assert(strip_ephemeral(Seq::<ItemModel>::empty()) =~= Seq::<ItemModel>::empty());
    assert(m1.new_items.last() == e);
    assert(strip_ephemeral(m1.new_items) == strip_ephemeral(m1.new_items.drop_last()));
    assert(strip_ephemeral(m1.new_items) =~= Seq::<ItemModel>::empty());
    assert(added(m1, d, false).new_items =~= seq![d]);
}

/// When the file is rewritten, at most this many of its newest items are kept.
pub const HISTORY_MAX_ITEMS: usize = 524288;

/// The scope of the latest deletion of a text, if it was deleted.
pub open spec fn deletion_of(d: Seq<(Seq<char>, DeletionScope)>, t: Seq<char>) -> Option<DeletionScope>
    decreases d.len(),
{
    if d.len() == 0 {
        None
    } else if d.last().0 == t {
        Some(d.last().1)
    } else {
        deletion_of(d.drop_last(), t)
    }
}

/// Whether an item of the file is written again by a rewrite: it has a text, and that
/// text is not deleted, or was deleted for this session only and the item is not newer
/// than the boundary.
pub open spec fn survives(m: StoreModel, it: ItemModel) -> bool {
    it.contents.len() > 0 && match deletion_of(m.deleted, it.contents) {
        Some(scope) => !(it.id / crate::id::NONCE_SPAN > m.boundary || scope == DeletionScope::AllSessions),
        None => true,
    }
}

/// The rewritten text of the first `k` items of a file: the record line of each item that
/// survives, oldest first.
pub open spec fn rewrite_text(m: StoreModel, f: FileModel, k: int) -> Seq<char>
    decreases k,
{
    if k <= 0 {
        Seq::empty()
    } else {
        let it = file_item(f, k - 1);
        if survives(m, it) { rewrite_text(m, f, k - 1) + record_line(it) } else { rewrite_text(m, f, k - 1) }
    }
}

/// The number of items among the first `k` of a file that survive a rewrite.
pub open spec fn rewrite_count(m: StoreModel, f: FileModel, k: int) -> int
    decreases k,
{
    if k <= 0 {
        0
    } else {
        rewrite_count(m, f, k - 1) + if survives(m, file_item(f, k - 1)) { 1int } else { 0int }
    }
}

/// Whether `f` is the index that parsing `data` with a cutoff gives.
pub open spec fn parses_to(data: Seq<u8>, cutoff: Option<u64>, f: FileModel) -> bool {
    &&& wf_model(f)
    &&& f.data == data
    &&& forall|x: (u64, int)| f.lines.contains(x) <==> crate::history_file::indexed_line(data, cutoff, x)
}

proof fn lemma_rewrite_count_bound(m: StoreModel, f: FileModel, k: int)
    requires
        k >= 0,
    ensures
        0 <= rewrite_count(m, f, k) <= k,
    decreases k,
{
    if k > 0 {
        lemma_rewrite_count_bound(m, f, k - 1);
    }
}

impl History {
    fn deletion_scope(&self, t: &str) -> (r: Option<DeletionScope>)
        ensures
            r == deletion_of(self@.deleted, t@),
    {
        let ghost d = self@.deleted;
        let mut k = self.deleted_items.len();
        proof {
            assert(d.subrange(0, k as int) =~= d);
        }
        while k > 0
            invariant
                k <= self@.deleted.len(),
                d == self@.deleted,
                deletion_of(d, t@) == deletion_of(d.subrange(0, k as int), t@),
            decreases k,
        {
            proof {
                assert(d.subrange(0, k as int).drop_last() =~= d.subrange(0, k - 1));
                assert(d.subrange(0, k as int).last() == d[k - 1]);
            }
            if str_eq(self.deleted_items[k - 1].0.as_str(), t) {
                return Some(self.deleted_items[k - 1].1);
            }
            k = k - 1;
        }
        proof {
            assert(d.subrange(0, 0) =~= Seq::<(Seq<char>, DeletionScope)>::empty());
        }
        None
    }

    /// The new contents of the file for a rewrite, computed from its current bytes: the
    /// bytes are parsed without a cutoff, the newest `HISTORY_MAX_ITEMS` items are kept, and
    /// each of them that survives the deletions is written as one record line, oldest
    /// first. Also returns the number of items written.
    pub fn rewritten_contents(&self, existing: Vec<u8>) -> (r: (String, usize))
        ensures
            exists|f: FileModel| #[trigger] parses_to(existing@, None, f) && {
                let g = crate::history_file::shrunk(f, HISTORY_MAX_ITEMS as nat);
                &&& r.0@ == rewrite_text(self@, g, g.starts.len() as int)
                &&& r.1 == rewrite_count(self@, g, g.starts.len() as int)
            },
    {
        let mut file = HistoryFile::from_data(existing, None);
        let ghost f = file@;
        file.shrink_to_max_records(HISTORY_MAX_ITEMS);
        let ghost g = file@;
        let mut out = String::new();
        let mut written: usize = 0;
        let count = file.item_count();
        let mut k: usize = 0;
        while k < count
            invariant
                file.wf(),
                file@ == g,
                count == g.starts.len(),
                k <= count,
                out@ == rewrite_text(self@, g, k as int),
                written == rewrite_count(self@, g, k as int),
                written <= k,
            decreases count - k,
        {
            let it = file.get_from_back(count - 1 - k).unwrap();
            proof {
                assert(it@ == file_item(g, k as int));
                lemma_rewrite_count_bound(self@, g, k + 1);
            }
            let mut keep = !it.is_empty();
            if keep {
                match self.deletion_scope(it.contents.as_str()) {
                    Some(scope) => {
                        if it.timestamp() > self.boundary_timestamp || scope == DeletionScope::AllSessions {
                            keep = false;
                        }
                    },
                    None => {},
                }
            }
            if keep {
                let line = it.to_json_line();
                crate::text::append_str(&mut out, line.as_str());
                written = written + 1;
            }
            k = k + 1;
        }
        proof {
            assert(parses_to(existing@, None, f));
        }
        (out, written)
    }

    /// Record that the file was rewritten: deletions are done, and the file is read again at
    /// the next load.
    pub fn finish_vacuum(&mut self)
        requires
            old(self).wf(),
        ensures
            final(self).wf(),
            final(self)@ == (StoreModel { deleted: Seq::empty(), file: None, ..old(self)@ }),
            !final(self).wants_vacuum(),
    {
        self.deleted_items.clear();
        self.file_contents = None;
        self.vacuum_requested = false;
        proof {
            assert(self@.deleted =~= Seq::<(Seq<char>, DeletionScope)>::empty());
        }
    }

    /// Save: records are written as they come, so this only asks for a rewrite when there
    /// are deletions to carry out. A store without a file just forgets its deletions and
    /// the loaded file. Returns whether a rewrite is wanted.
    pub fn save(&mut self) -> (r: bool)
        requires
            old(self).wf(),
        ensures
            final(self).wf(),
            old(self)@.name.len() == 0 ==> !r && final(self)@ == (StoreModel { deleted: Seq::empty(), file: None, ..old(self)@ }),
            old(self)@.name.len() > 0 ==> final(self)@ == old(self)@,
            old(self)@.name.len() > 0 ==> r == (old(self)@.deleted.len() > 0 || old(self).wants_vacuum()) && final(self).wants_vacuum() == r,
    {
        if self.name.as_str().is_empty() {
            self.finish_vacuum();
            return false;
        }
        if self.deleted_items.len() > 0 {
            self.vacuum_requested = true;
        }
        self.vacuum_requested
    }
}

/// Whether an argument could be a path: it is not empty and does not start with `-`.
pub open spec fn could_be_path(s: Seq<char>) -> bool {
    !(s.len() == 0 || s[0] == '-')
}

/// Whether an argument could be a path: it is not empty and does not start with `-`.
pub fn string_could_be_path(s: &str) -> (r: bool)
    ensures
        r == could_be_path(s@),
{
    let c = chars_of(s);
    !(c.len() == 0 || c[0] == '-')
}

/// The working directory as an item records it: an absolute directory under the home
/// directory is written with `~/` in place of the home directory (given with or without a
/// final slash, and not empty), and a final slash is dropped unless the result is `/`.
pub open spec fn recorded_cwd(pwd: Seq<char>, home: Option<Seq<char>>) -> Seq<char> {
    let h = match home {
        Some(h) => if h.len() > 0 && h.last() == '/' { h } else { h.push('/') },
        None => Seq::empty(),
    };
    let replaced = if pwd.len() > 0 && pwd[0] == '/' && home is Some && home->0.len() > 0 && is_prefix(h, pwd) {
        seq!['~', '/'] + pwd.subrange(h.len() as int, pwd.len() as int)
    } else {
        pwd
    };
    if replaced.len() > 1 && replaced.last() == '/' { replaced.drop_last() } else { replaced }
}

/// The working directory as an item records it.
pub fn cwd_for_item(pwd: &str, home: Option<&str>) -> (r: String)
    ensures
        r@ == recorded_cwd(pwd@, match home { Some(h) => Some(h@), None => None }),
{
    let p = chars_of(pwd);
    let mut out: Vec<char> = Vec::new();
    let mut replaced = false;
    if p.len() > 0 && p[0] == '/' {
        if let Some(h) = home {
            let mut hv = chars_of(h);
            if hv.len() > 0 {
                if hv[hv.len() - 1] != '/' {
                    hv.push('/');
                }
                if starts_with(&p, &hv) {
                    out.push('~');
                    out.push('/');
                    let mut i = hv.len();
                    let ghost base = out@;
                    while i < p.len()
                        invariant
                            hv@.len() <= i <= p@.len(),
                            out@ == base + p@.subrange(hv@.len() as int, i as int),
                        decreases p@.len() - i,
                    {
                        out.push(p[i]);
                        proof {
                            assert(p@.subrange(hv@.len() as int, i + 1) =~= p@.subrange(hv@.len() as int, i as int).push(p@[i as int]));
                        }
                        i = i + 1;
                    }
                    proof {
                        assert(out@ =~= seq!['~', '/'] + p@.subrange(hv@.len() as int, p@.len() as int));
                    }
                    replaced = true;
                }
            }
        }
    }
    if !replaced {
        let mut i: usize = 0;
        while i < p.len()
            invariant
                i <= p@.len(),
                out@ == p@.subrange(0, i as int),
            decreases p@.len() - i,
        {
            out.push(p[i]);
            proof {
                assert(p@.subrange(0, i + 1) =~= p@.subrange(0, i as int).push(p@[i as int]));
            }
            i = i + 1;
        }
        proof {
            assert(out@ =~= p@);
        }
    }
    if out.len() > 1 && out[out.len() - 1] == '/' {
        out.pop();
    }
    string_from_chars(out.as_slice())
}

/// Whether a variable name is valid: not empty, and made of alphanumeric characters and
/// underscores.
pub open spec fn valid_var_name(s: Seq<char>) -> bool {
    s.len() > 0 && forall|i: int| 0 <= i < s.len() ==> (#[trigger] s[i] == '_' || char_is_alphanumeric(s[i]))
}

/// The history namespace for the value of the variable that selects it: the default when
/// it is unset or not a valid variable name; the value itself when it is empty (a store
/// without a file) or valid.
pub open spec fn namespace_for(var: Option<Seq<char>>) -> Seq<char> {
    match var {
        None => DEFAULT_NAMESPACE@,
        Some(v) => if v.len() == 0 || valid_var_name(v) { v } else { DEFAULT_NAMESPACE@ },
    }
}

/// The history namespace for the value of the variable that selects it.
pub fn history_namespace_from_var(history_name_var: Option<String>) -> (r: String)
    ensures
        r@ == namespace_for(match history_name_var { Some(v) => Some(v@), None => None }),
{
    match history_name_var {
        None => copy_string(DEFAULT_NAMESPACE),
        Some(v) => {
            let c = chars_of(v.as_str());
            let mut ok = c.len() > 0;
            let mut i: usize = 0;
            while i < c.len()
                invariant
                    i <= c@.len(),
                    ok == (c@.len() > 0 && forall|k: int| 0 <= k < i ==> (#[trigger] c@[k] == '_' || char_is_alphanumeric(c@[k]))),
                decreases c@.len() - i,
            {
                if !(c[i] == '_' || is_alphanumeric(c[i])) {
                    ok = false;
                }
                i = i + 1;
            }
            if c.len() == 0 || ok {
                v
            } else {
                copy_string(DEFAULT_NAMESPACE)
            }
        },
    }
}

/// The history namespace given the value of the variable `fish_history`, if it is set.
pub fn history_namespace(fish_history: Option<String>) -> (r: String)
    ensures
        r@ == namespace_for(match fish_history { Some(v) => Some(v@), None => None }),
{
    history_namespace_from_var(fish_history)
}

/// Whether private mode is on, given the value of the variable `fish_private_mode`: it is
/// when the variable is set and not empty.
pub fn in_private_mode(fish_private_mode: Option<String>) -> (r: bool)
    ensures
        r == (fish_private_mode matches Some(v) && v@.len() > 0),
{
    match fish_private_mode {
        Some(v) => !v.as_str().is_empty(),
        None => false,
    }
}

/// Whole seconds since the epoch of a timestamp in milliseconds.
pub fn time_to_seconds(ts_ms: u64) -> (r: i64)
    ensures
        r == ts_ms / 1000,
{
    (ts_ms / 1000) as i64
}

/// The pieces that mark a bash history line as one that cannot be imported.
pub open spec fn bash_blockers() -> Seq<Seq<char>> {
    seq![seq!['[', '['], seq![']', ']'], seq!['(', '('], seq![')', ')'], seq!['<', '<']]
}

/// Whether a trimmed bash history line is imported: it is not empty, not a comment, holds
/// no backtick, brace, star or backslash, and none of `[[`, `]]`, `((`, `))`, `<<`.
pub open spec fn importable_bash_line(t: Seq<char>) -> bool {
    &&& t.len() > 0
    &&& t[0] != '#'
    &&& forall|i: int| 0 <= i < t.len() ==> !(#[trigger] t[i] == '`' || t[i] == '{' || t[i] == '*' || t[i] == '\\')
    &&& forall|k: int| 0 <= k < 5 ==> !contains_text(t, #[trigger] bash_blockers()[k])
}

/// Whether a trimmed bash history line is imported.
pub fn should_import_bash_history_line(t: &Vec<char>) -> (r: bool)
    ensures
        r == importable_bash_line(t@),
{
    if t.len() == 0 || t[0] == '#' {
        return false;
    }
    let mut i: usize = 0;
    while i < t.len()
        invariant
            i <= t@.len(),
            forall|k: int| 0 <= k < i ==> !(#[trigger] t@[k] == '`' || t@[k] == '{' || t@[k] == '*' || t@[k] == '\\'),
        decreases t@.len() - i,
    {
        let c = t[i];
        if c == '`' || c == '{' || c == '*' || c == '\\' {
            return false;
        }
        i = i + 1;
    }
    let blockers: Vec<Vec<char>> = vec![vec!['[', '['], vec![']', ']'], vec!['(', '('], vec![')', ')'], vec!['<', '<']];
    proof {
        assert(blockers@.len() == 5);
        assert forall|k: int| 0 <= k < 5 implies blockers@[k]@ == bash_blockers()[k] by {
            assert(blockers@[k]@ =~= bash_blockers()[k]);
        }
    }
    let mut k: usize = 0;
    while k < 5
        invariant
            k <= 5,
            blockers@.len() == 5,
            forall|q: int| 0 <= q < 5 ==> blockers@[q]@ == bash_blockers()[q],
            forall|q: int| 0 <= q < k ==> !contains_text(t@, #[trigger] bash_blockers()[q]),
        decreases 5 - k,
    {
        match find_text(t, &blockers[k]) {
            Some(pos) => {
                proof {
                    assert(crate::textmatch::occurs_at(bash_blockers()[k as int], t@, pos as int));
                    assert(contains_text(t@, bash_blockers()[k as int]));
                }
                return false;
            },
            None => {},
        }
        k = k + 1;
    }
    true
}

/// The next synthetic timestamp: one millisecond later, wrapping at the end of `u64`.
pub open spec fn next_ms(t: u64) -> u64 {
    if t == u64::MAX { 0 } else { (t + 1) as u64 }
}

/// The lines of a bash history file that are imported, trimmed, for the first `j` lines.
pub open spec fn bash_lines(data: Seq<u8>, j: int) -> Seq<Seq<char>>
    decreases j,
{
    if j <= 0 {
        Seq::empty()
    } else {
        let l = line_at(data, line_starts_from(data, 0)[j - 1]);
        let rest = bash_lines(data, j - 1);
        if valid_utf8(l) && importable_bash_line(trimmed(decode_utf8(l))) {
            rest.push(trimmed(decode_utf8(l)))
        } else {
            rest
        }
    }
}

/// The store after the first `k` imported lines are added as resolved items kept on disk,
/// the line at position i with the identifier of timestamp `start` advanced i times and
/// nonce zero.
pub open spec fn after_import(m: StoreModel, lines: Seq<Seq<char>>, start: u64, k: int) -> StoreModel
    decreases k,
{
    if k <= 0 {
        m
    } else {
        added(after_import(m, lines, start, k - 1), commandline_item(lines[k - 1], pack_id(ts_after(start, k - 1), 0)), false)
    }
}

/// The timestamp `start` advanced `k` times.
pub open spec fn ts_after(start: u64, k: int) -> u64
    decreases k,
{
    if k <= 0 { start } else { next_ms(ts_after(start, k - 1)) }
}

/// Fifteen minutes, in milliseconds: imported bash commands are dated this long before now.
pub const BASH_IMPORT_OFFSET_MS: u64 = 900000;

impl History {
    /// Import a bash history file: each line that can be imported, trimmed, is added as a
    /// resolved item kept on disk, with synthetic timestamps starting at `start_ms` and one
    /// millisecond apart. Lines that are not UTF-8 are skipped.
    pub fn populate_from_bash_at(&mut self, contents: &[u8], start_ms: u64)
        requires
            old(self).wf(),
        ensures
            final(self).wf(),
            final(self)@ == after_import(old(self)@, bash_lines(contents@, line_starts_from(contents@, 0).len() as int), start_ms, bash_lines(contents@, line_starts_from(contents@, 0).len() as int).len() as int),
    {
        let lines = iter_lines(contents);
        let ghost lsf = line_starts_from(contents@, 0);
        let ghost all = bash_lines(contents@, lsf.len() as int);
        let ghost m0 = self@;
        let mut ts = start_ms;
        let mut j: usize = 0;
        let mut count: usize = 0;
        proof {
            lemma_bash_lines_prefix(contents@, lsf.len() as int);
        }
        while j < lines.len()
            invariant
                self.wf(),
                lines@.len() == lsf.len(),
                lsf == line_starts_from(contents@, 0),
                all == bash_lines(contents@, lsf.len() as int),
                forall|q: int| 0 <= q < lines@.len() ==> {
                    &&& (#[trigger] lines@[q]).0 as int == lsf[q]
                    &&& lines@[q].1@ == line_at(contents@, lines@[q].0 as int)
                },
                forall|a: int| 0 <= a <= lsf.len() ==> bash_lines(contents@, a) == all.subrange(0, bash_lines(contents@, a).len() as int) && bash_lines(contents@, a).len() <= all.len(),
                j <= lines@.len(),
                count <= j,
                count == bash_lines(contents@, j as int).len(),
                ts == ts_after(start_ms, count as int),
                self@ == after_import(m0, all, start_ms, count as int),
            decreases lines@.len() - j,
        {
            let (_, line) = lines[j];
            proof {
                assert(line@ == line_at(contents@, lsf[j as int]));
                assert(bash_lines(contents@, j + 1).len() <= all.len());
            }
            if let Some(text) = utf8_decode(line) {
                let chars = chars_of(text.as_str());
                let t = trim(&chars);
                if should_import_bash_history_line(&t) {
                    let s = string_from_chars(t.as_slice());
                    let mut item = HistoryItem::with_id(HistoryItemId::new(ts, 0));
                    item.contents = s;
                    proof {
                        assert(bash_lines(contents@, j + 1) == bash_lines(contents@, j as int).push(t@));
                        assert(all[count as int] == t@) by {
                            assert(bash_lines(contents@, j + 1) == all.subrange(0, count + 1));
                        }
                        assert(item@ == commandline_item(all[count as int], pack_id(ts_after(start_ms, count as int), 0)));
                    }
                    self.add(item, false);
                    ts = if ts == u64::MAX { 0 } else { ts + 1 };
                    count = count + 1;
                }
            }
            j = j + 1;
        }
    }

    /// Import a bash history file, dating the commands from fifteen minutes ago.
    pub fn populate_from_bash(&mut self, contents: &[u8])
        requires
            old(self).wf(),
        ensures
            final(self).wf(),
            exists|start: u64| final(self)@ == #[trigger] after_import(old(self)@, bash_lines(contents@, line_starts_from(contents@, 0).len() as int), start, bash_lines(contents@, line_starts_from(contents@, 0).len() as int).len() as int),
    {
        let now = now_ms();
        let start = if now >= BASH_IMPORT_OFFSET_MS { now - BASH_IMPORT_OFFSET_MS } else { 0 };
        self.populate_from_bash_at(contents, start);
    }

    /// Add a command as a pending item with the given persistence mode, recording the working
    /// directory. Returns its identifier and the arguments that could be paths, in order;
    /// the caller checks those on disk and reports the valid ones with `emit_update`.
    pub fn add_pending_with_file_detection(
        &mut self,
        s: &str,
        arguments: &Vec<String>,
        pwd: &str,
        home: Option<&str>,
        persist_mode: PersistenceMode,
    ) -> (r: (HistoryItemId, Vec<String>))
        requires
            old(self).wf(),
            s@.len() > 0,
        ensures
            final(self).wf(),
            final(self)@ == added(old(self)@, ItemModel {
                contents: s@,
                cwd: Some(recorded_cwd(pwd@, match home { Some(h) => Some(h@), None => None })),
                persist_mode,
                ..empty_item(r.0.0)
            }, true),
            r.1@.map_values(|a: String| a@) == arguments@.map_values(|a: String| a@).filter(|a: Seq<char>| could_be_path(a)),
    {
        let mut candidates: Vec<String> = Vec::new();
        let mut i: usize = 0;
        let ghost args = arguments@.map_values(|a: String| a@);
        while i < arguments.len()
            invariant
                i <= arguments@.len(),
                args == arguments@.map_values(|a: String| a@),
                candidates@.map_values(|a: String| a@) == args.subrange(0, i as int).filter(|a: Seq<char>| could_be_path(a)),
            decreases arguments@.len() - i,
        {
            proof {
                assert(args.subrange(0, i + 1).drop_last() =~= args.subrange(0, i as int));
                reveal(Seq::filter);
            }
            let ghost before = candidates@.map_values(|a: String| a@);
            if string_could_be_path(arguments[i].as_str()) {
                candidates.push(copy_string(arguments[i].as_str()));
                proof {
                    assert(candidates@.map_values(|a: String| a@) =~= before.push(args[i as int]));
                }
            }
            i = i + 1;
        }
        proof {
            assert(args.subrange(0, arguments@.len() as int) =~= args);
        }
        let id = self.next_item_id();
        let mut item = HistoryItem::with_id(id);
        item.contents = copy_string(s);
        item.persist_mode = persist_mode;
        item.cwd = Some(cwd_for_item(pwd, home));
        self.add(item, true);
        (id, candidates)
    }
}

proof fn lemma_bash_lines_prefix(data: Seq<u8>, n: int)
    requires
        n >= 0,
    ensures
        forall|a: int| 0 <= a <= n ==> bash_lines(data, a) == bash_lines(data, n).subrange(0, bash_lines(data, a).len() as int) && bash_lines(data, a).len() <= bash_lines(data, n).len(),
    decreases n,
{
    if n > 0 {
        lemma_bash_lines_prefix(data, n - 1);
        let p = bash_lines(data, n - 1);
        let q = bash_lines(data, n);
        assert(q.subrange(0, p.len() as int) =~= p);
        assert forall|a: int| 0 <= a <= n implies bash_lines(data, a) == q.subrange(0, bash_lines(data, a).len() as int) && bash_lines(data, a).len() <= q.len() by {
            if a < n {
                assert(bash_lines(data, a) == p.subrange(0, bash_lines(data, a).len() as int));
                assert(q.subrange(0, bash_lines(data, a).len() as int) =~= p.subrange(0, bash_lines(data, a).len() as int));
            } else {
                assert(q.subrange(0, q.len() as int) =~= q);
            }
        }
    }
}

impl History {
    /// Migrate a legacy history file: the store is cleared, and the new file's contents are
    /// the record lines of the legacy file's items that have a text, in file order. Returns
    /// those contents and the number of items written; the caller writes the file.
    pub fn populate_from_legacy_paths(&mut self, legacy_contents: &[u8]) -> (r: (String, usize))
        requires
            old(self).wf(),
        ensures
            final(self).wf(),
            final(self)@ == (StoreModel { new_items: Seq::empty(), deleted: Seq::empty(), file: None, ..old(self)@ }),
            r.0@ == migrated_text(crate::yaml::legacy_items(legacy_contents@, 0, 0)),
            r.1 == migrated_count(crate::yaml::legacy_items(legacy_contents@, 0, 0)),
    {
        self.clear();
        let items = crate::yaml::iterate_fish_2_0_history(legacy_contents);
        let ghost all = item_views(items@);
        let mut out = String::new();
        let mut count: usize = 0;
        let mut k: usize = 0;
        while k < items.len()
            invariant
                k <= items@.len(),
                all == item_views(items@),
                count <= k,
                out@ == migrated_text(all.subrange(0, k as int)),
                count == migrated_count(all.subrange(0, k as int)),
            decreases items@.len() - k,
        {
            proof {
                assert(all.subrange(0, k + 1).drop_last() =~= all.subrange(0, k as int));
                assert(all.subrange(0, k + 1).last() == items@[k as int]@);
            }
            if !items[k].is_empty() {
                let line = items[k].to_json_line();
                crate::text::append_str(&mut out, line.as_str());
                count = count + 1;
            }
            k = k + 1;
        }
        proof {
            assert(all.subrange(0, items@.len() as int) =~= all);
        }
        (out, count)
    }
}

/// The contents written when migrating: the record line of each item with a text, in order.
pub open spec fn migrated_text(items: Seq<ItemModel>) -> Seq<char>
    decreases items.len(),
{
    if items.len() == 0 {
        Seq::empty()
    } else if items.last().contents.len() > 0 {
        migrated_text(items.drop_last()) + record_line(items.last())
    } else {
        migrated_text(items.drop_last())
    }
}

/// The number of items with a text.
pub open spec fn migrated_count(items: Seq<ItemModel>) -> int
    decreases items.len(),
{
    if items.len() == 0 {
        0
    } else {
        migrated_count(items.drop_last()) + if items.last().contents.len() > 0 { 1int } else { 0int }
    }
}

} // verus!
