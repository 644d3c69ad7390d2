//! History items: one logical record of an executed command.
use vstd::prelude::*;
use crate::id::HistoryItemId;
use crate::text::copy_string;

verus! {

/// How a search compares its term with the text of an item.
#[derive(Clone, Copy, Debug, PartialEq, Eq, Structural)]
pub enum SearchType {
    /// Commands exactly matching the term.
    Exact,
    /// Commands containing the term.
    Contains,
    /// Commands starting with the term.
    Prefix,
    /// Commands where any line starts with the term.
    LinePrefix,
    /// Commands matching the glob pattern anywhere.
    ContainsGlob,
    /// Commands starting with a match of the glob pattern.
    PrefixGlob,
    /// Commands containing the characters of the term in order.
    ContainsSubsequence,
}

/// Ways that a history item may be written to disk (or omitted).
#[derive(Clone, Copy, Debug, PartialEq, Eq, Structural)]
pub enum PersistenceMode {
    /// Written to disk normally.
    Disk,
    /// Kept in memory only.
    Memory,
    /// Kept in memory, and dropped when another item is added.
    Ephemeral,
}

impl Default for PersistenceMode {
    fn default() -> (r: Self)
        ensures
            r == PersistenceMode::Disk,
    {
        PersistenceMode::Disk
    }
}

/// Direction of a search through the history.
#[derive(Clone, Copy, Debug, PartialEq, Eq, Structural)]
pub enum SearchDirection {
    /// Towards newer items.
    Forward,
    /// Towards older items.
    Backward,
}

/// The abstract value of a history item.
pub struct ItemModel {
    pub id: u64,
    pub contents: Seq<char>,
    pub paths: Seq<Seq<char>>,
    pub exit_code: Option<i32>,
    pub duration: Option<u64>,
    pub cwd: Option<Seq<char>>,
    pub session_id: Option<u64>,
    pub persist_mode: PersistenceMode,
}

pub open spec fn opt_text(o: Option<String>) -> Option<Seq<char>> {
    match o {
        Some(s) => Some(s@),
        None => None,
    }
}

/// An item with the given identifier and every other field empty, to be written to disk.
pub open spec fn empty_item(id: u64) -> ItemModel {
    ItemModel {
        id,
        contents: Seq::empty(),
        paths: Seq::empty(),
        exit_code: None,
        duration: None,
        cwd: None,
        session_id: None,
        persist_mode: PersistenceMode::Disk,
    }
}

/// The fields of `b` that are present or non-empty replace those of `a`; the identifier and
/// the persistence mode of `a` stay.
pub open spec fn merged(a: ItemModel, b: ItemModel) -> ItemModel {
    ItemModel {
        id: a.id,
        contents: if b.contents.len() > 0 { b.contents } else { a.contents },
        paths: if b.paths.len() > 0 { b.paths } else { a.paths },
        exit_code: if b.exit_code is Some { b.exit_code } else { a.exit_code },
        duration: if b.duration is Some { b.duration } else { a.duration },
        cwd: if b.cwd is Some { b.cwd } else { a.cwd },
        session_id: if b.session_id is Some { b.session_id } else { a.session_id },
        persist_mode: a.persist_mode,
    }
}

/// One logical record of an executed command.
#[derive(Clone, Debug)]
pub struct HistoryItem {
    /// The unique identifier for this item, which includes a timestamp.
    pub id: HistoryItemId,
    /// The command text.
    pub contents: String,
    /// Path arguments that were valid on disk when the command ran.
    pub required_paths: Vec<String>,
    /// The exit code of the command.
    pub exit_code: Option<i32>,
    /// Duration of command execution in milliseconds.
    pub duration: Option<u64>,
    /// Working directory where the command was executed.
    pub cwd: Option<String>,
    /// Session identifier.
    pub session_id: Option<u64>,
    /// Whether to write this item to disk. This is itself not written to disk.
    pub persist_mode: PersistenceMode,
}

impl View for HistoryItem {
    type V = ItemModel;

    open spec fn view(&self) -> ItemModel {
        ItemModel {
            id: self.id.0,
            contents: self.contents@,
            paths: self.required_paths.deep_view(),
            exit_code: self.exit_code,
            duration: self.duration,
            cwd: opt_text(self.cwd),
            session_id: self.session_id,
            persist_mode: self.persist_mode,
        }
    }
}

/// A copy of a list of strings.
pub fn copy_strings(v: &Vec<String>) -> (r: Vec<String>)
    ensures
        r.deep_view() == v.deep_view(),
{
    let mut out: Vec<String> = Vec::new();
    let mut i: usize = 0;
    while i < v.len()
        invariant
            i <= v@.len(),
            out@.len() == i,
            forall|k: int| 0 <= k < i ==> (#[trigger] out@[k])@ == v@[k]@,
        decreases v@.len() - i,
    {
        out.push(copy_string(v[i].as_str()));
        i = i + 1;
    }
    proof {
        assert(out.deep_view() =~= v.deep_view());
    }
    out
}

fn copy_opt_string(o: &Option<String>) -> (r: Option<String>)
    ensures
        opt_text(r) == opt_text(*o),
{
    match o {
        Some(s) => Some(copy_string(s.as_str())),
        None => None,
    }
}

impl HistoryItem {
    /// An item with the given id and every other field empty.
    pub fn with_id(id: HistoryItemId) -> (r: Self)
        ensures
            r@ == empty_item(id.0),
    {
        let r = HistoryItem {
            id,
            contents: String::new(),
            required_paths: Vec::new(),
            exit_code: None,
            duration: None,
            cwd: None,
            session_id: None,
            persist_mode: PersistenceMode::Disk,
        };
        proof {
            assert(r.required_paths.deep_view() =~= Seq::<Seq<char>>::empty());
        }
        r
    }

    /// A field-for-field copy of this item.
    pub fn duplicate(&self) -> (r: Self)
        ensures
            r@ == self@,
    {
        HistoryItem {
            id: self.id,
            contents: copy_string(self.contents.as_str()),
            required_paths: copy_strings(&self.required_paths),
            exit_code: self.exit_code,
            duration: self.duration,
            cwd: copy_opt_string(&self.cwd),
            session_id: self.session_id,
            persist_mode: self.persist_mode,
        }
    }

    /// The command text.
    pub fn str(&self) -> (r: &str)
        ensures
            r@ == self@.contents,
    {
        self.contents.as_str()
    }

    /// Whether the command text is empty.
    pub fn is_empty(&self) -> (r: bool)
        ensures
            r == (self@.contents.len() == 0),
    {
        self.contents.as_str().is_empty()
    }

    /// The creation time, in milliseconds since the epoch, taken from the identifier.
    pub fn timestamp(&self) -> (r: u64)
        ensures
            r == self.id.0 / crate::id::NONCE_SPAN,
    {
        self.id.timestamp()
    }

    /// Whether this item is to be written to disk.
    pub fn should_write_to_disk(&self) -> (r: bool)
        ensures
            r == (self.persist_mode == PersistenceMode::Disk),
    {
        self.persist_mode == PersistenceMode::Disk
    }

    /// The arguments which referred to files.
    pub fn get_required_paths(&self) -> (r: &Vec<String>)
        ensures
            r.deep_view() == self@.paths,
    {
        &self.required_paths
    }

    /// Set the arguments which referred to files.
    pub fn set_required_paths(&mut self, paths: Vec<String>)
        ensures
            final(self)@ == (ItemModel { paths: paths.deep_view(), ..old(self)@ }),
    {
        self.required_paths = paths;
    }

    /// Merge fields from another item: each field of `other` that is present or non-empty
    /// replaces this item's.
    pub fn merge(&mut self, other: HistoryItem)
        ensures
            final(self)@ == merged(old(self)@, other@),
    {
        let HistoryItem { contents, required_paths, exit_code, duration, cwd, session_id, .. } =
            other;
        if !contents.as_str().is_empty() {
            self.contents = contents;
        }
        if exit_code.is_some() {
            self.exit_code = exit_code;
        }
        if required_paths.len() > 0 {
            self.required_paths = required_paths;
        }
        if duration.is_some() {
            self.duration = duration;
        }
        if cwd.is_some() {
            self.cwd = cwd;
        }
        if session_id.is_some() {
            self.session_id = session_id;
        }
    }
}

} // verus!
