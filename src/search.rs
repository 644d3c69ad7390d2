//! Searching the history: matching an item's text against a term, and stepping through
//! the entries of a store in either direction, each text yielded once.
use vstd::prelude::*;
use vstd::hash_set::StringHashSet;
use crate::history::{entry_at, store_size, History};
use crate::item::{HistoryItem, SearchDirection, SearchType};
use crate::text::{chars_of, copy_string, lowercase, lowercase_of, string_from_chars};
use crate::textmatch::{GlobToken, 
    any_line_starts_with, contains_text, find_text, glob_match, glob_tokens, is_prefix,
    is_subsequence, line_prefix, parse_glob, starts_with, subsequence_in_string, wildcard_match,
};

verus! {

/// The tokens of a glob search: an any-string wildcard is put before the pattern (for a
/// search anywhere) and after it, unless the pattern already starts or ends with one.
pub open spec fn padded_tokens(t: Seq<GlobToken>, anywhere: bool) -> Seq<GlobToken> {
    let front = if anywhere && !(t.len() > 0 && t[0] == GlobToken::AnyString) { seq![GlobToken::AnyString] + t } else { t };
    if front.len() > 0 && front.last() == GlobToken::AnyString { front } else { front.push(GlobToken::AnyString) }
}

/// Whether a text matches a search term of the given type.
pub open spec fn text_matches(term: Seq<char>, content: Seq<char>, typ: SearchType) -> bool {
    match typ {
        SearchType::Exact => term == content,
        SearchType::Contains => contains_text(content, term),
        SearchType::Prefix => is_prefix(term, content),
        SearchType::LinePrefix => line_prefix(term, content),
        SearchType::ContainsGlob => glob_match(content, padded_tokens(glob_tokens(term), true)),
        SearchType::PrefixGlob => glob_match(content, padded_tokens(glob_tokens(term), false)),
        SearchType::ContainsSubsequence => is_subsequence(term, content),
    }
}

/// The text that a term is compared with: lowercased when case is ignored.
pub open spec fn folded(content: Seq<char>, case_sensitive: bool) -> Seq<char> {
    if case_sensitive { content } else { lowercase_of(content) }
}

fn pad_tokens(t: Vec<GlobToken>, anywhere: bool) -> (r: Vec<GlobToken>)
    ensures
        r@ == padded_tokens(t@, anywhere),
{
    let mut front: Vec<GlobToken> = Vec::new();
    if anywhere && !(t.len() > 0 && t[0] == GlobToken::AnyString) {
        front.push(GlobToken::AnyString);
    }
    let ghost start = front@;
    let mut i: usize = 0;
    while i < t.len()
        invariant
            i <= t@.len(),
            front@ == start + t@.subrange(0, i as int),
        decreases t@.len() - i,
    {
        front.push(t[i]);
        proof {
            assert(t@.subrange(0, i + 1) =~= t@.subrange(0, i as int).push(t@[i as int]));
        }
        i = i + 1;
    }
    proof {
        assert(t@.subrange(0, t@.len() as int) =~= t@);
        if anywhere && !(t@.len() > 0 && t@[0] == GlobToken::AnyString) {
            assert(front@ =~= seq![GlobToken::AnyString] + t@);
        } else {
            assert(front@ =~= t@);
        }
    }
    if !(front.len() > 0 && front[front.len() - 1] == GlobToken::AnyString) {
        front.push(GlobToken::AnyString);
    }
    front
}

/// Whether a text matches a term of the given type.
pub fn text_matches_term(term: &Vec<char>, content: &Vec<char>, typ: SearchType) -> (r: bool)
    ensures
        r == text_matches(term@, content@, typ),
{
    match typ {
        SearchType::Exact => {
            let r = term.len() == content.len() && starts_with(content, term);
            proof {
                if term@.len() == content@.len() {
                    assert(content@.subrange(0, term@.len() as int) =~= content@);
                }
            }
            r
        },
        SearchType::Contains => find_text(content, term).is_some(),
        SearchType::Prefix => starts_with(content, term),
        SearchType::LinePrefix => any_line_starts_with(content, term),
        SearchType::ContainsGlob => {
            let pat = pad_tokens(parse_glob(term), true);
            wildcard_match(content, &pat)
        },
        SearchType::PrefixGlob => {
            let pat = pad_tokens(parse_glob(term), false);
            wildcard_match(content, &pat)
        },
        SearchType::ContainsSubsequence => subsequence_in_string(term, content),
    }
}

impl HistoryItem {
    /// Whether this item's text matches a search term. For a case-insensitive search the
    /// term is expected to be lowercased already; the text is lowercased here.
    pub fn matches_search(&self, term: &str, typ: SearchType, case_sensitive: bool) -> (r: bool)
        ensures
            r == text_matches(term@, folded(self@.contents, case_sensitive), typ),
    {
        let content = if case_sensitive {
            chars_of(self.contents.as_str())
        } else {
            let lower = lowercase(self.contents.as_str());
            chars_of(lower.as_str())
        };
        let t = chars_of(term);
        text_matches_term(&t, &content, typ)
    }
}

/// Options of a search.
#[derive(Clone, Copy, Debug, PartialEq, Eq, Structural)]
pub struct SearchFlags {
    /// Compare without regard to case.
    pub ignore_case: bool,
    /// Yield a text again when it occurs again.
    pub no_dedup: bool,
}

impl SearchFlags {
    /// No option set.
    pub open spec fn empty_spec() -> Self {
        SearchFlags { ignore_case: false, no_dedup: false }
    }

    /// No option set.
    pub fn empty() -> (r: Self)
        ensures
            !r.ignore_case && !r.no_dedup,
    {
        SearchFlags { ignore_case: false, no_dedup: false }
    }
}

/// A search through the entries of a store. Each text is yielded once unless deduplication
/// is off.
pub struct HistorySearch {
    orig_term: String,
    canon_term: String,
    search_type: SearchType,
    flags: SearchFlags,
    current_item: Option<HistoryItem>,
    current_index: usize,
    deduper: StringHashSet,
}

/// Whether the entry at `idx` is one a search yields: it exists, matches, and (when
/// deduplicating) its text was not yielded before.
pub open spec fn yields(
    h: crate::history::StoreModel,
    term: Seq<char>,
    typ: SearchType,
    flags: SearchFlags,
    seen: Set<Seq<char>>,
    idx: int,
) -> bool {
    match entry_at(h, idx) {
        Some(e) => text_matches(term, folded(e.contents, !flags.ignore_case), typ) && (flags.no_dedup || !seen.contains(e.contents)),
        None => false,
    }
}

impl HistorySearch {
    /// The term that items are compared with.
    pub closed spec fn term(&self) -> Seq<char> {
        self.canon_term@
    }

    /// The texts yielded so far.
    pub closed spec fn seen(&self) -> Set<Seq<char>> {
        self.deduper@
    }

    /// The index of the current entry.
    pub closed spec fn index(&self) -> usize {
        self.current_index
    }

    /// The term as it was given.
    pub closed spec fn given_term(&self) -> Seq<char> {
        self.orig_term@
    }

    /// The current entry.
    pub closed spec fn current(&self) -> Option<HistoryItem> {
        self.current_item
    }

    /// The kind of comparison.
    pub closed spec fn kind(&self) -> SearchType {
        self.search_type
    }

    /// The options.
    pub closed spec fn options(&self) -> SearchFlags {
        self.flags
    }

    /// A search for `s` of the given type, starting at `starting_index`. When case is ignored
    /// the term is lowercased.
    pub fn new_with(s: String, search_type: SearchType, flags: SearchFlags, starting_index: usize) -> (r: Self)
        ensures
            r.given_term() == s@,
            r.term() == (if flags.ignore_case { lowercase_of(s@) } else { s@ }),
            r.kind() == search_type,
            r.options() == flags,
            r.index() == starting_index,
            r.current() is None,
            r.seen() == Set::<Seq<char>>::empty(),
    {
        let canon = if flags.ignore_case { lowercase(s.as_str()) } else { copy_string(s.as_str()) };
        HistorySearch {
            orig_term: s,
            canon_term: canon,
            search_type,
            flags,
            current_item: None,
            current_index: starting_index,
            deduper: StringHashSet::new(),
        }
    }

    /// The original term.
    pub fn original_term(&self) -> (r: &str)
        ensures
            r@ == self.given_term(),
    {
        self.orig_term.as_str()
    }

    /// The term that items are compared with.
    pub fn canon_term(&self) -> (r: &str)
        ensures
            r@ == self.term(),
    {
        self.canon_term.as_str()
    }

    /// Whether case is ignored.
    pub fn ignores_case(&self) -> (r: bool)
        ensures
            r == self.options().ignore_case,
    {
        self.flags.ignore_case
    }

    fn dedup(&self) -> (r: bool)
        ensures
            r == !self.options().no_dedup,
    {
        !self.flags.no_dedup
    }

    /// The index of the current entry.
    pub fn current_index(&self) -> (r: usize)
        ensures
            r == self.index(),
    {
        self.current_index
    }

    /// The current entry.
    pub fn current_item(&self) -> (r: &HistoryItem)
        requires
            self.current() is Some,
        ensures
            Some(*r) == self.current(),
    {
        self.current_item.as_ref().unwrap()
    }

    /// The text of the current entry.
    pub fn current_string(&self) -> (r: &str)
        requires
            self.current() is Some,
        ensures
            r@ == self.current()->0@.contents,
    {
        self.current_item.as_ref().unwrap().str()
    }

    /// Step back by one after the current entry was deleted, so that the next backward step
    /// finds the entry that took its place.
    pub fn prepare_to_search_after_deletion(&mut self)
        requires
            old(self).index() != 0,
        ensures
            final(self).index() == old(self).index() - 1,
            final(self).current() is None,
            final(self).term() == old(self).term(),
            final(self).seen() == old(self).seen(),
            final(self).kind() == old(self).kind(),
            final(self).options() == old(self).options(),
    {
        self.current_index = self.current_index - 1;
        self.current_item = None;
    }

    /// Find the next entry that the search yields, going backward (to older entries, larger
    /// indexes) or forward. Returns whether one was found; it becomes the current entry.
    /// When none is left, the index moves past the end: one past the size backward, zero
    /// forward.
    pub fn go_to_next_match(&mut self, history: &History, direction: SearchDirection) -> (r: bool)
        requires
            history.wf(),
            store_size(history@) < usize::MAX,
        ensures
            final(self).term() == old(self).term(),
            final(self).kind() == old(self).kind(),
            final(self).options() == old(self).options(),
            direction == SearchDirection::Backward && old(self).index() <= store_size(history@) ==> {
                &&& r ==> {
                    &&& old(self).index() < final(self).index()
                    &&& yields(history@, old(self).term(), old(self).kind(), old(self).options(), old(self).seen(), final(self).index() as int)
                    &&& forall|k: int| old(self).index() < k < final(self).index() ==> !yields(history@, old(self).term(), old(self).kind(), old(self).options(), old(self).seen(), k)
                    &&& final(self).current() matches Some(it) && entry_at(history@, final(self).index() as int) == Some(it@)
                }
                &&& !r ==> {
                    &&& forall|k: int| old(self).index() < k ==> !yields(history@, old(self).term(), old(self).kind(), old(self).options(), old(self).seen(), k)
                    &&& final(self).index() == store_size(history@) + 1
                    &&& final(self).current() is None
                }
            },
            direction == SearchDirection::Forward && old(self).index() <= store_size(history@) + 1 ==> {
                &&& r ==> {
                    &&& final(self).index() < old(self).index()
                    &&& yields(history@, old(self).term(), old(self).kind(), old(self).options(), old(self).seen(), final(self).index() as int)
                    &&& forall|k: int| final(self).index() < k < old(self).index() ==> !yields(history@, old(self).term(), old(self).kind(), old(self).options(), old(self).seen(), k)
                    &&& final(self).current() matches Some(it) && entry_at(history@, final(self).index() as int) == Some(it@)
                }
                &&& !r ==> {
                    &&& forall|k: int| 0 < k < old(self).index() ==> !yields(history@, old(self).term(), old(self).kind(), old(self).options(), old(self).seen(), k)
                    &&& final(self).index() == 0
                }
            },
            direction == SearchDirection::Backward && old(self).index() > store_size(history@) ==> !r && final(self).index() == store_size(history@) + 1 && final(self).current() is None,
            direction == SearchDirection::Forward && old(self).index() == 0 ==> !r && final(self).index() == 0,
            final(self).given_term() == old(self).given_term(),
            r && !old(self).options().no_dedup ==> final(self).seen() == old(self).seen().insert(final(self).current()->0@.contents),
            !(r && !old(self).options().no_dedup) ==> final(self).seen() == old(self).seen(),
    {
        let backward = match direction {
            SearchDirection::Backward => true,
            SearchDirection::Forward => false,
        };
        let size = history.size();
        if backward && self.current_index > size {
            self.current_index = size + 1;
            self.current_item = None;
            return false;
        }
        if !backward && self.current_index == 0 {
            return false;
        }
        let ghost start = self.current_index;
        let mut index = self.current_index;
        loop
            invariant
                history.wf(),
                size == store_size(history@),
                size < usize::MAX,
                backward == (direction == SearchDirection::Backward),
                backward ==> start <= index <= size,
                !backward ==> 0 < index <= start,
                self.term() == old(self).term(),
                self.given_term() == old(self).given_term(),
                self.kind() == old(self).kind(),
                self.options() == old(self).options(),
                self.seen() == old(self).seen(),
                self.index() == old(self).index(),
                self.current() == old(self).current(),
                start == old(self).index(),
                backward ==> forall|k: int| start < k <= index ==> !yields(history@, self.term(), self.kind(), self.options(), self.seen(), k),
                !backward ==> forall|k: int| index <= k < start ==> !yields(history@, self.term(), self.kind(), self.options(), self.seen(), k),
            decreases if backward { size - index } else { index as int },
        {
            if backward {
                index = index + 1;
            } else {
                index = index - 1;
            }
            let found = history.item_at_index(index);
            match found {
                None => {
                    proof {
                        if backward {
                            assert(index == size + 1);
                            assert forall|k: int| start < k implies !yields(history@, self.term(), self.kind(), self.options(), self.seen(), k) by {
                                if k > size {
                                    assert(entry_at(history@, k) is None);
                                }
                            }
                        }
                    }
                    self.current_index = if backward { size + 1 } else { 0 };
                    self.current_item = None;
                    return false;
                },
                Some(item) => {
                    let matched = item.matches_search(self.canon_term.as_str(), self.search_type, !self.flags.ignore_case);
                    if matched {
                        if self.dedup() {
                            let ghost seen0 = self.deduper@;
                            let t = copy_string(item.contents.as_str());
                            let fresh = self.deduper.insert(t);
                            if fresh {
                                self.current_item = Some(item);
                                self.current_index = index;
                                return true;
                            }
                            proof {
                                assert(self.deduper@ =~= seen0);
                            }
                        } else {
                            self.current_item = Some(item);
                            self.current_index = index;
                            return true;
                        }
                    }
                    proof {
                        assert(!yields(history@, self.term(), self.kind(), self.options(), self.seen(), index as int));
                    }
                },
            }
            if backward && index == size {
                proof {
                    assert forall|k: int| start < k implies !yields(history@, self.term(), self.kind(), self.options(), self.seen(), k) by {
                        if k > size {
                            assert(entry_at(history@, k) is None);
                        }
                    }
                }
                self.current_index = size + 1;
                self.current_item = None;
                return false;
            }
            if !backward && index == 0 {
                self.current_index = 0;
                return false;
            }
        }
    }

    /// Step forward until more than `value` texts have been yielded or no entry is left,
    /// then forget the yielded texts.
    pub fn search_forward(&mut self, history: &History, value: usize)
        requires
            history.wf(),
            store_size(history@) < usize::MAX,
        ensures
            final(self).seen() == Set::<Seq<char>>::empty(),
            final(self).term() == old(self).term(),
            final(self).kind() == old(self).kind(),
            final(self).options() == old(self).options(),
    {
        loop
            invariant
                history.wf(),
                store_size(history@) < usize::MAX,
                self.term() == old(self).term(),
                self.kind() == old(self).kind(),
                self.options() == old(self).options(),
            decreases self.index(),
        {
            let before = self.current_index;
            if before > history.size() + 1 {
                break;
            }
            let moved = self.go_to_next_match(history, SearchDirection::Forward);
            if !moved || self.deduper.len() > value {
                break;
            }
            if self.current_index >= before {
                break;
            }
        }
        self.deduper.clear();
    }
}

/// The entries that a backward search yields after index `idx`, in order, given the
/// texts already yielded.
pub open spec fn backward_results(
    h: crate::history::StoreModel,
    term: Seq<char>,
    typ: SearchType,
    flags: SearchFlags,
    seen: Set<Seq<char>>,
    idx: int,
) -> Seq<crate::item::ItemModel>
    decreases store_size(h) - idx,
{
    if idx >= store_size(h) || idx < 0 {
        Seq::empty()
    } else if yields(h, term, typ, flags, seen, idx + 1) {
        let e = entry_at(h, idx + 1)->0;
        seq![e] + backward_results(h, term, typ, flags, if flags.no_dedup { seen } else { seen.insert(e.contents) }, idx + 1)
    } else {
        backward_results(h, term, typ, flags, seen, idx + 1)
    }
}

/// Every entry that a backward search yields matches its term.
pub proof fn lemma_results_match(
    h: crate::history::StoreModel,
    term: Seq<char>,
    typ: SearchType,
    flags: SearchFlags,
    seen: Set<Seq<char>>,
    idx: int,
)
    ensures
        forall|q: int| 0 <= q < backward_results(h, term, typ, flags, seen, idx).len() ==> text_matches(
            term,
            folded(#[trigger] backward_results(h, term, typ, flags, seen, idx)[q].contents, !flags.ignore_case),
            typ,
        ),
    decreases store_size(h) - idx,
{
    if !(idx >= store_size(h) || idx < 0) {
        if yields(h, term, typ, flags, seen, idx + 1) {
            let e = entry_at(h, idx + 1)->0;
            let seen2 = if flags.no_dedup { seen } else { seen.insert(e.contents) };
            lemma_results_match(h, term, typ, flags, seen2, idx + 1);
            let rest = backward_results(h, term, typ, flags, seen2, idx + 1);
            let all = backward_results(h, term, typ, flags, seen, idx);
            assert(all == seq![e] + rest);
            assert forall|q: int| 0 <= q < all.len() implies text_matches(term, folded(#[trigger] all[q].contents, !flags.ignore_case), typ) by {
                if q > 0 {
                    assert(all[q] == rest[q - 1]);
                }
            }
        } else {
            lemma_results_match(h, term, typ, flags, seen, idx + 1);
        }
    }
}

proof fn lemma_skip_to(
    h: crate::history::StoreModel,
    term: Seq<char>,
    typ: SearchType,
    flags: SearchFlags,
    seen: Set<Seq<char>>,
    idx: int,
    k: int,
)
    requires
        0 <= idx < k,
        forall|j: int| idx < j < k ==> !yields(h, term, typ, flags, seen, j),
    ensures
        k - 1 <= store_size(h) ==> backward_results(h, term, typ, flags, seen, idx) == backward_results(h, term, typ, flags, seen, k - 1),
    decreases k - idx,
{
    if idx + 1 < k {
        lemma_skip_to(h, term, typ, flags, seen, idx + 1, k);
    }
}

proof fn lemma_nothing_left(
    h: crate::history::StoreModel,
    term: Seq<char>,
    typ: SearchType,
    flags: SearchFlags,
    seen: Set<Seq<char>>,
    idx: int,
)
    requires
        0 <= idx,
        forall|j: int| idx < j ==> !yields(h, term, typ, flags, seen, j),
    ensures
        backward_results(h, term, typ, flags, seen, idx) == Seq::<crate::item::ItemModel>::empty(),
    decreases store_size(h) - idx,
{
    if idx < store_size(h) {
        lemma_nothing_left(h, term, typ, flags, seen, idx + 1);
    }
}

/// Collect the first `limit` entries that a backward search for `term` yields, newest first.
pub fn collect_matches(
    history: &History,
    term: String,
    search_type: SearchType,
    flags: SearchFlags,
    limit: usize,
) -> (r: Vec<HistoryItem>)
    requires
        history.wf(),
        store_size(history@) < usize::MAX,
    ensures
        ({
            let all = backward_results(history@, if flags.ignore_case { lowercase_of(term@) } else { term@ }, search_type, flags, Set::empty(), 0);
            r@.map_values(|i: HistoryItem| i@) == all.subrange(0, if limit < all.len() { limit as int } else { all.len() as int })
        }),
{
    let mut searcher = HistorySearch::new_with(term, search_type, flags, 0);
    let ghost t = searcher.term();
    let ghost all = backward_results(history@, t, search_type, flags, Set::empty(), 0);
    let mut out: Vec<HistoryItem> = Vec::new();
    let mut done = false;
    while out.len() < limit && !done
        invariant
            history.wf(),
            store_size(history@) < usize::MAX,
            searcher.term() == t,
            searcher.kind() == search_type,
            searcher.options() == flags,
            searcher.index() <= store_size(history@) + 1,
            !done ==> searcher.index() <= store_size(history@),
            all == backward_results(history@, t, search_type, flags, Set::empty(), 0),
            !done ==> out@.map_values(|i: HistoryItem| i@) + backward_results(history@, t, search_type, flags, searcher.seen(), searcher.index() as int) == all,
            done ==> out@.map_values(|i: HistoryItem| i@) == all,
            out@.len() <= limit,
        decreases if done { 0int } else { store_size(history@) + 1 - searcher.index() },
    {
        let ghost before = out@.map_values(|i: HistoryItem| i@);
        let ghost idx0 = searcher.index() as int;
        let ghost seen0 = searcher.seen();
        if searcher.go_to_next_match(history, SearchDirection::Backward) {
            let k = searcher.current_index();
            let it = searcher.current_item().duplicate();
            proof {
                lemma_skip_to(history@, t, search_type, flags, seen0, idx0, k as int);
                assert(backward_results(history@, t, search_type, flags, seen0, k - 1) =~= seq![it@] + backward_results(history@, t, search_type, flags, searcher.seen(), k as int));
            }
            out.push(it);
            proof {
                assert(out@.map_values(|i: HistoryItem| i@) =~= before.push(it@));
                assert(before.push(it@) + backward_results(history@, t, search_type, flags, searcher.seen(), k as int) =~= before + (seq![it@] + backward_results(history@, t, search_type, flags, searcher.seen(), k as int)));
            }
        } else {
            proof {
                lemma_nothing_left(history@, t, search_type, flags, seen0, idx0);
                assert(before + Seq::<crate::item::ItemModel>::empty() =~= before);
            }
            done = true;
        }
    }
    proof {
        let n = out@.len();
        if done {
            assert(all.subrange(0, all.len() as int) =~= all);
        } else {
            assert(out@.map_values(|i: HistoryItem| i@) =~= all.subrange(0, n as int));
        }
    }
    out
}

/// At most `n` first elements of `s`.
pub open spec fn take_at_most<A>(s: Seq<A>, n: int) -> Seq<A> {
    if n < s.len() { s.subrange(0, if n < 0 { 0 } else { n }) } else { s }
}

/// The entries that a backward search for one argument yields, as `History::search` runs it:
/// the argument lowercased when case is ignored, and each text once.
pub open spec fn arg_results(h: crate::history::StoreModel, a: Seq<char>, typ: SearchType, case_sensitive: bool) -> Seq<crate::item::ItemModel> {
    backward_results(
        h,
        if case_sensitive { a } else { lowercase_of(a) },
        typ,
        SearchFlags { ignore_case: !case_sensitive, no_dedup: false },
        Set::empty(),
        0,
    )
}

/// The position of the first empty argument at or after `i`, or the number of arguments.
pub open spec fn first_empty_from(args: Seq<Seq<char>>, i: int) -> int
    decreases args.len() - i,
{
    if i < 0 || i >= args.len() {
        args.len() as int
    } else if args[i].len() == 0 {
        i
    } else {
        first_empty_from(args, i + 1)
    }
}

/// The results of searching for the first `k` arguments in turn, each cut to the room left
/// under `max`.
pub open spec fn search_results(h: crate::history::StoreModel, args: Seq<Seq<char>>, typ: SearchType, case_sensitive: bool, max: int, k: int) -> Seq<crate::item::ItemModel>
    decreases k,
{
    if k <= 0 {
        Seq::empty()
    } else {
        let p = search_results(h, args, typ, case_sensitive, max, k - 1);
        p + take_at_most(arg_results(h, args[k - 1], typ, case_sensitive), max - p.len())
    }
}

proof fn lemma_search_results_len(h: crate::history::StoreModel, args: Seq<Seq<char>>, typ: SearchType, case_sensitive: bool, max: int, k: int)
    requires
        max >= 0,
    ensures
        search_results(h, args, typ, case_sensitive, max, k).len() <= max,
    decreases k,
{
    if k > 0 {
        lemma_search_results_len(h, args, typ, case_sensitive, max, k - 1);
    }
}

impl History {
    /// Search the history backward, newest first. Without search arguments every text is
    /// yielded once; otherwise each argument is searched in turn with the given type and
    /// case sensitivity, each text once per argument. At most `max_items` items are
    /// returned in all; the list is reversed at the end if asked. Searching for the empty
    /// string is refused: the first part of the result is false, and the items found for
    /// the arguments before it are returned.
    pub fn search(
        &self,
        search_type: SearchType,
        search_args: &Vec<String>,
        max_items: usize,
        case_sensitive: bool,
        reverse: bool,
    ) -> (r: (bool, Vec<HistoryItem>))
        requires
            self.wf(),
            store_size(self@) < usize::MAX,
        ensures
            r.0 == forall|i: int| 0 <= i < search_args@.len() ==> (#[trigger] search_args@[i])@.len() > 0,
            ({
                let args = search_args@.map_values(|a: String| a@);
                let found = if search_args@.len() == 0 {
                    take_at_most(backward_results(self@, Seq::empty(), SearchType::Contains, SearchFlags::empty_spec(), Set::empty(), 0), max_items as int)
                } else {
                    search_results(self@, args, search_type, case_sensitive, max_items as int, first_empty_from(args, 0))
                };
                crate::history::item_views(r.1@) == if reverse { found.reverse() } else { found }
            }),
            r.1@.len() <= max_items,
    {
        let ghost args = search_args@.map_values(|a: String| a@);
        let mut collected: Vec<HistoryItem> = Vec::new();
        let mut ok = true;
        if search_args.len() == 0 {
            collected = collect_matches(self, String::new(), SearchType::Contains, SearchFlags::empty(), max_items);
            proof {
                assert(collected@.map_values(|i: HistoryItem| i@) =~= crate::history::item_views(collected@));
                reveal_strlit("");
            }
        } else {
            let flags = SearchFlags { ignore_case: !case_sensitive, no_dedup: false };
            let mut a: usize = 0;
            proof {
                lemma_search_results_len(self@, args, search_type, case_sensitive, max_items as int, 0);
            }
            while a < search_args.len() && ok
                invariant
                    self.wf(),
                    store_size(self@) < usize::MAX,
                    args == search_args@.map_values(|a: String| a@),
                    a <= search_args@.len(),
                    ok ==> first_empty_from(args, 0) == first_empty_from(args, a as int),
                    !ok ==> a > 0 && first_empty_from(args, 0) == a - 1,
                    ok == forall|i: int| 0 <= i < a ==> (#[trigger] search_args@[i])@.len() > 0,
                    flags == (SearchFlags { ignore_case: !case_sensitive, no_dedup: false }),
                    ok ==> crate::history::item_views(collected@) == search_results(self@, args, search_type, case_sensitive, max_items as int, a as int),
                    !ok ==> crate::history::item_views(collected@) == search_results(self@, args, search_type, case_sensitive, max_items as int, a - 1),
                    collected@.len() <= max_items,
                decreases search_args@.len() - a,
            {
                proof {
                    assert(args[a as int] == search_args@[a as int]@);
                }
                if search_args[a].as_str().is_empty() {
                    ok = false;
                    a = a + 1;
                    continue;
                }
                let remaining = max_items - collected.len();
                let term = copy_string(search_args[a].as_str());
                let found = collect_matches(self, term, search_type, flags, remaining);
                let ghost before = crate::history::item_views(collected@);
                let ghost fv = crate::history::item_views(found@);
                proof {
                    assert(fv =~= found@.map_values(|i: HistoryItem| i@));
                    assert(fv =~= take_at_most(arg_results(self@, args[a as int], search_type, case_sensitive), max_items - before.len()));
                }
                let mut f: usize = 0;
                while f < found.len()
                    invariant
                        collected@.len() + found@.len() - f <= max_items,
                        f <= found@.len(),
                        fv == crate::history::item_views(found@),
                        crate::history::item_views(collected@) == before + fv.subrange(0, f as int),
                    decreases found@.len() - f,
                {
                    let it = found[f].duplicate();
                    let ghost cv = crate::history::item_views(collected@);
                    proof {
                        assert(fv[f as int] == found@[f as int]@);
                        assert(fv.subrange(0, f + 1) =~= fv.subrange(0, f as int).push(fv[f as int]));
                    }
                    collected.push(it);
                    proof {
                        assert(crate::history::item_views(collected@) =~= cv.push(it@));
                        assert(crate::history::item_views(collected@) =~= before + fv.subrange(0, f + 1));
                    }
                    f = f + 1;
                }
                proof {
                    assert(fv.subrange(0, found@.len() as int) =~= fv);
                    assert(crate::history::item_views(collected@) == search_results(self@, args, search_type, case_sensitive, max_items as int, a + 1));
                }
                a = a + 1;
            }
            proof {
                if ok {
                    assert(first_empty_from(args, a as int) == a);
                }
            }
        }
        let ghost fwd = crate::history::item_views(collected@);
        if reverse {
            let mut rev: Vec<HistoryItem> = Vec::new();
            let mut k = collected.len();
            while k > 0
                invariant
                    k <= collected@.len(),
                    rev@.len() == collected@.len() - k,
                    collected@.len() <= max_items,
                    fwd == crate::history::item_views(collected@),
                    forall|q: int| 0 <= q < rev@.len() ==> (#[trigger] rev@[q])@ == collected@[collected@.len() - 1 - q]@,
                decreases k,
            {
                let ghost b = rev@;
                rev.push(collected[k - 1].duplicate());
                proof {
                    assert forall|q: int| 0 <= q < rev@.len() implies (#[trigger] rev@[q])@ == collected@[collected@.len() - 1 - q]@ by {
                        if q < b.len() {
                            assert(rev@[q] == b[q]);
                        }
                    }
                }
                k = k - 1;
            }
            proof {
                assert(crate::history::item_views(rev@) =~= fwd.reverse());
            }
            collected = rev;
        }
        (ok, collected)
    }
}

} // verus!
