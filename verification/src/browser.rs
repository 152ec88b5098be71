//! The file picker: the entries of a directory (or, once collected, every
//! markdown file under the repository root), fuzzy filtering and selection.
use vstd::prelude::*;
use nucleo_matcher::pattern::{CaseMatching, Normalization, Pattern};
use nucleo_matcher::{Config, Matcher, Utf32Str};
use crate::text::{is_white_space, lines, split_lines, views_of, white_space, chars_of, ends_with, has_prefix, has_suffix, lex_lt, starts_with, str_less, string_of};

verus! {

pub struct BrowserEntry {
    pub name: String,
    pub path: String,
    pub is_dir: bool,
}

/// The value of an entry.
pub struct EntryView {
    pub name: Seq<char>,
    pub path: Seq<char>,
    pub is_dir: bool,
}

impl View for BrowserEntry {
    type V = EntryView;

    open spec fn view(&self) -> EntryView {
        EntryView { name: self.name@, path: self.path@, is_dir: self.is_dir }
    }
}

pub open spec fn entries_view(v: Seq<BrowserEntry>) -> Seq<EntryView> {
    v.map_values(|e: BrowserEntry| e@)
}

impl BrowserEntry {
    pub fn copy(&self) -> (r: BrowserEntry)
        ensures
            r == *self,
    {
        BrowserEntry { name: self.name.clone(), path: self.path.clone(), is_dir: self.is_dir }
    }
}

/// One item of a directory as read from disk: its file name, its path, and
/// whether it is a directory.
pub struct DirItem {
    pub name: String,
    pub path: String,
    pub is_dir: bool,
}

/// What reading a directory gave: its items (`None` where the directory could
/// not be read).
pub struct DirListing {
    pub items: Option<Vec<DirItem>>,
}

/// The path that `std::path::Path::parent` gives for the path with these
/// characters (the path without its last component), as characters.
pub uninterp spec fn path_parent(p: Seq<char>) -> Option<Seq<char>>;

/// `std::path::Path::parent` on the path `p`, converted to a string (losslessly:
/// a path made from a `str` is valid UTF-8). The result is named `path_parent`.
#[verifier::external_body]
pub(crate) fn parent_of(p: &str) -> (r: Option<String>)
    ensures
        crate::markdown::opt_view(r) == path_parent(p@),
{
    match std::path::Path::new(p).parent() {
        Some(d) => Some(d.to_string_lossy().into_owned()),
        None => None,
    }
}


/// The score `nucleo_matcher` gives `haystack` for the pattern `pattern`
/// (case ignored, smart normalization, path matching), or `None` for no match.
pub uninterp spec fn fuzzy_match(pattern: Seq<char>, haystack: Seq<char>) -> Option<u32>;

/// Parses `pattern` with `Pattern::parse` (case ignored, smart normalization) and
/// scores `haystack` with `Pattern::score` on a `Matcher` made with
/// `Config::DEFAULT.match_paths()`; the result is named `fuzzy_match` of the two strings.
#[verifier::external_body]
fn fuzzy_score(pattern: &str, haystack: &str) -> (r: Option<u32>)
    ensures
        r == fuzzy_match(pattern@, haystack@),
{
    let pattern = Pattern::parse(pattern, CaseMatching::Ignore, Normalization::Smart);
    let mut matcher = Matcher::new(Config::DEFAULT.match_paths());
    let mut buf = Vec::new();
    pattern.score(Utf32Str::new(haystack, &mut buf), &mut matcher)
}

pub open spec fn names_of(v: Seq<BrowserEntry>) -> Seq<Seq<char>> {
    v.map_values(|e: BrowserEntry| e.name@)
}

/// `idx` lists, best first, the entries of `names` that `pattern` matches: every
/// match exactly once, ordered by score (highest first) and, at equal scores, by position.
pub open spec fn ranked(idx: Seq<usize>, names: Seq<Seq<char>>, pattern: Seq<char>) -> bool {
    &&& forall|k: int| 0 <= k < idx.len() ==> #[trigger] idx[k] < names.len() && fuzzy_match(pattern, names[idx[k] as int]) is Some
    &&& forall|i: int| 0 <= i < names.len() && fuzzy_match(pattern, #[trigger] names[i]) is Some ==> idx.contains(i as usize)
    &&& forall|a: int, b: int| 0 <= a < b < idx.len() ==> ranks_before(
        fuzzy_match(pattern, names[idx[a] as int])->0,
        idx[a],
        fuzzy_match(pattern, names[idx[b] as int])->0,
        idx[b],
    )
}

/// Higher score first, then lower position.
pub open spec fn ranks_before(s1: u32, i1: usize, s2: u32, i2: usize) -> bool {
    s1 > s2 || (s1 == s2 && i1 < i2)
}

/// Sorted (non-decreasing) by name.
pub open spec fn sorted_by_name(v: Seq<EntryView>) -> bool {
    forall|a: int, b: int| 0 <= a < b < v.len() ==> !lex_lt(#[trigger] v[b].name, #[trigger] v[a].name)
}

/// The same entries, each as often.
pub open spec fn same_entries(a: Seq<EntryView>, b: Seq<EntryView>) -> bool {
    a.to_multiset() == b.to_multiset()
}

/// Whether an entry is named `n`.
pub open spec fn name_is(n: Seq<char>) -> spec_fn(EntryView) -> bool {
    |e: EntryView| e.name == n
}

/// The entries of `v` named `n`, in their order.
pub open spec fn with_name(v: Seq<EntryView>, n: Seq<char>) -> Seq<EntryView> {
    v.filter(name_is(n))
}

/// Entries of equal names come in `got` in the order they have in `want`.
pub open spec fn keeps_equal_order(got: Seq<EntryView>, want: Seq<EntryView>) -> bool {
    forall|n: Seq<char>| #[trigger] with_name(got, n) == with_name(want, n)
}

/// `got` holds the entries of `want`, sorted by name; entries of equal names
/// keep their order.
pub open spec fn arranged(got: Seq<EntryView>, want: Seq<EntryView>) -> bool {
    sorted_by_name(got) && same_entries(got, want) && keeps_equal_order(got, want)
}

/// Inserting `e` at `p`, after only entries whose names sort before its name,
/// puts it first among the entries of its name.
proof fn lemma_with_name_insert(v: Seq<EntryView>, p: int, e: EntryView, n: Seq<char>)
    requires
        0 <= p <= v.len(),
        forall|k: int| 0 <= k < p ==> lex_lt(#[trigger] v[k].name, e.name),
    ensures
        with_name(v.insert(p, e), n) == with_name(seq![e], n) + with_name(v, n),
{
    let pred = name_is(n);
    let a = v.take(p);
    let b = v.skip(p);
    assert(v.insert(p, e) =~= a + seq![e] + b);
    assert(v =~= a + b);
    Seq::filter_distributes_over_add(a + seq![e], b, pred);
    Seq::filter_distributes_over_add(a, seq![e], pred);
    Seq::filter_distributes_over_add(a, b, pred);
    if n == e.name {
        assert forall|k: int| 0 <= k < a.len() implies !pred(#[trigger] a[k]) by {
            assert(lex_lt(v[k].name, e.name));
            crate::text::lemma_lex_irreflexive(e.name);
        }
        assert(a.all(|x: EntryView| !pred(x)));
        a.lemma_all_neg_filter_empty(pred);
        assert(a.filter(pred) =~= Seq::<EntryView>::empty());
        assert(with_name(v.insert(p, e), n) =~= with_name(seq![e], n) + with_name(v, n));
    } else {
        reveal_with_fuel(Seq::filter, 2);
        assert(seq![e].drop_last() =~= Seq::<EntryView>::empty());
        assert(seq![e].filter(pred) =~= Seq::<EntryView>::empty());
        assert(with_name(v.insert(p, e), n) =~= with_name(seq![e], n) + with_name(v, n));
    }
}

/// Sorts entries by name, by insertion; entries of equal names keep their order.
fn sort_by_name(v: Vec<BrowserEntry>) -> (r: Vec<BrowserEntry>)
    ensures
        arranged(entries_view(r@), entries_view(v@)),
{
    broadcast use vstd::seq_lib::group_to_multiset_ensures;
    broadcast use vstd::multiset::group_multiset_axioms;
    let mut r: Vec<BrowserEntry> = Vec::new();
    let mut src = v;
    let ghost orig = entries_view(src@);
    assert(entries_view(r@) =~= Seq::<EntryView>::empty());
    assert(entries_view(r@).to_multiset() =~= vstd::multiset::Multiset::empty());
    assert(orig.take(orig.len() as int) =~= orig);
    assert(orig.skip(orig.len() as int) =~= Seq::<EntryView>::empty());
    while src.len() > 0
        invariant
            sorted_by_name(entries_view(r@)),
            entries_view(r@).to_multiset().add(entries_view(src@).to_multiset()) == orig.to_multiset(),
            src@.len() <= orig.len(),
            entries_view(src@) == orig.take(src@.len() as int),
            keeps_equal_order(entries_view(r@), orig.skip(src@.len() as int)),
        decreases src@.len(),
    {
        let ghost before_src = src@;
        let e = src.pop().unwrap();
        assert(entries_view(before_src) =~= entries_view(src@).push(e@));
        proof {
            assert(entries_view(src@) =~= orig.take(src@.len() as int));
            assert(orig[src@.len() as int] == e@) by {
                assert(orig.take(before_src.len() as int)[src@.len() as int] == entries_view(before_src)[src@.len() as int]);
            }
            assert(orig.skip(src@.len() as int) =~= seq![e@] + orig.skip(before_src.len() as int));
        }
        let mut p: usize = 0;
        while p < r.len() && str_less(r[p].name.as_str(), e.name.as_str())
            invariant
                0 <= p <= r@.len(),
                sorted_by_name(entries_view(r@)),
                forall|k: int| 0 <= k < p ==> lex_lt(#[trigger] r@[k].name@, e.name@),
            decreases r@.len() - p,
        {
            p = p + 1;
        }
        let ghost before = r@;
        let ghost bv = entries_view(before);
        proof {
            assert forall|k: int| p <= k < bv.len() implies !lex_lt(#[trigger] bv[k].name, e.name@) by {
                if p < bv.len() {
                    assert(!lex_lt(bv[p as int].name, e.name@));
                    if k > p {
                        assert(!lex_lt(bv[k].name, bv[p as int].name));
                        if lex_lt(bv[k].name, e.name@) {
                            crate::text::lemma_lex_total(bv[p as int].name, e.name@);
                            crate::text::lemma_lex_total(bv[k].name, bv[p as int].name);
                            if bv[k].name == bv[p as int].name {
                            } else {
                                crate::text::lemma_lex_transitive(bv[p as int].name, bv[k].name, e.name@);
                            }
                        }
                    }
                }
            }
            assert forall|k: int| 0 <= k < p implies lex_lt(#[trigger] bv[k].name, e.name@) by {
                assert(bv[k].name == before[k].name@);
            }
        }
        r.insert(p, e);
        proof {
            let rv = entries_view(r@);
            assert(rv =~= bv.insert(p as int, e@));
            assert forall|a: int, b: int| 0 <= a < b < rv.len() implies !lex_lt(#[trigger] rv[b].name, #[trigger] rv[a].name) by {
                if a == p {
                    assert(rv[b] == bv[b - 1]);
                    crate::text::lemma_lex_total(bv[b - 1].name, e.name@);
                    crate::text::lemma_lex_irreflexive(e.name@);
                } else if b == p {
                    assert(rv[a] == bv[a]);
                    if lex_lt(e.name@, bv[a].name) {
                        crate::text::lemma_lex_transitive(bv[a].name, e.name@, bv[a].name);
                        crate::text::lemma_lex_irreflexive(bv[a].name);
                    }
                } else {
                    let aa = if a < p { a } else { a - 1 };
                    let bb = if b < p { b } else { b - 1 };
                    assert(rv[a] == bv[aa]);
                    assert(rv[b] == bv[bb]);
                }
            }
            assert forall|n: Seq<char>| #[trigger] with_name(rv, n) == with_name(orig.skip(src@.len() as int), n) by {
                lemma_with_name_insert(bv, p as int, e@, n);
                Seq::filter_distributes_over_add(seq![e@], orig.skip(before_src.len() as int), name_is(n));
                assert(with_name(bv, n) == with_name(orig.skip(before_src.len() as int), n));
            }
            vstd::seq_lib::to_multiset_insert(bv, p as int, e@);
            vstd::seq_lib::to_multiset_build(entries_view(src@), e@);
            assert(rv.to_multiset().add(entries_view(src@).to_multiset()) =~= orig.to_multiset());
        }
    }
    proof {
        assert(orig.skip(0) =~= orig);
        assert(entries_view(src@) =~= Seq::<EntryView>::empty());
        assert(entries_view(src@).to_multiset() =~= vstd::multiset::Multiset::empty());
        assert(entries_view(r@).to_multiset() =~= orig.to_multiset());
    }
    r
}

} // verus!

verus! {

/// The positions of the entries that `pattern` matches, best match first.
#[verifier::spinoff_prover]
#[verifier::rlimit(50)]
fn rank_matches(source: &Vec<BrowserEntry>, pattern: &String) -> (r: Vec<usize>)
    ensures
        ranked(r@, names_of(source@), pattern@),
{
    let ghost names = names_of(source@);
    let n = source.len();
    let mut r: Vec<usize> = Vec::new();
    let mut scores: Vec<u32> = Vec::new();
    let mut i: usize = 0;
    while i < n
        invariant
            n == source@.len(),
            names == names_of(source@),
            0 <= i <= n,
            r@.len() == scores@.len(),
            forall|k: int| 0 <= k < r@.len() ==> #[trigger] r@[k] < i && fuzzy_match(pattern@, names[r@[k] as int]) == Some(scores@[k]),
            forall|j: int| 0 <= j < i && fuzzy_match(pattern@, #[trigger] names[j]) is Some ==> r@.contains(j as usize),
            forall|a: int, b: int| 0 <= a < b < r@.len() ==> ranks_before(scores@[a], #[trigger] r@[a], scores@[b], #[trigger] r@[b]),
        decreases n - i,
    {
        assert(names[i as int] == source@[i as int].name@);
        match fuzzy_score(pattern.as_str(), source[i].name.as_str()) {
            Some(s) => {
                let mut p: usize = 0;
                while p < scores.len() && scores[p] >= s
                    invariant
                        0 <= p <= scores@.len(),
                        forall|k: int| 0 <= k < p ==> #[trigger] scores@[k] >= s,
                    decreases scores@.len() - p,
                {
                    p = p + 1;
                }
                let ghost r0 = r@;
                let ghost s0 = scores@;
                proof {
                    assert forall|k: int| p <= k < s0.len() implies #[trigger] s0[k] < s by {
                        if k > p {
                            assert(ranks_before(s0[p as int], r0[p as int], s0[k], r0[k]));
                        }
                    }
                }
                r.insert(p, i);
                scores.insert(p, s);
                proof {
                    assert(r@ =~= r0.insert(p as int, i));
                    assert(scores@ =~= s0.insert(p as int, s));
                    assert forall|k: int| 0 <= k < r@.len() implies #[trigger] r@[k] < i + 1 && fuzzy_match(pattern@, names[r@[k] as int]) == Some(scores@[k]) by {
                        if k < p {
                            assert(r@[k] == r0[k]);
                        } else if k > p {
                            assert(r@[k] == r0[k - 1]);
                        }
                    }
                    assert forall|j: int| 0 <= j < i + 1 && fuzzy_match(pattern@, #[trigger] names[j]) is Some implies r@.contains(j as usize) by {
                        if j < i {
                            let k = choose|k: int| 0 <= k < r0.len() && r0[k] == j as usize;
                            if k < p {
                                assert(r@[k] == r0[k]);
                            } else {
                                assert(r@[k + 1] == r0[k]);
                            }
                        } else {
                            assert(r@[p as int] == i);
                        }
                    }
                    assert forall|a: int, b: int| 0 <= a < b < r@.len() implies ranks_before(scores@[a], #[trigger] r@[a], scores@[b], #[trigger] r@[b]) by {
                        if a == p {
                            assert(scores@[b] == s0[b - 1]);
                        } else if b == p {
                            assert(scores@[a] == s0[a]);
                            assert(r@[a] == r0[a]);
                        } else {
                            let aa = if a < p { a } else { a - 1 };
                            let bb = if b < p { b } else { b - 1 };
                            assert(r@[a] == r0[aa] && scores@[a] == s0[aa]);
                            assert(r@[b] == r0[bb] && scores@[b] == s0[bb]);
                        }
                    }
                }
            },
            None => {},
        }
        i = i + 1;
    }
    proof {
        assert forall|a: int, b: int| 0 <= a < b < r@.len() implies ranks_before(
            fuzzy_match(pattern@, names[r@[a] as int])->0,
            r@[a],
            fuzzy_match(pattern@, names[r@[b] as int])->0,
            r@[b],
        ) by {
            assert(ranks_before(scores@[a], r@[a], scores@[b], r@[b]));
        }
    }
    r
}

} // verus!

verus! {

/// The value of a directory item.
pub struct DirItemView {
    pub name: Seq<char>,
    pub path: Seq<char>,
    pub is_dir: bool,
}

impl View for DirItem {
    type V = DirItemView;

    open spec fn view(&self) -> DirItemView {
        DirItemView { name: self.name@, path: self.path@, is_dir: self.is_dir }
    }
}

pub open spec fn items_view(v: Seq<DirItem>) -> Seq<DirItemView> {
    v.map_values(|i: DirItem| i@)
}

pub open spec fn is_hidden(name: Seq<char>) -> bool {
    starts_with(name, "."@)
}

pub open spec fn is_markdown_name(name: Seq<char>) -> bool {
    ends_with(name, ".md"@) || ends_with(name, ".markdown"@)
}

/// The visible subdirectories of a listing, named with a trailing `/`, in listing order.
pub open spec fn listed_dirs(items: Seq<DirItemView>) -> Seq<EntryView>
    decreases items.len(),
{
    if items.len() == 0 {
        seq![]
    } else {
        let it = items.last();
        let rest = listed_dirs(items.drop_last());
        if !is_hidden(it.name) && it.is_dir {
            rest.push(EntryView { name: it.name + "/"@, path: it.path, is_dir: true })
        } else {
            rest
        }
    }
}

/// The visible markdown files of a listing, in listing order.
pub open spec fn listed_files(items: Seq<DirItemView>) -> Seq<EntryView>
    decreases items.len(),
{
    if items.len() == 0 {
        seq![]
    } else {
        let it = items.last();
        let rest = listed_files(items.drop_last());
        if !is_hidden(it.name) && !it.is_dir && is_markdown_name(it.name) {
            rest.push(EntryView { name: it.name, path: it.path, is_dir: false })
        } else {
            rest
        }
    }
}

/// The `..` entry for a parent directory, if there is one.
pub open spec fn parent_entries(parent: Option<Seq<char>>) -> Seq<EntryView> {
    match parent {
        Some(p) => seq![EntryView { name: ".."@, path: p, is_dir: true }],
        None => seq![],
    }
}

/// `got` is the picker's list for a listing: the parent entry, then the
/// subdirectories sorted by name, then the markdown files sorted by name.
pub open spec fn listing_entries(got: Seq<EntryView>, parent: Option<Seq<char>>, items: Seq<DirItemView>) -> bool {
    let pe = parent_entries(parent);
    let d = listed_dirs(items);
    let f = listed_files(items);
    &&& got.len() == pe.len() + d.len() + f.len()
    &&& got.take(pe.len() as int) == pe
    &&& arranged(got.subrange(pe.len() as int, (pe.len() + d.len()) as int), d)
    &&& arranged(got.skip((pe.len() + d.len()) as int), f)
}

/// Indices `0..n`.
pub open spec fn all_indices(n: nat) -> Seq<usize> {
    Seq::new(n, |i: int| i as usize)
}

pub fn index_range(n: usize) -> (r: Vec<usize>)
    ensures
        r@ == all_indices(n as nat),
{
    let mut r: Vec<usize> = Vec::new();
    let mut k: usize = 0;
    while k < n
        invariant
            0 <= k <= n,
            r@ == all_indices(k as nat),
        decreases n - k,
    {
        r.push(k);
        k = k + 1;
        assert(r@ =~= all_indices(k as nat));
    }
    r
}

/// The indices of `idx` that are positions of a list of length `n`, in order.
pub open spec fn valid_indices(idx: Seq<usize>, n: nat) -> Seq<usize>
    decreases idx.len(),
{
    if idx.len() == 0 {
        seq![]
    } else {
        let rest = valid_indices(idx.drop_last(), n);
        if idx.last() < n {
            rest.push(idx.last())
        } else {
            rest
        }
    }
}

/// What selecting an entry did.
pub enum Entered {
    /// A markdown file was chosen.
    File(String),
    /// The picker moved into the directory now in `current_dir`; its listing is to be loaded.
    Directory,
    /// Nothing is selected.
    Nothing,
}

pub struct BrowserState {
    pub current_dir: String,
    pub entries: Vec<BrowserEntry>,
    pub selected: usize,
    pub scroll_offset: usize,
    pub filter: String,
    pub filtered_indices: Vec<usize>,
    /// Cached recursive .md files from git root
    pub recursive_entries: Vec<BrowserEntry>,
    pub recursive_loaded: bool,
    /// Whether a background collection of recursive files is under way
    pub recursive_pending: bool,
}

impl BrowserState {
    /// The collected markdown files under the repository root.
    pub open spec fn recursive(&self) -> Seq<BrowserEntry> {
        self.recursive_entries@
    }

    /// Whether the recursive collection has arrived.
    pub open spec fn loaded(&self) -> bool {
        self.recursive_loaded
    }

    /// Whether a recursive collection is under way.
    pub open spec fn pending(&self) -> bool {
        self.recursive_pending
    }

    /// The entries that filtered indices refer to: the collected files while a
    /// filter is typed and they have arrived, else the directory entries.
    pub open spec fn active(&self) -> Seq<BrowserEntry> {
        if self.filter@.len() > 0 && self.loaded() {
            self.recursive()
        } else {
            self.entries@
        }
    }

    /// The filtered indices that `rebuild_filter` computes in this state.
    pub open spec fn filter_result(&self, idx: Seq<usize>) -> bool {
        if self.filter@.len() == 0 {
            idx == all_indices(self.entries@.len())
        } else {
            ranked(
                idx,
                names_of(
                    if self.loaded() {
                        self.recursive()
                    } else {
                        self.entries@
                    },
                ),
                self.filter@,
            )
        }
    }

    /// The state of a picker just opened on `dir`, whose directory read gave `listing`.
    pub open spec fn opened_on(&self, dir: Seq<char>, listing: DirListing) -> bool {
        &&& self.current_dir@ == dir
        &&& listing.items matches Some(items) ==> listing_entries(
            entries_view(self.entries@),
            path_parent(dir),
            items_view(items@),
        )
        &&& listing.items is None ==> entries_view(self.entries@) == parent_entries(path_parent(dir))
        &&& self.filter@ == Seq::<char>::empty()
        &&& self.filtered_indices@ == all_indices(self.entries@.len())
        &&& self.selected == 0
        &&& self.scroll_offset == 0
        &&& !self.loaded()
        &&& !self.pending()
    }

    /// A picker on `dir`, whose directory read gave `listing`.
    pub fn new(dir: String, listing: DirListing) -> (s: Self)
        ensures
            s.opened_on(dir@, listing),
    {
        let mut state = BrowserState {
            current_dir: dir,
            entries: Vec::new(),
            selected: 0,
            scroll_offset: 0,
            filter: String::new(),
            filtered_indices: Vec::new(),
            recursive_entries: Vec::new(),
            recursive_loaded: false,
            recursive_pending: false,
        };
        state.load_dir(listing);
        state
    }

    /// Replaces the entries with those of a fresh directory read: the `..` entry
    /// for the parent of `current_dir` (where it has one), subdirectories, then
    /// markdown files, hidden names skipped; clears the filter and the collected
    /// files.
    pub fn load_dir(&mut self, listing: DirListing)
        ensures
            final(self).current_dir == old(self).current_dir,
            listing.items matches Some(items) ==> listing_entries(
                entries_view(final(self).entries@),
                path_parent(old(self).current_dir@),
                items_view(items@),
            ),
            listing.items is None ==> entries_view(final(self).entries@) == parent_entries(path_parent(old(self).current_dir@)),
            final(self).filter@ == Seq::<char>::empty(),
            final(self).filtered_indices@ == all_indices(final(self).entries@.len()),
            listing.items is Some ==> final(self).selected == 0 && final(self).scroll_offset == 0,
            listing.items is None ==> final(self).selected == old(self).selected && final(self).scroll_offset == old(self).scroll_offset,
            !final(self).loaded(),
            !final(self).pending(),
            final(self).recursive() == old(self).recursive(),
    {
        self.entries = Vec::new();
        self.filter = String::new();
        self.recursive_loaded = false;
        self.recursive_pending = false;
        let ghost pe = parent_entries(path_parent(self.current_dir@));
        match parent_of(self.current_dir.as_str()) {
            Some(parent) => {
                self.entries.push(BrowserEntry { name: "..".to_owned(), path: parent, is_dir: true });
            },
            None => {},
        }
        assert(entries_view(self.entries@) =~= pe);
        match listing.items {
            None => {
                self.rebuild_filter();
            },
            Some(items) => {
                let (dirs, files) = split_listing(&items);
                let dirs = sort_by_name(dirs);
                let files = sort_by_name(files);
                let ghost dv = entries_view(dirs@);
                let ghost fv = entries_view(files@);
                let mut dirs = dirs;
                let mut files = files;
                self.entries.append(&mut dirs);
                self.entries.append(&mut files);
                proof {
                    let ev = entries_view(self.entries@);
                    assert(ev =~= pe + dv + fv);
                    assert(ev.take(pe.len() as int) =~= pe);
                    assert(ev.subrange(pe.len() as int, (pe.len() + dv.len()) as int) =~= dv);
                    assert(ev.skip((pe.len() + dv.len()) as int) =~= fv);
                    assert(dv.len() == listed_dirs(items_view(items@)).len()) by {
                        vstd::seq_lib::to_multiset_len(dv);
                        vstd::seq_lib::to_multiset_len(listed_dirs(items_view(items@)));
                    }
                    assert(fv.len() == listed_files(items_view(items@)).len()) by {
                        vstd::seq_lib::to_multiset_len(fv);
                        vstd::seq_lib::to_multiset_len(listed_files(items_view(items@)));
                    }
                }
                self.rebuild_filter();
                self.selected = 0;
                self.scroll_offset = 0;
            },
        }
    }

    /// Whether recursive file collection is still in progress.
    pub fn recursive_loading(&self) -> (r: bool)
        ensures
            r == self.pending(),
    {
        self.recursive_pending
    }

    /// Decides whether to start collecting the markdown files under the repository
    /// root: `true` (and marks the collection under way) unless they have already
    /// arrived or are being collected.
    pub fn preload_recursive(&mut self) -> (start: bool)
        ensures
            start == !(old(self).loaded() || old(self).pending()),
            final(self).pending() == (old(self).pending() || start),
            final(self).loaded() == old(self).loaded(),
            final(self).recursive() == old(self).recursive(),
            final(self).entries == old(self).entries,
            final(self).filter == old(self).filter,
            final(self).filtered_indices == old(self).filtered_indices,
            final(self).selected == old(self).selected,
            final(self).scroll_offset == old(self).scroll_offset,
            final(self).current_dir == old(self).current_dir,
    {
        if self.recursive_loaded || self.recursive_pending {
            return false;
        }
        self.recursive_pending = true;
        true
    }

    /// Takes the result of the background collection, if it has arrived; returns
    /// true if new data arrived (and re-filters when a filter is typed).
    pub fn poll_recursive(&mut self, arrived: Option<Vec<BrowserEntry>>) -> (r: bool)
        ensures
            r == (old(self).pending() && arrived is Some),
            r ==> final(self).recursive() == arrived->0@ && final(self).loaded() && !final(self).pending(),
            r && old(self).filter@.len() > 0 ==> final(self).filter_result(final(self).filtered_indices@),
            r && old(self).filter@.len() == 0 ==> final(self).filtered_indices == old(self).filtered_indices,
            !r ==> *final(self) == *old(self),
            final(self).entries == old(self).entries,
            final(self).filter == old(self).filter,
            final(self).selected == old(self).selected,
            final(self).scroll_offset == old(self).scroll_offset,
            final(self).current_dir == old(self).current_dir,
    {
        if self.recursive_pending {
            if let Some(entries) = arrived {
                self.recursive_entries = entries;
                self.recursive_loaded = true;
                self.recursive_pending = false;
                if !self.filter.as_str().is_empty() {
                    self.rebuild_filter();
                }
                return true;
            }
        }
        false
    }

    /// Recomputes the filtered indices: all entries when no filter is typed, else
    /// the fuzzy matches, best first.
    pub fn rebuild_filter(&mut self)
        ensures
            final(self).filter_result(final(self).filtered_indices@),
            final(self).entries == old(self).entries,
            final(self).filter == old(self).filter,
            final(self).selected == old(self).selected,
            final(self).scroll_offset == old(self).scroll_offset,
            final(self).current_dir == old(self).current_dir,
            final(self).recursive() == old(self).recursive(),
            final(self).loaded() == old(self).loaded(),
            final(self).pending() == old(self).pending(),
    {
        if self.filter.as_str().is_empty() {
            self.filtered_indices = index_range(self.entries.len());
            return;
        }
        if self.recursive_loaded {
            self.filtered_indices = rank_matches(&self.recursive_entries, &self.filter);
        } else {
            self.filtered_indices = rank_matches(&self.entries, &self.filter);
        }
    }
}

/// The visible subdirectories and markdown files of a listing, in listing order.
fn split_listing(items: &Vec<DirItem>) -> (r: (Vec<BrowserEntry>, Vec<BrowserEntry>))
    ensures
        entries_view(r.0@) == listed_dirs(items_view(items@)),
        entries_view(r.1@) == listed_files(items_view(items@)),
{
    let mut dirs: Vec<BrowserEntry> = Vec::new();
    let mut files: Vec<BrowserEntry> = Vec::new();
    let dot = chars_of(".");
    let md = chars_of(".md");
    let markdown = chars_of(".markdown");
    let mut k: usize = 0;
    assert(items_view(items@).take(0) =~= Seq::<DirItemView>::empty());
    while k < items.len()
        invariant
            0 <= k <= items@.len(),
            dot@ == "."@,
            md@ == ".md"@,
            markdown@ == ".markdown"@,
            entries_view(dirs@) == listed_dirs(items_view(items@).take(k as int)),
            entries_view(files@) == listed_files(items_view(items@).take(k as int)),
        decreases items@.len() - k,
    {
        let it = &items[k];
        let name = chars_of(it.name.as_str());
        let hidden = has_prefix(&name, &dot);
        let ghost d0 = dirs@;
        let ghost f0 = files@;
        if !hidden && it.is_dir {
            let mut n = name;
            let slash = chars_of("/");
            crate::text::push_all(&mut n, &slash);
            dirs.push(BrowserEntry { name: string_of(n.as_slice()), path: it.path.clone(), is_dir: true });
        } else if !hidden && !it.is_dir && (has_suffix(&name, &md) || has_suffix(&name, &markdown)) {
            files.push(BrowserEntry { name: it.name.clone(), path: it.path.clone(), is_dir: false });
        }
        proof {
            let iv = items_view(items@);
            assert(iv.take(k + 1).drop_last() =~= iv.take(k as int));
            assert(iv.take(k + 1).last() == it@);
            assert(entries_view(dirs@) =~= listed_dirs(iv.take(k + 1)));
            assert(entries_view(files@) =~= listed_files(iv.take(k + 1)));
        }
        k = k + 1;
    }
    assert(items_view(items@).take(k as int) =~= items_view(items@));
    (dirs, files)
}

} // verus!

verus! {

impl BrowserState {
    pub fn active_source(&self) -> (r: &Vec<BrowserEntry>)
        ensures
            r@ == self.active(),
    {
        if !self.filter.as_str().is_empty() && self.recursive_loaded {
            &self.recursive_entries
        } else {
            &self.entries
        }
    }

    /// The filtered entries with their positions in the active source, in
    /// filtered order (indices past its end are skipped).
    pub fn filtered_entries(&self) -> (r: Vec<(usize, &BrowserEntry)>)
        ensures
            r@.len() == valid_indices(self.filtered_indices@, self.active().len()).len(),
            forall|k: int| 0 <= k < r@.len() ==> {
                let i = #[trigger] valid_indices(self.filtered_indices@, self.active().len())[k];
                r@[k].0 == i && *r@[k].1 == self.active()[i as int]
            },
    {
        let source = self.active_source();
        let ghost n = source@.len();
        let mut r: Vec<(usize, &BrowserEntry)> = Vec::new();
        let mut k: usize = 0;
        assert(self.filtered_indices@.take(0) =~= Seq::<usize>::empty());
        while k < self.filtered_indices.len()
            invariant
                0 <= k <= self.filtered_indices@.len(),
                source@ == self.active(),
                n == source@.len(),
                r@.len() == valid_indices(self.filtered_indices@.take(k as int), n).len(),
                forall|j: int| 0 <= j < r@.len() ==> {
                    let i = #[trigger] valid_indices(self.filtered_indices@.take(k as int), n)[j];
                    r@[j].0 == i && *r@[j].1 == source@[i as int]
                },
            decreases self.filtered_indices@.len() - k,
        {
            let i = self.filtered_indices[k];
            let ghost before = valid_indices(self.filtered_indices@.take(k as int), n);
            assert(self.filtered_indices@.take(k + 1).drop_last() =~= self.filtered_indices@.take(k as int));
            if i < source.len() {
                r.push((i, &source[i]));
            }
            k = k + 1;
        }
        assert(self.filtered_indices@.take(k as int) =~= self.filtered_indices@);
        r
    }

    pub fn select_down(&mut self)
        requires
            old(self).filtered_indices@.len() > 0 ==> old(self).selected < usize::MAX,
        ensures
            final(self).selected == (if old(self).filtered_indices@.len() == 0 {
                old(self).selected as int
            } else if old(self).selected + 1 < old(self).filtered_indices@.len() - 1 {
                old(self).selected + 1
            } else {
                old(self).filtered_indices@.len() - 1
            }),
            *final(self) == (BrowserState { selected: final(self).selected, ..*old(self) }),
    {
        if self.filtered_indices.len() != 0 {
            let next = self.selected + 1;
            let last = self.filtered_indices.len() - 1;
            self.selected = if next < last {
                next
            } else {
                last
            };
        }
    }

    pub fn select_up(&mut self)
        ensures
            final(self).selected == (if old(self).selected > 0 {
                old(self).selected - 1
            } else {
                0
            }),
            *final(self) == (BrowserState { selected: final(self).selected, ..*old(self) }),
    {
        self.selected = self.selected.saturating_sub(1);
    }

    /// Opens the selected entry: a markdown file is returned; a directory
    /// becomes `current_dir` (its listing is then to be loaded).
    pub fn enter_selected(&mut self) -> (r: Entered)
        ensures
            ({
                let sel = old(self).selected as int;
                let idx = old(self).filtered_indices@;
                let src = old(self).active();
                if sel < idx.len() && idx[sel] < src.len() {
                    let e = src[idx[sel] as int];
                    if e.is_dir {
                        r is Directory && final(self).current_dir@ == e.path@
                            && *final(self) == (BrowserState { current_dir: final(self).current_dir, ..*old(self) })
                    } else {
                        r matches Entered::File(p) && p@ == e.path@ && *final(self) == *old(self)
                    }
                } else {
                    r is Nothing && *final(self) == *old(self)
                }
            }),
    {
        if self.selected >= self.filtered_indices.len() {
            return Entered::Nothing;
        }
        let real_index = self.filtered_indices[self.selected];
        let source = self.active_source();
        if real_index >= source.len() {
            return Entered::Nothing;
        }
        let is_dir = source[real_index].is_dir;
        let path = source[real_index].path.clone();
        if is_dir {
            self.current_dir = path;
            Entered::Directory
        } else {
            Entered::File(path)
        }
    }

    /// Reloads the directory from a fresh read, keeping the filter and the
    /// selection: the selected entry where it is still listed (matched by name),
    /// else the old position, clamped to the new list.
    pub fn refresh(&mut self, listing: DirListing)
        ensures
            final(self).current_dir == old(self).current_dir,
            listing.items matches Some(items) ==> listing_entries(
                entries_view(final(self).entries@),
                path_parent(old(self).current_dir@),
                items_view(items@),
            ),
            listing.items is None ==> entries_view(final(self).entries@) == parent_entries(path_parent(old(self).current_dir@)),
            final(self).filter@ == old(self).filter@,
            !final(self).loaded(),
            !final(self).pending(),
            final(self).filter_result(final(self).filtered_indices@),
            final(self).scroll_offset == (if listing.items is Some { 0 } else { old(self).scroll_offset }),
            ({
                let sel = old(self).selected as int;
                let idx = old(self).filtered_indices@;
                let src = old(self).active();
                let n = final(self).filtered_indices@.len();
                if sel < idx.len() && idx[sel] < src.len() {
                    let name = src[idx[sel] as int].name@;
                    match first_named(final(self).filtered_indices@, final(self).entries@, name) {
                        Some(pos) => final(self).selected == pos,
                        None => final(self).selected == (if n == 0 { 0 } else if sel < n - 1 { sel } else { n - 1 }),
                    }
                } else {
                    final(self).selected == (if listing.items is Some { 0 } else { sel })
                }
            }),
    {
        let old_filter = self.filter.clone();
        let old_selected = self.selected;
        let mut selected_name: Option<String> = None;
        if self.selected < self.filtered_indices.len() {
            let i = self.filtered_indices[self.selected];
            let source = self.active_source();
            if i < source.len() {
                selected_name = Some(source[i].name.clone());
            }
        }
        self.load_dir(listing);
        self.filter = old_filter;
        self.rebuild_filter();
        if let Some(name) = selected_name {
            match position_named(&self.filtered_indices, &self.entries, &name) {
                Some(pos) => self.selected = pos,
                None => {
                    let n = self.filtered_indices.len();
                    let last = if n > 0 {
                        n - 1
                    } else {
                        0
                    };
                    self.selected = if old_selected > last {
                        last
                    } else {
                        old_selected
                    };
                },
            }
        }
    }

    /// Scrolls the list so the selection is within `visible_height` rows.
    pub fn adjust_scroll(&mut self, visible_height: usize)
        requires
            scroll_fits(old(self).selected, old(self).scroll_offset, visible_height),
        ensures
            final(self).scroll_offset == (if old(self).selected < old(self).scroll_offset {
                old(self).selected as int
            } else if old(self).selected >= old(self).scroll_offset + visible_height {
                old(self).selected - visible_height + 1
            } else {
                old(self).scroll_offset as int
            }),
            *final(self) == (BrowserState { scroll_offset: final(self).scroll_offset, ..*old(self) }),
            visible_height >= 1 ==> final(self).scroll_offset <= final(self).selected < final(self).scroll_offset
                + visible_height,
    {
        if self.selected < self.scroll_offset {
            self.scroll_offset = self.selected;
        } else if self.selected >= self.scroll_offset + visible_height {
            self.scroll_offset = self.selected - visible_height + 1;
        }
    }
}

/// Whether scrolling a list to keep `selected` within `h` rows from `scroll` stays within `usize`.
pub open spec fn scroll_fits(selected: usize, scroll: usize, h: usize) -> bool {
    &&& selected >= scroll ==> scroll + h <= usize::MAX
    &&& selected >= scroll + h ==> selected - h + 1 <= usize::MAX
}

/// The first position in `idx` whose entry in `src` is named `name`.
pub open spec fn first_named(idx: Seq<usize>, src: Seq<BrowserEntry>, name: Seq<char>) -> Option<usize> {
    if exists|k: int| 0 <= k < idx.len() && named_at(idx, src, name, k) {
        let k = choose|k: int| 0 <= k < idx.len() && named_at(idx, src, name, k) && forall|j: int| 0 <= j < k ==> !named_at(idx, src, name, j);
        Some(k as usize)
    } else {
        None
    }
}

pub open spec fn named_at(idx: Seq<usize>, src: Seq<BrowserEntry>, name: Seq<char>, k: int) -> bool {
    idx[k] < src.len() && src[idx[k] as int].name@ == name
}

fn position_named(idx: &Vec<usize>, src: &Vec<BrowserEntry>, name: &String) -> (r: Option<usize>)
    ensures
        r == first_named(idx@, src@, name@),
{
    let mut k: usize = 0;
    while k < idx.len()
        invariant
            0 <= k <= idx@.len(),
            forall|j: int| 0 <= j < k ==> !named_at(idx@, src@, name@, j),
        decreases idx@.len() - k,
    {
        let i = idx[k];
        if i < src.len() && src[i].name == *name {
            proof {
                let c = choose|c: int| 0 <= c < idx@.len() && named_at(idx@, src@, name@, c) && forall|j: int| 0 <= j < c ==> !named_at(idx@, src@, name@, j);
                assert(named_at(idx@, src@, name@, k as int));
                if c < k {
                } else if c > k {
                    assert(!named_at(idx@, src@, name@, k as int));
                }
            }
            return Some(k);
        }
        k = k + 1;
    }
    None
}

} // verus!

verus! {

/// `s` without white space at its start.
pub open spec fn trim_start(s: Seq<char>) -> Seq<char>
    decreases s.len(),
{
    if s.len() > 0 && is_white_space(s[0]) {
        trim_start(s.skip(1))
    } else {
        s
    }
}

/// `s` without white space at its end.
pub open spec fn trim_end(s: Seq<char>) -> Seq<char>
    decreases s.len(),
{
    if s.len() > 0 && is_white_space(s.last()) {
        trim_end(s.drop_last())
    } else {
        s
    }
}

/// The repository root that `git rev-parse --show-toplevel` printed as `out`:
/// the output without white space around it.
pub fn git_root_from_output(out: &str) -> (r: String)
    ensures
        r@ == trim_end(trim_start(out@)),
{
    let v = chars_of(out);
    let n = v.len();
    let mut i: usize = 0;
    assert(v@.skip(0) =~= v@);
    while i < n && white_space(v[i])
        invariant
            n == v@.len(),
            0 <= i <= n,
            trim_start(v@) == trim_start(v@.skip(i as int)),
        decreases n - i,
    {
        assert(v@.skip(i as int).skip(1) =~= v@.skip(i + 1));
        i = i + 1;
    }
    assert(trim_start(v@.skip(i as int)) == v@.skip(i as int));
    let mut j = n;
    assert(v@.skip(i as int) =~= v@.subrange(i as int, n as int));
    while j > i && white_space(v[j - 1])
        invariant
            n == v@.len(),
            i <= j <= n,
            trim_end(v@.skip(i as int)) == trim_end(v@.subrange(i as int, j as int)),
        decreases j,
    {
        assert(v@.subrange(i as int, j as int).drop_last() =~= v@.subrange(i as int, j - 1));
        j = j - 1;
    }
    assert(v@.skip(i as int) =~= v@.subrange(i as int, n as int));
    let w = crate::text::sub_chars(&v, i, j);
    string_of(w.as_slice())
}

/// What collecting markdown files does with a directory item.
pub enum WalkStep {
    /// A hidden item, or a file that is not markdown.
    Skip,
    /// A directory to look into.
    Descend,
    /// A markdown file to collect.
    Collect,
}

/// The step for an item named `name`: hidden items are skipped, directories
/// descended into, markdown files collected.
pub open spec fn spec_walk_step(name: Seq<char>, is_dir: bool) -> WalkStep {
    if is_hidden(name) {
        WalkStep::Skip
    } else if is_dir {
        WalkStep::Descend
    } else if is_markdown_name(name) {
        WalkStep::Collect
    } else {
        WalkStep::Skip
    }
}

pub fn walk_step(name: &str, is_dir: bool) -> (r: WalkStep)
    ensures
        r == spec_walk_step(name@, is_dir),
{
    let v = chars_of(name);
    if has_prefix(&v, &chars_of(".")) {
        WalkStep::Skip
    } else if is_dir {
        WalkStep::Descend
    } else if has_suffix(&v, &chars_of(".md")) || has_suffix(&v, &chars_of(".markdown")) {
        WalkStep::Collect
    } else {
        WalkStep::Skip
    }
}

/// The files that `git ls-files` printed, one path relative to `root` per line:
/// each non-empty line, with its path under `root`, in output order.
pub open spec fn git_listed(ls: Seq<Seq<char>>, root: Seq<char>) -> Seq<EntryView>
    decreases ls.len(),
{
    if ls.len() == 0 {
        seq![]
    } else {
        let rest = git_listed(ls.drop_last(), root);
        if ls.last().len() > 0 {
            rest.push(EntryView { name: ls.last(), path: crate::config::join_rel(root, ls.last()), is_dir: false })
        } else {
            rest
        }
    }
}

/// The picker's entries for the markdown files `git ls-files` printed as `out`
/// under `root`: named by relative path and sorted by it.
pub fn git_listed_entries(out: &str, root: &str) -> (r: Vec<BrowserEntry>)
    ensures
        arranged(entries_view(r@), git_listed(lines(out@), root@)),
{
    let v = chars_of(out);
    let ls = split_lines(&v);
    let ghost lv = views_of(ls@);
    let mut found: Vec<BrowserEntry> = Vec::new();
    let mut k: usize = 0;
    while k < ls.len()
        invariant
            0 <= k <= ls@.len(),
            lv == views_of(ls@),
            lv == lines(out@),
            entries_view(found@) == git_listed(lv.take(k as int), root@),
        decreases ls@.len() - k,
    {
        proof {
            assert(lv.take(k + 1).drop_last() =~= lv.take(k as int));
            assert(lv.take(k + 1).last() == ls@[k as int]@);
        }
        if ls[k].len() > 0 {
            let rel = string_of(ls[k].as_slice());
            let path = crate::config::join_path(root, rel.as_str());
            let ghost before = entries_view(found@);
            found.push(BrowserEntry { name: rel, path, is_dir: false });
            assert(entries_view(found@) =~= before.push(EntryView { name: ls@[k as int]@, path: path@, is_dir: false }));
        }
        k = k + 1;
    }
    assert(lv.take(k as int) =~= lv);
    sort_by_name(found)
}

} // verus!

verus! {

/// `s` with its last character removed, if it has one.
pub open spec fn drop_last_char(s: Seq<char>) -> Seq<char> {
    if s.len() > 0 {
        s.drop_last()
    } else {
        s
    }
}

/// The string `s` followed by `c`.
pub fn pushed(s: &str, c: char) -> (r: String)
    ensures
        r@ == s@.push(c),
{
    let mut v = chars_of(s);
    v.push(c);
    string_of(v.as_slice())
}

/// The string `s` without its last character.
pub fn popped(s: &str) -> (r: String)
    ensures
        r@ == drop_last_char(s@),
{
    let mut v = chars_of(s);
    if v.len() > 0 {
        v.pop();
    }
    string_of(v.as_slice())
}

impl BrowserState {
    /// Clears the filter and re-filters.
    pub fn clear_filter(&mut self)
        ensures
            final(self).filter@ == Seq::<char>::empty(),
            final(self).filtered_indices@ == all_indices(final(self).entries@.len()),
            final(self).entries == old(self).entries,
            final(self).selected == old(self).selected,
            final(self).scroll_offset == old(self).scroll_offset,
            final(self).current_dir == old(self).current_dir,
            final(self).recursive() == old(self).recursive(),
            final(self).loaded() == old(self).loaded(),
            final(self).pending() == old(self).pending(),
    {
        self.filter = String::new();
        self.rebuild_filter();
    }

    /// Types `c` into the filter: re-filters and selects the first entry.
    pub fn push_filter(&mut self, c: char)
        ensures
            final(self).filter@ == old(self).filter@.push(c),
            final(self).filter_result(final(self).filtered_indices@),
            final(self).selected == 0,
            final(self).scroll_offset == 0,
            final(self).entries == old(self).entries,
            final(self).current_dir == old(self).current_dir,
            final(self).recursive() == old(self).recursive(),
            final(self).loaded() == old(self).loaded(),
            final(self).pending() == old(self).pending(),
    {
        self.filter = pushed(self.filter.as_str(), c);
        self.rebuild_filter();
        self.selected = 0;
        self.scroll_offset = 0;
    }

    /// Deletes the filter's last character: re-filters and selects the first entry.
    pub fn pop_filter(&mut self)
        ensures
            final(self).filter@ == drop_last_char(old(self).filter@),
            final(self).filter_result(final(self).filtered_indices@),
            final(self).selected == 0,
            final(self).scroll_offset == 0,
            final(self).entries == old(self).entries,
            final(self).current_dir == old(self).current_dir,
            final(self).recursive() == old(self).recursive(),
            final(self).loaded() == old(self).loaded(),
            final(self).pending() == old(self).pending(),
    {
        self.filter = popped(self.filter.as_str());
        self.rebuild_filter();
        self.selected = 0;
        self.scroll_offset = 0;
    }

    /// Selects the first entry and scrolls to the top.
    pub fn select_first(&mut self)
        ensures
            *final(self) == (BrowserState { selected: 0, scroll_offset: 0, ..*old(self) }),
    {
        self.selected = 0;
        self.scroll_offset = 0;
    }

    /// Selects the last entry, keeping it within `h` rows.
    pub fn select_last(&mut self, h: usize)
        requires
            scroll_fits(
                if old(self).filtered_indices@.len() > 0 { (old(self).filtered_indices@.len() - 1) as usize } else { old(self).selected },
                old(self).scroll_offset,
                h,
            ),
        ensures
            ({
                let n = old(self).filtered_indices@.len();
                let sel = if n > 0 { (n - 1) as usize } else { old(self).selected };
                let scroll = if sel < old(self).scroll_offset {
                    sel
                } else if sel >= old(self).scroll_offset + h {
                    (sel - h + 1) as usize
                } else {
                    old(self).scroll_offset
                };
                *final(self) == (BrowserState { selected: sel, scroll_offset: scroll, ..*old(self) })
            }),
    {
        let n = self.filtered_indices.len();
        if n > 0 {
            self.selected = n - 1;
        }
        self.adjust_scroll(h);
    }

    /// Moves the selection `h` entries down (to the last at most), keeping it within `h` rows.
    pub fn page_down(&mut self, h: usize)
        requires
            old(self).filtered_indices@.len() > 0 ==> old(self).selected + h <= usize::MAX,
            scroll_fits(
                if old(self).filtered_indices@.len() > 0 {
                    if old(self).selected + h < old(self).filtered_indices@.len() - 1 {
                        (old(self).selected + h) as usize
                    } else {
                        (old(self).filtered_indices@.len() - 1) as usize
                    }
                } else {
                    old(self).selected
                },
                old(self).scroll_offset,
                h,
            ),
        ensures
            ({
                let n = old(self).filtered_indices@.len();
                let sel: usize = if n > 0 {
                    if old(self).selected + h < n - 1 { (old(self).selected + h) as usize } else { (n - 1) as usize }
                } else {
                    old(self).selected
                };
                let scroll = if sel < old(self).scroll_offset {
                    sel
                } else if sel >= old(self).scroll_offset + h {
                    (sel - h + 1) as usize
                } else {
                    old(self).scroll_offset
                };
                *final(self) == (BrowserState { selected: sel, scroll_offset: scroll, ..*old(self) })
            }),
    {
        let n = self.filtered_indices.len();
        if n > 0 {
            let next = self.selected + h;
            self.selected = if next < n - 1 {
                next
            } else {
                n - 1
            };
        }
        self.adjust_scroll(h);
    }

    /// Moves the selection `h` entries up (to the first at least), keeping it within `h` rows.
    pub fn page_up(&mut self, h: usize)
        requires
            scroll_fits(if old(self).selected >= h { (old(self).selected - h) as usize } else { 0 }, old(self).scroll_offset, h),
        ensures
            ({
                let sel: usize = if old(self).selected >= h { (old(self).selected - h) as usize } else { 0 };
                let scroll = if sel < old(self).scroll_offset {
                    sel
                } else if sel >= old(self).scroll_offset + h {
                    (sel - h + 1) as usize
                } else {
                    old(self).scroll_offset
                };
                *final(self) == (BrowserState { selected: sel, scroll_offset: scroll, ..*old(self) })
            }),
    {
        self.selected = self.selected.saturating_sub(h);
        self.adjust_scroll(h);
    }
}

/// The rows the file picker's list has on a terminal `term_height` rows high:
/// three quarters of it, less the border and the filter and hint rows.
pub fn picker_list_height(term_height: u16) -> (h: usize)
    ensures
        h == (if term_height as int * 3 / 4 >= 4 { term_height as int * 3 / 4 - 4 } else { 0 }),
{
    let t = term_height as usize * 3 / 4;
    t.saturating_sub(4)
}

/// Two lists that both rank the matches of `pattern` in `names` are the same
/// list: which entries match, and in what order, is fixed by the names and the
/// pattern.
pub proof fn lemma_ranked_unique(x: Seq<usize>, y: Seq<usize>, names: Seq<Seq<char>>, pattern: Seq<char>)
    requires
        ranked(x, names, pattern),
        ranked(y, names, pattern),
    ensures
        x == y,
{
    lemma_sorted_same_contents(x, y, names, pattern);
}

/// Strictly ranked lists with the same members are equal.
proof fn lemma_sorted_same_contents(x: Seq<usize>, y: Seq<usize>, names: Seq<Seq<char>>, pattern: Seq<char>)
    requires
        ranked_order(x, names, pattern),
        ranked_order(y, names, pattern),
        forall|e: usize| x.contains(e) <==> y.contains(e),
    ensures
        x == y,
    decreases x.len(),
{
    if x.len() == 0 {
        if y.len() > 0 {
            assert(y.contains(y[0]));
        }
        assert(x =~= y);
    } else {
        assert(x.contains(x[0]));
        assert(y.len() > 0);
        assert(y.contains(y[0]));
        let j = choose|j: int| 0 <= j < y.len() && y[j] == x[0];
        let i = choose|i: int| 0 <= i < x.len() && x[i] == y[0];
        if x[0] != y[0] {
            assert(j != 0);
            assert(i != 0);
            assert(rank_lt(names, pattern, y[0], y[j]));
            assert(rank_lt(names, pattern, x[0], x[i]));
        }
        let xr = x.drop_first();
        let yr = y.drop_first();
        assert forall|e: usize| xr.contains(e) <==> yr.contains(e) by {
            if xr.contains(e) {
                let k = choose|k: int| 0 <= k < xr.len() && xr[k] == e;
                assert(x[k + 1] == e);
                assert(rank_lt(names, pattern, x[0], x[k + 1]));
                assert(x.contains(e));
                let m = choose|m: int| 0 <= m < y.len() && y[m] == e;
                if m == 0 {
                    assert(e == x[0]);
                } else {
                    assert(yr[m - 1] == e);
                }
            }
            if yr.contains(e) {
                let k = choose|k: int| 0 <= k < yr.len() && yr[k] == e;
                assert(y[k + 1] == e);
                assert(rank_lt(names, pattern, y[0], y[k + 1]));
                assert(y.contains(e));
                let m = choose|m: int| 0 <= m < x.len() && x[m] == e;
                if m == 0 {
                    assert(e == y[0]);
                } else {
                    assert(xr[m - 1] == e);
                }
            }
        }
        assert forall|a: int, b: int| 0 <= a < b < xr.len() implies rank_lt(names, pattern, xr[a], xr[b]) by {
            assert(xr[a] == x[a + 1] && xr[b] == x[b + 1]);
        }
        assert forall|a: int, b: int| 0 <= a < b < yr.len() implies rank_lt(names, pattern, yr[a], yr[b]) by {
            assert(yr[a] == y[a + 1] && yr[b] == y[b + 1]);
        }
        lemma_sorted_same_contents(xr, yr, names, pattern);
        assert(x =~= seq![x[0]] + xr);
        assert(y =~= seq![y[0]] + yr);
    }
}

/// Entry `a` ranks before entry `b` for `pattern`.
pub open spec fn rank_lt(names: Seq<Seq<char>>, pattern: Seq<char>, a: usize, b: usize) -> bool {
    ranks_before(fuzzy_match(pattern, names[a as int])->0, a, fuzzy_match(pattern, names[b as int])->0, b)
}

/// Every entry of `idx` ranks before every later one.
pub open spec fn ranked_order(idx: Seq<usize>, names: Seq<Seq<char>>, pattern: Seq<char>) -> bool {
    forall|a: int, b: int| 0 <= a < b < idx.len() ==> rank_lt(names, pattern, #[trigger] idx[a], #[trigger] idx[b])
}

/// Typing a character into the picker's filter and erasing it gives back the
/// filter and the list of matches as they were. Here `typed` is the picker after
/// `push_filter(c)` on `before`, and `erased` the picker after `pop_filter` on
/// `typed`, as their contracts describe them.
pub proof fn lemma_type_then_erase(before: BrowserState, typed: BrowserState, erased: BrowserState, c: char)
    requires
        before.filter_result(before.filtered_indices@),
        typed.filter@ == before.filter@.push(c),
        typed.filter_result(typed.filtered_indices@),
        typed.entries == before.entries,
        typed.recursive() == before.recursive(),
        typed.loaded() == before.loaded(),
        erased.filter@ == drop_last_char(typed.filter@),
        erased.filter_result(erased.filtered_indices@),
        erased.entries == typed.entries,
        erased.recursive() == typed.recursive(),
        erased.loaded() == typed.loaded(),
    ensures
        erased.filter@ == before.filter@,
        erased.filtered_indices@ == before.filtered_indices@,
{
    assert(before.filter@.push(c).drop_last() =~= before.filter@);
    if before.filter@.len() > 0 {
        lemma_ranked_unique(
            erased.filtered_indices@,
            before.filtered_indices@,
            names_of(if before.loaded() { before.recursive() } else { before.entries@ }),
            before.filter@,
        );
    }
}

} // verus!
