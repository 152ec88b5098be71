//! Reader tabs and the application state: cursor and scrolling, folding,
//! task navigation and toggling, search, tabs and the theme picker.
use vstd::prelude::*;
use crate::browser::{BrowserState, DirListing};
use crate::markdown::{
    StyledLine, StyledLineView, blank_line, lines_view, renders, spec_parse_markdown, strings_view,
    trim_blank, try_parse_markdown,
};
use crate::style::SpanView;
use crate::text::{
    lowercase, to_lowercase, chars_of, contains_chars, contains_seq, join_lines, join_with_newlines, lines, replace_first,
    replace_first_chars, split_lines, string_of, views_of, occurs_at, first_index, no_cr, no_newline,
    plain_lines, final_newline,
};
use crate::theme::Theme;

verus! {

/// No string occurs twice.
pub open spec fn distinct_strings(v: Seq<String>) -> bool {
    forall|a: int, b: int| 0 <= a < b < v.len() ==> v[a]@ != v[b]@
}

/// The position of the first string equal to `s`.
pub(crate) fn index_of(v: &Vec<String>, s: &String) -> (r: Option<usize>)
    ensures
        match r {
            Some(k) => k < v@.len() && v@[k as int]@ == s@ && forall|j: int| 0 <= j < k ==> v@[j]@ != s@,
            None => !strings_view(v@).contains(s@),
        },
{
    let mut k: usize = 0;
    while k < v.len()
        invariant
            0 <= k <= v@.len(),
            forall|j: int| 0 <= j < k ==> v@[j]@ != s@,
        decreases v@.len() - k,
    {
        if v[k] == *s {
            return Some(k);
        }
        k = k + 1;
    }
    assert forall|j: int| 0 <= j < v@.len() implies strings_view(v@)[j] != s@ by {
    }
    None
}

/// Blank line right after the last heading or a filtered task line; every
/// heading is shown, and a blank line separates each section.
pub open spec fn task_filter_step(res: Seq<StyledLineView>, sl: StyledLineView) -> Seq<StyledLineView> {
    if sl.is_heading {
        let r1 = if res.len() > 0 && !res.last().is_blank {
            res.push(blank_line())
        } else {
            res
        };
        r1.push(sl).push(blank_line())
    } else if sl.source_line is Some {
        if is_unchecked_task(sl) {
            res.push(sl)
        } else {
            res
        }
    } else {
        res
    }
}

/// A task line whose marker span (its first span) shows `[ ]`.
pub open spec fn is_unchecked_task(sl: StyledLineView) -> bool {
    sl.line.len() > 0 && contains_seq(sl.line[0].content, "[ ]"@)
}

pub open spec fn task_filter_fold(ls: Seq<StyledLineView>) -> Seq<StyledLineView>
    decreases ls.len(),
{
    if ls.len() == 0 {
        seq![]
    } else {
        task_filter_step(task_filter_fold(ls.drop_last()), ls.last())
    }
}

/// The lines of the task filter view.
pub open spec fn spec_filter_task_lines(ls: Seq<StyledLineView>) -> Seq<StyledLineView> {
    trim_blank(task_filter_fold(ls))
}

/// Filter parsed lines to only unchecked tasks and their heading context.
/// All headings are shown. A blank line separates each section.
pub fn filter_task_lines(lines: Vec<StyledLine>) -> (r: Vec<StyledLine>)
    ensures
        lines_view(r@) == spec_filter_task_lines(lines_view(lines@)),
{
    let ghost all = lines_view(lines@);
    let mut result: Vec<StyledLine> = Vec::new();
    let unchecked = chars_of("[ ]");
    let mut k: usize = 0;
    assert(all.take(0) =~= Seq::<StyledLineView>::empty());
    assert(lines_view(result@) =~= Seq::<StyledLineView>::empty());
    while k < lines.len()
        invariant
            0 <= k <= lines@.len(),
            all == lines_view(lines@),
            unchecked@ == "[ ]"@,
            lines_view(result@) == task_filter_fold(all.take(k as int)),
        decreases lines@.len() - k,
    {
        let sl = &lines[k];
        let ghost r0 = lines_view(result@);
        if sl.is_heading {
            if result.len() > 0 && !result[result.len() - 1].is_blank {
                result.push(StyledLine::blank());
            }
            result.push(sl.copy());
            result.push(StyledLine::blank());
        } else if sl.source_line.is_some() {
            let is_unchecked = if sl.line.spans.len() > 0 {
                let first = chars_of(sl.line.spans[0].content.as_str());
                contains_chars(&first, &unchecked)
            } else {
                false
            };
            if is_unchecked {
                result.push(sl.copy());
            }
        }
        proof {
            assert(all.take(k + 1).drop_last() =~= all.take(k as int));
            assert(all.take(k + 1).last() == sl@);
            assert(lines_view(result@) =~= task_filter_step(r0, sl@));
        }
        k = k + 1;
    }
    assert(all.take(k as int) =~= all);
    crate::markdown::trim_lines(&mut result);
    result
}

} // verus!

verus! {

/// The display positions the lines `ls` show with the headings in `folded`
/// collapsed: a folded heading hides what follows it up to the next heading of
/// its level or above, except one blank line.
pub open spec fn visible_step(
    acc: (Seq<usize>, Option<u8>, bool),
    i: int,
    sl: StyledLineView,
    folded: Set<Seq<char>>,
) -> (Seq<usize>, Option<u8>, bool) {
    let (idx, skip, kept) = acc;
    match sl.heading_level {
        Some(level) => if skip is Some && level > skip->0 {
            acc
        } else {
            let idx2 = idx.push(i as usize);
            let (skip1, kept1) = if skip is Some {
                (None::<u8>, false)
            } else {
                (skip, kept)
            };
            match sl.heading_text {
                Some(t) => if folded.contains(t) {
                    (idx2, Some(level), false)
                } else {
                    (idx2, skip1, kept1)
                },
                None => (idx2, skip1, kept1),
            }
        },
        None => if skip is Some {
            if sl.is_blank && !kept {
                (idx.push(i as usize), skip, true)
            } else {
                acc
            }
        } else {
            (idx.push(i as usize), skip, kept)
        },
    }
}

pub open spec fn visible_fold(ls: Seq<StyledLineView>, folded: Set<Seq<char>>) -> (Seq<usize>, Option<u8>, bool)
    decreases ls.len(),
{
    if ls.len() == 0 {
        (seq![], None, false)
    } else {
        visible_step(visible_fold(ls.drop_last(), folded), ls.len() - 1, ls.last(), folded)
    }
}

pub open spec fn spec_visible(ls: Seq<StyledLineView>, folded: Set<Seq<char>>) -> Seq<usize> {
    visible_fold(ls, folded).0
}

/// With nothing folded every line is shown.
pub proof fn lemma_nothing_folded_shows_all(ls: Seq<StyledLineView>)
    ensures
        spec_visible(ls, Set::empty()) == crate::browser::all_indices(ls.len()),
        visible_fold(ls, Set::empty()).1 is None,
    decreases ls.len(),
{
    if ls.len() > 0 {
        lemma_nothing_folded_shows_all(ls.drop_last());
        assert(spec_visible(ls, Set::empty()) =~= crate::browser::all_indices(ls.len()));
    }
}

/// Shown positions are lines of `ls`, in increasing order.
pub proof fn lemma_visible_increasing(ls: Seq<StyledLineView>, folded: Set<Seq<char>>)
    requires
        ls.len() <= usize::MAX,
    ensures
        forall|k: int| 0 <= k < spec_visible(ls, folded).len() ==> #[trigger] spec_visible(ls, folded)[k] < ls.len(),
        forall|a: int, b: int| 0 <= a < b < spec_visible(ls, folded).len() ==> spec_visible(ls, folded)[a] < spec_visible(ls, folded)[b],
    decreases ls.len(),
{
    if ls.len() > 0 {
        lemma_visible_increasing(ls.drop_last(), folded);
        let prev = spec_visible(ls.drop_last(), folded);
        let cur = spec_visible(ls, folded);
        let i = (ls.len() - 1) as usize;
        assert(cur == prev || cur == prev.push(i));
        if cur == prev.push(i) {
            assert forall|k: int| 0 <= k < cur.len() implies #[trigger] cur[k] < ls.len() by {
                if k < prev.len() {
                    assert(cur[k] == prev[k]);
                }
            }
            assert forall|a: int, b: int| 0 <= a < b < cur.len() implies cur[a] < cur[b] by {
                assert(cur[a] == prev[a]);
                if b < prev.len() {
                    assert(cur[b] == prev[b]);
                }
            }
        }
    }
}

/// `s` with `t` added if absent, removed if present.
pub open spec fn toggled(s: Set<Seq<char>>, t: Seq<char>) -> Set<Seq<char>> {
    if s.contains(t) {
        s.remove(t)
    } else {
        s.insert(t)
    }
}

/// Toggling a heading's fold twice leaves the folded set as it was.
pub proof fn lemma_toggle_fold_twice(s: Set<Seq<char>>, t: Seq<char>)
    ensures
        toggled(toggled(s, t), t) == s,
{
    assert(toggled(toggled(s, t), t) =~= s);
}

/// What `ensure_cursor_visible` sets the scroll position to.
pub open spec fn scroll_for_cursor(cursor: usize, scroll: usize, vh: usize) -> usize {
    if cursor < scroll {
        cursor
    } else if cursor >= scroll + vh {
        if cursor >= vh - 1 {
            (cursor - (vh - 1)) as usize
        } else {
            0
        }
    } else {
        scroll
    }
}

/// The states in which `ensure_cursor_visible` does not overflow.
pub open spec fn cursor_fits(cursor: usize, scroll: usize, vh: usize) -> bool {
    &&& cursor >= scroll ==> scroll + vh <= usize::MAX
    &&& cursor >= scroll + vh ==> vh >= 1
}

pub struct Tab {
    pub content: String,
    pub file_path: Option<String>,
    pub scroll: usize,
    pub cursor: usize,
    pub total_lines: usize,
    pub visible_height: usize,
    pub file_updated: bool,
    pub filter_tasks: bool,
    /// The texts of the folded headings, each once.
    pub folded_headings: Vec<String>,
    pub search_query: String,
    pub search_matches: Vec<usize>,
    pub search_current: usize,
    pub cached_lines: Vec<StyledLine>,
    /// The content the cached lines were rendered from (`None`: no valid cache).
    pub cache_content: Option<String>,
    pub cache_theme: Theme,
    pub cache_width: u16,
    pub cache_filter: bool,
}

impl Tab {
    /// The folded heading texts as a set.
    pub open spec fn folded(&self) -> Set<Seq<char>> {
        strings_view(self.folded_headings@).to_set()
    }

    /// The tab's invariant: each folded heading recorded once, and the cached
    /// lines those of the content the cache records.
    pub open spec fn inv(&self) -> bool {
        &&& distinct_strings(self.folded_headings@)
        &&& self.cache_ok()
    }

    pub open spec fn lines_v(&self) -> Seq<StyledLineView> {
        lines_view(self.cached_lines@)
    }

    /// The display positions of the cached lines with the folds applied.
    pub open spec fn visible(&self) -> Seq<usize> {
        spec_visible(self.lines_v(), self.folded())
    }

    /// The line under the cursor, if the cursor is on a shown line.
    pub open spec fn cursor_line(&self) -> Option<usize> {
        if self.cursor < self.visible().len() {
            Some(self.visible()[self.cursor as int])
        } else {
            None
        }
    }

    /// The lines the tab shows for `content`: rendered, then task-filtered if that is on.
    pub open spec fn rendered(content: Seq<char>, theme: Theme, width: u16, filter: bool) -> Seq<StyledLineView> {
        let ls = spec_parse_markdown(content, theme, width);
        if filter {
            spec_filter_task_lines(ls)
        } else {
            ls
        }
    }

    pub fn new(file_path: String, content: String, theme: Theme) -> (t: Self)
        ensures
            t.content@ == content@,
            t.file_path matches Some(p) && p@ == file_path@,
            t.is_fresh(theme),
    {
        let t = Tab {
            content,
            file_path: Some(file_path),
            scroll: 0,
            cursor: 0,
            total_lines: 0,
            visible_height: 0,
            file_updated: false,
            filter_tasks: false,
            folded_headings: Vec::new(),
            search_query: String::new(),
            search_matches: Vec::new(),
            search_current: 0,
            cached_lines: Vec::new(),
            cache_content: None,
            cache_theme: theme,
            cache_width: 0,
            cache_filter: false,
        };
        assert(t.folded() =~= Set::empty());
        t
    }

    /// A tab with no file.
    pub fn empty(theme: Theme) -> (t: Self)
        ensures
            t.content@ == Seq::<char>::empty(),
            t.file_path is None,
            t.is_fresh(theme),
    {
        let t = Tab {
            content: String::new(),
            file_path: None,
            scroll: 0,
            cursor: 0,
            total_lines: 0,
            visible_height: 0,
            file_updated: false,
            filter_tasks: false,
            folded_headings: Vec::new(),
            search_query: String::new(),
            search_matches: Vec::new(),
            search_current: 0,
            cached_lines: Vec::new(),
            cache_content: None,
            cache_theme: theme,
            cache_width: 0,
            cache_filter: false,
        };
        assert(t.folded() =~= Set::empty());
        t
    }

    /// The state of a newly opened tab, whatever its content and file.
    pub open spec fn is_fresh(&self, theme: Theme) -> bool {
        &&& self.scroll == 0 && self.cursor == 0 && self.total_lines == 0 && self.visible_height == 0
        &&& !self.file_updated && !self.filter_tasks
        &&& self.folded_headings@.len() == 0
        &&& self.search_query@.len() == 0 && self.search_matches@.len() == 0 && self.search_current == 0
        &&& self.cached_lines@.len() == 0 && self.cache_content is None
        &&& self.cache_theme == theme && self.cache_width == 0 && !self.cache_filter
        &&& self.inv()
    }
}

} // verus!

verus! {

/// `(c + k) mod n`, for `0 <= k` and a position `c`.
proof fn lemma_wrap(c: int, k: int, n: int)
    requires
        0 < n,
        0 <= c,
        0 <= k <= n,
    ensures
        (c + k) % n == (if c % n + k < n { c % n + k } else { c % n + k - n }),
{
    vstd::arithmetic::div_mod::lemma_add_mod_noop_right(k, c, n);
    let x = c % n + k;
    if x < n {
        vstd::arithmetic::div_mod::lemma_small_mod(x as nat, n as nat);
    } else {
        vstd::arithmetic::div_mod::lemma_mod_add_multiples_vanish(x - n, n);
        vstd::arithmetic::div_mod::lemma_small_mod((x - n) as nat, n as nat);
    }
}

/// The `i`th line of `ls`, or the empty line past its end.
pub open spec fn line_or_empty(ls: Seq<Seq<char>>, i: int) -> Seq<char> {
    if 0 <= i < ls.len() {
        ls[i]
    } else {
        seq![]
    }
}

/// The source line of a rendered line holds an unchecked task marker.
pub open spec fn open_task_line(sl: StyledLineView, content: Seq<char>) -> bool {
    match sl.source_line {
        Some(src) => contains_seq(line_or_empty(lines(content), src as int), "- [ ] "@),
        None => false,
    }
}

impl Tab {
    /// Whether the line shown at display position `d` is an unchecked task.
    pub open spec fn open_task_at(&self, d: int) -> bool {
        let li = self.visible()[d];
        li < self.lines_v().len() && open_task_line(self.lines_v()[li as int], self.content@)
    }

    /// The display position `next_task` moves to: the first unchecked task after
    /// the cursor, wrapping around.
    pub open spec fn next_task_target(&self) -> Option<usize> {
        let n = self.visible().len();
        if n > 0 && exists|i: int| 0 <= i < n && #[trigger] self.open_task_at((self.cursor + 1 + i) % (n as int)) {
            let i0 = choose|i: int| 0 <= i < n && #[trigger] self.open_task_at((self.cursor + 1 + i) % (n as int))
                && forall|j: int| 0 <= j < i ==> !#[trigger] self.open_task_at((self.cursor + 1 + j) % (n as int));
            Some(((self.cursor + 1 + i0) % (n as int)) as usize)
        } else {
            None
        }
    }

    /// The display position `prev_task` moves to: the first unchecked task
    /// before the cursor, wrapping around.
    pub open spec fn prev_task_target(&self) -> Option<usize> {
        let n = self.visible().len();
        if n > 0 && exists|i: int| 1 <= i <= n && #[trigger] self.open_task_at((self.cursor + n - i) % (n as int)) {
            let i0 = choose|i: int| 1 <= i <= n && #[trigger] self.open_task_at((self.cursor + n - i) % (n as int))
                && forall|j: int| 1 <= j < i ==> !#[trigger] self.open_task_at((self.cursor + n - j) % (n as int));
            Some(((self.cursor + n - i0) % (n as int)) as usize)
        } else {
            None
        }
    }

    /// Whether the cache holds the lines for the current content at this width and theme.
    pub open spec fn cache_hit(&self, width: u16, theme: Theme) -> bool {
        &&& self.cache_content matches Some(c) && c@ == self.content@
        &&& self.cache_theme == theme
        &&& self.cache_width == width
        &&& self.cache_filter == self.filter_tasks
    }

    /// The cached lines are those of the content the cache records.
    pub open spec fn cache_ok(&self) -> bool {
        self.cache_content matches Some(c) ==> self.lines_v() == Tab::rendered(
            c@,
            self.cache_theme,
            self.cache_width,
            self.cache_filter,
        )
    }

    fn ensure_cursor_visible(&mut self)
        requires
            cursor_fits(old(self).cursor, old(self).scroll, old(self).visible_height),
        ensures
            *final(self) == (Tab { scroll: scroll_for_cursor(old(self).cursor, old(self).scroll, old(self).visible_height), ..*old(self) }),
    {
        if self.cursor < self.scroll {
            self.scroll = self.cursor;
        } else if self.cursor >= self.scroll + self.visible_height {
            self.scroll = self.cursor.saturating_sub(self.visible_height - 1);
        }
    }

    /// Renders the content if the cache does not already hold it. Returns false,
    /// changing nothing, where rendering would cut a table cell inside a character.
    pub fn refresh_lines(&mut self, width: u16, theme: Theme) -> (ok: bool)
        requires
            old(self).cache_ok(),
        ensures
            ok == (old(self).cache_hit(width, theme) || renders(old(self).content@, theme, width)),
            ok ==> final(self).cache_hit(width, theme) && final(self).cache_ok(),
            ok ==> final(self).lines_v() == Tab::rendered(old(self).content@, theme, width, old(self).filter_tasks),
            ok ==> *final(self) == (Tab {
                cached_lines: final(self).cached_lines,
                cache_content: final(self).cache_content,
                cache_theme: theme,
                cache_width: width,
                cache_filter: old(self).filter_tasks,
                ..*old(self)
            }),
            !ok ==> *final(self) == *old(self),
            old(self).cache_hit(width, theme) ==> *final(self) == *old(self),
    {
        let hit = match &self.cache_content {
            Some(c) => *c == self.content && self.cache_theme == theme && self.cache_width == width
                && self.cache_filter == self.filter_tasks,
            None => false,
        };
        if hit {
            return true;
        }
        match try_parse_markdown(self.content.as_str(), theme, width) {
            None => false,
            Some(lines) => {
                let lines = if self.filter_tasks {
                    filter_task_lines(lines)
                } else {
                    lines
                };
                self.cached_lines = lines;
                self.cache_content = Some(self.content.clone());
                self.cache_theme = theme;
                self.cache_width = width;
                self.cache_filter = self.filter_tasks;
                true
            },
        }
    }

    /// The rendered lines of the content (from the cache when it holds them).
    pub fn get_parsed_lines(&mut self, width: u16, theme: Theme) -> (r: &[StyledLine])
        requires
            old(self).cache_ok(),
            old(self).cache_hit(width, theme) || renders(old(self).content@, theme, width),
        ensures
            lines_view(r@) == Tab::rendered(old(self).content@, theme, width, old(self).filter_tasks),
            final(self).cached_lines@ == r@,
            final(self).cache_hit(width, theme),
            final(self).cache_ok(),
            *final(self) == (Tab {
                cached_lines: final(self).cached_lines,
                cache_content: final(self).cache_content,
                cache_theme: theme,
                cache_width: width,
                cache_filter: old(self).filter_tasks,
                ..*old(self)
            }),
            old(self).cache_hit(width, theme) ==> *final(self) == *old(self),
    {
        let ok = self.refresh_lines(width, theme);
        self.cached_lines.as_slice()
    }

    /// The display positions of the cached lines with the folds applied.
    pub fn visible_line_indices(&self) -> (r: Vec<usize>)
        ensures
            r@ == self.visible(),
    {
        let n = self.cached_lines.len();
        if self.folded_headings.len() == 0 {
            proof {
                assert(self.folded() =~= Set::empty());
                lemma_nothing_folded_shows_all(self.lines_v());
            }
            return crate::browser::index_range(n);
        }
        let ghost ls = self.lines_v();
        let mut indices: Vec<usize> = Vec::new();
        let mut skip: Option<u8> = None;
        let mut kept = false;
        let mut i: usize = 0;
        assert(ls.take(0) =~= Seq::<StyledLineView>::empty());
        while i < n
            invariant
                n == self.cached_lines@.len(),
                ls == self.lines_v(),
                0 <= i <= n,
                (indices@, skip, kept) == visible_fold(ls.take(i as int), self.folded()),
            decreases n - i,
        {
            let sl = &self.cached_lines[i];
            proof {
                assert(ls.take(i + 1).drop_last() =~= ls.take(i as int));
                assert(ls.take(i + 1).last() == sl@);
            }
            let ghost before = (indices@, skip, kept);
            match sl.heading_level {
                Some(level) => {
                    let inside = match skip {
                        Some(fl) => level > fl,
                        None => false,
                    };
                    if !inside {
                        if skip.is_some() {
                            skip = None;
                            kept = false;
                        }
                        indices.push(i);
                        match &sl.heading_text {
                            Some(t) => {
                                let found = index_of(&self.folded_headings, t);
                                proof {
                                    if let Some(k) = found {
                                        assert(strings_view(self.folded_headings@)[k as int] == t@);
                                    }
                                }
                                if found.is_some() {
                                    skip = Some(level);
                                    kept = false;
                                }
                            },
                            None => {},
                        }
                    }
                },
                None => {
                    if skip.is_some() {
                        if sl.is_blank && !kept {
                            indices.push(i);
                            kept = true;
                        }
                    } else {
                        indices.push(i);
                    }
                },
            }
            proof {
                assert((indices@, skip, kept) == visible_step(before, i as int, sl@, self.folded()));
            }
            i = i + 1;
        }
        assert(ls.take(n as int) =~= ls);
        indices
    }

    fn cursor_line_idx(&self) -> (r: Option<usize>)
        ensures
            r == self.cursor_line(),
    {
        let indices = self.visible_line_indices();
        if self.cursor < indices.len() {
            Some(indices[self.cursor])
        } else {
            None
        }
    }
}

} // verus!

verus! {

pub open spec fn sat_sub(a: usize, b: usize) -> usize {
    if a >= b {
        (a - b) as usize
    } else {
        0
    }
}

pub open spec fn min_usize(a: int, b: int) -> usize {
    (if a < b {
        a
    } else {
        b
    }) as usize
}

/// `s` with `t` added if absent, or removed.
fn toggle_string(v: &mut Vec<String>, t: &String)
    requires
        distinct_strings(old(v)@),
    ensures
        distinct_strings(final(v)@),
        strings_view(final(v)@).to_set() == toggled(strings_view(old(v)@).to_set(), t@),
{
    match index_of(v, t) {
        Some(k) => {
            let ghost before = v@;
            v.remove(k);
            proof {
                assert(v@ =~= before.remove(k as int));
                let sb = strings_view(before);
                let sa = strings_view(v@);
                assert(sb[k as int] == t@);
                assert(sb.to_set().contains(t@));
                assert forall|x: Seq<char>| sa.to_set().contains(x) == sb.to_set().remove(t@).contains(x) by {
                    if sa.to_set().contains(x) {
                        let j = choose|j: int| 0 <= j < sa.len() && sa[j] == x;
                        let jj = if j < k { j } else { j + 1 };
                        assert(sb[jj] == x);
                        assert(jj != k);
                        assert(x != t@);
                    }
                    if sb.to_set().remove(t@).contains(x) {
                        let j = choose|j: int| 0 <= j < sb.len() && sb[j] == x;
                        assert(j != k);
                        if j < k {
                            assert(sa[j] == x);
                        } else {
                            assert(sa[j - 1] == x);
                        }
                    }
                }
                assert(sa.to_set() =~= sb.to_set().remove(t@));
            }
        },
        None => {
            let ghost before = v@;
            v.push(t.clone());
            proof {
                let sb = strings_view(before);
                let sa = strings_view(v@);
                assert(sa =~= sb.push(t@));
                assert(!sb.to_set().contains(t@));
                assert forall|x: Seq<char>| sa.to_set().contains(x) == sb.to_set().insert(t@).contains(x) by {
                    if sa.to_set().contains(x) {
                        let j = choose|j: int| 0 <= j < sa.len() && sa[j] == x;
                        if j < sb.len() {
                            assert(sb[j] == x);
                        }
                    }
                    if sb.to_set().insert(t@).contains(x) {
                        if x == t@ {
                            assert(sa[sb.len() as int] == x);
                        } else {
                            let j = choose|j: int| 0 <= j < sb.len() && sb[j] == x;
                            assert(sa[j] == x);
                        }
                    }
                }
                assert(sa.to_set() =~= sb.to_set().insert(t@));
                assert forall|a: int, b: int| 0 <= a < b < v@.len() implies v@[a]@ != v@[b]@ by {
                    if b == before.len() {
                        assert(sb[a] == v@[a]@);
                    }
                }
            }
        },
    }
}

impl Tab {
    pub fn cursor_down(&mut self, n: usize)
        requires
            cursor_fits(
                min_usize(old(self).cursor + n, sat_sub(old(self).total_lines, 1) as int),
                old(self).scroll,
                old(self).visible_height,
            ),
        ensures
            ({
                let c = min_usize(
                    if old(self).cursor + n > usize::MAX { usize::MAX as int } else { old(self).cursor + n },
                    sat_sub(old(self).total_lines, 1) as int,
                );
                *final(self) == (Tab { cursor: c, scroll: scroll_for_cursor(c, old(self).scroll, old(self).visible_height), ..*old(self) })
            }),
            old(self).visible_height >= 1 ==> final(self).scroll <= final(self).cursor < final(self).scroll
                + final(self).visible_height,
    {
        let max = self.total_lines.saturating_sub(1);
        let c = self.cursor.saturating_add(n);
        self.cursor = if c < max {
            c
        } else {
            max
        };
        self.ensure_cursor_visible();
    }

    pub fn cursor_up(&mut self, n: usize)
        requires
            cursor_fits(sat_sub(old(self).cursor, n), old(self).scroll, old(self).visible_height),
        ensures
            ({
                let c = sat_sub(old(self).cursor, n);
                *final(self) == (Tab { cursor: c, scroll: scroll_for_cursor(c, old(self).scroll, old(self).visible_height), ..*old(self) })
            }),
            old(self).visible_height >= 1 ==> final(self).scroll <= final(self).cursor < final(self).scroll
                + final(self).visible_height,
    {
        self.cursor = self.cursor.saturating_sub(n);
        self.ensure_cursor_visible();
    }

    pub fn cursor_top(&mut self)
        ensures
            *final(self) == (Tab { cursor: 0, scroll: 0, ..*old(self) }),
    {
        self.cursor = 0;
        self.scroll = 0;
    }

    pub fn cursor_bottom(&mut self)
        ensures
            *final(self) == (Tab {
                cursor: sat_sub(old(self).total_lines, 1),
                scroll: sat_sub(old(self).total_lines, old(self).visible_height),
                ..*old(self)
            }),
    {
        self.cursor = self.total_lines.saturating_sub(1);
        self.scroll = self.total_lines.saturating_sub(self.visible_height);
    }

    /// Scrolls the view by `n` lines (down or up) and keeps the cursor inside it.
    pub fn scroll_viewport(&mut self, n: usize, down: bool)
        requires
            viewport_fits(*old(self), n, down),
        ensures
            *final(self) == viewport_scrolled(*old(self), n, down),
            old(self).visible_height >= 1 ==> final(self).scroll <= final(self).cursor < final(self).scroll
                + final(self).visible_height,
    {
        let max_scroll = self.total_lines.saturating_sub(self.visible_height);
        if down {
            let s = self.scroll.saturating_add(n);
            self.scroll = if s < max_scroll {
                s
            } else {
                max_scroll
            };
        } else {
            self.scroll = self.scroll.saturating_sub(n);
        }
        if self.cursor < self.scroll {
            self.cursor = self.scroll;
        } else if self.cursor >= self.scroll + self.visible_height {
            self.cursor = self.scroll + self.visible_height - 1;
        }
    }

    /// Scrolls the view one page (its height) down, keeping the cursor inside it.
    pub fn page_down(&mut self)
        requires
            viewport_fits(*old(self), old(self).visible_height, true),
        ensures
            *final(self) == viewport_scrolled(*old(self), old(self).visible_height, true),
            old(self).visible_height >= 1 ==> final(self).scroll <= final(self).cursor < final(self).scroll
                + final(self).visible_height,
    {
        let n = self.visible_height;
        self.scroll_viewport(n, true);
    }

    /// Scrolls the view one page (its height) up, keeping the cursor inside it.
    pub fn page_up(&mut self)
        requires
            viewport_fits(*old(self), old(self).visible_height, false),
        ensures
            *final(self) == viewport_scrolled(*old(self), old(self).visible_height, false),
            old(self).visible_height >= 1 ==> final(self).scroll <= final(self).cursor < final(self).scroll
                + final(self).visible_height,
    {
        let n = self.visible_height;
        self.scroll_viewport(n, false);
    }

    /// Folds or unfolds the heading under the cursor.
    pub fn toggle_fold(&mut self)
        requires
            old(self).inv(),
        ensures
            final(self).inv(),
            ({
                match old(self).cursor_line() {
                    Some(i) => match old(self).lines_v()[i as int].heading_text {
                        Some(t) => final(self).folded() == toggled(old(self).folded(), t),
                        None => final(self).folded() == old(self).folded(),
                    },
                    None => final(self).folded() == old(self).folded(),
                }
            }),
            *final(self) == (Tab { folded_headings: final(self).folded_headings, ..*old(self) }),
    {
        let n = self.cached_lines.len();
        if let Some(idx) = self.cursor_line_idx() {
            proof {
                lemma_visible_increasing(self.lines_v(), self.folded());
            }
            let sl = &self.cached_lines[idx];
            if let Some(text) = &sl.heading_text {
                let t = text.clone();
                toggle_string(&mut self.folded_headings, &t);
            }
        }
    }

    /// Folds every heading of the cached lines.
    pub fn fold_all(&mut self)
        requires
            old(self).inv(),
        ensures
            final(self).inv(),
            final(self).folded() == old(self).folded().union(heading_texts(old(self).lines_v())),
            *final(self) == (Tab { folded_headings: final(self).folded_headings, ..*old(self) }),
    {
        let mut k: usize = 0;
        let ghost ls = self.lines_v();
        let ghost f0 = self.folded();
        assert(heading_texts(ls.take(0)) =~= Set::empty());
        while k < self.cached_lines.len()
            invariant
                0 <= k <= self.cached_lines@.len(),
                ls == self.lines_v(),
                self.inv(),
                self.folded() == f0.union(heading_texts(ls.take(k as int))),
                *self == (Tab { folded_headings: self.folded_headings, ..*old(self) }),
            decreases self.cached_lines@.len() - k,
        {
            proof {
                assert(ls.take(k + 1).drop_last() =~= ls.take(k as int));
                assert(ls.take(k + 1).last() == self.cached_lines@[k as int]@);
            }
            if let Some(text) = &self.cached_lines[k].heading_text {
                let t = text.clone();
                match index_of(&self.folded_headings, &t) {
                    Some(j) => {
                        proof {
                            assert(strings_view(self.folded_headings@)[j as int] == t@);
                            assert(self.folded().contains(t@));
                        }
                    },
                    None => {
                        toggle_string(&mut self.folded_headings, &t);
                    },
                }
            }
            proof {
                assert(self.folded() =~= f0.union(heading_texts(ls.take(k + 1))));
            }
            k = k + 1;
        }
        assert(ls.take(k as int) =~= ls);
    }

    pub fn unfold_all(&mut self)
        requires
            old(self).inv(),
        ensures
            final(self).inv(),
            final(self).folded() == Set::<Seq<char>>::empty(),
            final(self).visible() == crate::browser::all_indices(final(self).lines_v().len()),
            *final(self) == (Tab { folded_headings: final(self).folded_headings, ..*old(self) }),
    {
        self.folded_headings.clear();
        proof {
            assert(self.folded() =~= Set::empty());
            lemma_nothing_folded_shows_all(self.lines_v());
        }
    }

    pub fn toggle_filter_tasks(&mut self)
        ensures
            *final(self) == (Tab { filter_tasks: !old(self).filter_tasks, cursor: 0, scroll: 0, ..*old(self) }),
    {
        self.filter_tasks = !self.filter_tasks;
        self.cursor = 0;
        self.scroll = 0;
    }
}

/// The heading texts of the lines `ls`.
pub open spec fn heading_texts(ls: Seq<StyledLineView>) -> Set<Seq<char>>
    decreases ls.len(),
{
    if ls.len() == 0 {
        Set::empty()
    } else {
        let rest = heading_texts(ls.drop_last());
        match ls.last().heading_text {
            Some(t) => rest.insert(t),
            None => rest,
        }
    }
}

} // verus!

verus! {

/// The line with its first task marker toggled: an open marker checked, a
/// checked one (in either case) opened; `None` where the line has no marker.
pub open spec fn toggled_marker(line: Seq<char>) -> Option<Seq<char>> {
    if contains_seq(line, "- [ ] "@) {
        Some(replace_first(line, "- [ ] "@, "- [x] "@))
    } else if contains_seq(line, "- [x] "@) {
        Some(replace_first(line, "- [x] "@, "- [ ] "@))
    } else if contains_seq(line, "- [X] "@) {
        Some(replace_first(line, "- [X] "@, "- [ ] "@))
    } else {
        None
    }
}

/// The content with its line `src` replaced by `nl`: the lines joined with
/// `'\n'`, and a final newline kept.
pub open spec fn with_line(content: Seq<char>, src: int, nl: Seq<char>) -> Seq<char> {
    let joined = join_lines(lines(content).update(src, nl));
    if content.len() > 0 && content.last() == '\n' {
        joined.push('\n')
    } else {
        joined
    }
}

/// The line with its first task marker toggled, as `toggled_marker` says.
fn toggled_marker_chars(line: &Vec<char>) -> (r: Option<Vec<char>>)
    ensures
        match r {
            Some(v) => toggled_marker(line@) == Some(v@),
            None => toggled_marker(line@) is None,
        },
{
    let open = chars_of("- [ ] ");
    let done = chars_of("- [x] ");
    let done_upper = chars_of("- [X] ");
    match replace_first_chars(line, &open, &done) {
        Some(v) => Some(v),
        None => match replace_first_chars(line, &done, &open) {
            Some(v) => Some(v),
            None => replace_first_chars(line, &done_upper, &open),
        },
    }
}

impl Tab {
    /// The source line under the cursor and its text with the marker toggled,
    /// where that line holds a task marker.
    pub open spec fn checkbox_edit(&self) -> Option<(int, Seq<char>)> {
        match self.cursor_line() {
            Some(i) => if i < self.lines_v().len() {
                match self.lines_v()[i as int].source_line {
                    Some(src) => if src < lines(self.content@).len() {
                        match toggled_marker(lines(self.content@)[src as int]) {
                            Some(nl) => Some((src as int, nl)),
                            None => None,
                        }
                    } else {
                        None
                    },
                    None => None,
                }
            } else {
                None
            },
            None => None,
        }
    }

    /// Toggles the task checkbox on the cursor's source line. Returns whether the
    /// content changed (and so is to be written back to the file).
    #[verifier::spinoff_prover]
    pub fn toggle_checkbox(&mut self) -> (changed: bool)
        ensures
            changed == old(self).checkbox_edit() is Some,
            match old(self).checkbox_edit() {
                Some(edit) => final(self).content@ == with_line(old(self).content@, edit.0, edit.1)
                    && *final(self) == (Tab { content: final(self).content, cache_content: None, ..*old(self) }),
                None => *final(self) == *old(self),
            },
    {
        let idx = match self.cursor_line_idx() {
            Some(i) => i,
            None => return false,
        };
        if idx >= self.cached_lines.len() {
            return false;
        }
        let source_line = match self.cached_lines[idx].source_line {
            Some(n) => n,
            None => return false,
        };
        let chars = chars_of(self.content.as_str());
        let mut content_lines = split_lines(&chars);
        if source_line >= content_lines.len() {
            return false;
        }
        let toggled = match toggled_marker_chars(&content_lines[source_line]) {
            Some(v) => v,
            None => return false,
        };
        let ghost ls = views_of(content_lines@);
        content_lines.set(source_line, toggled);
        proof {
            assert(views_of(content_lines@) =~= ls.update(source_line as int, toggled@));
        }
        let had_trailing_newline = chars.len() > 0 && chars[chars.len() - 1] == '\n';
        let mut joined = join_with_newlines(&content_lines);
        if had_trailing_newline {
            joined.push('\n');
        }
        self.content = string_of(joined.as_slice());
        self.cache_content = None;
        true
    }
}

} // verus!

verus! {

/// One step back from display position `d`, `i` places before `c`, wrapping at `n`.
proof fn lemma_step_back(c: int, n: int, i: int, d: int)
    requires
        0 < n,
        0 <= c,
        0 <= i < n,
        d == (c + n - i) % n,
    ensures
        (c + n - (i + 1)) % n == (if d == 0 { n - 1 } else { d - 1 }),
{
    lemma_wrap(c, n - i, n);
    lemma_wrap(c, n - i - 1, n);
}

/// The first unchecked task after the cursor is `i` places on: that is where `next_task` goes.
proof fn lemma_next_target(t: &Tab, i: int)
    requires
        0 <= i < t.visible().len(),
        t.open_task_at((t.cursor + 1 + i) % (t.visible().len() as int)),
        forall|j: int| 0 <= j < i ==> !#[trigger] t.open_task_at((t.cursor + 1 + j) % (t.visible().len() as int)),
    ensures
        t.next_task_target() == Some(((t.cursor + 1 + i) % (t.visible().len() as int)) as usize),
{
    let nn = t.visible().len();
    let i0 = choose|k: int| 0 <= k < nn && #[trigger] t.open_task_at((t.cursor + 1 + k) % (nn as int))
        && forall|j: int| 0 <= j < k ==> !#[trigger] t.open_task_at((t.cursor + 1 + j) % (nn as int));
    assert(0 <= i0 < nn && t.open_task_at((t.cursor + 1 + i0) % (nn as int))
        && forall|j: int| 0 <= j < i0 ==> !#[trigger] t.open_task_at((t.cursor + 1 + j) % (nn as int)));
    if i0 > i {
        assert(!t.open_task_at((t.cursor + 1 + i) % (nn as int)));
    }
    if i0 < i {
        assert(!t.open_task_at((t.cursor + 1 + i0) % (nn as int)));
    }
}

/// The nearest unchecked task before the cursor is `i` places back: that is where `prev_task` goes.
proof fn lemma_prev_target(t: &Tab, i: int)
    requires
        1 <= i <= t.visible().len(),
        t.open_task_at((t.cursor + t.visible().len() - i) % (t.visible().len() as int)),
        forall|j: int| 1 <= j < i ==> !#[trigger] t.open_task_at((t.cursor + t.visible().len() - j) % (t.visible().len() as int)),
    ensures
        t.prev_task_target() == Some(((t.cursor + t.visible().len() - i) % (t.visible().len() as int)) as usize),
{
    let nn = t.visible().len();
    let i0 = choose|k: int| 1 <= k <= nn && #[trigger] t.open_task_at((t.cursor + nn - k) % (nn as int))
        && forall|j: int| 1 <= j < k ==> !#[trigger] t.open_task_at((t.cursor + nn - j) % (nn as int));
    assert(1 <= i0 <= nn && t.open_task_at((t.cursor + nn - i0) % (nn as int))
        && forall|j: int| 1 <= j < i0 ==> !#[trigger] t.open_task_at((t.cursor + nn - j) % (nn as int)));
    if i0 > i {
        assert(!t.open_task_at((t.cursor + nn - i) % (nn as int)));
    }
    if i0 < i {
        assert(!t.open_task_at((t.cursor + nn - i0) % (nn as int)));
    }
}

impl Tab {
    /// Whether the cached line `li` is a task line whose source line holds an open marker.
    fn line_has_open_task(&self, li: usize, content_lines: &Vec<Vec<char>>, marker: &Vec<char>) -> (b: bool)
        requires
            views_of(content_lines@) == lines(self.content@),
            marker@ == "- [ ] "@,
        ensures
            b == (li < self.lines_v().len() && open_task_line(self.lines_v()[li as int], self.content@)),
    {
        if li >= self.cached_lines.len() {
            return false;
        }
        match self.cached_lines[li].source_line {
            Some(src) => {
                if src < content_lines.len() {
                    assert(views_of(content_lines@)[src as int] == content_lines@[src as int]@);
                    contains_chars(&content_lines[src], marker)
                } else {
                    let empty: Vec<char> = Vec::new();
                    assert(empty@ =~= Seq::<char>::empty());
                    contains_chars(&empty, marker)
                }
            },
            None => false,
        }
    }

    /// Moves the cursor to the next unchecked task after it, wrapping around.
    #[verifier::spinoff_prover]
    pub fn next_task(&mut self)
        requires
            old(self).next_task_target() matches Some(d) ==> cursor_fits(d, old(self).scroll, old(self).visible_height),
        ensures
            match old(self).next_task_target() {
                Some(d) => *final(self) == (Tab {
                    cursor: d,
                    scroll: scroll_for_cursor(d, old(self).scroll, old(self).visible_height),
                    ..*old(self)
                }),
                None => *final(self) == *old(self),
            },
    {
        let indices = self.visible_line_indices();
        let len = indices.len();
        if len == 0 {
            return;
        }
        let chars = chars_of(self.content.as_str());
        let content_lines = split_lines(&chars);
        let marker = chars_of("- [ ] ");
        let ghost c = self.cursor as int;
        let ghost n = len as int;
        let r = self.cursor % len;
        let mut d: usize = if r == len - 1 {
            0
        } else {
            r + 1
        };
        proof {
            lemma_wrap(c, 1, n);
        }
        let mut i: usize = 0;
        while i < len
            invariant
                *self == *old(self),
                indices@ == self.visible(),
                len == indices@.len(),
                c == self.cursor,
                n == len,
                0 < len,
                old(self).next_task_target() matches Some(dd) ==> cursor_fits(dd, old(self).scroll, old(self).visible_height),
                views_of(content_lines@) == lines(self.content@),
                marker@ == "- [ ] "@,
                0 <= i <= len,
                d < len,
                i < len ==> d == (c + 1 + i) % n,
                forall|j: int| 0 <= j < i ==> !#[trigger] self.open_task_at((self.cursor + 1 + j) % (self.visible().len() as int)),
            decreases len - i,
        {
            let li = indices[d];
            if self.line_has_open_task(li, &content_lines, &marker) {
                proof {
                    lemma_next_target(self, i as int);
                }
                self.cursor = d;
                self.ensure_cursor_visible();
                return;
            }
            proof {
                if i + 1 < len {
                    lemma_wrap(c, i + 1, n);
                    lemma_wrap(c, i + 2, n);
                }
            }
            d = if d == len - 1 {
                0
            } else {
                d + 1
            };
            i = i + 1;
        }
        proof {
            let nn = self.visible().len();
            assert(!exists|k: int| 0 <= k < nn && #[trigger] self.open_task_at((self.cursor + 1 + k) % (nn as int)));
        }
    }

    /// Moves the cursor to the nearest unchecked task before it, wrapping around.
    #[verifier::spinoff_prover]
    #[verifier::rlimit(60)]
    pub fn prev_task(&mut self)
        requires
            old(self).prev_task_target() matches Some(d) ==> cursor_fits(d, old(self).scroll, old(self).visible_height),
        ensures
            match old(self).prev_task_target() {
                Some(d) => *final(self) == (Tab {
                    cursor: d,
                    scroll: scroll_for_cursor(d, old(self).scroll, old(self).visible_height),
                    ..*old(self)
                }),
                None => *final(self) == *old(self),
            },
    {
        let indices = self.visible_line_indices();
        let len = indices.len();
        if len == 0 {
            return;
        }
        let chars = chars_of(self.content.as_str());
        let content_lines = split_lines(&chars);
        let marker = chars_of("- [ ] ");
        let ghost c = self.cursor as int;
        let ghost n = len as int;
        let mut d: usize = self.cursor % len;
        proof {
            lemma_wrap(c, n, n);
        }
        let mut i: usize = 0;
        while i < len
            invariant
                *self == *old(self),
                indices@ == self.visible(),
                len == indices@.len(),
                c == self.cursor,
                n == len,
                0 < len,
                old(self).prev_task_target() matches Some(dd) ==> cursor_fits(dd, old(self).scroll, old(self).visible_height),
                views_of(content_lines@) == lines(self.content@),
                marker@ == "- [ ] "@,
                0 <= i <= len,
                d < len,
                d == (c + n - i) % n,
                forall|j: int| 1 <= j <= i ==> !#[trigger] self.open_task_at((self.cursor + self.visible().len() - j) % (self.visible().len() as int)),
            decreases len - i,
        {
            proof {
                lemma_step_back(c, n, i as int, d as int);
            }
            d = if d == 0 {
                len - 1
            } else {
                d - 1
            };
            i = i + 1;
            let li = indices[d];
            if self.line_has_open_task(li, &content_lines, &marker) {
                proof {
                    lemma_prev_target(self, i as int);
                }
                self.cursor = d;
                self.ensure_cursor_visible();
                return;
            }
        }
        proof {
            let nn = self.visible().len();
            assert(!exists|k: int| 1 <= k <= nn && #[trigger] self.open_task_at((self.cursor + nn - k) % (nn as int)));
        }
    }
}

} // verus!

verus! {

/// The positions among `ls[..k]` of the lines whose lowercase form contains `q`.
pub open spec fn hits_upto(ls: Seq<Seq<char>>, q: Seq<char>, k: int) -> Seq<usize>
    decreases k,
{
    if k <= 0 {
        seq![]
    } else {
        let r = hits_upto(ls, q, k - 1);
        if contains_seq(lowercase(ls[k - 1]), q) {
            r.push((k - 1) as usize)
        } else {
            r
        }
    }
}

/// The source lines matching `query` ignoring case, in order; none for an empty query.
pub open spec fn search_hits(content: Seq<char>, query: Seq<char>) -> Seq<usize> {
    if query.len() == 0 {
        seq![]
    } else {
        hits_upto(lines(content), lowercase(query), lines(content).len() as int)
    }
}

/// The match after `cur` among `n`, wrapping around.
pub open spec fn next_match(cur: usize, n: nat) -> usize {
    ((cur + 1) % (n as int)) as usize
}

/// The match before `cur` among `n`, wrapping around.
pub open spec fn prev_match(cur: usize, n: nat) -> usize {
    if cur == 0 {
        (n - 1) as usize
    } else {
        (cur - 1) as usize
    }
}

/// The first match at or below line `scroll`, or the first match.
pub open spec fn first_match_from(m: Seq<usize>, scroll: usize) -> usize {
    if exists|k: int| 0 <= k < m.len() && m[k] >= scroll {
        (choose|k: int| 0 <= k < m.len() && m[k] >= scroll && forall|j: int| 0 <= j < k ==> m[j] < scroll) as usize
    } else {
        0
    }
}

/// Going to the next match and back returns to the current one.
pub proof fn lemma_next_prev_match(cur: usize, n: nat)
    requires
        cur < n <= usize::MAX,
    ensures
        prev_match(next_match(cur, n), n) == cur,
        next_match(prev_match(cur, n), n) == cur,
{
    if cur + 1 < n {
        vstd::arithmetic::div_mod::lemma_small_mod((cur + 1) as nat, n);
    } else {
        vstd::arithmetic::div_mod::lemma_mod_self_0(n as int);
    }
    if cur == 0 {
        vstd::arithmetic::div_mod::lemma_mod_self_0(n as int);
    } else {
        vstd::arithmetic::div_mod::lemma_small_mod(cur as nat, n);
    }
}

impl Tab {
    /// The tab with match `cur` current and the cursor on it, the view a third
    /// of a screen above it.
    pub open spec fn at_match(self, cur: usize) -> Tab {
        if cur < self.search_matches@.len() {
            let line = self.search_matches@[cur as int];
            Tab { search_current: cur, cursor: line, scroll: sat_sub(line, (self.visible_height / 3) as usize), ..self }
        } else {
            Tab { search_current: cur, ..self }
        }
    }

    /// Starts a search: the query and matches cleared.
    pub fn open_search(&mut self)
        ensures
            final(self).search_query@ == Seq::<char>::empty(),
            final(self).search_matches@ == Seq::<usize>::empty(),
            *final(self) == (Tab {
                search_query: final(self).search_query,
                search_matches: final(self).search_matches,
                search_current: 0,
                ..*old(self)
            }),
    {
        self.search_query = String::new();
        self.search_matches = Vec::new();
        self.search_current = 0;
    }

    /// Ends a search: the query and matches cleared.
    pub fn close_search(&mut self)
        ensures
            final(self).search_query@ == Seq::<char>::empty(),
            final(self).search_matches@ == Seq::<usize>::empty(),
            *final(self) == (Tab {
                search_query: final(self).search_query,
                search_matches: final(self).search_matches,
                search_current: 0,
                ..*old(self)
            }),
    {
        self.search_query = String::new();
        self.search_matches = Vec::new();
        self.search_current = 0;
    }

    /// Finds the source lines that contain the query, ignoring case.
    pub fn update_search(&mut self)
        ensures
            final(self).search_matches@ == search_hits(old(self).content@, old(self).search_query@),
            *final(self) == (Tab { search_matches: final(self).search_matches, search_current: 0, ..*old(self) }),
    {
        self.search_current = 0;
        if self.search_query.as_str().is_empty() {
            self.search_matches = Vec::new();
            return;
        }
        let q = to_lowercase(self.search_query.as_str());
        let qv = chars_of(q.as_str());
        let chars = chars_of(self.content.as_str());
        let ls = split_lines(&chars);
        let ghost lv = views_of(ls@);
        let mut matches: Vec<usize> = Vec::new();
        let mut i: usize = 0;
        while i < ls.len()
            invariant
                lv == views_of(ls@),
                lv == lines(self.content@),
                qv@ == lowercase(self.search_query@),
                0 <= i <= ls@.len(),
                matches@ == hits_upto(lv, qv@, i as int),
            decreases ls@.len() - i,
        {
            let line = string_of(ls[i].as_slice());
            let low = to_lowercase(line.as_str());
            let lowv = chars_of(low.as_str());
            assert(lv[i as int] == ls@[i as int]@);
            if contains_chars(&lowv, &qv) {
                matches.push(i);
            }
            i = i + 1;
        }
        self.search_matches = matches;
    }

    /// Moves to the next match, wrapping around.
    pub fn search_next(&mut self)
        requires
            old(self).search_matches@.len() > 0 ==> old(self).search_current < usize::MAX,
        ensures
            *final(self) == if old(self).search_matches@.len() == 0 {
                *old(self)
            } else {
                old(self).at_match(next_match(old(self).search_current, old(self).search_matches@.len()))
            },
    {
        if self.search_matches.len() == 0 {
            return;
        }
        self.search_current = (self.search_current + 1) % self.search_matches.len();
        self.scroll_to_match();
    }

    /// Moves to the previous match, wrapping around.
    pub fn search_prev(&mut self)
        ensures
            *final(self) == if old(self).search_matches@.len() == 0 {
                *old(self)
            } else {
                old(self).at_match(prev_match(old(self).search_current, old(self).search_matches@.len()))
            },
    {
        if self.search_matches.len() == 0 {
            return;
        }
        if self.search_current == 0 {
            self.search_current = self.search_matches.len() - 1;
        } else {
            self.search_current = self.search_current - 1;
        }
        self.scroll_to_match();
    }

    /// Moves to the first match at or below the top of the view.
    pub fn search_first(&mut self)
        ensures
            *final(self) == if old(self).search_matches@.len() == 0 {
                *old(self)
            } else {
                old(self).at_match(first_match_from(old(self).search_matches@, old(self).scroll))
            },
    {
        if self.search_matches.len() > 0 {
            let mut k: usize = 0;
            let n = self.search_matches.len();
            while k < n && self.search_matches[k] < self.scroll
                invariant
                    n == self.search_matches@.len(),
                    0 <= k <= n,
                    forall|j: int| 0 <= j < k ==> self.search_matches@[j] < self.scroll,
                decreases n - k,
            {
                k = k + 1;
            }
            proof {
                let m = self.search_matches@;
                if k < n {
                    let k0 = choose|kk: int| 0 <= kk < m.len() && m[kk] >= self.scroll && forall|j: int| 0 <= j < kk ==> m[j] < self.scroll;
                    assert(0 <= k0 < m.len() && m[k0] >= self.scroll && forall|j: int| 0 <= j < k0 ==> m[j] < self.scroll);
                    if k0 < k {
                        assert(m[k0] < self.scroll);
                    }
                    if k0 > k {
                        assert(m[k as int] < self.scroll);
                    }
                    assert(first_match_from(m, self.scroll) == k);
                } else {
                    assert(!exists|kk: int| 0 <= kk < m.len() && m[kk] >= self.scroll);
                }
            }
            self.search_current = if k < n {
                k
            } else {
                0
            };
            self.scroll_to_match();
        }
    }

    fn scroll_to_match(&mut self)
        ensures
            *final(self) == old(self).at_match(old(self).search_current),
    {
        if self.search_current < self.search_matches.len() {
            let line = self.search_matches[self.search_current];
            self.cursor = line;
            self.scroll = line.saturating_sub(self.visible_height / 3);
        }
    }
}

/// The next match then the previous one brings the tab back to the current match.
pub proof fn lemma_search_round_trip(t: Tab)
    requires
        t.search_current < t.search_matches@.len() <= usize::MAX,
    ensures
        ({
            let n = t.search_matches@.len();
            let there = t.at_match(next_match(t.search_current, n));
            there.at_match(prev_match(there.search_current, n)) == t.at_match(t.search_current)
        }),
{
    let n = t.search_matches@.len();
    lemma_next_prev_match(t.search_current, n);
    vstd::arithmetic::div_mod::lemma_mod_bound((t.search_current + 1) as int, n as int);
}

} // verus!

verus! {

/// What the screen shows over the reader.
#[derive(Clone, Copy, Debug, PartialEq, Eq, Structural)]
pub enum AppMode {
    Reader,
    Search,
    FilePicker,
    /// Choosing a theme; `original_index` is the theme to go back to on cancel.
    ThemePicker { original_index: usize },
    Help,
}

pub struct AppState {
    pub mode: AppMode,
    pub tabs: Vec<Tab>,
    pub active_tab: usize,
    pub theme: Theme,
    pub theme_index: usize,
    pub themes: Vec<(String, Theme)>,
    pub browser: BrowserState,
    pub scrollbar: bool,
}

/// The tab after `a` among `n`, wrapping around.
pub open spec fn next_tab_index(a: usize, n: nat) -> usize {
    ((a + 1) % (n as int)) as usize
}

/// The tab before `a` among `n`, wrapping around.
pub open spec fn prev_tab_index(a: usize, n: nat) -> usize {
    if a == 0 {
        (n - 1) as usize
    } else {
        (a - 1) as usize
    }
}

/// Whether tab `t` has the file `path` open.
pub open spec fn has_path(t: Tab, path: Seq<char>) -> bool {
    t.file_path matches Some(p) && p@ == path
}

/// The placeholder tab a picker opens with, before any file.
pub open spec fn is_placeholder(t: Tab) -> bool {
    t.file_path is None
}

impl AppState {
    /// The state's invariant: a tab is active, the theme is the chosen entry of
    /// the list, the theme to go back to exists, and each tab keeps its own.
    pub open spec fn inv(&self) -> bool {
        &&& 0 < self.tabs@.len()
        &&& self.active_tab < self.tabs@.len()
        &&& self.theme_index < self.themes@.len()
        &&& self.theme == self.themes@[self.theme_index as int].1
        &&& self.mode matches AppMode::ThemePicker { original_index } ==> original_index < self.themes@.len()
        &&& forall|i: int| 0 <= i < self.tabs@.len() ==> #[trigger] self.tabs@[i].inv()
    }

    /// The active tab.
    pub open spec fn active(&self) -> Tab {
        self.tabs@[self.active_tab as int]
    }

    /// Starts on the file picker in `dir`, whose directory read gave `listing`.
    pub fn new_picker(dir: String, theme_index: usize, themes: Vec<(String, Theme)>, scrollbar: bool, listing: DirListing) -> (s: Self)
        requires
            theme_index < themes@.len(),
        ensures
            s.inv(),
            s.mode == AppMode::FilePicker,
            s.tabs@.len() == 1,
            s.tabs@[0].content@ == Seq::<char>::empty(),
            s.tabs@[0].file_path is None,
            s.tabs@[0].is_fresh(themes@[theme_index as int].1),
            s.active_tab == 0,
            s.theme == themes@[theme_index as int].1,
            s.theme_index == theme_index,
            s.themes@ == themes@,
            s.browser.opened_on(dir@, listing),
            s.scrollbar == scrollbar,
    {
        let theme = themes[theme_index].1;
        let s = AppState {
            mode: AppMode::FilePicker,
            tabs: vec![Tab::empty(theme)],
            active_tab: 0,
            theme,
            theme_index,
            themes,
            browser: BrowserState::new(dir, listing),
            scrollbar,
        };
        s
    }

    /// Starts reading `file_path`, whose text is `content`, with the picker on
    /// the file's directory (`reader_dir_of` the path), whose read gave `listing`.
    pub fn new_reader(
        file_path: String,
        content: String,
        theme_index: usize,
        themes: Vec<(String, Theme)>,
        scrollbar: bool,
        listing: DirListing,
    ) -> (s: Self)
        requires
            theme_index < themes@.len(),
        ensures
            s.inv(),
            s.mode == AppMode::Reader,
            s.tabs@.len() == 1,
            s.tabs@[0].content@ == content@,
            s.tabs@[0].file_path matches Some(p) && p@ == file_path@,
            s.tabs@[0].is_fresh(themes@[theme_index as int].1),
            s.active_tab == 0,
            s.theme == themes@[theme_index as int].1,
            s.theme_index == theme_index,
            s.themes@ == themes@,
            s.browser.opened_on(reader_dir_of(file_path@), listing),
            s.scrollbar == scrollbar,
    {
        let theme = themes[theme_index].1;
        let browser_dir = reader_dir(file_path.as_str());
        AppState {
            mode: AppMode::Reader,
            tabs: vec![Tab::new(file_path, content, theme)],
            active_tab: 0,
            theme,
            theme_index,
            themes,
            browser: BrowserState::new(browser_dir, listing),
            scrollbar,
        }
    }

    /// The active tab.
    pub fn tab(&self) -> (t: &Tab)
        requires
            self.inv(),
        ensures
            *t == self.active(),
    {
        &self.tabs[self.active_tab]
    }

    /// The active tab, to change it.
    pub fn tab_mut(&mut self) -> (t: &mut Tab)
        requires
            old(self).inv(),
        ensures
            *t == old(self).active(),
            final(self).tabs@ == old(self).tabs@.update(old(self).active_tab as int, *final(t)),
            *final(self) == (AppState { tabs: final(self).tabs, ..*old(self) }),
    {
        let a = self.active_tab;
        &mut self.tabs[a]
    }

    /// If a tab has `path` open, makes it active and shows the reader; returns
    /// whether one had.
    pub fn open_file(&mut self, path: &str) -> (found: bool)
        requires
            old(self).inv(),
        ensures
            final(self).inv(),
            found == exists|i: int| 0 <= i < old(self).tabs@.len() && has_path(#[trigger] old(self).tabs@[i], path@),
            found ==> {
                &&& has_path(final(self).active(), path@)
                &&& forall|i: int| 0 <= i < final(self).active_tab ==> !has_path(#[trigger] old(self).tabs@[i], path@)
                &&& *final(self) == (AppState { active_tab: final(self).active_tab, mode: AppMode::Reader, ..*old(self) })
            },
            !found ==> *final(self) == *old(self),
    {
        let target = String::from_str(path);
        let mut k: usize = 0;
        while k < self.tabs.len()
            invariant
                0 <= k <= self.tabs@.len(),
                forall|i: int| 0 <= i < k ==> !has_path(#[trigger] self.tabs@[i], path@),
                *self == *old(self),
                old(self).inv(),
                target@ == path@,
            decreases self.tabs@.len() - k,
        {
            let same = match &self.tabs[k].file_path {
                Some(p) => *p == target,
                None => false,
            };
            if same {
                self.active_tab = k;
                self.mode = AppMode::Reader;
                return true;
            }
            k = k + 1;
        }
        false
    }

    /// Opens `path`, whose text is `content`, in a new tab (or in the placeholder
    /// tab when that is the only one) and shows the reader.
    pub fn add_file_tab(&mut self, path: String, content: String)
        requires
            old(self).inv(),
        ensures
            final(self).inv(),
            final(self).mode == AppMode::Reader,
            final(self).active().content@ == content@,
            final(self).active().file_path matches Some(p) && p@ == path@,
            final(self).active().is_fresh(old(self).theme),
            if old(self).tabs@.len() == 1 && is_placeholder(old(self).tabs@[0]) {
                final(self).tabs@.len() == 1 && final(self).active_tab == 0
            } else {
                final(self).tabs@ == old(self).tabs@.push(final(self).active())
                    && final(self).active_tab == old(self).tabs@.len()
            },
            *final(self) == (AppState { tabs: final(self).tabs, active_tab: final(self).active_tab, mode: AppMode::Reader, ..*old(self) }),
    {
        let tab = Tab::new(path, content, self.theme);
        if self.tabs.len() == 1 && self.tabs[0].file_path.is_none() {
            self.tabs.set(0, tab);
            self.active_tab = 0;
        } else {
            self.tabs.push(tab);
            self.active_tab = self.tabs.len() - 1;
        }
        self.mode = AppMode::Reader;
        proof {
            assert forall|i: int| 0 <= i < self.tabs@.len() implies #[trigger] self.tabs@[i].inv() by {
                if i < old(self).tabs@.len() && i != self.active_tab {
                    assert(self.tabs@[i] == old(self).tabs@[i]);
                }
            }
        }
    }

    /// Switches to the next tab, wrapping around.
    pub fn next_tab(&mut self)
        requires
            old(self).inv(),
        ensures
            final(self).inv(),
            *final(self) == if old(self).tabs@.len() > 1 {
                AppState { active_tab: next_tab_index(old(self).active_tab, old(self).tabs@.len()), ..*old(self) }
            } else {
                *old(self)
            },
    {
        if self.tabs.len() > 1 {
            self.active_tab = (self.active_tab + 1) % self.tabs.len();
        }
    }

    /// Switches to the previous tab, wrapping around.
    pub fn prev_tab(&mut self)
        requires
            old(self).inv(),
        ensures
            final(self).inv(),
            *final(self) == if old(self).tabs@.len() > 1 {
                AppState { active_tab: prev_tab_index(old(self).active_tab, old(self).tabs@.len()), ..*old(self) }
            } else {
                *old(self)
            },
    {
        if self.tabs.len() > 1 {
            if self.active_tab == 0 {
                self.active_tab = self.tabs.len() - 1;
            } else {
                self.active_tab = self.active_tab - 1;
            }
        }
    }

    /// What `q` does in the reader: quits (returning true, changing nothing)
    /// where only one tab is open, else closes the active tab.
    pub fn close_tab_or_quit(&mut self) -> (quit: bool)
        requires
            old(self).inv(),
        ensures
            final(self).inv(),
            quit == (old(self).tabs@.len() <= 1),
            quit ==> *final(self) == *old(self),
            !quit ==> final(self).tabs@ == old(self).tabs@.remove(old(self).active_tab as int),
            !quit ==> *final(self) == (AppState {
                tabs: final(self).tabs,
                active_tab: if old(self).active_tab >= (old(self).tabs@.len() - 1) as usize {
                    (old(self).tabs@.len() - 2) as usize
                } else {
                    old(self).active_tab
                },
                ..*old(self)
            }),
    {
        if self.tabs.len() <= 1 {
            return true;
        }
        self.close_tab();
        false
    }

    /// Closes the active tab, unless it is the only one.
    pub fn close_tab(&mut self)
        requires
            old(self).inv(),
        ensures
            final(self).inv(),
            *final(self) == if old(self).tabs@.len() > 1 {
                let rest = old(self).tabs@.remove(old(self).active_tab as int);
                AppState {
                    tabs: final(self).tabs,
                    active_tab: if old(self).active_tab >= rest.len() {
                        (rest.len() - 1) as usize
                    } else {
                        old(self).active_tab
                    },
                    ..*old(self)
                }
            } else {
                *old(self)
            },
            old(self).tabs@.len() > 1 ==> final(self).tabs@ == old(self).tabs@.remove(old(self).active_tab as int),
    {
        if self.tabs.len() > 1 {
            let a = self.active_tab;
            let removed = self.tabs.remove(a);
            if self.active_tab >= self.tabs.len() {
                self.active_tab = self.tabs.len() - 1;
            }
            proof {
                assert forall|i: int| 0 <= i < self.tabs@.len() implies #[trigger] self.tabs@[i].inv() by {
                    if i < a {
                        assert(self.tabs@[i] == old(self).tabs@[i]);
                    } else {
                        assert(self.tabs@[i] == old(self).tabs@[i + 1]);
                    }
                }
            }
        }
    }

    /// The files open in tabs, in tab order.
    pub fn tab_file_paths(&self) -> (r: Vec<String>)
        ensures
            strings_view(r@) == file_paths(self.tabs@),
    {
        let mut r: Vec<String> = Vec::new();
        let mut k: usize = 0;
        while k < self.tabs.len()
            invariant
                0 <= k <= self.tabs@.len(),
                strings_view(r@) == file_paths(self.tabs@.take(k as int)),
            decreases self.tabs@.len() - k,
        {
            proof {
                assert(self.tabs@.take(k + 1).drop_last() =~= self.tabs@.take(k as int));
            }
            match &self.tabs[k].file_path {
                Some(p) => {
                    r.push(p.clone());
                    assert(strings_view(r@) =~= file_paths(self.tabs@.take(k + 1)));
                },
                None => {
                    assert(strings_view(r@) =~= file_paths(self.tabs@.take(k + 1)));
                },
            }
            k = k + 1;
        }
        assert(self.tabs@.take(k as int) =~= self.tabs@);
        r
    }
}

/// The file paths of the tabs that have one, in order.
pub open spec fn file_paths(tabs: Seq<Tab>) -> Seq<Seq<char>>
    decreases tabs.len(),
{
    if tabs.len() == 0 {
        seq![]
    } else {
        let rest = file_paths(tabs.drop_last());
        match tabs.last().file_path {
            Some(p) => rest.push(p@),
            None => rest,
        }
    }
}

/// Switching to the next tab and back, or back and on, returns to the same tab.
pub proof fn lemma_next_prev_tab(a: usize, n: nat)
    requires
        a < n <= usize::MAX,
    ensures
        prev_tab_index(next_tab_index(a, n), n) == a,
        next_tab_index(prev_tab_index(a, n), n) == a,
{
    lemma_next_prev_match(a, n);
}

} // verus!

verus! {

impl AppState {
    /// Whether a popup that keeps the theme picker and help from opening is up.
    pub open spec fn modal(&self) -> bool {
        self.mode is ThemePicker || self.mode is Help
    }

    /// The state after opening the theme picker.
    pub open spec fn spec_open_theme_picker(self) -> AppState {
        if self.modal() {
            self
        } else {
            AppState { mode: AppMode::ThemePicker { original_index: self.theme_index }, ..self }
        }
    }

    /// The state with theme `index` previewed.
    pub open spec fn spec_select_theme(self, index: usize) -> AppState {
        AppState { theme_index: index, theme: self.themes@[index as int].1, ..self }
    }

    /// The state after cancelling the theme picker.
    pub open spec fn spec_cancel_theme(self) -> AppState {
        match self.mode {
            AppMode::ThemePicker { original_index } => AppState {
                theme_index: original_index,
                theme: self.themes@[original_index as int].1,
                mode: AppMode::Reader,
                ..self
            },
            _ => self,
        }
    }

    /// Opens the theme picker, remembering the current theme; not over another popup.
    pub fn open_theme_picker(&mut self)
        requires
            old(self).inv(),
        ensures
            final(self).inv(),
            *final(self) == old(self).spec_open_theme_picker(),
    {
        match self.mode {
            AppMode::ThemePicker { .. } | AppMode::Help => return,
            _ => {},
        }
        self.mode = AppMode::ThemePicker { original_index: self.theme_index };
    }

    /// Previews theme `index`.
    pub fn theme_picker_select(&mut self, index: usize)
        requires
            old(self).inv(),
            index < old(self).themes@.len(),
        ensures
            final(self).inv(),
            *final(self) == old(self).spec_select_theme(index),
    {
        self.theme_index = index;
        self.theme = self.themes[index].1;
    }

    /// Keeps the previewed theme and closes the picker. Returns the name of the
    /// chosen theme, to be saved in the configuration, if the picker was open.
    pub fn theme_picker_confirm(&mut self) -> (saved: Option<String>)
        requires
            old(self).inv(),
        ensures
            final(self).inv(),
            old(self).mode is ThemePicker ==> {
                &&& saved matches Some(name) && name@ == old(self).themes@[old(self).theme_index as int].0@
                &&& *final(self) == (AppState { mode: AppMode::Reader, ..*old(self) })
            },
            !(old(self).mode is ThemePicker) ==> saved is None && *final(self) == *old(self),
    {
        if let AppMode::ThemePicker { .. } = self.mode {
            let name = self.themes[self.theme_index].0.clone();
            self.mode = AppMode::Reader;
            Some(name)
        } else {
            None
        }
    }

    /// Goes back to the theme in use when the picker opened, and closes it.
    pub fn theme_picker_cancel(&mut self)
        requires
            old(self).inv(),
        ensures
            final(self).inv(),
            *final(self) == old(self).spec_cancel_theme(),
    {
        if let AppMode::ThemePicker { original_index } = self.mode {
            self.theme_index = original_index;
            self.theme = self.themes[original_index].1;
            self.mode = AppMode::Reader;
        }
    }

    /// Shows the key help; not over another popup.
    pub fn open_help(&mut self)
        ensures
            *final(self) == if old(self).modal() {
                *old(self)
            } else {
                AppState { mode: AppMode::Help, ..*old(self) }
            },
    {
        match self.mode {
            AppMode::ThemePicker { .. } | AppMode::Help => return,
            _ => {},
        }
        self.mode = AppMode::Help;
    }

    /// Closes the key help.
    pub fn close_help(&mut self)
        ensures
            *final(self) == if old(self).mode is Help {
                AppState { mode: AppMode::Reader, ..*old(self) }
            } else {
                *old(self)
            },
    {
        if let AppMode::Help = self.mode {
            self.mode = AppMode::Reader;
        }
    }
}

/// Opening the theme picker, previewing any themes, then cancelling puts the
/// theme back as it was and returns to the reader.
pub proof fn lemma_theme_preview_cancel(s: AppState, picks: Seq<usize>)
    requires
        s.inv(),
        !s.modal(),
        forall|k: int| 0 <= k < picks.len() ==> #[trigger] picks[k] < s.themes@.len(),
    ensures
        previewed(s.spec_open_theme_picker(), picks).spec_cancel_theme() == (AppState { mode: AppMode::Reader, ..s }),
{
    lemma_previewed(s.spec_open_theme_picker(), picks, s.theme_index);
}

/// The state after previewing the themes `picks` in turn.
pub open spec fn previewed(s: AppState, picks: Seq<usize>) -> AppState
    decreases picks.len(),
{
    if picks.len() == 0 {
        s
    } else {
        previewed(s, picks.drop_last()).spec_select_theme(picks.last())
    }
}

proof fn lemma_previewed(s: AppState, picks: Seq<usize>, orig: usize)
    requires
        s.mode == (AppMode::ThemePicker { original_index: orig }),
    ensures
        previewed(s, picks) == (AppState {
            theme_index: previewed(s, picks).theme_index,
            theme: previewed(s, picks).theme,
            ..s
        }),
    decreases picks.len(),
{
    if picks.len() > 0 {
        lemma_previewed(s, picks.drop_last(), orig);
    }
}

} // verus!

verus! {

impl Tab {
    /// Clears the search and the task filter and goes back to the top; returns
    /// whether there was any to clear (otherwise nothing changes).
    pub fn clear_filters(&mut self) -> (had: bool)
        ensures
            had == (old(self).search_query@.len() > 0 || old(self).filter_tasks),
            had ==> final(self).search_query@ == Seq::<char>::empty() && final(self).search_matches@ == Seq::<usize>::empty()
                && *final(self) == (Tab {
                search_query: final(self).search_query,
                search_matches: final(self).search_matches,
                search_current: 0,
                filter_tasks: false,
                cursor: 0,
                scroll: 0,
                ..*old(self)
            }),
            !had ==> *final(self) == *old(self),
    {
        let had = !self.search_query.as_str().is_empty() || self.filter_tasks;
        if had {
            self.search_query = String::new();
            self.search_matches = Vec::new();
            self.search_current = 0;
            self.filter_tasks = false;
            self.cursor = 0;
            self.scroll = 0;
        }
        had
    }

    /// Types `c` into the search query and searches again.
    pub fn type_query(&mut self, c: char)
        ensures
            final(self).search_query@ == old(self).search_query@.push(c),
            final(self).search_matches@ == search_hits(old(self).content@, final(self).search_query@),
            *final(self) == (Tab {
                search_query: final(self).search_query,
                search_matches: final(self).search_matches,
                search_current: 0,
                ..*old(self)
            }),
    {
        self.search_query = crate::browser::pushed(self.search_query.as_str(), c);
        self.update_search();
    }

    /// Deletes the search query's last character and searches again.
    pub fn erase_query(&mut self)
        ensures
            final(self).search_query@ == crate::browser::drop_last_char(old(self).search_query@),
            final(self).search_matches@ == search_hits(old(self).content@, final(self).search_query@),
            *final(self) == (Tab {
                search_query: final(self).search_query,
                search_matches: final(self).search_matches,
                search_current: 0,
                ..*old(self)
            }),
    {
        self.search_query = crate::browser::popped(self.search_query.as_str());
        self.update_search();
    }

    /// Whether the line under the cursor is a heading.
    pub open spec fn on_heading(&self) -> bool {
        match self.cursor_line() {
            Some(i) => i < self.lines_v().len() && self.lines_v()[i as int].is_heading,
            None => false,
        }
    }

    /// Enter in the reader: folds or unfolds the heading under the cursor.
    pub fn activate(&mut self)
        requires
            old(self).inv(),
        ensures
            final(self).inv(),
            old(self).on_heading() ==> match old(self).lines_v()[old(self).cursor_line()->0 as int].heading_text {
                Some(t) => final(self).folded() == toggled(old(self).folded(), t),
                None => final(self).folded() == old(self).folded(),
            },
            !old(self).on_heading() ==> *final(self) == *old(self),
            *final(self) == (Tab { folded_headings: final(self).folded_headings, ..*old(self) }),
    {
        let is_heading = match self.cursor_line_idx() {
            Some(i) => i < self.cached_lines.len() && self.cached_lines[i].is_heading,
            None => false,
        };
        if is_heading {
            self.toggle_fold();
        }
    }

    /// Takes the file's text as read again: where it differs from the content,
    /// replaces it and marks the tab updated. Returns whether it did.
    pub fn reload(&mut self, new_content: String) -> (changed: bool)
        ensures
            changed == (new_content@ != old(self).content@),
            changed ==> final(self).content@ == new_content@ && *final(self) == (Tab {
                content: final(self).content,
                file_updated: true,
                ..*old(self)
            }),
            !changed ==> *final(self) == *old(self),
    {
        if new_content != self.content {
            self.content = new_content;
            self.file_updated = true;
            true
        } else {
            false
        }
    }
}

impl AppState {
    /// Opens the file picker with its filter cleared; returns whether the
    /// collection of the repository's markdown files is to start.
    pub fn open_file_picker(&mut self) -> (start: bool)
        ensures
            final(self).mode == AppMode::FilePicker,
            final(self).browser.filter@ == Seq::<char>::empty(),
            final(self).browser.filtered_indices@ == crate::browser::all_indices(final(self).browser.entries@.len()),
            start == !(old(self).browser.loaded() || old(self).browser.pending()),
            final(self).browser.pending() == (old(self).browser.pending() || start),
            final(self).browser.loaded() == old(self).browser.loaded(),
            final(self).browser.entries == old(self).browser.entries,
            final(self).browser.selected == old(self).browser.selected,
            final(self).browser.scroll_offset == old(self).browser.scroll_offset,
            final(self).browser.current_dir == old(self).browser.current_dir,
            final(self).browser.recursive() == old(self).browser.recursive(),
            *final(self) == (AppState { mode: AppMode::FilePicker, browser: final(self).browser, ..*old(self) }),
    {
        self.browser.clear_filter();
        let start = self.browser.preload_recursive();
        self.mode = AppMode::FilePicker;
        start
    }

    /// Closes the file picker, clearing its filter.
    pub fn close_file_picker(&mut self)
        ensures
            final(self).mode == AppMode::Reader,
            final(self).browser.filter@ == Seq::<char>::empty(),
            final(self).browser.filtered_indices@ == crate::browser::all_indices(final(self).browser.entries@.len()),
            final(self).browser.entries == old(self).browser.entries,
            final(self).browser.selected == old(self).browser.selected,
            final(self).browser.scroll_offset == old(self).browser.scroll_offset,
            final(self).browser.current_dir == old(self).browser.current_dir,
            final(self).browser.recursive() == old(self).browser.recursive(),
            final(self).browser.loaded() == old(self).browser.loaded(),
            final(self).browser.pending() == old(self).browser.pending(),
            *final(self) == (AppState { mode: AppMode::Reader, browser: final(self).browser, ..*old(self) }),
    {
        self.browser.clear_filter();
        self.mode = AppMode::Reader;
    }

    /// Starts a search in the active tab.
    pub fn start_search(&mut self)
        requires
            old(self).inv(),
        ensures
            final(self).inv(),
            final(self).mode == AppMode::Search,
            final(self).active().search_query@ == Seq::<char>::empty(),
            final(self).active().search_matches@ == Seq::<usize>::empty(),
            final(self).active() == (Tab {
                search_query: final(self).active().search_query,
                search_matches: final(self).active().search_matches,
                search_current: 0,
                ..old(self).active()
            }),
            final(self).tabs@ == old(self).tabs@.update(old(self).active_tab as int, final(self).active()),
            *final(self) == (AppState { mode: AppMode::Search, tabs: final(self).tabs, ..*old(self) }),
    {
        let a = self.active_tab;
        let t = self.tab_mut();
        t.open_search();
        self.mode = AppMode::Search;
        proof {
            assert forall|i: int| 0 <= i < self.tabs@.len() implies #[trigger] self.tabs@[i].inv() by {
                if i != a {
                    assert(self.tabs@[i] == old(self).tabs@[i]);
                } else {
                    let o = old(self).tabs@[i];
                    let f = self.tabs@[i];
                    assert(old(self).tabs@[i].inv());
                    assert(f.folded_headings == o.folded_headings);
                    assert(f.cached_lines == o.cached_lines && f.cache_content == o.cache_content);
                    assert(f.cache_theme == o.cache_theme && f.cache_width == o.cache_width && f.cache_filter == o.cache_filter);
                }
            }
        }
    }

    /// Leaves the search, clearing it.
    pub fn cancel_search(&mut self)
        requires
            old(self).inv(),
        ensures
            final(self).inv(),
            final(self).mode == AppMode::Reader,
            final(self).active().search_query@ == Seq::<char>::empty(),
            final(self).active().search_matches@ == Seq::<usize>::empty(),
            final(self).active() == (Tab {
                search_query: final(self).active().search_query,
                search_matches: final(self).active().search_matches,
                search_current: 0,
                ..old(self).active()
            }),
            final(self).tabs@ == old(self).tabs@.update(old(self).active_tab as int, final(self).active()),
            *final(self) == (AppState { mode: AppMode::Reader, tabs: final(self).tabs, ..*old(self) }),
    {
        let a = self.active_tab;
        let t = self.tab_mut();
        t.close_search();
        self.mode = AppMode::Reader;
        proof {
            assert forall|i: int| 0 <= i < self.tabs@.len() implies #[trigger] self.tabs@[i].inv() by {
                if i != a {
                    assert(self.tabs@[i] == old(self).tabs@[i]);
                } else {
                    let o = old(self).tabs@[i];
                    let f = self.tabs@[i];
                    assert(old(self).tabs@[i].inv());
                    assert(f.folded_headings == o.folded_headings);
                    assert(f.cached_lines == o.cached_lines && f.cache_content == o.cache_content);
                    assert(f.cache_theme == o.cache_theme && f.cache_width == o.cache_width && f.cache_filter == o.cache_filter);
                }
            }
        }
    }

    /// Leaves the search at the first match in view.
    pub fn accept_search(&mut self)
        requires
            old(self).inv(),
        ensures
            final(self).inv(),
            final(self).mode == AppMode::Reader,
            final(self).active() == if old(self).active().search_matches@.len() == 0 {
                old(self).active()
            } else {
                old(self).active().at_match(first_match_from(old(self).active().search_matches@, old(self).active().scroll))
            },
            final(self).tabs@ == old(self).tabs@.update(old(self).active_tab as int, final(self).active()),
            *final(self) == (AppState { mode: AppMode::Reader, tabs: final(self).tabs, ..*old(self) }),
    {
        let a = self.active_tab;
        let t = self.tab_mut();
        t.search_first();
        self.mode = AppMode::Reader;
        proof {
            assert forall|i: int| 0 <= i < self.tabs@.len() implies #[trigger] self.tabs@[i].inv() by {
                if i != a {
                    assert(self.tabs@[i] == old(self).tabs@[i]);
                } else {
                    let o = old(self).tabs@[i];
                    let f = self.tabs@[i];
                    assert(old(self).tabs@[i].inv());
                    assert(f.folded_headings == o.folded_headings);
                    assert(f.cached_lines == o.cached_lines && f.cache_content == o.cache_content);
                    assert(f.cache_theme == o.cache_theme && f.cache_width == o.cache_width && f.cache_filter == o.cache_filter);
                }
            }
        }
    }

    /// Previews the next theme, wrapping around.
    pub fn next_theme(&mut self)
        requires
            old(self).inv(),
        ensures
            final(self).inv(),
            *final(self) == old(self).spec_select_theme(next_tab_index(old(self).theme_index, old(self).themes@.len())),
    {
        let n = self.themes.len();
        let next = (self.theme_index + 1) % n;
        self.theme_picker_select(next);
    }

    /// Previews the previous theme, wrapping around.
    pub fn prev_theme(&mut self)
        requires
            old(self).inv(),
        ensures
            final(self).inv(),
            *final(self) == old(self).spec_select_theme(prev_tab_index(old(self).theme_index, old(self).themes@.len())),
    {
        let n = self.themes.len();
        let prev = if self.theme_index == 0 {
            n - 1
        } else {
            self.theme_index - 1
        };
        self.theme_picker_select(prev);
    }

    /// Previews the first theme.
    pub fn first_theme(&mut self)
        requires
            old(self).inv(),
        ensures
            final(self).inv(),
            *final(self) == old(self).spec_select_theme(0),
    {
        self.theme_picker_select(0);
    }

    /// Previews the last theme.
    pub fn last_theme(&mut self)
        requires
            old(self).inv(),
        ensures
            final(self).inv(),
            *final(self) == old(self).spec_select_theme((old(self).themes@.len() - 1) as usize),
    {
        let last = self.themes.len() - 1;
        self.theme_picker_select(last);
    }
}

} // verus!

verus! {

/// One of the three task markers.
pub open spec fn is_marker(p: Seq<char>) -> bool {
    p == "- [ ] "@ || p == "- [x] "@ || p == "- [X] "@
}

/// A task marker starts at `i` of `line`.
pub open spec fn marker_at(line: Seq<char>, i: int) -> bool {
    occurs_at(line, "- [ ] "@, i) || occurs_at(line, "- [x] "@, i) || occurs_at(line, "- [X] "@, i)
}

/// The line holds exactly one task marker, and it is not the upper-case one.
pub open spec fn single_marker(line: Seq<char>) -> bool {
    exists|i: int|
        #[trigger] marker_at(line, i) && !occurs_at(line, "- [X] "@, i) && forall|j: int| j != i ==> !marker_at(line, j)
}

proof fn lemma_marker_chars(p: Seq<char>)
    requires
        is_marker(p),
    ensures
        p.len() == 6,
        p[0] == '-',
        forall|k: int| 1 <= k < 6 ==> p[k] != '-',
{
    reveal_strlit("- [ ] ");
    reveal_strlit("- [x] ");
    reveal_strlit("- [X] ");
}

/// A marker written at `i` leaves no other marker overlapping it.
proof fn lemma_no_overlap(s: Seq<char>, m: Seq<char>, i: int, p: Seq<char>, j: int)
    requires
        is_marker(m),
        is_marker(p),
        0 <= i,
        i + 6 <= s.len(),
        s.subrange(i, i + 6) == m,
        j != i,
        j - 6 < i < j + 6,
    ensures
        !occurs_at(s, p, j),
{
    lemma_marker_chars(m);
    lemma_marker_chars(p);
    if occurs_at(s, p, j) {
        if j > i {
            assert(s.subrange(i, i + 6)[j - i] == s[j]);
            assert(s.subrange(j, j + 6)[0] == s[j]);
        } else {
            assert(s.subrange(i, i + 6)[0] == s[i]);
            assert(s.subrange(j, j + 6)[i - j] == s[i]);
        }
    }
}

/// Where `p` occurs only at `i`, that is its first occurrence.
proof fn lemma_first_index_at(s: Seq<char>, p: Seq<char>, i: int)
    requires
        occurs_at(s, p, i),
        forall|j: int| j != i ==> !occurs_at(s, p, j),
    ensures
        first_index(s, p) == i,
{
    let c = first_index(s, p);
    assert(occurs_at(s, p, i) && forall|j: int| 0 <= j < i ==> !occurs_at(s, p, j));
}

/// Writing the marker `r` over the marker at `i` (the line's only one) leaves
/// `r` the only marker there.
proof fn lemma_rewrite_marker(line: Seq<char>, i: int, p: Seq<char>, r: Seq<char>)
    requires
        is_marker(p),
        is_marker(r),
        occurs_at(line, p, i),
        forall|j: int| j != i ==> !marker_at(line, j),
    ensures
        ({
            let l2 = line.take(i) + r + line.skip(i + 6);
            &&& l2.len() == line.len()
            &&& occurs_at(l2, r, i)
            &&& forall|j: int| j != i ==> !marker_at(l2, j)
            &&& l2.take(i) + p + l2.skip(i + 6) == line
        }),
{
    lemma_marker_chars(p);
    lemma_marker_chars(r);
    lemma_marker_chars("- [ ] "@);
    lemma_marker_chars("- [x] "@);
    lemma_marker_chars("- [X] "@);
    let l2 = line.take(i) + r + line.skip(i + 6);
    assert(l2.subrange(i, i + 6) =~= r);
    assert forall|j: int| j != i implies !marker_at(l2, j) by {
        if j - 6 < i < j + 6 {
            lemma_no_overlap(l2, r, i, "- [ ] "@, j);
            lemma_no_overlap(l2, r, i, "- [x] "@, j);
            lemma_no_overlap(l2, r, i, "- [X] "@, j);
        } else if 0 <= j && j + 6 <= l2.len() {
            assert(l2.subrange(j, j + 6) =~= line.subrange(j, j + 6));
            assert(!marker_at(line, j));
            assert(!occurs_at(l2, "- [ ] "@, j));
            assert(!occurs_at(l2, "- [x] "@, j));
            assert(!occurs_at(l2, "- [X] "@, j));
        }
    }
    assert(line.subrange(i, i + 6) == p);
    assert(l2.take(i) + p + l2.skip(i + 6) =~= line);
}

/// Only `i` can hold `p` where `i` is the line's only marker.
proof fn lemma_only_at(line: Seq<char>, p: Seq<char>, i: int)
    requires
        is_marker(p),
        forall|j: int| j != i ==> !marker_at(line, j),
    ensures
        forall|j: int| j != i ==> !occurs_at(line, p, j),
{
    assert forall|j: int| j != i implies !occurs_at(line, p, j) by {
        assert(!marker_at(line, j));
    }
}

/// The open and checked markers differ, so they never occur at the same place.
proof fn lemma_open_not_done(line: Seq<char>, i: int)
    requires
        occurs_at(line, "- [x] "@, i),
    ensures
        !occurs_at(line, "- [ ] "@, i),
{
    reveal_strlit("- [ ] ");
    reveal_strlit("- [x] ");
    assert(line.subrange(i, i + 6)[3] == 'x');
}

/// An open marker at `i`, the line's only marker: checking and reopening it gives the line back.
proof fn lemma_toggle_open_twice(line: Seq<char>, i: int)
    requires
        occurs_at(line, "- [ ] "@, i),
        forall|j: int| j != i ==> !marker_at(line, j),
    ensures
        toggled_marker(line) matches Some(l2) && toggled_marker(l2) == Some(line),
{
    let open = "- [ ] "@;
    let done = "- [x] "@;
    lemma_marker_chars(open);
    lemma_marker_chars(done);
    lemma_only_at(line, open, i);
    lemma_first_index_at(line, open, i);
    lemma_rewrite_marker(line, i, open, done);
    let l2 = line.take(i) + done + line.skip(i + 6);
    assert(contains_seq(line, open));
    assert(replace_first(line, open, done) == l2);
    assert(toggled_marker(line) == Some(l2));
    lemma_only_at(l2, open, i);
    lemma_only_at(l2, done, i);
    lemma_open_not_done(l2, i);
    assert(!contains_seq(l2, open));
    assert(contains_seq(l2, done));
    lemma_first_index_at(l2, done, i);
    assert(replace_first(l2, done, open) == line);
}

/// A checked marker at `i`, the line's only marker: reopening and checking it gives the line back.
proof fn lemma_toggle_done_twice(line: Seq<char>, i: int)
    requires
        occurs_at(line, "- [x] "@, i),
        forall|j: int| j != i ==> !marker_at(line, j),
    ensures
        toggled_marker(line) matches Some(l2) && toggled_marker(l2) == Some(line),
{
    let open = "- [ ] "@;
    let done = "- [x] "@;
    lemma_marker_chars(open);
    lemma_marker_chars(done);
    lemma_only_at(line, open, i);
    lemma_only_at(line, done, i);
    lemma_open_not_done(line, i);
    assert(!contains_seq(line, open));
    assert(contains_seq(line, done));
    lemma_first_index_at(line, done, i);
    lemma_rewrite_marker(line, i, done, open);
    let l2 = line.take(i) + open + line.skip(i + 6);
    assert(replace_first(line, done, open) == l2);
    assert(toggled_marker(line) == Some(l2));
    lemma_only_at(l2, open, i);
    assert(contains_seq(l2, open));
    lemma_first_index_at(l2, open, i);
    assert(replace_first(l2, open, done) == line);
}

/// Toggling the checkbox of a line with one task marker twice gives the line back.
pub proof fn lemma_toggle_marker_twice(line: Seq<char>)
    requires
        single_marker(line),
    ensures
        toggled_marker(line) matches Some(l2) && toggled_marker(l2) == Some(line),
{
    let i = choose|i: int|
        #[trigger] marker_at(line, i) && !occurs_at(line, "- [X] "@, i) && forall|j: int| j != i ==> !marker_at(line, j);
    if occurs_at(line, "- [ ] "@, i) {
        lemma_toggle_open_twice(line, i);
    } else {
        lemma_toggle_done_twice(line, i);
    }
}

} // verus!

verus! {

/// Where `p` occurs in `s`, it occurs at its first index.
proof fn lemma_first_index_occurs(s: Seq<char>, p: Seq<char>)
    requires
        contains_seq(s, p),
    ensures
        occurs_at(s, p, first_index(s, p)),
        0 <= first_index(s, p),
{
    let w = choose|i: int| occurs_at(s, p, i);
    crate::highlight::lemma_min_occ(s, p, 0, w);
}

/// A marker holds no newline and no `'\r'`.
proof fn lemma_marker_plain(m: Seq<char>)
    requires
        is_marker(m),
    ensures
        m.len() == 6,
        no_newline(m),
        no_cr(m),
{
    reveal_strlit("- [ ] ");
    reveal_strlit("- [x] ");
    reveal_strlit("- [X] ");
}

/// Writing six plain characters over six of a plain line keeps it plain and as long.
proof fn lemma_splice_plain(line: Seq<char>, i: int, r: Seq<char>)
    requires
        0 <= i,
        i + 6 <= line.len(),
        r.len() == 6,
        no_newline(line),
        no_cr(line),
        no_newline(r),
        no_cr(r),
    ensures
        (line.take(i) + r + line.skip(i + 6)).len() == line.len(),
        no_newline(line.take(i) + r + line.skip(i + 6)),
        no_cr(line.take(i) + r + line.skip(i + 6)),
{
    let nl = line.take(i) + r + line.skip(i + 6);
    assert forall|k: int| 0 <= k < nl.len() implies nl[k] != '\n' && nl[k] != '\r' by {
        if k < i {
            assert(nl[k] == line[k]);
        } else if k < i + 6 {
            assert(nl[k] == r[k - i]);
        } else {
            assert(nl[k] == line[k]);
        }
    }
}

/// Replacing a marker by another keeps a line's length and keeps it free of newlines and `'\r'`.
proof fn lemma_replace_plain(line: Seq<char>, p: Seq<char>, r: Seq<char>)
    requires
        no_newline(line),
        no_cr(line),
        contains_seq(line, p),
        p.len() == 6,
        r.len() == 6,
        no_newline(r),
        no_cr(r),
    ensures
        replace_first(line, p, r).len() == line.len(),
        no_newline(replace_first(line, p, r)),
        no_cr(replace_first(line, p, r)),
{
    lemma_first_index_occurs(line, p);
    let i = first_index(line, p);
    assert(i + 6 <= line.len());
    lemma_splice_plain(line, i, r);
}

/// Toggling a marker keeps a line's length and keeps it free of newlines and `'\r'`.
proof fn lemma_toggled_plain(line: Seq<char>)
    requires
        no_newline(line),
        no_cr(line),
        toggled_marker(line) is Some,
    ensures
        toggled_marker(line)->0.len() == line.len(),
        no_newline(toggled_marker(line)->0),
        no_cr(toggled_marker(line)->0),
{
    lemma_marker_plain("- [ ] "@);
    lemma_marker_plain("- [x] "@);
    lemma_marker_plain("- [X] "@);
    if contains_seq(line, "- [ ] "@) {
        lemma_replace_plain(line, "- [ ] "@, "- [x] "@);
    } else if contains_seq(line, "- [x] "@) {
        lemma_replace_plain(line, "- [x] "@, "- [ ] "@);
    } else {
        lemma_replace_plain(line, "- [X] "@, "- [ ] "@);
    }
}

/// Checking or reopening the task on source line `src` of a text without `'\r'`,
/// where that line holds one task marker: the text's lines are those lines with
/// `src` replaced, and doing it again gives the text back.
#[verifier::spinoff_prover]
#[verifier::rlimit(30)]
pub proof fn lemma_toggle_content_twice(c: Seq<char>, src: int)
    requires
        no_cr(c),
        0 <= src < lines(c).len(),
        single_marker(lines(c)[src]),
    ensures
        toggled_marker(lines(c)[src]) matches Some(nl) && {
            let c2 = with_line(c, src, nl);
            &&& lines(c2) == lines(c).update(src, nl)
            &&& toggled_marker(lines(c2)[src]) == Some(lines(c)[src])
            &&& with_line(c2, src, lines(c)[src]) == c
        },
{
    assert(c.len() > 0) by {
        if c.len() == 0 {
            assert(lines(c) == Seq::<Seq<char>>::empty());
        }
    }
    crate::text::lemma_join_lines_of(c);
    let ls = lines(c);
    let line0 = ls[src];
    assert(no_newline(line0) && no_cr(line0));
    lemma_toggle_marker_twice(line0);
    lemma_toggled_plain(line0);
    let nl = toggled_marker(line0)->0;
    let ls2 = ls.update(src, nl);
    assert(plain_lines(ls2)) by {
        assert forall|k: int| 0 <= k < ls2.len() implies no_newline(#[trigger] ls2[k]) && no_cr(ls2[k]) by {
            if k != src {
                assert(ls2[k] == ls[k]);
            }
        }
    }
    let marked = choose|i: int|
        #[trigger] marker_at(line0, i) && !occurs_at(line0, "- [X] "@, i) && forall|j: int| j != i ==> !marker_at(line0, j);
    lemma_marker_chars("- [ ] "@);
    lemma_marker_chars("- [x] "@);
    assert(line0.len() >= 6);
    let c2 = with_line(c, src, nl);
    assert(ls2.update(src, line0) =~= ls);
    if c.last() == '\n' {
        assert(c2 =~= join_lines(ls2) + seq!['\n']);
        crate::text::lemma_lines_join_nl(ls2);
        assert(final_newline(c2) == seq!['\n']);
        assert(with_line(c2, src, line0) =~= join_lines(ls) + seq!['\n']);
    } else {
        assert(c2 == join_lines(ls2));
        assert(ls2.last().len() > 0) by {
            if src == ls.len() - 1 {
                assert(ls2.last() == nl);
            } else {
                assert(ls2.last() == ls.last());
            }
        }
        crate::text::lemma_lines_join(ls2);
        assert(no_newline(ls2.last()));
        assert(c2.last() != '\n');
        assert(with_line(c2, src, line0) == join_lines(ls));
        assert(c =~= join_lines(ls));
    }
}

/// The source line of a tab's checkbox edit.
pub open spec fn edit_src(t: Tab) -> int {
    match t.checkbox_edit() {
        Some(e) => e.0,
        None => -1,
    }
}

/// The new text of that line.
pub open spec fn edit_line(t: Tab) -> Seq<char> {
    match t.checkbox_edit() {
        Some(e) => e.1,
        None => Seq::empty(),
    }
}

/// Toggling the checkbox twice on a line with one task marker (in content
/// without `'\r'`) gives the content back: the second toggle edits the same
/// source line, back to what it was.
pub proof fn lemma_toggle_checkbox_twice(t: Tab, t2: Tab)
    requires
        no_cr(t.content@),
        t.checkbox_edit() is Some,
        single_marker(lines(t.content@)[edit_src(t)]),
        t2.content@ == with_line(t.content@, edit_src(t), edit_line(t)),
        t2 == (Tab { content: t2.content, cache_content: None, ..t }),
    ensures
        t2.checkbox_edit() is Some,
        edit_src(t2) == edit_src(t),
        with_line(t2.content@, edit_src(t2), edit_line(t2)) == t.content@,
{
    let src = edit_src(t);
    lemma_toggle_content_twice(t.content@, src);
    assert(t2.visible() == t.visible());
    assert(t2.cursor_line() == t.cursor_line());
    assert(lines(t2.content@).len() == lines(t.content@).len());
}

} // verus!

verus! {

/// The match `k` places after `cur`, moving on one at a time.
pub open spec fn next_match_iter(cur: usize, n: nat, k: nat) -> usize
    decreases k,
{
    if k == 0 {
        cur
    } else {
        next_match(next_match_iter(cur, n, (k - 1) as nat), n)
    }
}

/// Moving to the next match `k` times lands `k` places on, wrapping around; so
/// `n` times comes back to the start.
pub proof fn lemma_next_match_cycles(cur: usize, n: nat, k: nat)
    requires
        cur < n <= usize::MAX,
    ensures
        next_match_iter(cur, n, k) == (cur + k) % (n as int),
        next_match_iter(cur, n, n) == cur,
{
    lemma_next_match_iter(cur, n, k);
    lemma_next_match_iter(cur, n, n);
    vstd::arithmetic::div_mod::lemma_mod_add_multiples_vanish(cur as int, n as int);
    vstd::arithmetic::div_mod::lemma_small_mod(cur as nat, n);
}

proof fn lemma_next_match_iter(cur: usize, n: nat, k: nat)
    requires
        cur < n <= usize::MAX,
    ensures
        next_match_iter(cur, n, k) == (cur + k) % (n as int),
    decreases k,
{
    if k > 0 {
        lemma_next_match_iter(cur, n, (k - 1) as nat);
        let x = (cur + k - 1) as int;
        vstd::arithmetic::div_mod::lemma_mod_bound(x, n as int);
        vstd::arithmetic::div_mod::lemma_add_mod_noop_right(1, x, n as int);
        vstd::arithmetic::div_mod::lemma_mod_bound(x + 1, n as int);
    } else {
        vstd::arithmetic::div_mod::lemma_small_mod(cur as nat, n);
    }
}

/// The headings among lines, in order.
pub open spec fn headings(ls: Seq<StyledLineView>) -> Seq<StyledLineView>
    decreases ls.len(),
{
    if ls.len() == 0 {
        seq![]
    } else if ls.last().is_heading {
        headings(ls.drop_last()).push(ls.last())
    } else {
        headings(ls.drop_last())
    }
}

/// A line the task filter may show: a heading, the blank separator, or an
/// unchecked task line.
pub open spec fn filter_kind(sl: StyledLineView) -> bool {
    sl.is_heading || sl == blank_line() || (sl.source_line is Some && is_unchecked_task(sl))
}

proof fn lemma_task_filter_fold(ls: Seq<StyledLineView>)
    requires
        forall|k: int| 0 <= k < ls.len() && #[trigger] ls[k].is_heading ==> !ls[k].is_blank,
    ensures
        forall|k: int| 0 <= k < task_filter_fold(ls).len() ==> filter_kind(#[trigger] task_filter_fold(ls)[k]),
        headings(task_filter_fold(ls)) == headings(ls),
        forall|k: int| 0 <= k < task_filter_fold(ls).len() && #[trigger] task_filter_fold(ls)[k].is_heading
            ==> !task_filter_fold(ls)[k].is_blank,
    decreases ls.len(),
{
    if ls.len() > 0 {
        let rest = ls.drop_last();
        assert forall|k: int| 0 <= k < rest.len() && #[trigger] rest[k].is_heading implies !rest[k].is_blank by {
            assert(rest[k] == ls[k]);
        }
        lemma_task_filter_fold(rest);
        let r = task_filter_fold(rest);
        let sl = ls.last();
        assert(!sl.is_heading || !sl.is_blank);
        if sl.is_heading {
            let r1 = if r.len() > 0 && !r.last().is_blank {
                r.push(blank_line())
            } else {
                r
            };
            assert(r.push(blank_line()).drop_last() =~= r);
            assert(headings(r.push(blank_line())) == headings(r));
            assert(headings(r1) == headings(r));
            assert(r1.push(sl).drop_last() =~= r1);
            assert(headings(r1.push(sl)) == headings(r).push(sl));
            assert(r1.push(sl).push(blank_line()).drop_last() =~= r1.push(sl));
            assert(headings(r1.push(sl).push(blank_line())) == headings(r1.push(sl)));
            assert(ls.drop_last() =~= rest);
            assert(headings(ls) == headings(rest).push(sl));
            assert forall|k: int| 0 <= k < r1.len() implies filter_kind(#[trigger] r1[k]) && (r1[k].is_heading ==> !r1[k].is_blank) by {
                if k < r.len() {
                    assert(r1[k] == r[k]);
                }
            }
        } else if sl.source_line is Some && is_unchecked_task(sl) {
            assert(r.push(sl).drop_last() =~= r);
            assert(headings(r.push(sl)) == headings(r));
        }
    }
}

/// The task filter view shows only headings, blank separators and unchecked
/// task lines, and every heading of the document, in order.
pub proof fn lemma_task_filter_kinds(ls: Seq<StyledLineView>)
    requires
        forall|k: int| 0 <= k < ls.len() && #[trigger] ls[k].is_heading ==> !ls[k].is_blank,
    ensures
        forall|k: int|
            0 <= k < spec_filter_task_lines(ls).len() ==> filter_kind(#[trigger] spec_filter_task_lines(ls)[k]),
        headings(spec_filter_task_lines(ls)) == headings(ls),
{
    lemma_task_filter_fold(ls);
    let f = task_filter_fold(ls);
    crate::markdown::lemma_trim_blank(f);
    let t = trim_blank(f);
    assert forall|k: int| 0 <= k < t.len() implies filter_kind(#[trigger] t[k]) by {
        assert(t[k] == f[k]);
    }
    lemma_headings_trim(f, t.len() as int);
}

/// Dropping trailing blank lines that are not headings keeps the headings.
proof fn lemma_headings_trim(f: Seq<StyledLineView>, n: int)
    requires
        0 <= n <= f.len(),
        forall|k: int| n <= k < f.len() ==> #[trigger] f[k].is_blank,
        forall|k: int| 0 <= k < f.len() && #[trigger] f[k].is_heading ==> !f[k].is_blank,
    ensures
        headings(f.take(n)) == headings(f),
    decreases f.len() - n,
{
    if n < f.len() {
        let g = f.drop_last();
        assert forall|k: int| n <= k < g.len() implies #[trigger] g[k].is_blank by {
            assert(g[k] == f[k]);
        }
        assert forall|k: int| 0 <= k < g.len() && #[trigger] g[k].is_heading implies !g[k].is_blank by {
            assert(g[k] == f[k]);
        }
        lemma_headings_trim(g, n);
        assert(g.take(n) =~= f.take(n));
        assert(f[f.len() - 1].is_blank);
        assert(!f.last().is_heading);
    } else {
        assert(f.take(n) =~= f);
    }
}

/// The mark a toggle writes over the mark `m`: `'x'` over `' '`, else `' '`.
pub open spec fn toggled_mark(m: char) -> char {
    if m == ' ' {
        'x'
    } else {
        ' '
    }
}

/// Replacing the marker `p` at `i` by the marker `r` that differs from it only
/// in the mark changes that one character.
proof fn lemma_marker_swap(line: Seq<char>, p: Seq<char>, r: Seq<char>, i: int)
    requires
        occurs_at(line, p, i),
        p.len() == 6,
        r.len() == 6,
        forall|q: int| 0 <= q < 6 && q != 3 ==> r[q] == p[q],
    ensures
        line.take(i) + r + line.skip(i + 6) == line.update(i + 3, r[3]),
        line[i + 3] == p[3],
{
    assert(line.subrange(i, i + 6) == p);
    assert(line[i + 3] == line.subrange(i, i + 6)[3]);
    assert(line.take(i) + r + line.skip(i + 6) =~= line.update(i + 3, r[3])) by {
        assert forall|q: int| 0 <= q < line.len() implies #[trigger] (line.take(i) + r + line.skip(i + 6))[q]
            == line.update(i + 3, r[3])[q] by {
            if i <= q < i + 6 {
                assert(line[q] == line.subrange(i, i + 6)[q - i]);
            }
        }
    }
}

/// Replacing the first marker `p` of `line` by `r`, which differs from it only
/// in the mark, changes that mark, at the returned position.
proof fn lemma_replace_marker(line: Seq<char>, p: Seq<char>, r: Seq<char>) -> (k: int)
    requires
        contains_seq(line, p),
        p.len() == 6,
        r.len() == 6,
        forall|q: int| 0 <= q < 6 && q != 3 ==> r[q] == p[q],
    ensures
        0 <= k < line.len(),
        line[k] == p[3],
        replace_first(line, p, r) == line.update(k, r[3]),
{
    lemma_first_index_occurs(line, p);
    let i = first_index(line, p);
    lemma_marker_swap(line, p, r, i);
    i + 3
}

/// The three markers and what toggling writes over each: they differ only in
/// the mark, the fourth character.
proof fn lemma_marker_marks()
    ensures
        "- [ ] "@.len() == 6 && "- [x] "@.len() == 6 && "- [X] "@.len() == 6,
        "- [ ] "@[3] == ' ' && "- [x] "@[3] == 'x' && "- [X] "@[3] == 'X',
        forall|q: int| 0 <= q < 6 && q != 3 ==> "- [x] "@[q] == "- [ ] "@[q] && "- [X] "@[q] == "- [ ] "@[q],
{
    reveal_strlit("- [ ] ");
    reveal_strlit("- [x] ");
    reveal_strlit("- [X] ");
}

/// A toggled line is the line with one character changed: the mark of its
/// first marker, at the returned position.
proof fn lemma_toggled_one_char(line: Seq<char>) -> (k: int)
    requires
        toggled_marker(line) is Some,
    ensures
        0 <= k < line.len(),
        line[k] == ' ' || line[k] == 'x' || line[k] == 'X',
        toggled_marker(line)->0 == line.update(k, toggled_mark(line[k])),
{
    lemma_marker_marks();
    if contains_seq(line, "- [ ] "@) {
        lemma_replace_marker(line, "- [ ] "@, "- [x] "@)
    } else if contains_seq(line, "- [x] "@) {
        lemma_replace_marker(line, "- [x] "@, "- [ ] "@)
    } else {
        lemma_replace_marker(line, "- [X] "@, "- [ ] "@)
    }
}

/// Toggling a checkbox changes one character of the file (where the file holds
/// no `'\r'`): the mark between the brackets of the task marker, `' '` to `'x'`,
/// or `'x'` or `'X'` to `' '`.
pub proof fn lemma_toggle_changes_one_char(t: Tab)
    requires
        no_cr(t.content@),
        t.checkbox_edit() is Some,
    ensures
        exists|p: int|
            0 <= p < t.content@.len() && (t.content@[p] == ' ' || t.content@[p] == 'x' || t.content@[p] == 'X')
                && with_line(t.content@, edit_src(t), edit_line(t)) == #[trigger] t.content@.update(
                p,
                toggled_mark(t.content@[p]),
            ),
{
    let c = t.content@;
    let src = edit_src(t);
    let ls = lines(c);
    assert(0 <= src < ls.len());
    let line = ls[src];
    let k = lemma_toggled_one_char(line);
    assert(edit_line(t) == line.update(k, toggled_mark(line[k])));
    if c.len() == 0 {
        assert(lines(c).len() == 0);
    }
    crate::text::lemma_join_lines_of(c);
    let p = crate::text::lemma_join_update(ls, src, k, toggled_mark(line[k]));
    let fnl = final_newline(c);
    assert(c == join_lines(ls) + fnl);
    assert(c[p] == join_lines(ls)[p]);
    let joined = join_lines(ls.update(src, edit_line(t)));
    assert(with_line(c, src, edit_line(t)) == joined + fnl);
    assert(joined + fnl =~= c.update(p, toggled_mark(c[p])));
}

/// A parent directory `parent`, or `"."` where there is none.
pub open spec fn spec_dir_or_dot(parent: Option<Seq<char>>) -> Seq<char> {
    match parent {
        Some(d) => d,
        None => "."@,
    }
}

/// The directory the picker starts on when reading the file at `p`: its parent,
/// or `"."` where the path has none.
pub open spec fn reader_dir_of(p: Seq<char>) -> Seq<char> {
    spec_dir_or_dot(crate::browser::path_parent(p))
}

/// The parent directory `parent`, or `"."` where there is none.
pub fn dir_or_dot(parent: Option<String>) -> (r: String)
    ensures
        r@ == spec_dir_or_dot(crate::markdown::opt_view(parent)),
{
    match parent {
        Some(d) => d,
        None => string_of(chars_of(".").as_slice()),
    }
}

/// The directory the picker starts on when reading the file at `file_path`.
pub fn reader_dir(file_path: &str) -> (r: String)
    ensures
        r@ == reader_dir_of(file_path@),
{
    dir_or_dot(crate::browser::parent_of(file_path))
}

/// The layout of the task filter view: it neither starts nor ends with a blank
/// line, never has two blank lines in a row, has a blank line after each
/// heading (unless the heading ends the view) and before each heading but the
/// first.
pub open spec fn task_view_layout(out: Seq<StyledLineView>) -> bool {
    &&& out.len() > 0 ==> !out[0].is_blank
    &&& out.len() > 0 ==> !out.last().is_blank
    &&& forall|k: int| 0 <= k < out.len() - 1 && #[trigger] out[k].is_blank ==> !out[k + 1].is_blank
    &&& forall|k: int| 0 <= k < out.len() - 1 && #[trigger] out[k].is_heading ==> out[k + 1] == blank_line()
    &&& forall|k: int| 0 < k < out.len() && #[trigger] out[k].is_heading ==> out[k - 1].is_blank
}

/// The layout of the lines folded so far (before trailing blanks are trimmed).
spec fn fold_layout(f: Seq<StyledLineView>) -> bool {
    &&& f.len() > 0 ==> !f[0].is_blank
    &&& forall|k: int| 0 <= k < f.len() - 1 && #[trigger] f[k].is_blank ==> !f[k + 1].is_blank
    &&& forall|k: int| 0 <= k < f.len() && #[trigger] f[k].is_heading ==> k + 1 < f.len() && f[k + 1] == blank_line()
    &&& forall|k: int| 0 < k < f.len() && #[trigger] f[k].is_heading ==> f[k - 1].is_blank
    &&& forall|k: int| 0 <= k < f.len() && #[trigger] f[k].is_heading ==> !f[k].is_blank
}

/// The lines the filter keeps as they are are not blank: headings and
/// unchecked task lines.
pub open spec fn shown_lines_unblank(ls: Seq<StyledLineView>) -> bool {
    forall|k: int|
        0 <= k < ls.len() && (ls[k].is_heading || (ls[k].source_line is Some && is_unchecked_task(ls[k])))
            ==> !(#[trigger] ls[k]).is_blank
}

proof fn lemma_fold_layout(ls: Seq<StyledLineView>)
    requires
        shown_lines_unblank(ls),
    ensures
        fold_layout(task_filter_fold(ls)),
    decreases ls.len(),
{
    if ls.len() > 0 {
        let rest = ls.drop_last();
        assert forall|k: int|
            0 <= k < rest.len() && (rest[k].is_heading || (rest[k].source_line is Some && is_unchecked_task(rest[k])))
                implies !(#[trigger] rest[k]).is_blank by {
            assert(rest[k] == ls[k]);
        }
        lemma_fold_layout(rest);
        let r = task_filter_fold(rest);
        let sl = ls.last();
        assert(sl == ls[ls.len() - 1]);
        let f = task_filter_fold(ls);
        assert(f == task_filter_step(r, sl));
        if sl.is_heading {
            assert(!sl.is_blank);
            let r1 = if r.len() > 0 && !r.last().is_blank {
                r.push(blank_line())
            } else {
                r
            };
            assert(f == r1.push(sl).push(blank_line()));
            let n = r1.len() as int;
            assert(f[n] == sl);
            assert(f[n + 1] == blank_line());
            assert forall|k: int| 0 <= k < n implies f[k] == r1[k] by {}
            assert forall|k: int| 0 <= k < r.len() implies r1[k] == r[k] by {}
            assert(n > 0 ==> r1[n - 1].is_blank);
            assert(fold_layout(f)) by {
                assert forall|k: int| 0 <= k < f.len() - 1 && #[trigger] f[k].is_blank implies !f[k + 1].is_blank by {
                    if k + 1 < r.len() {
                        assert(f[k] == r[k] && f[k + 1] == r[k + 1]);
                    } else if k + 1 == r.len() {
                        assert(f[k] == r[k]);
                    }
                }
                assert forall|k: int| 0 <= k < f.len() && #[trigger] f[k].is_heading implies k + 1 < f.len() && f[k + 1]
                    == blank_line() by {
                    if k < r.len() {
                        assert(f[k] == r[k]);
                        assert(f[k + 1] == r[k + 1]);
                    }
                }
                assert forall|k: int| 0 < k < f.len() && #[trigger] f[k].is_heading implies f[k - 1].is_blank by {
                    if k < r.len() {
                        assert(f[k] == r[k]);
                        assert(f[k - 1] == r[k - 1]);
                    }
                }
                assert forall|k: int| 0 <= k < f.len() && #[trigger] f[k].is_heading implies !f[k].is_blank by {
                    if k < r.len() {
                        assert(f[k] == r[k]);
                    }
                }
                if r.len() > 0 {
                    assert(f[0] == r[0]);
                }
            }
        } else if sl.source_line is Some && is_unchecked_task(sl) {
            assert(!sl.is_blank);
            assert(f == r.push(sl));
            assert forall|k: int| 0 <= k < r.len() implies f[k] == r[k] by {}
            assert(fold_layout(f)) by {
                assert forall|k: int| 0 <= k < f.len() - 1 && #[trigger] f[k].is_blank implies !f[k + 1].is_blank by {
                    if k + 1 < r.len() {
                        assert(f[k] == r[k] && f[k + 1] == r[k + 1]);
                    }
                }
                assert forall|k: int| 0 <= k < f.len() && #[trigger] f[k].is_heading implies k + 1 < f.len() && f[k + 1]
                    == blank_line() by {
                    if k < r.len() {
                        assert(f[k] == r[k]);
                        assert(f[k + 1] == r[k + 1]);
                    }
                }
                assert forall|k: int| 0 < k < f.len() && #[trigger] f[k].is_heading implies f[k - 1].is_blank by {
                    if k < r.len() {
                        assert(f[k] == r[k]);
                        assert(f[k - 1] == r[k - 1]);
                    }
                }
                assert forall|k: int| 0 <= k < f.len() && #[trigger] f[k].is_heading implies !f[k].is_blank by {
                    if k < r.len() {
                        assert(f[k] == r[k]);
                    }
                }
                if r.len() > 0 {
                    assert(f[0] == r[0]);
                }
            }
        } else {
            assert(f == r);
        }
    }
}

/// The task filter view is laid out as `task_view_layout` says, where the
/// headings and unchecked task lines it keeps are not blank lines themselves.
pub proof fn lemma_task_view_layout(ls: Seq<StyledLineView>)
    requires
        shown_lines_unblank(ls),
    ensures
        task_view_layout(spec_filter_task_lines(ls)),
{
    lemma_fold_layout(ls);
    let f = task_filter_fold(ls);
    crate::markdown::lemma_trim_blank(f);
    let t = trim_blank(f);
    assert forall|k: int| 0 <= k < t.len() implies t[k] == f[k] by {}
    assert(t.len() > 0 ==> t[0] == f[0]);
    assert forall|k: int| 0 <= k < t.len() - 1 && #[trigger] t[k].is_blank implies !t[k + 1].is_blank by {
        assert(t[k] == f[k] && t[k + 1] == f[k + 1]);
    }
    assert forall|k: int| 0 <= k < t.len() - 1 && #[trigger] t[k].is_heading implies t[k + 1] == blank_line() by {
        assert(t[k] == f[k] && t[k + 1] == f[k + 1]);
    }
    assert forall|k: int| 0 < k < t.len() && #[trigger] t[k].is_heading implies t[k - 1].is_blank by {
        assert(t[k] == f[k] && t[k - 1] == f[k - 1]);
    }
}

/// The scroll position after scrolling the view of `t` by `n` lines: down to
/// at most the last full page, or up to at least the top.
pub open spec fn scrolled_to(t: Tab, n: usize, down: bool) -> usize {
    let max_scroll = sat_sub(t.total_lines, t.visible_height);
    if down {
        min_usize(if t.scroll + n > usize::MAX { usize::MAX as int } else { t.scroll + n }, max_scroll as int)
    } else {
        sat_sub(t.scroll, n)
    }
}

/// The tab after scrolling its view by `n` lines: the cursor is moved into the
/// new view (to its first or last line) where it fell outside.
pub open spec fn viewport_scrolled(t: Tab, n: usize, down: bool) -> Tab {
    let s = scrolled_to(t, n, down);
    let c = if t.cursor < s {
        s
    } else if t.cursor >= s + t.visible_height {
        (s + t.visible_height - 1) as usize
    } else {
        t.cursor
    };
    Tab { scroll: s, cursor: c, ..t }
}

/// The states in which scrolling the view by `n` lines does not overflow.
pub open spec fn viewport_fits(t: Tab, n: usize, down: bool) -> bool {
    let s = scrolled_to(t, n, down);
    t.cursor >= s ==> s + t.visible_height <= usize::MAX && (t.cursor >= s + t.visible_height ==> s
        + t.visible_height >= 1)
}

/// Line `j` is a heading whose fold is on.
pub open spec fn folds_at(ls: Seq<StyledLineView>, folded: Set<Seq<char>>, j: int) -> bool {
    &&& 0 <= j < ls.len()
    &&& ls[j].heading_level is Some
    &&& ls[j].heading_text matches Some(t) && folded.contains(t)
}

/// The folded heading `j`'s section is still open before line `n`: every
/// heading between them is deeper than it.
pub open spec fn fold_open(ls: Seq<StyledLineView>, folded: Set<Seq<char>>, j: int, n: int) -> bool {
    &&& folds_at(ls, folded, j)
    &&& j < n
    &&& forall|k: int|
        j < k < n && (#[trigger] ls[k]).heading_level is Some ==> ls[k].heading_level->0 > ls[j].heading_level->0
}

/// The folded heading `j`'s section holds line `i`.
pub open spec fn covers(ls: Seq<StyledLineView>, folded: Set<Seq<char>>, j: int, i: int) -> bool {
    &&& fold_open(ls, folded, j, i)
    &&& ls[i].heading_level is Some ==> ls[i].heading_level->0 > ls[j].heading_level->0
}

/// Line `i` lies in the section of some folded heading.
pub open spec fn in_folded_section(ls: Seq<StyledLineView>, folded: Set<Seq<char>>, i: int) -> bool {
    exists|j: int| #[trigger] covers(ls, folded, j, i)
}

/// A blank line that is not a heading: the only kind a fold may leave shown.
pub open spec fn blank_text_line(sl: StyledLineView) -> bool {
    sl.heading_level is None && sl.is_blank
}

/// What the fold over the first `n` lines has kept track of.
spec fn fold_state_ok(ls: Seq<StyledLineView>, folded: Set<Seq<char>>, n: int) -> bool {
    let (idx, skip, kept) = visible_fold(ls.take(n), folded);
    &&& (skip is None <==> !exists|j: int| #[trigger] fold_open(ls, folded, j, n))
    &&& skip is Some ==> (exists|j: int| #[trigger] fold_open(ls, folded, j, n) && ls[j].heading_level->0 == skip->0)
    &&& skip is Some ==> forall|j: int| #[trigger] fold_open(ls, folded, j, n) ==> ls[j].heading_level->0 >= skip->0
    &&& forall|x: int| 0 <= x < idx.len() ==> #[trigger] idx[x] < n
    &&& forall|i: int| 0 <= i < n && !in_folded_section(ls, folded, i) ==> #[trigger] idx.contains(i as usize)
    &&& forall|i: int|
        0 <= i < n && in_folded_section(ls, folded, i) && !blank_text_line(ls[i]) ==> !(#[trigger] idx.contains(
            i as usize,
        ))
}

#[verifier::rlimit(60)]
#[verifier::spinoff_prover]
proof fn lemma_fold_state(ls: Seq<StyledLineView>, folded: Set<Seq<char>>, n: int)
    requires
        0 <= n <= ls.len(),
        ls.len() <= usize::MAX,
    ensures
        fold_state_ok(ls, folded, n),
    decreases n,
{
    if n == 0 {
        assert(ls.take(0) =~= Seq::<StyledLineView>::empty());
        assert(!exists|j: int| #[trigger] fold_open(ls, folded, j, 0));
    } else {
        let m = n - 1;
        lemma_fold_state(ls, folded, m);
        assert(ls.take(n).drop_last() =~= ls.take(m));
        assert(ls.take(n).last() == ls[m]);
        let (idx, skip, kept) = visible_fold(ls.take(m), folded);
        let sl = ls[m];
        let st = visible_fold(ls.take(n), folded);
        assert(st == visible_step((idx, skip, kept), m, sl, folded));
        let (idx2, skip2, kept2) = st;
        if sl.heading_level is Some {
            let lv = sl.heading_level->0;
            if skip is Some && lv > skip->0 {
                let j0 = choose|j: int| #[trigger] fold_open(ls, folded, j, m) && ls[j].heading_level->0 == skip->0;
                assert(covers(ls, folded, j0, m));
                assert(in_folded_section(ls, folded, m));
                assert(st == (idx, skip, kept));
                assert(fold_open(ls, folded, j0, n));
                assert forall|j: int| #[trigger] fold_open(ls, folded, j, n) implies ls[j].heading_level->0 >= skip->0 by {
                    if j < m {
                        assert(fold_open(ls, folded, j, m));
                    }
                }
                assert(!idx.contains(m as usize));
                assert(skip2 is Some);
                assert(exists|j: int| #[trigger] fold_open(ls, folded, j, n));
            } else {
                assert(idx2 == idx.push(m as usize));
                assert forall|j: int| #![trigger fold_open(ls, folded, j, m)] fold_open(ls, folded, j, m) implies ls[j].heading_level->0
                    >= lv by {
                    assert(skip is Some);
                }
                assert(!in_folded_section(ls, folded, m)) by {
                    if in_folded_section(ls, folded, m) {
                        let j = choose|j: int| #[trigger] covers(ls, folded, j, m);
                        assert(fold_open(ls, folded, j, m));
                    }
                }
                assert forall|j: int| #[trigger] fold_open(ls, folded, j, n) implies j == m by {
                    if j < m {
                        assert(fold_open(ls, folded, j, m));
                    }
                }
                if folds_at(ls, folded, m) {
                    assert(fold_open(ls, folded, m, n));
                    assert(skip2 == Some(lv));
                    assert(exists|j: int| #[trigger] fold_open(ls, folded, j, n));
                    assert(forall|j: int| #[trigger] fold_open(ls, folded, j, n) ==> ls[j].heading_level->0 >= lv);
                } else {
                    assert(!exists|j: int| #[trigger] fold_open(ls, folded, j, n));
                    assert(skip2 is None);
                }
                assert forall|i: int| 0 <= i < n && !in_folded_section(ls, folded, i) implies #[trigger] idx2.contains(
                    i as usize,
                ) by {
                    if i < m {
                        assert(idx.contains(i as usize));
                        let x = choose|x: int| 0 <= x < idx.len() && idx[x] == i as usize;
                        assert(idx2[x] == i as usize);
                    } else {
                        assert(idx2[idx.len() as int] == m as usize);
                    }
                }
                assert forall|i: int|
                    0 <= i < n && in_folded_section(ls, folded, i) && !blank_text_line(ls[i]) implies !(#[trigger] idx2.contains(
                    i as usize,
                )) by {
                    assert(i < m);
                    assert(!idx.contains(i as usize));
                    if idx2.contains(i as usize) {
                        let x = choose|x: int| 0 <= x < idx2.len() && idx2[x] == i as usize;
                        if x < idx.len() {
                            assert(idx[x] == i as usize);
                        }
                    }
                }
            }
        } else {
            assert(!folds_at(ls, folded, m));
            assert forall|j: int| fold_open(ls, folded, j, n) <==> #[trigger] fold_open(ls, folded, j, m) by {}
            assert(skip2 == skip);
            assert(skip is None <==> !exists|j: int| #[trigger] fold_open(ls, folded, j, m));
            assert(skip2 is None <==> !exists|j: int| #[trigger] fold_open(ls, folded, j, n)) by {
                if skip is Some {
                    let j0 = choose|j: int| #[trigger] fold_open(ls, folded, j, m) && ls[j].heading_level->0 == skip->0;
                    assert(fold_open(ls, folded, j0, n));
                }
                if exists|j: int| #[trigger] fold_open(ls, folded, j, n) {
                    let j = choose|j: int| #[trigger] fold_open(ls, folded, j, n);
                    assert(fold_open(ls, folded, j, m));
                }
            }
            assert(skip is Some ==> forall|j: int| #[trigger] fold_open(ls, folded, j, n) ==> ls[j].heading_level->0 >= skip->0) by {
                assert forall|j: int| skip is Some && #[trigger] fold_open(ls, folded, j, n) implies ls[j].heading_level->0 >= skip->0 by {
                    assert(fold_open(ls, folded, j, m));
                }
            }
            assert(in_folded_section(ls, folded, m) <==> skip is Some) by {
                if skip is Some {
                    let j0 = choose|j: int| #[trigger] fold_open(ls, folded, j, m) && ls[j].heading_level->0 == skip->0;
                    assert(covers(ls, folded, j0, m));
                }
                if in_folded_section(ls, folded, m) {
                    let j = choose|j: int| #[trigger] covers(ls, folded, j, m);
                    assert(fold_open(ls, folded, j, m));
                }
            }
            assert(idx2 == idx || idx2 == idx.push(m as usize));
            assert(idx2 == idx.push(m as usize) ==> idx2[idx.len() as int] == m as usize);
            assert(skip is None ==> idx2 == idx.push(m as usize));
            assert(idx2 == idx.push(m as usize) ==> !in_folded_section(ls, folded, m) || blank_text_line(sl));
            assert(!idx.contains(m as usize));
            assert forall|i: int| 0 <= i < n && !in_folded_section(ls, folded, i) implies #[trigger] idx2.contains(
                i as usize,
            ) by {
                if i < m {
                    assert(idx.contains(i as usize));
                    let x = choose|x: int| 0 <= x < idx.len() && idx[x] == i as usize;
                    assert(idx2[x] == i as usize);
                }
            }
            assert forall|i: int|
                0 <= i < n && in_folded_section(ls, folded, i) && !blank_text_line(ls[i]) implies !(#[trigger] idx2.contains(
                i as usize,
            )) by {
                if idx2.contains(i as usize) {
                    let x = choose|x: int| 0 <= x < idx2.len() && idx2[x] == i as usize;
                    if x < idx.len() {
                        assert(idx[x] == i as usize);
                        assert(idx.contains(i as usize));
                    }
                }
            }
            assert forall|x: int| 0 <= x < idx2.len() implies #[trigger] idx2[x] < n by {
                if x < idx.len() {
                    assert(idx2[x] == idx[x]);
                }
            }
        }
    }
}

/// Which lines a fold hides: a line outside every folded heading's section is
/// shown; a line inside one (the section of a folded heading runs to the next
/// heading that is not deeper) is hidden, unless it is a blank line, of which
/// the reader keeps one as a separator.
pub proof fn lemma_fold_hides(ls: Seq<StyledLineView>, folded: Set<Seq<char>>)
    requires
        ls.len() <= usize::MAX,
    ensures
        forall|i: int|
            0 <= i < ls.len() && !in_folded_section(ls, folded, i) ==> #[trigger] spec_visible(ls, folded).contains(
                i as usize,
            ),
        forall|i: int|
            0 <= i < ls.len() && in_folded_section(ls, folded, i) && !blank_text_line(ls[i]) ==> !(
            #[trigger] spec_visible(ls, folded).contains(i as usize)),
{
    lemma_fold_state(ls, folded, ls.len() as int);
    assert(ls.take(ls.len() as int) =~= ls);
}

/// What `hits_upto` finds among the first `k` lines: the lines containing `q`
/// once lowercased, each once, in increasing order.
proof fn lemma_hits_upto(ls: Seq<Seq<char>>, q: Seq<char>, k: int)
    requires
        0 <= k <= ls.len(),
        ls.len() <= usize::MAX,
    ensures
        forall|x: int| 0 <= x < hits_upto(ls, q, k).len() ==> #[trigger] hits_upto(ls, q, k)[x] < k,
        forall|a: int, b: int|
            0 <= a < b < hits_upto(ls, q, k).len() ==> #[trigger] hits_upto(ls, q, k)[a] < #[trigger] hits_upto(ls, q, k)[b],
        forall|i: int|
            0 <= i < k ==> (#[trigger] hits_upto(ls, q, k).contains(i as usize) <==> contains_seq(lowercase(ls[i]), q)),
    decreases k,
{
    if k > 0 {
        lemma_hits_upto(ls, q, k - 1);
        let r = hits_upto(ls, q, k - 1);
        let h = hits_upto(ls, q, k);
        assert forall|i: int| 0 <= i < k implies (#[trigger] h.contains(i as usize) <==> contains_seq(lowercase(ls[i]), q)) by {
            if i < k - 1 {
                assert(r.contains(i as usize) <==> contains_seq(lowercase(ls[i]), q));
                if h.contains(i as usize) {
                    let x = choose|x: int| 0 <= x < h.len() && h[x] == i as usize;
                    if x < r.len() {
                        assert(r[x] == h[x]);
                    }
                }
                if r.contains(i as usize) {
                    let x = choose|x: int| 0 <= x < r.len() && r[x] == i as usize;
                    assert(h[x] == r[x]);
                }
            } else {
                if contains_seq(lowercase(ls[i]), q) {
                    assert(h[r.len() as int] == i as usize);
                } else {
                    if h.contains(i as usize) {
                        let x = choose|x: int| 0 <= x < h.len() && h[x] == i as usize;
                        assert(r[x] < k - 1);
                    }
                }
            }
        }
        assert forall|x: int| 0 <= x < h.len() implies #[trigger] h[x] < k by {
            if x < r.len() {
                assert(h[x] == r[x]);
            }
        }
        assert forall|a: int, b: int| 0 <= a < b < h.len() implies #[trigger] h[a] < #[trigger] h[b] by {
            assert(h[a] == r[a]);
            if b < r.len() {
                assert(h[b] == r[b]);
            }
        }
    }
}

/// Search ignores case on both sides: for a non-empty query, a source line is a
/// match exactly when its lowercase form contains the lowercase query; the
/// matches are source lines, each once, in document order. An empty query
/// matches nothing.
pub proof fn lemma_search_matches_ignore_case(content: Seq<char>, query: Seq<char>)
    requires
        lines(content).len() <= usize::MAX,
    ensures
        query.len() == 0 ==> search_hits(content, query).len() == 0,
        query.len() > 0 ==> forall|i: int|
            0 <= i < lines(content).len() ==> (#[trigger] search_hits(content, query).contains(i as usize)
                <==> contains_seq(lowercase(lines(content)[i]), lowercase(query))),
        forall|x: int|
            0 <= x < search_hits(content, query).len() ==> #[trigger] search_hits(content, query)[x] < lines(
                content,
            ).len(),
        forall|a: int, b: int|
            0 <= a < b < search_hits(content, query).len() ==> #[trigger] search_hits(content, query)[a]
                < #[trigger] search_hits(content, query)[b],
{
    if query.len() > 0 {
        lemma_hits_upto(lines(content), lowercase(query), lines(content).len() as int);
    }
}

} // verus!
