//! Search highlighting: the matches of a query in a line, found in the
//! lowercase text and cut from the original text at the same byte offsets.
use vstd::prelude::*;
use crate::style::{Line, Span, SpanView, Style, spans_view};
use crate::text::{
    byte_len, char_utf8_width, chars_of, is_char_boundary, lemma_byte_len_step, lemma_byte_len_take_mono,
    lowercase, matches_at, occurs_at, string_of, sub_chars, to_lowercase, utf8_width,
};
use crate::theme::Theme;

verus! {

/// The character index of `s` at which byte offset `k` falls (where it falls between characters).
pub open spec fn char_at_byte(s: Seq<char>, k: int) -> int {
    choose|j: int| 0 <= j <= s.len() && byte_len(#[trigger] s.take(j)) == k
}

/// Byte offsets grow strictly with the character index.
pub proof fn lemma_byte_len_strict(s: Seq<char>, i: int, j: int)
    requires
        0 <= i < j <= s.len(),
    ensures
        byte_len(s.take(i)) < byte_len(s.take(j)),
{
    lemma_byte_len_take_mono(s, i, j);
}

/// The index at a boundary is the one `char_at_byte` names.
pub proof fn lemma_char_at_byte(s: Seq<char>, j: int, k: int)
    requires
        0 <= j <= s.len(),
        byte_len(s.take(j)) == k,
    ensures
        char_at_byte(s, k) == j,
        is_char_boundary(s, k),
{
    let c = char_at_byte(s, k);
    assert(0 <= c <= s.len() && byte_len(s.take(c)) == k);
    if c < j {
        lemma_byte_len_strict(s, c, j);
    }
    if j < c {
        lemma_byte_len_strict(s, j, c);
    }
}

/// The first index, from `from` on, at which `p` occurs in `s`.
pub open spec fn first_occ_from(s: Seq<char>, p: Seq<char>, from: int) -> Option<int> {
    if exists|i: int| from <= i && #[trigger] occurs_at(s, p, i) {
        Some(
            choose|i: int|
                from <= i && #[trigger] occurs_at(s, p, i) && forall|k: int| from <= k < i ==> !occurs_at(s, p, k),
        )
    } else {
        None
    }
}

/// The end of a span from byte offset `start`, where no match is left: the rest
/// of `t` in `style`; `None` where `start` falls inside a character.
pub open spec fn hl_tail(t: Seq<char>, start: nat, style: Style) -> Option<Seq<SpanView>> {
    if start < byte_len(t) {
        if is_char_boundary(t, start as int) {
            Some(seq![SpanView { content: t.skip(char_at_byte(t, start as int)), style }])
        } else {
            None
        }
    } else {
        Some(Seq::<SpanView>::empty())
    }
}

/// The pieces for a match at character `j` of the lowercase text `lc`, looked
/// for from byte offset `start`: the text of `t` before it (if any) in `style`
/// and the `qlen` bytes of `t` at the match's byte offset in `hstyle`, with the
/// byte offset after the match; `None` where a cut falls inside a character or
/// past the end, or the offset after the match does not fit in `usize` or does
/// not fall between characters of `lc`.
pub open spec fn hl_cut(
    t: Seq<char>,
    lc: Seq<char>,
    j: int,
    start: nat,
    qlen: nat,
    style: Style,
    hstyle: Style,
) -> Option<(Seq<SpanView>, nat)> {
    let abs = byte_len(lc.take(j));
    let end = abs + qlen;
    if end > usize::MAX || end > byte_len(t) || !is_char_boundary(t, abs as int) || !is_char_boundary(t, end as int)
        || (abs > start && !is_char_boundary(t, start as int)) || end > byte_len(lc) || !is_char_boundary(
        lc,
        end as int,
    ) {
        None
    } else {
        let before = if abs > start {
            seq![SpanView { content: t.subrange(char_at_byte(t, start as int), char_at_byte(t, abs as int)), style }]
        } else {
            Seq::<SpanView>::empty()
        };
        let hit = SpanView { content: t.subrange(char_at_byte(t, abs as int), char_at_byte(t, end as int)), style: hstyle };
        Some((before + seq![hit], end as nat))
    }
}

/// What the first occurrence is: at or after `from`, within `s`, with none before it.
pub proof fn lemma_first_occ_props(s: Seq<char>, p: Seq<char>, from: int)
    ensures
        first_occ_from(s, p, from) matches Some(i) ==> from <= i <= s.len() && occurs_at(s, p, i)
            && forall|k: int| from <= k < i ==> !occurs_at(s, p, k),
{
    if exists|i: int| from <= i && #[trigger] occurs_at(s, p, i) {
        let w = choose|i: int| from <= i && #[trigger] occurs_at(s, p, i);
        lemma_min_occ(s, p, from, w);
    }
}

/// Where `p` occurs at or after `from`, there is a first such index.
pub proof fn lemma_min_occ(s: Seq<char>, p: Seq<char>, from: int, w: int)
    requires
        from <= w,
        occurs_at(s, p, w),
    ensures
        exists|i: int|
            from <= i && #[trigger] occurs_at(s, p, i) && forall|k: int| from <= k < i ==> !occurs_at(s, p, k),
    decreases w - from,
{
    if exists|k: int| from <= k < w && occurs_at(s, p, k) {
        let k = choose|k: int| from <= k < w && occurs_at(s, p, k);
        lemma_min_occ(s, p, from, k);
    } else {
        assert(from <= w && occurs_at(s, p, w) && forall|k: int| from <= k < w ==> !occurs_at(s, p, k));
    }
}

/// The pieces of a span with text `t` (lowercase `lc`) from byte offset `start`
/// on: each match of the lowercase query `lq` in `lc` is cut from `t` at the same
/// byte offsets, `qlen` bytes long, in `hstyle`, and the text around it keeps
/// `style`; `None` where slicing the strings would panic.
#[verifier::opaque]
pub open spec fn hl_from(
    t: Seq<char>,
    lc: Seq<char>,
    lq: Seq<char>,
    qlen: nat,
    style: Style,
    hstyle: Style,
    start: nat,
) -> Option<Seq<SpanView>>
    decreases byte_len(lc) - start,
{
    if start > byte_len(lc) || !is_char_boundary(lc, start as int) || qlen == 0 {
        None
    } else {
        match first_occ_from(lc, lq, char_at_byte(lc, start as int)) {
            Some(j) => match hl_cut(t, lc, j, start, qlen, style, hstyle) {
                Some(cut) => {
                    proof {
                        lemma_cut_advances(t, lc, lq, j, start, qlen, style, hstyle);
                    }
                    match hl_from(t, lc, lq, qlen, style, hstyle, cut.1) {
                        Some(rest) => Some(cut.0 + rest),
                        None => None,
                    }
                },
                None => None,
            },
            None => hl_tail(t, start, style),
        }
    }
}

/// A match found from a boundary `start` ends after `start`: highlighting moves on.
pub proof fn lemma_cut_advances(
    t: Seq<char>,
    lc: Seq<char>,
    lq: Seq<char>,
    j: int,
    start: nat,
    qlen: nat,
    style: Style,
    hstyle: Style,
)
    requires
        start <= byte_len(lc),
        is_char_boundary(lc, start as int),
        qlen > 0,
        first_occ_from(lc, lq, char_at_byte(lc, start as int)) == Some(j),
        hl_cut(t, lc, j, start, qlen, style, hstyle) is Some,
    ensures
        hl_cut(t, lc, j, start, qlen, style, hstyle) matches Some(cut) && start < cut.1 <= byte_len(lc),
{
    let c = char_at_byte(lc, start as int);
    assert(0 <= c <= lc.len() && byte_len(lc.take(c)) == start);
    lemma_first_occ_props(lc, lq, c);
    if c < j {
        lemma_byte_len_strict(lc, c, j);
    }
}

/// A span with the matches of query `q` highlighted.
pub open spec fn hl_span(s: SpanView, q: Seq<char>, hstyle: Style) -> Option<Seq<SpanView>> {
    hl_from(s.content, lowercase(s.content), lowercase(q), byte_len(q), s.style, hstyle, 0)
}

/// A line with the matches of query `q` highlighted in each span.
pub open spec fn hl_line(spans: Seq<SpanView>, q: Seq<char>, hstyle: Style) -> Option<Seq<SpanView>>
    decreases spans.len(),
{
    if spans.len() == 0 {
        Some(Seq::<SpanView>::empty())
    } else {
        match (hl_line(spans.drop_last(), q, hstyle), hl_span(spans.last(), q, hstyle)) {
            (Some(a), Some(b)) => Some(a + b),
            _ => None,
        }
    }
}

/// Bright text on the accent color, in bold: how a match is drawn.
pub open spec fn match_style(theme: Theme) -> Style {
    Style { fg: Some(theme.text_bright), bg: Some(theme.accent), bold: true, ..Style::plain() }
}

/// Where byte offset `k` falls in `s`.
enum BytePos {
    /// Between characters, before character `j`.
    At(usize),
    /// Inside a character.
    Inside,
    /// Past the end.
    Beyond,
}

fn byte_pos(s: &Vec<char>, k: usize) -> (r: BytePos)
    ensures
        match r {
            BytePos::At(j) => j <= s@.len() && byte_len(s@.take(j as int)) == k,
            BytePos::Inside => k < byte_len(s@) && !is_char_boundary(s@, k as int),
            BytePos::Beyond => k > byte_len(s@) && !is_char_boundary(s@, k as int),
        },
{
    let n = s.len();
    let mut total: usize = 0;
    let mut j: usize = 0;
    assert(s@.take(0) =~= Seq::<char>::empty());
    while j < n && total < k
        invariant
            n == s@.len(),
            0 <= j <= n,
            total <= k,
            total == byte_len(s@.take(j as int)),
        decreases n - j,
    {
        let w = char_utf8_width(s[j]);
        proof {
            lemma_byte_len_step(s@, j as int);
        }
        if w > k - total {
            proof {
                assert forall|i: int| 0 <= i <= s@.len() implies byte_len(#[trigger] s@.take(i)) != k by {
                    if i <= j {
                        if i < j {
                            lemma_byte_len_strict(s@, i, j as int);
                        }
                    } else {
                        lemma_byte_len_take_mono(s@, j + 1, i);
                    }
                }
                lemma_byte_len_take_mono(s@, j + 1, n as int);
                assert(s@.take(n as int) =~= s@);
            }
            return BytePos::Inside;
        }
        total = total + w;
        j = j + 1;
    }
    if total == k {
        return BytePos::At(j);
    }
    proof {
        assert(j == n);
        assert(s@.take(n as int) =~= s@);
        assert forall|i: int| 0 <= i <= s@.len() implies byte_len(#[trigger] s@.take(i)) != k by {
            if i < n {
                lemma_byte_len_strict(s@, i, n as int);
            }
        }
    }
    BytePos::Beyond
}

/// The byte offset of character `j`, counted on from character `i` at byte offset `b`;
/// `None` where it does not fit in `usize`.
fn byte_offset_from(s: &Vec<char>, i: usize, b: usize, j: usize) -> (r: Option<usize>)
    requires
        i <= j <= s@.len(),
        byte_len(s@.take(i as int)) == b,
    ensures
        match r {
            Some(o) => o == byte_len(s@.take(j as int)),
            None => byte_len(s@.take(j as int)) > usize::MAX,
        },
{
    let mut total = b;
    let mut k = i;
    while k < j
        invariant
            i <= k <= j <= s@.len(),
            total == byte_len(s@.take(k as int)),
        decreases j - k,
    {
        proof {
            lemma_byte_len_step(s@, k as int);
        }
        let w = char_utf8_width(s[k]);
        if w > usize::MAX - total {
            proof {
                lemma_byte_len_take_mono(s@, k + 1, j as int);
            }
            return None;
        }
        total = total + w;
        k = k + 1;
    }
    Some(total)
}

/// The first occurrence from `from` on is at `i`.
proof fn lemma_first_occ(s: Seq<char>, p: Seq<char>, from: int, i: int)
    requires
        from <= i,
        occurs_at(s, p, i),
        forall|k: int| from <= k < i ==> !occurs_at(s, p, k),
    ensures
        first_occ_from(s, p, from) == Some(i),
{
    let c = choose|c: int|
        from <= c && #[trigger] occurs_at(s, p, c) && forall|k: int| from <= k < c ==> !occurs_at(s, p, k);
    assert(from <= c && occurs_at(s, p, c) && forall|k: int| from <= k < c ==> !occurs_at(s, p, k));
    if c < i {
        assert(!occurs_at(s, p, c));
    }
    if c > i {
        assert(!occurs_at(s, p, i));
    }
}

/// The first index from `from` on at which `p` occurs in `s`.
fn find_from(s: &Vec<char>, p: &Vec<char>, from: usize) -> (r: Option<usize>)
    requires
        from <= s@.len(),
    ensures
        match r {
            Some(i) => first_occ_from(s@, p@, from as int) == Some(i as int),
            None => first_occ_from(s@, p@, from as int) is None,
        },
{
    let n = s.len();
    let mut i = from;
    while i < n
        invariant
            n == s@.len(),
            from <= i <= n,
            forall|k: int| from <= k < i ==> !occurs_at(s@, p@, k),
        decreases n - i,
    {
        if matches_at(s, p, i) {
            proof {
                lemma_first_occ(s@, p@, from as int, i as int);
            }
            return Some(i);
        }
        i = i + 1;
    }
    if matches_at(s, p, n) {
        proof {
            lemma_first_occ(s@, p@, from as int, n as int);
        }
        return Some(n);
    }
    proof {
        assert forall|k: int| from <= k implies !#[trigger] occurs_at(s@, p@, k) by {
            if k > n {
            }
        }
    }
    None
}

/// A byte offset at a character of `s` is within its UTF-8 length.
proof fn lemma_byte_len_take_le(s: Seq<char>, j: int)
    requires
        0 <= j <= s.len(),
    ensures
        byte_len(s.take(j)) <= byte_len(s),
{
    lemma_byte_len_take_mono(s, j, s.len() as int);
    assert(s.take(s.len() as int) =~= s);
}

/// Appends the end of a span from byte offset `start`; false where `start`
/// falls inside a character.
fn push_tail(out: &mut Vec<Span>, t: &Vec<char>, start: usize, style: Style) -> (ok: bool)
    ensures
        ok == hl_tail(t@, start as nat, style) is Some,
        ok ==> spans_view(final(out)@) == spans_view(old(out)@) + hl_tail(t@, start as nat, style)->0,
{
    match byte_pos(t, start) {
        BytePos::At(it) => {
            proof {
                lemma_char_at_byte(t@, it as int, start as int);
                lemma_byte_len_take_le(t@, it as int);
                if it < t@.len() {
                    lemma_byte_len_strict(t@, it as int, t@.len() as int);
                }
                assert(t@.take(t@.len() as int) =~= t@);
            }
            if it < t.len() {
                let n = t.len();
                let tail = sub_chars(t, it, n);
                let ghost before = spans_view(out@);
                out.push(Span::styled(string_of(tail.as_slice()), style));
                proof {
                    assert(tail@ =~= t@.skip(it as int));
                    assert(spans_view(out@) =~= before + seq![SpanView { content: t@.skip(it as int), style }]);
                }
            } else {
                assert(spans_view(out@) =~= spans_view(out@) + Seq::<SpanView>::empty());
            }
            true
        },
        BytePos::Inside => false,
        BytePos::Beyond => {
            assert(spans_view(out@) =~= spans_view(out@) + Seq::<SpanView>::empty());
            true
        },
    }
}

/// Appends the pieces for a match at character `j` of `lc`, looked for from byte
/// offset `start` (character `js`); returns the byte offset after the match with
/// the character of `lc` there, or `None` where the cut would panic.
fn push_cut(
    out: &mut Vec<Span>,
    t: &Vec<char>,
    lc: &Vec<char>,
    js: usize,
    start: usize,
    j: usize,
    qlen: usize,
    style: Style,
    hstyle: Style,
) -> (r: Option<(usize, usize)>)
    requires
        js <= j <= lc@.len(),
        byte_len(lc@.take(js as int)) == start,
        qlen > 0,
    ensures
        match r {
            Some(p) => hl_cut(t@, lc@, j as int, start as nat, qlen as nat, style, hstyle) matches Some(c)
                && c.1 == p.0 && spans_view(final(out)@) == spans_view(old(out)@) + c.0
                && p.1 <= lc@.len() && byte_len(lc@.take(p.1 as int)) == p.0 && p.0 > start,
            None => hl_cut(t@, lc@, j as int, start as nat, qlen as nat, style, hstyle) is None,
        },
{
    let abs = match byte_offset_from(lc, js, start, j) {
        Some(a) => a,
        None => {
            return None;
        },
    };
    if qlen > usize::MAX - abs {
        return None;
    }
    let end = abs + qlen;
    proof {
        if js < j {
            lemma_byte_len_strict(lc@, js as int, j as int);
        }
    }
    let ia = match byte_pos(t, abs) {
        BytePos::At(i) => i,
        _ => {
            return None;
        },
    };
    let ie = match byte_pos(t, end) {
        BytePos::At(i) => i,
        _ => {
            proof {
                if end <= byte_len(t@) && is_char_boundary(t@, end as int) {
                    let c = char_at_byte(t@, end as int);
                    assert(byte_len(t@.take(c)) == end);
                }
            }
            return None;
        },
    };
    proof {
        lemma_char_at_byte(t@, ia as int, abs as int);
        lemma_char_at_byte(t@, ie as int, end as int);
        lemma_byte_len_take_le(t@, ie as int);
        if ie <= ia {
            if ie < ia {
                lemma_byte_len_strict(t@, ie as int, ia as int);
            }
        }
    }
    let mut is_: usize = 0;
    if abs > start {
        is_ = match byte_pos(t, start) {
            BytePos::At(i) => i,
            _ => {
                return None;
            },
        };
        proof {
            lemma_char_at_byte(t@, is_ as int, start as int);
            if ia <= is_ {
                if ia < is_ {
                    lemma_byte_len_strict(t@, ia as int, is_ as int);
                }
            }
        }
    }
    let je = match byte_pos(lc, end) {
        BytePos::At(i) => i,
        BytePos::Inside => {
            return None;
        },
        BytePos::Beyond => {
            return None;
        },
    };
    proof {
        lemma_char_at_byte(lc@, je as int, end as int);
        lemma_byte_len_take_le(lc@, je as int);
    }
    let ghost before = spans_view(out@);
    if abs > start {
        let piece = sub_chars(t, is_, ia);
        out.push(Span::styled(string_of(piece.as_slice()), style));
    }
    let m = sub_chars(t, ia, ie);
    out.push(Span::styled(string_of(m.as_slice()), hstyle));
    proof {
        let c = hl_cut(t@, lc@, j as int, start as nat, qlen as nat, style, hstyle)->0;
        assert(spans_view(out@) =~= before + c.0);
    }
    Some((end, je))
}

/// One step of `hl_from` from a boundary `start` of `lc` (character `js`).
proof fn lemma_hl_unfold(
    t: Seq<char>,
    lc: Seq<char>,
    lq: Seq<char>,
    qlen: nat,
    style: Style,
    hstyle: Style,
    start: nat,
    js: int,
)
    requires
        0 <= js <= lc.len(),
        byte_len(lc.take(js)) == start,
        qlen > 0,
    ensures
        hl_from(t, lc, lq, qlen, style, hstyle, start) == match first_occ_from(lc, lq, js) {
            Some(j) => match hl_cut(t, lc, j, start, qlen, style, hstyle) {
                Some(cut) => match hl_from(t, lc, lq, qlen, style, hstyle, cut.1) {
                    Some(rest) => Some(cut.0 + rest),
                    None => None,
                },
                None => None,
            },
            None => hl_tail(t, start, style),
        },
{
    reveal(hl_from);
    lemma_char_at_byte(lc, js, start as int);
    lemma_byte_len_take_le(lc, js);
}

/// Appends to `out` the pieces of `span` with the matches of the lowercase query
/// `lq` (`qlen` bytes in the query as typed) in `hstyle`; returns false, where
/// cutting the span would panic.
#[verifier::spinoff_prover]
fn highlight_span(out: &mut Vec<Span>, span: &Span, lq: &Vec<char>, qlen: usize, hstyle: Style) -> (ok: bool)
    requires
        qlen > 0,
    ensures
        ({
            let r = hl_from(span.content@, lowercase(span.content@), lq@, qlen as nat, span.style, hstyle, 0);
            &&& ok == r is Some
            &&& ok ==> spans_view(final(out)@) == spans_view(old(out)@) + r->0
        }),
{
    let t = chars_of(span.content.as_str());
    let low = to_lowercase(span.content.as_str());
    let lc = chars_of(low.as_str());
    let style = span.style;
    let ghost total = hl_from(t@, lc@, lq@, qlen as nat, style, hstyle, 0);
    let ghost out0 = spans_view(out@);
    let ghost mut acc = Seq::<SpanView>::empty();
    let mut start: usize = 0;
    let mut js: usize = 0;
    assert(lc@.take(0) =~= Seq::<char>::empty());
    assert(spans_view(out@) =~= out0 + acc);
    loop
        invariant
            t@ == span.content@,
            lc@ == lowercase(span.content@),
            style == span.style,
            qlen > 0,
            js <= lc@.len(),
            byte_len(lc@.take(js as int)) == start,
            total == hl_from(t@, lc@, lq@, qlen as nat, style, hstyle, 0),
            out0 == spans_view(old(out)@),
            spans_view(out@) == out0 + acc,
            total == (match hl_from(t@, lc@, lq@, qlen as nat, style, hstyle, start as nat) {
                Some(rest) => Some(acc + rest),
                None => None::<Seq<SpanView>>,
            }),
        decreases byte_len(lc@) - start,
    {
        proof {
            lemma_hl_unfold(t@, lc@, lq@, qlen as nat, style, hstyle, start as nat, js as int);
            lemma_first_occ_props(lc@, lq@, js as int);
        }
        match find_from(&lc, lq, js) {
            None => {
                let ghost mid = spans_view(out@);
                let ok = push_tail(out, &t, start, style);
                proof {
                    assert(hl_from(t@, lc@, lq@, qlen as nat, style, hstyle, start as nat) == hl_tail(t@, start as nat, style));
                    if ok {
                        assert(spans_view(out@) =~= out0 + (acc + hl_tail(t@, start as nat, style)->0));
                        assert(total == Some(acc + hl_tail(t@, start as nat, style)->0));
                    } else {
                        assert(total is None);
                    }
                }
                return ok;
            },
            Some(j) => {
                let ghost mid = spans_view(out@);
                match push_cut(out, &t, &lc, js, start, j, qlen, style, hstyle) {
                    None => {
                        return false;
                    },
                    Some((end, je)) => {
                        proof {
                            let c = hl_cut(t@, lc@, j as int, start as nat, qlen as nat, style, hstyle)->0;
                            let old_acc = acc;
                            acc = old_acc + c.0;
                            assert(spans_view(out@) =~= out0 + acc);
                            match hl_from(t@, lc@, lq@, qlen as nat, style, hstyle, end as nat) {
                                Some(rest) => {
                                    assert(old_acc + (c.0 + rest) =~= acc + rest);
                                },
                                None => {},
                            }
                        }
                        start = end;
                        js = je;
                    },
                }
            },
        }
    }
}

/// The line with the matches of `query` (ignoring case) highlighted in each span,
/// as `highlight_search` draws them; `None` where cutting a span would panic.
pub fn highlight_search(line: &Line, query: &str, theme: Theme) -> (r: Option<Line>)
    requires
        query@.len() > 0,
        byte_len(query@) <= usize::MAX,
    ensures
        match r {
            Some(l) => hl_line(line@, query@, match_style(theme)) == Some(l@),
            None => hl_line(line@, query@, match_style(theme)) is None,
        },
{
    let q = chars_of(query);
    assert(q@.take(0) =~= Seq::<char>::empty());
    assert(q@.take(q@.len() as int) =~= q@);
    let qlen = match byte_offset_from(&q, 0, 0, q.len()) {
        Some(n) => n,
        None => {
            return None;
        },
    };
    proof {
        lemma_byte_len_take_mono(q@, 0, q@.len() as int);
    }
    let lq = chars_of(to_lowercase(query).as_str());
    let hstyle = Style { fg: Some(theme.text_bright), bg: Some(theme.accent), bold: true, italic: false, crossed_out: false };
    let mut out: Vec<Span> = Vec::new();
    let mut k: usize = 0;
    assert(line@.take(0) =~= Seq::<SpanView>::empty());
    while k < line.spans.len()
        invariant
            0 <= k <= line.spans@.len(),
            qlen == byte_len(query@),
            qlen > 0,
            lq@ == lowercase(query@),
            hstyle == match_style(theme),
            hl_line(line@.take(k as int), query@, hstyle) == Some(spans_view(out@)),
        decreases line.spans@.len() - k,
    {
        proof {
            assert(line@.take(k + 1).drop_last() =~= line@.take(k as int));
            assert(line@.take(k + 1).last() == line.spans@[k as int]@);
        }
        if !highlight_span(&mut out, &line.spans[k], &lq, qlen, hstyle) {
            proof {
                lemma_hl_line_none(line@, query@, hstyle, k + 1);
            }
            return None;
        }
        k = k + 1;
    }
    assert(line@.take(k as int) =~= line@);
    Some(Line { spans: out })
}

/// Once a prefix of the spans cannot be highlighted, neither can the line.
proof fn lemma_hl_line_none(spans: Seq<SpanView>, q: Seq<char>, hstyle: Style, i: int)
    requires
        0 <= i <= spans.len(),
        hl_line(spans.take(i), q, hstyle) is None,
    ensures
        hl_line(spans, q, hstyle) is None,
    decreases spans.len() - i,
{
    if i < spans.len() {
        assert(spans.take(i + 1).drop_last() =~= spans.take(i));
        lemma_hl_line_none(spans, q, hstyle, i + 1);
    } else {
        assert(spans.take(i) =~= spans);
    }
}

} // verus!

verus! {

/// The text of two runs of spans is the text of the first, then of the second.
pub proof fn lemma_line_text_concat(a: Seq<SpanView>, b: Seq<SpanView>)
    ensures
        crate::markdown::line_text(a + b) == crate::markdown::line_text(a) + crate::markdown::line_text(b),
    decreases b.len(),
{
    if b.len() > 0 {
        lemma_line_text_concat(a, b.drop_last());
        assert((a + b).drop_last() =~= a + b.drop_last());
        assert((a + b).last() == b.last());
    } else {
        assert(a + b =~= a);
    }
}

/// The text of one span is its content.
proof fn lemma_line_text_one(x: SpanView)
    ensures
        crate::markdown::line_text(seq![x]) == x.content,
{
    assert(seq![x].drop_last() =~= Seq::<SpanView>::empty());
    assert(crate::markdown::line_text(Seq::<SpanView>::empty()) == Seq::<char>::empty());
    assert(Seq::<char>::empty() + x.content =~= x.content);
}

/// Character positions follow byte offsets: a smaller boundary is at an earlier character.
proof fn lemma_char_at_byte_mono(s: Seq<char>, a: int, b: int)
    requires
        is_char_boundary(s, a),
        is_char_boundary(s, b),
        a <= b,
    ensures
        0 <= char_at_byte(s, a) <= char_at_byte(s, b) <= s.len(),
{
    let ca = char_at_byte(s, a);
    let cb = char_at_byte(s, b);
    assert(0 <= ca <= s.len() && byte_len(s.take(ca)) == a);
    assert(0 <= cb <= s.len() && byte_len(s.take(cb)) == b);
    if cb < ca {
        lemma_byte_len_strict(s, cb, ca);
    }
}

/// The pieces cut for a match give the text from `start` to the end of the match.
#[verifier::spinoff_prover]
proof fn lemma_hl_cut_text(
    t: Seq<char>,
    lc: Seq<char>,
    lq: Seq<char>,
    j: int,
    start: nat,
    qlen: nat,
    style: Style,
    hstyle: Style,
)
    requires
        is_char_boundary(t, start as int),
        byte_len(lc.take(j)) >= start,
        hl_cut(t, lc, j, start, qlen, style, hstyle) is Some,
    ensures
        ({
            let cut = hl_cut(t, lc, j, start, qlen, style, hstyle)->0;
            &&& is_char_boundary(t, cut.1 as int)
            &&& crate::markdown::line_text(cut.0) + t.skip(char_at_byte(t, cut.1 as int)) == t.skip(
                char_at_byte(t, start as int),
            )
        }),
{
    let abs = byte_len(lc.take(j));
    let end = abs + qlen;
    let cs = char_at_byte(t, start as int);
    lemma_char_at_byte_mono(t, abs as int, end as int);
    let ca = char_at_byte(t, abs as int);
    let ce = char_at_byte(t, end as int);
    if abs > start {
        lemma_char_at_byte_mono(t, start as int, abs as int);
    }
    let before = if abs > start {
        seq![SpanView { content: t.subrange(cs, ca), style }]
    } else {
        Seq::<SpanView>::empty()
    };
    let hit = SpanView { content: t.subrange(ca, ce), style: hstyle };
    lemma_line_text_concat(before, seq![hit]);
    lemma_line_text_one(hit);
    if abs > start {
        lemma_line_text_one(SpanView { content: t.subrange(cs, ca), style });
        assert(t.subrange(cs, ca) + t.subrange(ca, ce) + t.skip(ce) =~= t.skip(cs));
    } else {
        assert(crate::markdown::line_text(before) =~= Seq::<char>::empty());
        assert(Seq::<char>::empty() + t.subrange(ca, ce) + t.skip(ce) =~= t.skip(cs));
    }
}

/// The end of a span, where no match is left: its text is the rest of `t`.
proof fn lemma_hl_tail_text(t: Seq<char>, start: nat, style: Style)
    requires
        is_char_boundary(t, start as int),
        hl_tail(t, start, style) is Some,
    ensures
        crate::markdown::line_text(hl_tail(t, start, style)->0) == t.skip(char_at_byte(t, start as int)),
{
    let cs = char_at_byte(t, start as int);
    assert(0 <= cs <= t.len() && byte_len(t.take(cs)) == start);
    if start < byte_len(t) {
        lemma_line_text_one(SpanView { content: t.skip(cs), style });
    } else {
        assert(crate::markdown::line_text(Seq::<SpanView>::empty()) == Seq::<char>::empty());
        lemma_byte_len_take_le(t, cs);
        if cs < t.len() {
            lemma_byte_len_strict(t, cs, t.len() as int);
            assert(t.take(t.len() as int) =~= t);
        }
        assert(t.skip(cs) =~= Seq::<char>::empty());
    }
}

/// Highlighting from a boundary `start` of `t` cuts the rest of `t` into pieces:
/// their text is that rest.
#[verifier::spinoff_prover]
#[verifier::rlimit(30)]
proof fn lemma_hl_from_text(
    t: Seq<char>,
    lc: Seq<char>,
    lq: Seq<char>,
    qlen: nat,
    style: Style,
    hstyle: Style,
    start: nat,
)
    requires
        is_char_boundary(t, start as int),
        hl_from(t, lc, lq, qlen, style, hstyle, start) is Some,
    ensures
        crate::markdown::line_text(hl_from(t, lc, lq, qlen, style, hstyle, start)->0) == t.skip(
            char_at_byte(t, start as int),
        ),
    decreases byte_len(lc) - start,
{
    reveal(hl_from);
    let c = char_at_byte(lc, start as int);
    assert(0 <= c <= lc.len() && byte_len(lc.take(c)) == start);
    lemma_hl_unfold(t, lc, lq, qlen, style, hstyle, start, c);
    lemma_first_occ_props(lc, lq, c);
    match first_occ_from(lc, lq, c) {
        Some(j) => {
            if c < j {
                lemma_byte_len_strict(lc, c, j);
            }
            let cut = hl_cut(t, lc, j, start, qlen, style, hstyle)->0;
            lemma_cut_advances(t, lc, lq, j, start, qlen, style, hstyle);
            lemma_hl_cut_text(t, lc, lq, j, start, qlen, style, hstyle);
            lemma_hl_from_text(t, lc, lq, qlen, style, hstyle, cut.1);
            let rest = hl_from(t, lc, lq, qlen, style, hstyle, cut.1)->0;
            lemma_line_text_concat(cut.0, rest);
        },
        None => {
            lemma_hl_tail_text(t, start, style);
        },
    }
}

/// Highlighting the matches of a query changes only styles: the text of the
/// line is what it was.
pub proof fn lemma_highlight_keeps_text(spans: Seq<SpanView>, q: Seq<char>, hstyle: Style)
    requires
        hl_line(spans, q, hstyle) is Some,
    ensures
        crate::markdown::line_text(hl_line(spans, q, hstyle)->0) == crate::markdown::line_text(spans),
    decreases spans.len(),
{
    if spans.len() > 0 {
        let rest = spans.drop_last();
        let s = spans.last();
        lemma_highlight_keeps_text(rest, q, hstyle);
        let t = s.content;
        assert(t.take(0) =~= Seq::<char>::empty());
        lemma_char_at_byte(t, 0, 0);
        lemma_hl_from_text(t, lowercase(t), lowercase(q), byte_len(q), s.style, hstyle, 0);
        assert(t.skip(0) =~= t);
        lemma_line_text_concat(hl_line(rest, q, hstyle)->0, hl_span(s, q, hstyle)->0);
    }
}

} // verus!
