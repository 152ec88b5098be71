//! Character-sequence helpers: the pieces of `str` behaviour that the
//! reader's logic relies on, stated over `Seq<char>`.
use vstd::prelude::*;

verus! {

/// The characters of `s`, in order.
pub fn chars_of(s: &str) -> (v: Vec<char>)
    ensures
        v@ == s@,
{
    let mut v: Vec<char> = Vec::new();
    for c in it: s.chars()
        invariant
            v@ == it.seq().take(it.index() as int),
            it.seq() == s@,
    {
        v.push(c);
        proof {
            assert(it.seq().take(it.index() + 1) =~= it.seq().take(it.index() as int).push(c));
        }
    }
    v
}

/// A `String` holding exactly the characters of `v`.
#[verifier::external_body]
pub(crate) fn string_of(v: &[char]) -> (s: String)
    ensures
        s@ == v@,
{
    v.iter().collect()
}

} // verus!

verus! {

/// The characters `v[i..j]` as a new vector.
pub fn sub_chars(v: &Vec<char>, i: usize, j: usize) -> (r: Vec<char>)
    requires
        i <= j <= v@.len(),
    ensures
        r@ == v@.subrange(i as int, j as int),
{
    let mut r: Vec<char> = Vec::new();
    let mut k = i;
    while k < j
        invariant
            i <= k <= j <= v@.len(),
            r@ == v@.subrange(i as int, k as int),
        decreases j - k,
    {
        r.push(v[k]);
        k = k + 1;
        assert(r@ =~= v@.subrange(i as int, k as int));
    }
    r
}

/// Appends the characters of `b` to `a`.
pub fn push_all(a: &mut Vec<char>, b: &Vec<char>)
    ensures
        final(a)@ == old(a)@ + b@,
{
    let ghost a0 = a@;
    let mut k: usize = 0;
    while k < b.len()
        invariant
            0 <= k <= b@.len(),
            a@ == a0 + b@.subrange(0, k as int),
        decreases b@.len() - k,
    {
        a.push(b[k]);
        k = k + 1;
        assert(a@ =~= a0 + b@.subrange(0, k as int));
    }
    assert(b@.subrange(0, b@.len() as int) =~= b@);
}

/// Whether `c` has the Unicode `White_Space` property (the set `char::is_whitespace` tests).
pub open spec fn is_white_space(c: char) -> bool {
    let u = c as u32;
    ||| 9 <= u <= 13
    ||| u == 32
    ||| u == 0x85
    ||| u == 0xa0
    ||| u == 0x1680
    ||| 0x2000 <= u <= 0x200a
    ||| u == 0x2028
    ||| u == 0x2029
    ||| u == 0x202f
    ||| u == 0x205f
    ||| u == 0x3000
}

pub fn white_space(c: char) -> (b: bool)
    ensures
        b == is_white_space(c),
{
    let u = c as u32;
    (9 <= u && u <= 13) || u == 32 || u == 0x85 || u == 0xa0 || u == 0x1680 || (0x2000 <= u
        && u <= 0x200a) || u == 0x2028 || u == 0x2029 || u == 0x202f || u == 0x205f || u
        == 0x3000
}

/// End (exclusive) of the run of non-whitespace characters starting at `i`.
pub open spec fn word_end(s: Seq<char>, i: int) -> int
    decreases s.len() - i,
{
    if i < 0 || i >= s.len() || is_white_space(s[i]) {
        i
    } else {
        word_end(s, i + 1)
    }
}

pub proof fn lemma_word_end_bounds(s: Seq<char>, i: int)
    requires
        0 <= i <= s.len(),
    ensures
        i <= word_end(s, i) <= s.len(),
        i < s.len() && !is_white_space(s[i]) ==> i < word_end(s, i),
        forall|k: int| i <= k < word_end(s, i) ==> !is_white_space(#[trigger] s[k]),
        word_end(s, i) < s.len() ==> is_white_space(s[word_end(s, i)]),
    decreases s.len() - i,
{
    if i < s.len() && !is_white_space(s[i]) {
        lemma_word_end_bounds(s, i + 1);
    }
}

/// The whitespace-separated words of `s[i..]`, as `str::split_whitespace` yields them.
pub open spec fn words_from(s: Seq<char>, i: int) -> Seq<Seq<char>>
    decreases s.len() - i,
{
    if i < 0 || i >= s.len() {
        seq![]
    } else if is_white_space(s[i]) {
        words_from(s, i + 1)
    } else {
        proof {
            lemma_word_end_bounds(s, i);
        }
        seq![s.subrange(i, word_end(s, i))] + words_from(s, word_end(s, i))
    }
}

pub open spec fn words(s: Seq<char>) -> Seq<Seq<char>> {
    words_from(s, 0)
}

pub open spec fn views_of(v: Seq<Vec<char>>) -> Seq<Seq<char>> {
    v.map_values(|w: Vec<char>| w@)
}

/// Splits `s` at whitespace, dropping empty pieces.
pub fn split_words(s: &Vec<char>) -> (r: Vec<Vec<char>>)
    ensures
        views_of(r@) == words(s@),
{
    let n = s.len();
    let mut r: Vec<Vec<char>> = Vec::new();
    let mut i: usize = 0;
    while i < n
        invariant
            n == s@.len(),
            0 <= i <= n,
            views_of(r@) + words_from(s@, i as int) == words(s@),
        decreases n - i,
    {
        if white_space(s[i]) {
            i = i + 1;
        } else {
            let mut j = i + 1;
            proof {
                lemma_word_end_bounds(s@, i as int);
            }
            while j < n && !white_space(s[j])
                invariant
                    n == s@.len(),
                    i < j <= n,
                    word_end(s@, i as int) == word_end(s@, j as int),
                decreases n - j,
            {
                j = j + 1;
            }
            let w = sub_chars(s, i, j);
            let ghost old_r = r@;
            r.push(w);
            assert(views_of(r@) =~= views_of(old_r).push(w@));
            assert(views_of(r@) + words_from(s@, j as int) =~= views_of(old_r) + words_from(
                s@,
                i as int,
            ));
            i = j;
        }
    }
    assert(views_of(r@) + words_from(s@, n as int) =~= views_of(r@));
    r
}

} // verus!

verus! {

/// Index of the first `'\n'` at or after `i` (or the length).
pub open spec fn line_end(s: Seq<char>, i: int) -> int
    decreases s.len() - i,
{
    if i < 0 || i >= s.len() || s[i] == '\n' {
        i
    } else {
        line_end(s, i + 1)
    }
}

pub proof fn lemma_line_end_bounds(s: Seq<char>, i: int)
    requires
        0 <= i <= s.len(),
    ensures
        i <= line_end(s, i) <= s.len(),
        forall|k: int| i <= k < line_end(s, i) ==> #[trigger] s[k] != '\n',
        line_end(s, i) < s.len() ==> s[line_end(s, i)] == '\n',
    decreases s.len() - i,
{
    if i < s.len() && s[i] != '\n' {
        lemma_line_end_bounds(s, i + 1);
    }
}

/// A line without the `'\r'` of a `"\r\n"` terminator.
pub open spec fn strip_cr(l: Seq<char>) -> Seq<char> {
    if l.len() > 0 && l.last() == '\r' {
        l.drop_last()
    } else {
        l
    }
}

/// The lines of `s[i..]` as `str::lines` yields them: split at `'\n'`, a `'\r'`
/// before the `'\n'` removed, and no empty last line after a final terminator.
pub open spec fn lines_from(s: Seq<char>, i: int) -> Seq<Seq<char>>
    decreases s.len() - i,
{
    if i < 0 || i >= s.len() {
        seq![]
    } else {
        proof {
            lemma_line_end_bounds(s, i);
        }
        let e = line_end(s, i);
        if e < s.len() {
            seq![strip_cr(s.subrange(i, e))] + lines_from(s, e + 1)
        } else {
            seq![s.subrange(i, e)]
        }
    }
}

pub open spec fn lines(s: Seq<char>) -> Seq<Seq<char>> {
    lines_from(s, 0)
}

/// Splits `s` into lines as `str::lines` does.
pub fn split_lines(s: &Vec<char>) -> (r: Vec<Vec<char>>)
    ensures
        views_of(r@) == lines(s@),
{
    let n = s.len();
    let mut r: Vec<Vec<char>> = Vec::new();
    let mut i: usize = 0;
    while i < n
        invariant
            n == s@.len(),
            0 <= i <= n,
            views_of(r@) + lines_from(s@, i as int) == lines(s@),
        decreases n - i,
    {
        proof {
            lemma_line_end_bounds(s@, i as int);
        }
        let mut j = i;
        while j < n && s[j] != '\n'
            invariant
                n == s@.len(),
                i <= j <= n,
                line_end(s@, i as int) == line_end(s@, j as int),
            decreases n - j,
        {
            j = j + 1;
        }
        let ghost old_r = r@;
        if j < n {
            let mut w = sub_chars(s, i, j);
            if w.len() > 0 && w[w.len() - 1] == '\r' {
                w.pop();
            }
            assert(w@ =~= strip_cr(s@.subrange(i as int, j as int)));
            r.push(w);
            assert(views_of(r@) =~= views_of(old_r).push(w@));
            assert(views_of(r@) + lines_from(s@, j + 1) =~= views_of(old_r) + lines_from(
                s@,
                i as int,
            ));
            i = j + 1;
        } else {
            let w = sub_chars(s, i, j);
            r.push(w);
            assert(views_of(r@) =~= views_of(old_r).push(w@));
            assert(views_of(r@) + lines_from(s@, n as int) =~= views_of(old_r) + lines_from(
                s@,
                i as int,
            ));
            i = n;
        }
    }
    assert(views_of(r@) + lines_from(s@, n as int) =~= views_of(r@));
    r
}

/// `ls` joined with `'\n'` between consecutive lines.
pub open spec fn join_lines(ls: Seq<Seq<char>>) -> Seq<char>
    decreases ls.len(),
{
    if ls.len() == 0 {
        seq![]
    } else if ls.len() == 1 {
        ls[0]
    } else {
        join_lines(ls.drop_last()) + seq!['\n'] + ls.last()
    }
}

pub fn join_with_newlines(ls: &Vec<Vec<char>>) -> (r: Vec<char>)
    ensures
        r@ == join_lines(views_of(ls@)),
{
    let mut r: Vec<char> = Vec::new();
    let mut k: usize = 0;
    while k < ls.len()
        invariant
            0 <= k <= ls@.len(),
            r@ == join_lines(views_of(ls@).take(k as int)),
        decreases ls@.len() - k,
    {
        if k > 0 {
            r.push('\n');
        }
        push_all(&mut r, &ls[k]);
        k = k + 1;
        assert(views_of(ls@).take(k as int).drop_last() =~= views_of(ls@).take(k - 1));
        assert(r@ =~= join_lines(views_of(ls@).take(k as int)));
    }
    assert(views_of(ls@).take(ls@.len() as int) =~= views_of(ls@));
    r
}

/// Whether `p` occurs in `s` starting at index `i`.
pub open spec fn occurs_at(s: Seq<char>, p: Seq<char>, i: int) -> bool {
    0 <= i && i + p.len() <= s.len() && s.subrange(i, i + p.len()) == p
}

pub open spec fn contains_seq(s: Seq<char>, p: Seq<char>) -> bool {
    exists|i: int| occurs_at(s, p, i)
}

pub fn matches_at(s: &Vec<char>, p: &Vec<char>, i: usize) -> (b: bool)
    ensures
        b == occurs_at(s@, p@, i as int),
{
    if i > s.len() || p.len() > s.len() - i {
        return false;
    }
    let n = s.len();
    let mut k: usize = 0;
    while k < p.len()
        invariant
            n == s@.len(),
            i + p@.len() <= n,
            0 <= k <= p@.len(),
            forall|m: int| 0 <= m < k ==> s@[i + m] == p@[m],
        decreases p@.len() - k,
    {
        if s[i + k] != p[k] {
            assert(s@.subrange(i as int, i + p@.len())[k as int] != p@[k as int]);
            return false;
        }
        k = k + 1;
    }
    assert(s@.subrange(i as int, i + p@.len()) =~= p@);
    true
}

/// The first index at which `p` occurs in `s`, as `str::find` finds it (in characters).
pub fn find_seq(s: &Vec<char>, p: &Vec<char>) -> (r: Option<usize>)
    ensures
        match r {
            Some(i) => occurs_at(s@, p@, i as int) && forall|j: int|
                0 <= j < i ==> !occurs_at(s@, p@, j),
            None => !contains_seq(s@, p@),
        },
{
    let n = s.len();
    let mut i: usize = 0;
    while i < n
        invariant
            n == s@.len(),
            0 <= i <= n,
            forall|j: int| 0 <= j < i ==> !occurs_at(s@, p@, j),
        decreases n - i,
    {
        if matches_at(s, p, i) {
            return Some(i);
        }
        i = i + 1;
    }
    if matches_at(s, p, n) {
        return Some(n);
    }
    assert forall|j: int| !occurs_at(s@, p@, j) by {
        if 0 <= j <= n {
        }
    }
    None
}

/// The first index at which `p` occurs in `s` (meaningful where it occurs).
pub open spec fn first_index(s: Seq<char>, p: Seq<char>) -> int {
    choose|i: int| occurs_at(s, p, i) && forall|j: int| 0 <= j < i ==> !occurs_at(s, p, j)
}

/// `s` with the first occurrence of `p` replaced by `r`.
pub open spec fn replace_first(s: Seq<char>, p: Seq<char>, r: Seq<char>) -> Seq<char> {
    let i = first_index(s, p);
    s.take(i) + r + s.skip(i + p.len())
}

/// Replaces the first occurrence of `p` in `s` by `r`, if `p` occurs.
pub fn replace_first_chars(s: &Vec<char>, p: &Vec<char>, r: &Vec<char>) -> (res: Option<Vec<char>>)
    ensures
        match res {
            Some(v) => contains_seq(s@, p@) && v@ == replace_first(s@, p@, r@),
            None => !contains_seq(s@, p@),
        },
{
    match find_seq(s, p) {
        None => None,
        Some(i) => {
            proof {
                let i0 = first_index(s@, p@);
                assert(occurs_at(s@, p@, i as int));
                assert(occurs_at(s@, p@, i0) && forall|j: int| 0 <= j < i0 ==> !occurs_at(s@, p@, j));
                if i0 < i {
                    assert(!occurs_at(s@, p@, i0));
                }
                if i0 > i {
                    assert(!occurs_at(s@, p@, i as int));
                }
                assert(i0 == i);
            }
            let n = s.len();
            assert(i + p@.len() <= n);
            let mut v = sub_chars(s, 0, i);
            push_all(&mut v, r);
            let tail = sub_chars(s, i + p.len(), n);
            push_all(&mut v, &tail);
            proof {
                assert(s@.take(i as int) =~= s@.subrange(0, i as int));
                assert(s@.skip(i + p@.len()) =~= s@.subrange(i + p@.len(), s@.len() as int));
            }
            Some(v)
        },
    }
}

pub fn contains_chars(s: &Vec<char>, p: &Vec<char>) -> (b: bool)
    ensures
        b == contains_seq(s@, p@),
{
    match find_seq(s, p) {
        Some(i) => true,
        None => false,
    }
}

pub open spec fn starts_with(s: Seq<char>, p: Seq<char>) -> bool {
    p.len() <= s.len() && s.take(p.len() as int) == p
}

pub open spec fn ends_with(s: Seq<char>, p: Seq<char>) -> bool {
    p.len() <= s.len() && s.skip(s.len() - p.len()) == p
}

pub fn has_prefix(s: &Vec<char>, p: &Vec<char>) -> (b: bool)
    ensures
        b == starts_with(s@, p@),
{
    let b = matches_at(s, p, 0);
    proof {
        if p@.len() <= s@.len() {
            assert(s@.take(p@.len() as int) =~= s@.subrange(0, p@.len() as int));
        }
    }
    b
}

pub fn has_suffix(s: &Vec<char>, p: &Vec<char>) -> (b: bool)
    ensures
        b == ends_with(s@, p@),
{
    if p.len() > s.len() {
        return false;
    }
    let b = matches_at(s, p, s.len() - p.len());
    proof {
        assert(s@.skip(s@.len() - p@.len()) =~= s@.subrange(
            s@.len() - p@.len(),
            s@.len() - p@.len() + p@.len(),
        ));
    }
    b
}

/// What `str::to_lowercase` returns for a string with these characters.
pub uninterp spec fn lowercase(s: Seq<char>) -> Seq<char>;

/// Every character is ASCII.
pub open spec fn all_ascii(s: Seq<char>) -> bool {
    forall|i: int| 0 <= i < s.len() ==> (#[trigger] s[i] as u32) < 0x80
}

/// The ASCII lowercase of a character: `'A'..='Z'` to `'a'..='z'`, others kept.
pub open spec fn ascii_lower(c: char) -> char {
    if 'A' <= c <= 'Z' {
        ((c as u32) + 32) as char
    } else {
        c
    }
}

/// Calls `str::to_lowercase`; the result is named `lowercase` of the argument.
/// On ASCII text the Unicode lowercase mapping is the ASCII one, character for
/// character, as std documents.
#[verifier::external_body]
pub(crate) fn to_lowercase(s: &str) -> (r: String)
    ensures
        r@ == lowercase(s@),
        all_ascii(s@) ==> r@ == s@.map_values(|c: char| ascii_lower(c)),
{
    s.to_lowercase()
}

/// Strict lexicographic order on characters by code point, the order of `String`'s `Ord`.
pub open spec fn lex_lt(a: Seq<char>, b: Seq<char>) -> bool
    decreases a.len(),
{
    if b.len() == 0 {
        false
    } else if a.len() == 0 {
        true
    } else if a[0] < b[0] {
        true
    } else if a[0] == b[0] {
        lex_lt(a.drop_first(), b.drop_first())
    } else {
        false
    }
}

pub proof fn lemma_lex_irreflexive(a: Seq<char>)
    ensures
        !lex_lt(a, a),
    decreases a.len(),
{
    if a.len() > 0 {
        lemma_lex_irreflexive(a.drop_first());
    }
}

pub proof fn lemma_lex_transitive(a: Seq<char>, b: Seq<char>, c: Seq<char>)
    requires
        lex_lt(a, b),
        lex_lt(b, c),
    ensures
        lex_lt(a, c),
    decreases a.len(),
{
    if a.len() > 0 && b.len() > 0 && c.len() > 0 {
        if a[0] == b[0] && b[0] == c[0] {
            lemma_lex_transitive(a.drop_first(), b.drop_first(), c.drop_first());
        }
    }
}

pub proof fn lemma_lex_total(a: Seq<char>, b: Seq<char>)
    ensures
        lex_lt(a, b) || lex_lt(b, a) || a == b,
    decreases a.len(),
{
    if a.len() > 0 && b.len() > 0 {
        if a[0] == b[0] {
            lemma_lex_total(a.drop_first(), b.drop_first());
            if a.drop_first() == b.drop_first() {
                assert(a =~= seq![a[0]] + a.drop_first());
                assert(b =~= seq![b[0]] + b.drop_first());
            }
        }
    } else if a.len() == 0 && b.len() == 0 {
        assert(a =~= b);
    }
}

pub fn lex_less(a: &Vec<char>, b: &Vec<char>) -> (r: bool)
    ensures
        r == lex_lt(a@, b@),
{
    let mut k: usize = 0;
    assert(a@.skip(0) =~= a@);
    assert(b@.skip(0) =~= b@);
    while k < a.len() && k < b.len() && a[k] == b[k]
        invariant
            0 <= k <= a@.len(),
            k <= b@.len(),
            lex_lt(a@, b@) == lex_lt(a@.skip(k as int), b@.skip(k as int)),
        decreases a@.len() - k,
    {
        assert(a@.skip(k as int).drop_first() =~= a@.skip(k + 1));
        assert(b@.skip(k as int).drop_first() =~= b@.skip(k + 1));
        k = k + 1;
    }
    if k == b.len() {
        false
    } else if k == a.len() {
        true
    } else {
        a[k] < b[k]
    }
}

} // verus!

verus! {

/// Bytes that `c` takes in UTF-8.
pub open spec fn utf8_width(c: char) -> nat {
    if (c as u32) < 0x80 {
        1
    } else if (c as u32) < 0x800 {
        2
    } else if (c as u32) < 0x10000 {
        3
    } else {
        4
    }
}

/// Bytes that `s` takes in UTF-8 (what `str::len` returns).
pub open spec fn byte_len(s: Seq<char>) -> nat
    decreases s.len(),
{
    if s.len() == 0 {
        0
    } else {
        byte_len(s.drop_last()) + utf8_width(s.last())
    }
}

/// Whether byte offset `k` of `s` falls between two characters.
pub open spec fn is_char_boundary(s: Seq<char>, k: int) -> bool {
    exists|j: int| 0 <= j <= s.len() && byte_len(#[trigger] s.take(j)) == k
}

pub fn char_utf8_width(c: char) -> (w: usize)
    ensures
        w == utf8_width(c),
{
    let u = c as u32;
    if u < 0x80 {
        1
    } else if u < 0x800 {
        2
    } else if u < 0x10000 {
        3
    } else {
        4
    }
}

pub proof fn lemma_byte_len_take_mono(s: Seq<char>, i: int, j: int)
    requires
        0 <= i <= j <= s.len(),
    ensures
        byte_len(s.take(i)) + (j - i) <= byte_len(s.take(j)),
    decreases j - i,
{
    if i < j {
        lemma_byte_len_take_mono(s, i, j - 1);
        assert(s.take(j).drop_last() =~= s.take(j - 1));
    }
}

pub proof fn lemma_byte_len_step(s: Seq<char>, j: int)
    requires
        0 <= j < s.len(),
    ensures
        byte_len(s.take(j + 1)) == byte_len(s.take(j)) + utf8_width(s[j]),
{
    assert(s.take(j + 1).drop_last() =~= s.take(j));
}

/// The UTF-8 length of `s`, with whether byte offsets `a` and `b` fall between characters.
pub fn byte_len_and_boundaries(s: &Vec<char>, a: usize, b: usize) -> (r: (usize, bool, bool))
    requires
        s@.len() <= usize::MAX / 4,
    ensures
        r.0 == byte_len(s@),
        r.1 == is_char_boundary(s@, a as int),
        r.2 == is_char_boundary(s@, b as int),
{
    let n = s.len();
    let mut total: usize = 0;
    let mut hit_a = a == 0;
    let mut hit_b = b == 0;
    let mut k: usize = 0;
    assert(s@.take(0) =~= Seq::<char>::empty());
    while k < n
        invariant
            n == s@.len(),
            n <= usize::MAX / 4,
            0 <= k <= n,
            total == byte_len(s@.take(k as int)),
            total <= 4 * k,
            hit_a == exists|j: int| 0 <= j <= k && byte_len(#[trigger] s@.take(j)) == a,
            hit_b == exists|j: int| 0 <= j <= k && byte_len(#[trigger] s@.take(j)) == b,
        decreases n - k,
    {
        proof {
            lemma_byte_len_step(s@, k as int);
        }
        total = total + char_utf8_width(s[k]);
        k = k + 1;
        if total == a {
            hit_a = true;
        }
        if total == b {
            hit_b = true;
        }
        proof {
            assert forall|j: int| 0 <= j <= k && byte_len(#[trigger] s@.take(j)) == a implies hit_a by {
                if j < k {
                } else {
                }
            }
            assert forall|j: int| 0 <= j <= k && byte_len(#[trigger] s@.take(j)) == b implies hit_b by {
                if j < k {
                } else {
                }
            }
            if hit_a {
                if total == a {
                    assert(byte_len(s@.take(k as int)) == a);
                }
            }
            if hit_b {
                if total == b {
                    assert(byte_len(s@.take(k as int)) == b);
                }
            }
        }
    }
    assert(s@.take(n as int) =~= s@);
    (total, hit_a, hit_b)
}

} // verus!

verus! {

/// The UTF-8 encoding of a string with these characters.
pub open spec fn utf8_bytes(s: Seq<char>) -> Seq<u8> {
    vstd::utf8::encode_utf8(s)
}

} // verus!

verus! {

/// Whether `a` orders strictly before `b`.
pub fn str_less(a: &str, b: &str) -> (r: bool)
    ensures
        r == lex_lt(a@, b@),
{
    let av = chars_of(a);
    let bv = chars_of(b);
    lex_less(&av, &bv)
}

} // verus!

verus! {

/// No `'\n'` in `s`.
pub open spec fn no_newline(s: Seq<char>) -> bool {
    forall|k: int| 0 <= k < s.len() ==> s[k] != '\n'
}

/// No `'\r'` in `s`.
pub open spec fn no_cr(s: Seq<char>) -> bool {
    forall|k: int| 0 <= k < s.len() ==> s[k] != '\r'
}

/// `"\n"` where `s` ends with a newline, else nothing.
pub open spec fn final_newline(s: Seq<char>) -> Seq<char> {
    if s.len() > 0 && s.last() == '\n' {
        seq!['\n']
    } else {
        seq![]
    }
}

proof fn lemma_line_end_at(s: Seq<char>, j: int, m: int)
    requires
        0 <= j <= m < s.len(),
        s[m] == '\n',
        forall|k: int| j <= k < m ==> s[k] != '\n',
    ensures
        line_end(s, j) == m,
    decreases m - j,
{
    if j < m {
        lemma_line_end_at(s, j + 1, m);
    }
}

proof fn lemma_line_end_none(s: Seq<char>, j: int)
    requires
        0 <= j <= s.len(),
        forall|k: int| j <= k < s.len() ==> s[k] != '\n',
    ensures
        line_end(s, j) == s.len(),
    decreases s.len() - j,
{
    if j < s.len() {
        lemma_line_end_none(s, j + 1);
    }
}

proof fn lemma_line_end_shift(p: Seq<char>, q: Seq<char>, k: int)
    requires
        0 <= k <= q.len(),
    ensures
        line_end(p + q, p.len() + k) == p.len() + line_end(q, k),
    decreases q.len() - k,
{
    if k < q.len() {
        assert((p + q)[p.len() + k] == q[k]);
        if q[k] != '\n' {
            lemma_line_end_shift(p, q, k + 1);
        }
    }
}

proof fn lemma_lines_from_shift(p: Seq<char>, q: Seq<char>, k: int)
    requires
        0 <= k <= q.len(),
    ensures
        lines_from(p + q, p.len() + k) == lines_from(q, k),
    decreases q.len() - k,
{
    if k < q.len() {
        lemma_line_end_bounds(q, k);
        lemma_line_end_shift(p, q, k);
        let e = line_end(q, k);
        assert((p + q).subrange(p.len() + k, p.len() + e) =~= q.subrange(k, e));
        if e < q.len() {
            lemma_lines_from_shift(p, q, e + 1);
        }
    }
}

/// The lines of `a`, a newline, then `b`: the line `a`, then the lines of `b`.
pub proof fn lemma_lines_cons(a: Seq<char>, b: Seq<char>)
    requires
        no_newline(a),
        a.len() == 0 || a.last() != '\r',
    ensures
        lines(a + seq!['\n'] + b) == seq![a] + lines(b),
{
    let s = a + seq!['\n'] + b;
    lemma_line_end_at(s, 0, a.len() as int);
    assert(s.subrange(0, a.len() as int) =~= a);
    assert(strip_cr(a) == a);
    assert(s =~= (a + seq!['\n']) + b);
    lemma_lines_from_shift(a + seq!['\n'], b, 0);
}

/// Joining `ls` puts its first line, a newline, then the rest joined.
pub proof fn lemma_join_front(ls: Seq<Seq<char>>)
    requires
        ls.len() >= 2,
    ensures
        join_lines(ls) == ls[0] + seq!['\n'] + join_lines(ls.skip(1)),
    decreases ls.len(),
{
    if ls.len() == 2 {
        assert(ls.drop_last() =~= seq![ls[0]]);
        assert(ls.skip(1) =~= seq![ls[1]]);
        assert(join_lines(ls.drop_last()) == ls[0]);
        assert(join_lines(ls.skip(1)) == ls[1]);
        assert(join_lines(ls) == join_lines(ls.drop_last()) + seq!['\n'] + ls.last());
    } else {
        let d = ls.drop_last();
        let r = ls.skip(1);
        lemma_join_front(d);
        assert(r.drop_last() =~= d.skip(1));
        assert(r.last() == ls.last());
        assert(d[0] == ls[0]);
        assert(join_lines(r) == join_lines(r.drop_last()) + seq!['\n'] + r.last());
        assert(join_lines(ls) == join_lines(d) + seq!['\n'] + ls.last());
        assert(join_lines(ls) =~= ls[0] + seq!['\n'] + join_lines(r));
    }
}

/// Lines free of newlines and of a final `'\r'` come back from their join.
pub open spec fn plain_lines(ls: Seq<Seq<char>>) -> bool {
    forall|i: int| 0 <= i < ls.len() ==> no_newline(#[trigger] ls[i]) && no_cr(ls[i])
}

/// Splitting lines joined and ended with a newline gives them back.
pub proof fn lemma_lines_join_nl(ls: Seq<Seq<char>>)
    requires
        ls.len() >= 1,
        plain_lines(ls),
    ensures
        lines(join_lines(ls) + seq!['\n']) == ls,
    decreases ls.len(),
{
    assert(no_newline(ls[0]) && no_cr(ls[0]));
    if ls.len() == 1 {
        lemma_lines_cons(ls[0], seq![]);
        assert(ls[0] + seq!['\n'] + Seq::<char>::empty() =~= ls[0] + seq!['\n']);
        assert(seq![ls[0]] + Seq::<Seq<char>>::empty() =~= ls);
    } else {
        let rest = ls.skip(1);
        lemma_join_front(ls);
        assert forall|i: int| 0 <= i < rest.len() implies no_newline(#[trigger] rest[i]) && no_cr(rest[i]) by {
            assert(rest[i] == ls[i + 1]);
        }
        lemma_lines_join_nl(rest);
        lemma_lines_cons(ls[0], join_lines(rest) + seq!['\n']);
        assert(join_lines(ls) + seq!['\n'] =~= ls[0] + seq!['\n'] + (join_lines(rest) + seq!['\n']));
        assert(seq![ls[0]] + rest =~= ls);
    }
}

/// Splitting joined lines whose last is not empty gives them back.
pub proof fn lemma_lines_join(ls: Seq<Seq<char>>)
    requires
        ls.len() >= 1,
        plain_lines(ls),
        ls.last().len() > 0,
    ensures
        lines(join_lines(ls)) == ls,
        join_lines(ls).len() > 0 && join_lines(ls).last() == ls.last().last(),
    decreases ls.len(),
{
    assert(no_newline(ls[0]) && no_cr(ls[0]));
    if ls.len() == 1 {
        let s = ls[0];
        lemma_line_end_none(s, 0);
        assert(s.subrange(0, s.len() as int) =~= s);
        assert(seq![s] =~= ls);
    } else {
        let rest = ls.skip(1);
        lemma_join_front(ls);
        assert forall|i: int| 0 <= i < rest.len() implies no_newline(#[trigger] rest[i]) && no_cr(rest[i]) by {
            assert(rest[i] == ls[i + 1]);
        }
        assert(rest.last() == ls.last());
        lemma_lines_join(rest);
        lemma_lines_cons(ls[0], join_lines(rest));
        assert(seq![ls[0]] + rest =~= ls);
    }
}

/// The lines of `s` from `i`: free of newlines and `'\r'`; joined (with the
/// final newline where `s` has one) they give `s` from `i` back.
proof fn lemma_lines_from_join(s: Seq<char>, i: int)
    requires
        no_cr(s),
        0 <= i < s.len(),
    ensures
        lines_from(s, i).len() >= 1,
        plain_lines(lines_from(s, i)),
        s.skip(i) == join_lines(lines_from(s, i)) + final_newline(s),
        s.last() != '\n' ==> lines_from(s, i).last().len() > 0,
    decreases s.len() - i,
{
    lemma_line_end_bounds(s, i);
    let e = line_end(s, i);
    let x = s.subrange(i, e);
    assert(no_newline(x) && no_cr(x));
    if e < s.len() {
        assert(x.len() == 0 || x.last() != '\r');
        assert(strip_cr(x) == x);
        if e + 1 == s.len() {
            assert(lines_from(s, e + 1) == Seq::<Seq<char>>::empty());
            assert(lines_from(s, i) =~= seq![x]);
            assert(s.skip(i) =~= x + seq!['\n']);
        } else {
            lemma_lines_from_join(s, e + 1);
            let rest = lines_from(s, e + 1);
            assert(lines_from(s, i) =~= seq![x] + rest);
            let ls = lines_from(s, i);
            assert(ls.skip(1) =~= rest);
            assert(ls[0] == x);
            lemma_join_front(ls);
            assert(s.skip(i) =~= x + seq!['\n'] + s.skip(e + 1));
            assert forall|k: int| 0 <= k < ls.len() implies no_newline(#[trigger] ls[k]) && no_cr(ls[k]) by {
                if k > 0 {
                    assert(ls[k] == rest[k - 1]);
                }
            }
            assert(ls.last() == rest.last());
        }
    } else {
        assert(lines_from(s, i) =~= seq![x]);
        assert(s.skip(i) =~= x);
        assert(s.last() == s[s.len() - 1]);
    }
}

/// A text without `'\r'` is its lines joined, with its final newline.
pub proof fn lemma_join_lines_of(s: Seq<char>)
    requires
        no_cr(s),
        s.len() > 0,
    ensures
        lines(s).len() >= 1,
        plain_lines(lines(s)),
        s == join_lines(lines(s)) + final_newline(s),
        s.last() != '\n' ==> lines(s).last().len() > 0,
{
    lemma_lines_from_join(s, 0);
    assert(s.skip(0) =~= s);
}

/// Changing one character of one line changes one character of the joined text:
/// the returned position, which held that character.
pub proof fn lemma_join_update(ls: Seq<Seq<char>>, j: int, k: int, c: char) -> (p: int)
    requires
        0 <= j < ls.len(),
        0 <= k < ls[j].len(),
    ensures
        0 <= p < join_lines(ls).len(),
        join_lines(ls)[p] == ls[j][k],
        join_lines(ls.update(j, ls[j].update(k, c))) == join_lines(ls).update(p, c),
    decreases ls.len(),
{
    let ls2 = ls.update(j, ls[j].update(k, c));
    if ls.len() == 1 {
        assert(join_lines(ls) == ls[0]);
        assert(join_lines(ls2) == ls2[0]);
        k
    } else {
        let d = ls.drop_last();
        assert(join_lines(ls) == join_lines(d) + seq!['\n'] + ls.last());
        assert(join_lines(ls2) == join_lines(ls2.drop_last()) + seq!['\n'] + ls2.last());
        if j == ls.len() - 1 {
            assert(ls2.drop_last() =~= d);
            let p = join_lines(d).len() + 1 + k;
            assert(join_lines(ls2) =~= join_lines(ls).update(p, c));
            p
        } else {
            assert(ls2.drop_last() =~= d.update(j, d[j].update(k, c)));
            let p = lemma_join_update(d, j, k, c);
            assert(join_lines(ls2) =~= join_lines(ls).update(p, c));
            p
        }
    }
}

} // verus!
