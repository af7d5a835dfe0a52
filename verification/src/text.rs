//! Character-level text model: strings are viewed as `Seq<char>`, and the
//! executable helpers here work on `Vec<char>` with contracts over that view.

use vstd::prelude::*;

verus! {

/// `char::is_whitespace`: the Unicode `White_Space` property.
pub open spec fn is_white(c: char) -> bool {
    ||| ('\u{9}' <= c && c <= '\u{D}')
    ||| c == ' '
    ||| c == '\u{85}'
    ||| c == '\u{A0}'
    ||| c == '\u{1680}'
    ||| ('\u{2000}' <= c && c <= '\u{200A}')
    ||| c == '\u{2028}'
    ||| c == '\u{2029}'
    ||| c == '\u{202F}'
    ||| c == '\u{205F}'
    ||| c == '\u{3000}'
}

pub fn is_white_char(c: char) -> (r: bool)
    ensures
        r == is_white(c),
{
    ('\u{9}' <= c && c <= '\u{D}') || c == ' ' || c == '\u{85}' || c == '\u{A0}' || c
        == '\u{1680}' || ('\u{2000}' <= c && c <= '\u{200A}') || c == '\u{2028}' || c
        == '\u{2029}' || c == '\u{202F}' || c == '\u{205F}' || c == '\u{3000}'
}

/// Appends one character to a string (`String::push`).
#[verifier::external_body]
fn push_char(s: &mut String, c: char)
    ensures
        final(s)@ == old(s)@.push(c),
{
    s.push(c);
}

/// The characters of a string slice, in order.
pub fn chars_of(s: &str) -> (v: Vec<char>)
    ensures
        v@ == s@,
{
    let mut v: Vec<char> = Vec::new();
    for c in it: s.chars()
        invariant
            v@ == it.seq().take(it.index() as int),
    {
        v.push(c);
    }
    v
}

/// A string holding the given characters.
pub fn string_of(v: &[char]) -> (s: String)
    ensures
        s@ == v@,
{
    let mut s = String::new();
    let mut i: usize = 0;
    while i < v.len()
        invariant
            i <= v.len(),
            s@ == v@.take(i as int),
        decreases v.len() - i,
    {
        push_char(&mut s, v[i]);
        assert(v@.take(i as int + 1) == v@.take(i as int).push(v@[i as int]));
        i = i + 1;
    }
    assert(v@.take(v.len() as int) == v@);
    s
}


/// The views of a sequence of character vectors.
pub open spec fn views(v: Seq<Vec<char>>) -> Seq<Seq<char>> {
    v.map_values(|x: Vec<char>| x@)
}

/// The views of a sequence of strings.
pub open spec fn string_views(v: Seq<String>) -> Seq<Seq<char>> {
    v.map_values(|x: String| x@)
}

/// The first index at or after `i` that does not hold whitespace.
pub open spec fn skip_white(s: Seq<char>, i: int) -> int
    decreases s.len() - i,
{
    if 0 <= i < s.len() && is_white(s[i]) {
        skip_white(s, i + 1)
    } else {
        i
    }
}

/// The end of the content of `s[lo..j]` once trailing whitespace is dropped.
pub open spec fn back_white(s: Seq<char>, lo: int, j: int) -> int
    decreases j - lo,
{
    if lo < j && is_white(s[j - 1]) {
        back_white(s, lo, j - 1)
    } else {
        j
    }
}

/// Start of the trimmed part of `s`.
pub open spec fn trim_start(s: Seq<char>) -> int {
    skip_white(s, 0)
}

/// End of the trimmed part of `s`.
pub open spec fn trim_end(s: Seq<char>) -> int {
    back_white(s, trim_start(s), s.len() as int)
}

/// `str::trim`: `s` without leading and trailing whitespace.
pub open spec fn trim(s: Seq<char>) -> Seq<char> {
    s.subrange(trim_start(s), trim_end(s))
}

pub proof fn lemma_skip_white_bounds(s: Seq<char>, i: int)
    requires
        0 <= i <= s.len(),
    ensures
        i <= skip_white(s, i) <= s.len(),
        skip_white(s, i) < s.len() ==> !is_white(s[skip_white(s, i)]),
        forall|k: int| i <= k < skip_white(s, i) ==> is_white(s[k]),
    decreases s.len() - i,
{
    if i < s.len() && is_white(s[i]) {
        lemma_skip_white_bounds(s, i + 1);
    }
}

pub proof fn lemma_back_white_bounds(s: Seq<char>, lo: int, j: int)
    requires
        0 <= lo <= j <= s.len(),
    ensures
        lo <= back_white(s, lo, j) <= j,
        lo < back_white(s, lo, j) ==> !is_white(s[back_white(s, lo, j) - 1]),
        forall|k: int| back_white(s, lo, j) <= k < j ==> is_white(s[k]),
    decreases j - lo,
{
    if lo < j && is_white(s[j - 1]) {
        lemma_back_white_bounds(s, lo, j - 1);
    }
}

pub proof fn lemma_trim_bounds(s: Seq<char>)
    ensures
        0 <= trim_start(s) <= trim_end(s) <= s.len(),
{
    lemma_skip_white_bounds(s, 0);
    lemma_back_white_bounds(s, trim_start(s), s.len() as int);
}

/// Bounds of the trimmed part of `s`: `trim(s) == s[start..end]`.
pub fn trim_bounds(s: &[char]) -> (r: (usize, usize))
    ensures
        r.0 == trim_start(s@),
        r.1 == trim_end(s@),
        r.0 <= r.1 <= s@.len(),
{
    let mut a: usize = 0;
    while a < s.len() && is_white_char(s[a])
        invariant
            a <= s.len(),
            skip_white(s@, a as int) == skip_white(s@, 0),
        decreases s.len() - a,
    {
        a = a + 1;
    }
    let mut b: usize = s.len();
    while b > a && is_white_char(s[b - 1])
        invariant
            a <= b <= s.len(),
            back_white(s@, a as int, b as int) == back_white(s@, a as int, s.len() as int),
            a == skip_white(s@, 0),
        decreases b - a,
    {
        b = b - 1;
    }
    proof {
        lemma_trim_bounds(s@);
    }
    (a, b)
}

/// Number of occurrences of `c` in `s`.
pub open spec fn count_char(s: Seq<char>, c: char) -> nat
    decreases s.len(),
{
    if s.len() == 0 {
        0
    } else {
        count_char(s.drop_last(), c) + if s.last() == c {
            1nat
        } else {
            0nat
        }
    }
}

pub proof fn lemma_count_char_le_len(s: Seq<char>, c: char)
    ensures
        count_char(s, c) <= s.len(),
    decreases s.len(),
{
    if s.len() > 0 {
        lemma_count_char_le_len(s.drop_last(), c);
    }
}

/// `count_char` counts the characters of `s` equal to `c`: it is the length
/// of what is left of `s` once every other character is dropped.
pub proof fn law_count_char_is_filter(s: Seq<char>, c: char)
    ensures
        count_char(s, c) == s.filter(|x: char| x == c).len(),
    decreases s.len(),
{
    reveal(Seq::filter);
    if s.len() > 0 {
        law_count_char_is_filter(s.drop_last(), c);
    }
}

/// Number of occurrences of `c` in `s[lo..hi]`.
pub fn count_char_in(s: &[char], lo: usize, hi: usize, c: char) -> (n: usize)
    requires
        lo <= hi <= s@.len(),
    ensures
        n == count_char(s@.subrange(lo as int, hi as int), c),
{
    let mut n: usize = 0;
    let mut i: usize = lo;
    while i < hi
        invariant
            lo <= i <= hi <= s@.len(),
            n == count_char(s@.subrange(lo as int, i as int), c),
        decreases hi - i,
    {
        proof {
            assert(s@.subrange(lo as int, i + 1).drop_last() =~= s@.subrange(lo as int, i as int));
            lemma_count_char_le_len(s@.subrange(lo as int, i as int), c);
        }
        if s[i] == c {
            n = n + 1;
        }
        i = i + 1;
    }
    n
}


/// `str::starts_with` on `s[lo..hi]`.
pub fn starts_with_in(s: &[char], lo: usize, hi: usize, p: &[char]) -> (r: bool)
    requires
        lo <= hi <= s@.len(),
    ensures
        r == p@.is_prefix_of(s@.subrange(lo as int, hi as int)),
{
    if p.len() > hi - lo {
        return false;
    }
    let mut i: usize = 0;
    while i < p.len()
        invariant
            i <= p.len(),
            p.len() <= hi - lo,
            lo <= hi <= s@.len(),
            forall|k: int| 0 <= k < i ==> p@[k] == s@[lo + k],
        decreases p.len() - i,
    {
        if p[i] != s[lo + i] {
            assert(p@[i as int] != s@.subrange(lo as int, hi as int).subrange(0, p@.len() as int)[i as int]);
            return false;
        }
        i = i + 1;
    }
    assert(p@ =~= s@.subrange(lo as int, hi as int).subrange(0, p@.len() as int));
    true
}

/// `p` occurs in `s` starting at index `i`.
pub open spec fn occurs_at(s: Seq<char>, p: Seq<char>, i: int) -> bool {
    0 <= i && i + p.len() <= s.len() && s.subrange(i, i + p.len()) == p
}

/// `str::contains` with a string pattern.
pub open spec fn has_substring(s: Seq<char>, p: Seq<char>) -> bool {
    exists|i: int| #[trigger] occurs_at(s, p, i)
}

/// `str::contains` on `s[lo..hi]`.
pub fn contains_in(s: &[char], lo: usize, hi: usize, p: &[char]) -> (r: bool)
    requires
        lo <= hi <= s@.len(),
    ensures
        r == has_substring(s@.subrange(lo as int, hi as int), p@),
{
    let ghost t = s@.subrange(lo as int, hi as int);
    if p.len() > hi - lo {
        assert forall|i: int| !occurs_at(t, p@, i) by {}
        return false;
    }
    let last = hi - lo - p.len();
    let mut i: usize = 0;
    while i <= last
        invariant
            last == hi - lo - p.len(),
            p.len() <= hi - lo,
            lo <= hi <= s@.len(),
            t == s@.subrange(lo as int, hi as int),
            forall|k: int| 0 <= k < i ==> !occurs_at(t, p@, k),
        decreases last + 1 - i,
    {
        if starts_with_in(s, lo + i, hi, p) {
            assert(t.subrange(i as int, i + p@.len()) =~= s@.subrange(lo + i, hi as int).subrange(0, p@.len() as int));
            assert(occurs_at(t, p@, i as int));
            return true;
        }
        assert(t.subrange(i as int, i + p@.len()) =~= s@.subrange(lo + i, hi as int).subrange(0, p@.len() as int));
        i = i + 1;
    }
    false
}

/// Index of the first `c` in `s` at or after `i`, or `s.len()` when there is none.
pub open spec fn find_from(s: Seq<char>, c: char, i: int) -> int
    decreases s.len() - i,
{
    if i >= s.len() {
        s.len() as int
    } else if s[i] == c {
        i
    } else {
        find_from(s, c, i + 1)
    }
}

/// Index of the last `c` in `s[..j]`, or `-1` when there is none.
pub open spec fn rfind_before(s: Seq<char>, c: char, j: int) -> int
    decreases j,
{
    if j <= 0 {
        -1
    } else if s[j - 1] == c {
        j - 1
    } else {
        rfind_before(s, c, j - 1)
    }
}

/// `str::find` with a character pattern.
pub open spec fn find_char(s: Seq<char>, c: char) -> Option<int> {
    if find_from(s, c, 0) < s.len() {
        Some(find_from(s, c, 0))
    } else {
        None
    }
}

/// `str::rfind` with a character pattern.
pub open spec fn rfind_char(s: Seq<char>, c: char) -> Option<int> {
    if rfind_before(s, c, s.len() as int) >= 0 {
        Some(rfind_before(s, c, s.len() as int))
    } else {
        None
    }
}

pub proof fn lemma_find_from(s: Seq<char>, c: char, i: int)
    requires
        0 <= i <= s.len(),
    ensures
        i <= find_from(s, c, i) <= s.len(),
        find_from(s, c, i) < s.len() ==> s[find_from(s, c, i)] == c,
        forall|k: int| i <= k < find_from(s, c, i) ==> s[k] != c,
    decreases s.len() - i,
{
    if i < s.len() && s[i] != c {
        lemma_find_from(s, c, i + 1);
    }
}

pub proof fn lemma_rfind_before(s: Seq<char>, c: char, j: int)
    requires
        0 <= j <= s.len(),
    ensures
        -1 <= rfind_before(s, c, j) < j,
        rfind_before(s, c, j) >= 0 ==> s[rfind_before(s, c, j)] == c,
        forall|k: int| rfind_before(s, c, j) < k < j ==> s[k] != c,
    decreases j,
{
    if j > 0 && s[j - 1] != c {
        lemma_rfind_before(s, c, j - 1);
    }
}

/// Index of the first `c` in `s` at or after `from`.
pub fn find_char_from(s: &[char], c: char, from: usize) -> (r: usize)
    requires
        from <= s@.len(),
    ensures
        r == find_from(s@, c, from as int),
        from <= r <= s@.len(),
{
    let mut i = from;
    while i < s.len() && s[i] != c
        invariant
            from <= i <= s@.len(),
            find_from(s@, c, i as int) == find_from(s@, c, from as int),
        decreases s.len() - i,
    {
        i = i + 1;
    }
    i
}

/// Index of the last `c` in `s`, if any.
pub fn rfind_char_in(s: &[char], c: char) -> (r: Option<usize>)
    ensures
        r matches Some(k) ==> rfind_char(s@, c) == Some(k as int),
        r is None ==> rfind_char(s@, c) is None,
{
    let mut j = s.len();
    while j > 0 && s[j - 1] != c
        invariant
            j <= s@.len(),
            rfind_before(s@, c, j as int) == rfind_before(s@, c, s@.len() as int),
        decreases j,
    {
        j = j - 1;
    }
    if j == 0 {
        None
    } else {
        Some(j - 1)
    }
}


/// `l` without one trailing carriage return.
pub open spec fn strip_cr(l: Seq<char>) -> Seq<char> {
    if l.len() > 0 && l.last() == '\r' {
        l.drop_last()
    } else {
        l
    }
}

/// The lines completed so far and the line being read, after reading all of `s`.
pub open spec fn line_scan(s: Seq<char>) -> (Seq<Seq<char>>, Seq<char>)
    decreases s.len(),
{
    if s.len() == 0 {
        (seq![], seq![])
    } else {
        let (done, cur) = line_scan(s.drop_last());
        if s.last() == '\n' {
            (done.push(strip_cr(cur)), seq![])
        } else {
            (done, cur.push(s.last()))
        }
    }
}

/// `str::lines`: the lines of `s`, split at `\n` or `\r\n`; a final empty
/// line is not returned.
pub open spec fn lines_of(s: Seq<char>) -> Seq<Seq<char>> {
    let (done, cur) = line_scan(s);
    if cur.len() > 0 {
        done.push(cur)
    } else {
        done
    }
}

/// `lines.join("\n")`.
pub open spec fn join_lines(ls: Seq<Seq<char>>) -> Seq<char>
    decreases ls.len(),
{
    if ls.len() == 0 {
        seq![]
    } else if ls.len() == 1 {
        ls[0]
    } else {
        join_lines(ls.drop_last()) + seq!['\n'] + ls.last()
    }
}

/// Sum of the lengths of `ls`.
pub open spec fn total_len(ls: Seq<Seq<char>>) -> nat
    decreases ls.len(),
{
    if ls.len() == 0 {
        0
    } else {
        total_len(ls.drop_last()) + ls.last().len()
    }
}

pub proof fn lemma_line_scan_len(s: Seq<char>)
    ensures
        total_len(line_scan(s).0) + line_scan(s).1.len() <= s.len(),
    decreases s.len(),
{
    if s.len() > 0 {
        lemma_line_scan_len(s.drop_last());
        let (done, cur) = line_scan(s.drop_last());
        if s.last() == '\n' {
            assert(done.push(strip_cr(cur)).drop_last() =~= done);
        }
    }
}

pub proof fn lemma_lines_total_len(s: Seq<char>)
    ensures
        total_len(lines_of(s)) <= s.len(),
{
    lemma_line_scan_len(s);
    let (done, cur) = line_scan(s);
    if cur.len() > 0 {
        assert(done.push(cur).drop_last() =~= done);
    }
}

pub proof fn lemma_total_len_prefix(ls: Seq<Seq<char>>, i: int)
    requires
        0 <= i < ls.len(),
    ensures
        total_len(ls.take(i + 1)) == total_len(ls.take(i)) + ls[i].len(),
        total_len(ls.take(i + 1)) <= total_len(ls),
    decreases ls.len(),
{
    assert(ls.take(i + 1).drop_last() =~= ls.take(i));
    if i + 1 < ls.len() {
        lemma_total_len_prefix(ls.drop_last(), i);
        assert(ls.drop_last().take(i + 1) =~= ls.take(i + 1));
        assert(ls.drop_last().take(i) =~= ls.take(i));
    } else {
        assert(ls.take(i + 1) =~= ls);
    }
}

pub proof fn lemma_lines_empty(s: Seq<char>)
    ensures
        (lines_of(s).len() == 0) <==> (s.len() == 0),
{
    if s.len() > 0 {
        lemma_line_scan_nonempty(s);
    }
}

proof fn lemma_line_scan_nonempty(s: Seq<char>)
    requires
        s.len() > 0,
    ensures
        line_scan(s).0.len() > 0 || line_scan(s).1.len() > 0,
    decreases s.len(),
{
    if s.len() > 1 {
        lemma_line_scan_nonempty(s.drop_last());
    }
}

/// Splits `s` into its lines, as `str::lines` does.
pub fn split_lines(s: &[char]) -> (ls: Vec<Vec<char>>)
    ensures
        views(ls@) == lines_of(s@),
{
    let mut done: Vec<Vec<char>> = Vec::new();
    let mut cur: Vec<char> = Vec::new();
    let mut i: usize = 0;
    while i < s.len()
        invariant
            i <= s@.len(),
            (views(done@), cur@) == line_scan(s@.take(i as int)),
        decreases s.len() - i,
    {
        assert(s@.take(i + 1).drop_last() =~= s@.take(i as int));
        if s[i] == '\n' {
            let ghost prev = views(done@);
            let ghost before = cur@;
            if cur.len() > 0 && cur[cur.len() - 1] == '\r' {
                cur.pop();
            }
            assert(cur@ =~= strip_cr(before));
            done.push(cur);
            cur = Vec::new();
            assert(views(done@) =~= prev.push(strip_cr(before)));
        } else {
            cur.push(s[i]);
        }
        i = i + 1;
    }
    assert(s@.take(s@.len() as int) =~= s@);
    let ghost prev = views(done@);
    if cur.len() > 0 {
        done.push(cur);
        assert(views(done@) =~= prev.push(cur@));
    }
    done
}


/// Appends all of `src` to `dst`.
pub fn append_chars(dst: &mut Vec<char>, src: &[char])
    ensures
        final(dst)@ == old(dst)@ + src@,
{
    let ghost start = dst@;
    let mut i: usize = 0;
    while i < src.len()
        invariant
            i <= src@.len(),
            dst@ == start + src@.take(i as int),
        decreases src.len() - i,
    {
        dst.push(src[i]);
        assert(src@.take(i + 1) =~= src@.take(i as int).push(src@[i as int]));
        i = i + 1;
    }
    assert(src@.take(src@.len() as int) =~= src@);
}

/// Joins `ls` with `\n` between consecutive lines.
pub fn join_lines_chars(ls: &Vec<Vec<char>>) -> (r: Vec<char>)
    ensures
        r@ == join_lines(views(ls@)),
{
    let mut r: Vec<char> = Vec::new();
    if ls.len() == 0 {
        return r;
    }
    append_chars(&mut r, ls[0].as_slice());
    assert(views(ls@).take(1) =~= seq![ls@[0]@]);
    let mut i: usize = 1;
    while i < ls.len()
        invariant
            1 <= i <= ls@.len(),
            r@ == join_lines(views(ls@).take(i as int)),
        decreases ls.len() - i,
    {
        r.push('\n');
        append_chars(&mut r, ls[i].as_slice());
        assert(views(ls@).take(i + 1).drop_last() =~= views(ls@).take(i as int));
        i = i + 1;
    }
    assert(views(ls@).take(ls@.len() as int) =~= views(ls@));
    r
}


/// The views of a slice of string slices.
pub open spec fn str_views(v: Seq<&str>) -> Seq<Seq<char>> {
    v.map_values(|x: &str| x@)
}

/// The characters of each string slice.
pub fn chars_of_all(v: &[&str]) -> (r: Vec<Vec<char>>)
    ensures
        views(r@) == str_views(v@),
{
    let mut r: Vec<Vec<char>> = Vec::new();
    let mut i: usize = 0;
    while i < v.len()
        invariant
            i <= v@.len(),
            views(r@) == str_views(v@).take(i as int),
        decreases v.len() - i,
    {
        let ghost prev = views(r@);
        let c = chars_of(v[i]);
        r.push(c);
        assert(views(r@) =~= prev.push(v@[i as int]@));
        assert(str_views(v@).take(i + 1) =~= str_views(v@).take(i as int).push(v@[i as int]@));
        i = i + 1;
    }
    assert(str_views(v@).take(v@.len() as int) =~= str_views(v@));
    r
}

/// A string for each character vector.
pub fn strings_of(v: &Vec<Vec<char>>) -> (r: Vec<String>)
    ensures
        string_views(r@) == views(v@),
{
    let mut r: Vec<String> = Vec::new();
    let mut i: usize = 0;
    while i < v.len()
        invariant
            i <= v@.len(),
            string_views(r@) == views(v@).take(i as int),
        decreases v.len() - i,
    {
        let ghost prev = string_views(r@);
        let s = string_of(v[i].as_slice());
        r.push(s);
        assert(string_views(r@) =~= prev.push(v@[i as int]@));
        assert(views(v@).take(i + 1) =~= views(v@).take(i as int).push(v@[i as int]@));
        i = i + 1;
    }
    assert(views(v@).take(v@.len() as int) =~= views(v@));
    r
}


/// The first index at or after `i` that holds whitespace, or `s.len()`.
pub open spec fn word_end(s: Seq<char>, i: int) -> int
    decreases s.len() - i,
{
    if 0 <= i < s.len() && !is_white(s[i]) {
        word_end(s, i + 1)
    } else {
        i
    }
}

/// `s.split_whitespace().next().unwrap_or("")`: the first word of `s`.
pub open spec fn first_word(s: Seq<char>) -> Seq<char> {
    s.subrange(skip_white(s, 0), word_end(s, skip_white(s, 0)))
}

/// `s.split(c).next()`: the text of `s` before its first `c`.
pub open spec fn before_char(s: Seq<char>, c: char) -> Seq<char> {
    s.subrange(0, find_from(s, c, 0))
}

/// `s.split(c).nth(1)`: the text between the first and the second `c` of
/// `s` (or the end of `s`), when `s` holds a `c`.
pub open spec fn second_field(s: Seq<char>, c: char) -> Option<Seq<char>> {
    let p = find_from(s, c, 0);
    if p < s.len() {
        Some(s.subrange(p + 1, find_from(s, c, p + 1)))
    } else {
        None
    }
}

/// A copy of `s[lo..hi]`.
pub fn copy_range(s: &[char], lo: usize, hi: usize) -> (r: Vec<char>)
    requires
        lo <= hi <= s@.len(),
    ensures
        r@ == s@.subrange(lo as int, hi as int),
{
    let mut r: Vec<char> = Vec::new();
    append_chars(&mut r, vstd::slice::slice_subrange(s, lo, hi));
    r
}

/// The first word of `s`.
pub fn first_word_of(s: &[char]) -> (r: Vec<char>)
    ensures
        r@ == first_word(s@),
{
    let mut a: usize = 0;
    while a < s.len() && is_white_char(s[a])
        invariant
            a <= s.len(),
            skip_white(s@, a as int) == skip_white(s@, 0),
        decreases s.len() - a,
    {
        a = a + 1;
    }
    let mut b: usize = a;
    while b < s.len() && !is_white_char(s[b])
        invariant
            a <= b <= s.len(),
            word_end(s@, b as int) == word_end(s@, a as int),
        decreases s.len() - b,
    {
        b = b + 1;
    }
    copy_range(s, a, b)
}

/// The text of `s` before its first `c`.
pub fn before_char_of(s: &[char], c: char) -> (r: Vec<char>)
    ensures
        r@ == before_char(s@, c),
{
    let p = find_char_from(s, c, 0);
    copy_range(s, 0, p)
}

/// The text between the first and the second `c` of `s`.
pub fn second_field_of(s: &[char], c: char) -> (r: Option<Vec<char>>)
    ensures
        r matches Some(f) ==> second_field(s@, c) == Some(f@),
        r is None ==> second_field(s@, c) is None,
{
    let p = find_char_from(s, c, 0);
    if p < s.len() {
        let q = find_char_from(s, c, p + 1);
        Some(copy_range(s, p + 1, q))
    } else {
        None
    }
}


/// `find_from` gives `p` when `p` holds the first `c` at or after `i` (or is
/// the end of `s` and no `c` follows `i`).
pub proof fn lemma_find_from_is(s: Seq<char>, c: char, i: int, p: int)
    requires
        0 <= i <= p <= s.len(),
        p < s.len() ==> s[p] == c,
        forall|k: int| i <= k < p ==> s[k] != c,
    ensures
        find_from(s, c, i) == p,
    decreases p - i,
{
    if i < p {
        lemma_find_from_is(s, c, i + 1, p);
    }
}

/// `rfind_before` gives `p` when `p` holds the last `c` before `j` (or is
/// `-1` and no `c` comes before `j`).
pub proof fn lemma_rfind_before_is(s: Seq<char>, c: char, j: int, p: int)
    requires
        -1 <= p < j <= s.len(),
        p >= 0 ==> s[p] == c,
        forall|k: int| p < k < j ==> s[k] != c,
    ensures
        rfind_before(s, c, j) == p,
    decreases j,
{
    if j - 1 > p {
        lemma_rfind_before_is(s, c, j - 1, p);
    }
}

/// `skip_white` gives `p` when `s[i..p]` is whitespace and `p` is not.
pub proof fn lemma_skip_white_is(s: Seq<char>, i: int, p: int)
    requires
        0 <= i <= p <= s.len(),
        p < s.len() ==> !is_white(s[p]),
        forall|k: int| i <= k < p ==> is_white(s[k]),
    ensures
        skip_white(s, i) == p,
    decreases p - i,
{
    if i < p {
        lemma_skip_white_is(s, i + 1, p);
    }
}

/// `word_end` gives `p` when `s[i..p]` holds no whitespace and `p` does.
pub proof fn lemma_word_end_is(s: Seq<char>, i: int, p: int)
    requires
        0 <= i <= p <= s.len(),
        p < s.len() ==> is_white(s[p]),
        forall|k: int| i <= k < p ==> !is_white(s[k]),
    ensures
        word_end(s, i) == p,
    decreases p - i,
{
    if i < p {
        lemma_word_end_is(s, i + 1, p);
    }
}


/// Lines none of which holds a `\n`, and none but the last ends with `\r`.
pub open spec fn joinable_lines(ls: Seq<Seq<char>>) -> bool {
    &&& forall|i: int| 0 <= i < ls.len() ==> !(#[trigger] ls[i]).contains('\n')
    &&& forall|i: int|
        0 <= i < ls.len() - 1 ==> !((#[trigger] ls[i]).len() > 0 && ls[i].last() == '\r')
}

/// Lines that `str::lines` gives back once joined with `\n`: joinable, and
/// the last is not empty.
pub open spec fn plain_lines(ls: Seq<Seq<char>>) -> bool {
    &&& joinable_lines(ls)
    &&& ls.len() > 0 ==> ls.last().len() > 0
}

proof fn lemma_line_scan_append(s: Seq<char>, t: Seq<char>)
    requires
        !t.contains('\n'),
    ensures
        line_scan(s + t) == (line_scan(s).0, line_scan(s).1 + t),
    decreases t.len(),
{
    if t.len() == 0 {
        assert(s + t =~= s);
        assert(line_scan(s).1 + t =~= line_scan(s).1);
    } else {
        let u = t.drop_last();
        assert(!u.contains('\n')) by {
            if u.contains('\n') {
                let k = choose|k: int| 0 <= k < u.len() && u[k] == '\n';
                assert(t[k] == '\n');
            }
        }
        lemma_line_scan_append(s, u);
        assert((s + t).drop_last() =~= s + u);
        assert((s + t).last() == t.last());
        assert(t.last() != '\n') by {
            assert(t[t.len() - 1] == t.last());
        }
        assert((line_scan(s).1 + u).push(t.last()) =~= line_scan(s).1 + t);
    }
}

proof fn lemma_line_scan_join(ls: Seq<Seq<char>>)
    requires
        ls.len() > 0,
        joinable_lines(ls),
    ensures
        line_scan(join_lines(ls)) == (ls.drop_last(), ls.last()),
    decreases ls.len(),
{
    assert(!ls.last().contains('\n')) by {
        assert(ls[ls.len() - 1] == ls.last());
    }
    if ls.len() == 1 {
        lemma_line_scan_append(seq![], ls[0]);
        assert(seq![] + ls[0] =~= ls[0]);
        assert(ls.drop_last() =~= seq![]);
    } else {
        let front = ls.drop_last();
        assert(joinable_lines(front)) by {
            assert forall|i: int| 0 <= i < front.len() implies !(#[trigger] front[i]).contains('\n') by {
                assert(front[i] == ls[i]);
            }
            assert forall|i: int| 0 <= i < front.len() - 1 implies !((#[trigger] front[i]).len() > 0
                && front[i].last() == '\r') by {
                assert(front[i] == ls[i]);
            }
        }
        lemma_line_scan_join(front);
        let head = join_lines(front) + seq!['\n'];
        assert(head.drop_last() =~= join_lines(front));
        let last_front = front.last();
        assert(!(last_front.len() > 0 && last_front.last() == '\r')) by {
            assert(ls[ls.len() - 2] == last_front);
        }
        assert(strip_cr(last_front) == last_front);
        assert(line_scan(head) == (front.drop_last().push(last_front), Seq::<char>::empty()));
        assert(front.drop_last().push(last_front) =~= front);
        lemma_line_scan_append(head, ls.last());
        assert(Seq::<char>::empty() + ls.last() =~= ls.last());
    }
}

/// Joining lines with `\n` and splitting the text again gives the lines
/// back, for lines that `str::lines` can give.
pub proof fn law_lines_of_join(ls: Seq<Seq<char>>)
    requires
        plain_lines(ls),
    ensures
        lines_of(join_lines(ls)) == ls,
{
    if ls.len() > 0 {
        lemma_line_scan_join(ls);
        assert(ls.drop_last().push(ls.last()) =~= ls);
    } else {
        assert(join_lines(ls) =~= Seq::<char>::empty());
        assert(line_scan(Seq::<char>::empty()) == (Seq::<Seq<char>>::empty(), Seq::<char>::empty()));
    }
}


/// No line of `s` ends with `\r`: the text has no `\r` before a line end.
pub open spec fn cr_free_text(s: Seq<char>) -> bool {
    forall|i: int|
        0 <= i < lines_of(s).len() ==> !((#[trigger] lines_of(s)[i]).len() > 0 && lines_of(s)[i].last()
            == '\r')
}

/// A text with no `\r` before a line end and no blank last line.
pub open spec fn plain_text(s: Seq<char>) -> bool {
    &&& cr_free_text(s)
    &&& lines_of(s).len() > 0 ==> lines_of(s).last().len() > 0
}

/// `ls` without its last line when that line is blank.
pub open spec fn without_blank_last(ls: Seq<Seq<char>>) -> Seq<Seq<char>> {
    if ls.len() > 0 && ls.last().len() == 0 {
        ls.drop_last()
    } else {
        ls
    }
}

/// Joining lines with `\n` and splitting the text again gives the lines
/// back, but for a blank last line, which the final `\n` does not make.
pub proof fn law_lines_of_join_joinable(ls: Seq<Seq<char>>)
    requires
        joinable_lines(ls),
    ensures
        lines_of(join_lines(ls)) == without_blank_last(ls),
{
    if ls.len() > 0 {
        lemma_line_scan_join(ls);
        assert(ls.drop_last().push(ls.last()) =~= ls);
    } else {
        assert(join_lines(ls) =~= Seq::<char>::empty());
        assert(line_scan(Seq::<char>::empty()) == (Seq::<Seq<char>>::empty(), Seq::<char>::empty()));
    }
}

proof fn lemma_line_scan_no_newline(s: Seq<char>)
    ensures
        forall|i: int| 0 <= i < line_scan(s).0.len() ==> !(#[trigger] line_scan(s).0[i]).contains('\n'),
        !line_scan(s).1.contains('\n'),
    decreases s.len(),
{
    if s.len() > 0 {
        lemma_line_scan_no_newline(s.drop_last());
        let (done, cur) = line_scan(s.drop_last());
        if s.last() == '\n' {
            let l = strip_cr(cur);
            assert(!l.contains('\n')) by {
                if l.contains('\n') {
                    let k = choose|k: int| 0 <= k < l.len() && l[k] == '\n';
                    assert(cur[k] == '\n');
                }
            }
            assert forall|i: int| 0 <= i < done.push(l).len() implies !(#[trigger] done.push(l)[i]).contains('\n') by {
                if i < done.len() {
                    assert(done.push(l)[i] == done[i]);
                }
            }
            assert(!Seq::<char>::empty().contains('\n'));
        } else {
            let c2 = cur.push(s.last());
            assert(!c2.contains('\n')) by {
                if c2.contains('\n') {
                    let k = choose|k: int| 0 <= k < c2.len() && c2[k] == '\n';
                    if k < cur.len() {
                        assert(cur[k] == '\n');
                    }
                }
            }
        }
    }
}

/// No line of `str::lines` holds a `\n`.
pub proof fn lemma_lines_no_newline(s: Seq<char>)
    ensures
        forall|i: int| 0 <= i < lines_of(s).len() ==> !(#[trigger] lines_of(s)[i]).contains('\n'),
{
    lemma_line_scan_no_newline(s);
    let (done, cur) = line_scan(s);
    if cur.len() > 0 {
        assert forall|i: int| 0 <= i < done.push(cur).len() implies !(#[trigger] done.push(cur)[i]).contains('\n') by {
            if i < done.len() {
                assert(done.push(cur)[i] == done[i]);
            }
        }
    }
}

/// A line that can be inserted anywhere among plain lines: it holds no
/// `\n`, is not empty and does not end with `\r`.
pub open spec fn clean_line(l: Seq<char>) -> bool {
    &&& !l.contains('\n')
    &&& l.len() > 0
    &&& l.last() != '\r'
}

/// Inserting clean lines into the lines of a text with no `\r` before a
/// line end keeps them joinable.
pub proof fn lemma_joinable_insert(s: Seq<char>, at: int, block: Seq<Seq<char>>)
    requires
        cr_free_text(s),
        0 <= at < lines_of(s).len(),
        forall|j: int| 0 <= j < block.len() ==> clean_line(#[trigger] block[j]),
    ensures
        joinable_lines(
            lines_of(s).subrange(0, at + 1) + block + lines_of(s).subrange(
                at + 1,
                lines_of(s).len() as int,
            ),
        ),
{
    let ls = lines_of(s);
    lemma_lines_no_newline(s);
    let r = ls.subrange(0, at + 1) + block + ls.subrange(at + 1, ls.len() as int);
    let b = block.len() as int;
    assert forall|i: int| 0 <= i < r.len() implies !(#[trigger] r[i]).contains('\n') && !(r[i].len() > 0
        && r[i].last() == '\r') by {
        if i <= at {
            assert(r[i] == ls[i]);
        } else if i <= at + b {
            assert(r[i] == block[i - at - 1]);
        } else {
            assert(r[i] == ls[i - b]);
        }
    }
}

/// Inserting clean lines into the lines of a plain text keeps them plain.
pub proof fn lemma_plain_insert(s: Seq<char>, at: int, block: Seq<Seq<char>>)
    requires
        plain_text(s),
        0 <= at < lines_of(s).len(),
        forall|j: int| 0 <= j < block.len() ==> clean_line(#[trigger] block[j]),
    ensures
        plain_lines(
            lines_of(s).subrange(0, at + 1) + block + lines_of(s).subrange(
                at + 1,
                lines_of(s).len() as int,
            ),
        ),
{
    let ls = lines_of(s);
    lemma_lines_no_newline(s);
    let r = ls.subrange(0, at + 1) + block + ls.subrange(at + 1, ls.len() as int);
    let b = block.len() as int;
    assert forall|i: int| 0 <= i < r.len() implies !(#[trigger] r[i]).contains('\n') && !(r[i].len() > 0
        && r[i].last() == '\r') by {
        if i <= at {
            assert(r[i] == ls[i]);
        } else if i <= at + b {
            assert(r[i] == block[i - at - 1]);
        } else {
            assert(r[i] == ls[i - b]);
        }
    }
    if r.len() > 0 {
        if at + 1 + b == r.len() {
            if b > 0 {
                assert(r.last() == block[b - 1]);
            } else {
                assert(r.last() == ls.last());
            }
        } else {
            assert(r.last() == ls[ls.len() - 1]);
        }
    }
}


/// The code points of Unicode's `White_Space` property, as listed for
/// `char::is_whitespace`: tab, line feed, vertical tab, form feed, carriage
/// return, space, next line, no-break space, ogham space mark, the spaces
/// U+2000 to U+200A, line and paragraph separators, narrow no-break space,
/// medium mathematical space and ideographic space.
pub open spec fn white_space_code(n: u32) -> bool {
    n == 9 || n == 10 || n == 11 || n == 12 || n == 13 || n == 32 || n == 0x85 || n == 0xA0
        || n == 0x1680 || (0x2000 <= n && n <= 0x200A) || n == 0x2028 || n == 0x2029 || n
        == 0x202F || n == 0x205F || n == 0x3000
}

/// `is_white` holds of exactly the characters of the `White_Space` list.
pub proof fn lemma_white_space_code(c: char)
    ensures
        is_white(c) <==> white_space_code(c as u32),
{
}

proof fn lemma_skip_white_shift(c: char, l: Seq<char>, i: int)
    requires
        0 <= i <= l.len(),
    ensures
        skip_white(seq![c] + l, i + 1) == skip_white(l, i) + 1,
    decreases l.len() - i,
{
    let t = seq![c] + l;
    if i < l.len() {
        assert(t[i + 1] == l[i]);
        if is_white(l[i]) {
            lemma_skip_white_shift(c, l, i + 1);
        }
    }
}

proof fn lemma_back_white_shift(c: char, l: Seq<char>, lo: int, j: int)
    requires
        0 <= lo <= j <= l.len(),
    ensures
        back_white(seq![c] + l, lo + 1, j + 1) == back_white(l, lo, j) + 1,
    decreases j - lo,
{
    let t = seq![c] + l;
    if lo < j {
        assert(t[j] == l[j - 1]);
        if is_white(l[j - 1]) {
            lemma_back_white_shift(c, l, lo, j - 1);
        }
    }
}

proof fn lemma_back_white_reaches(s: Seq<char>, lo: int, j: int, p: int)
    requires
        0 <= lo <= p < j <= s.len(),
        !is_white(s[p]),
    ensures
        back_white(s, lo, j) >= p + 1,
    decreases j - lo,
{
    if j - 1 > p && is_white(s[j - 1]) {
        lemma_back_white_reaches(s, lo, j - 1, p);
    }
}

/// `trim` drops a leading white-space character: a line indented by any
/// character of the `White_Space` list trims to the same text.
pub proof fn law_trim_drops_white_space(c: char, l: Seq<char>)
    requires
        white_space_code(c as u32),
    ensures
        trim(seq![c] + l) == trim(l),
{
    let t = seq![c] + l;
    assert(t[0] == c);
    assert(is_white(c));
    lemma_skip_white_shift(c, l, 0);
    lemma_skip_white_bounds(l, 0);
    let a = skip_white(l, 0);
    assert(trim_start(t) == a + 1);
    lemma_back_white_shift(c, l, a, l.len() as int);
    lemma_back_white_bounds(l, a, l.len() as int);
    assert(t.len() == l.len() + 1);
    assert(trim_end(t) == trim_end(l) + 1);
    assert(trim(t) =~= trim(l));
}

/// `trim` keeps a leading character outside the `White_Space` list: the
/// trimmed text starts with it.
pub proof fn law_trim_keeps_visible(c: char, l: Seq<char>)
    requires
        !white_space_code(c as u32),
    ensures
        trim(seq![c] + l).len() > 0,
        trim(seq![c] + l)[0] == c,
{
    let t = seq![c] + l;
    assert(t[0] == c);
    assert(!is_white(c));
    assert(trim_start(t) == 0);
    lemma_back_white_reaches(t, 0, t.len() as int, 0);
    lemma_back_white_bounds(t, 0, t.len() as int);
}

/// The first word of a text runs from its first character outside the
/// `White_Space` list to the next character of that list, or to the end:
/// where the text holds white space before `a`, none from `a` to `b`, and
/// white space or its end at `b`, with `a < b` unless the text is all white
/// space, the first word is the text from `a` to `b`.
pub proof fn law_first_word_bounds(s: Seq<char>, a: int, b: int)
    requires
        0 <= a <= b <= s.len(),
        forall|k: int| #![trigger s[k]] 0 <= k < a ==> white_space_code(s[k] as u32),
        forall|k: int| #![trigger s[k]] a <= k < b ==> !white_space_code(s[k] as u32),
        a < s.len() ==> a < b,
        b < s.len() ==> white_space_code(s[b] as u32),
    ensures
        first_word(s) == s.subrange(a, b),
{
    assert forall|k: int| 0 <= k < a implies is_white(#[trigger] s[k]) by {
        lemma_white_space_code(s[k]);
    }
    assert forall|k: int| a <= k < b implies !is_white(#[trigger] s[k]) by {
        lemma_white_space_code(s[k]);
    }
    if a < s.len() {
        lemma_white_space_code(s[a]);
    }
    if b < s.len() {
        lemma_white_space_code(s[b]);
    }
    lemma_skip_white_is(s, 0, a);
    lemma_word_end_is(s, a, b);
}

/// `str::lines` reads one line per line end: after a text that is empty
/// or ends with `\n`, a line `l` without `\n` followed by `\r\n`, by `\n`
/// (where `l` does not end with `\r`), or by the end of the text (where `l`
/// is not empty) adds exactly the line `l`.
pub proof fn law_lines_of_next_line(s: Seq<char>, l: Seq<char>)
    requires
        s.len() == 0 || s.last() == '\n',
        !l.contains('\n'),
    ensures
        lines_of(s + l + seq!['\r', '\n']) == lines_of(s).push(l),
        (l.len() == 0 || l.last() != '\r') ==> lines_of(s + l + seq!['\n']) == lines_of(s).push(l),
        l.len() > 0 ==> lines_of(s + l) == lines_of(s).push(l),
{
    let done = line_scan(s).0;
    if s.len() > 0 {
        assert(line_scan(s).1 == Seq::<char>::empty());
    } else {
        assert(line_scan(s) == (Seq::<Seq<char>>::empty(), Seq::<char>::empty()));
    }
    assert(lines_of(s) == done);
    lemma_line_scan_append(s, l);
    assert(Seq::<char>::empty() + l =~= l);
    assert(line_scan(s + l) == (done, l));
    let lr = l + seq!['\r'];
    assert(!lr.contains('\n')) by {
        if lr.contains('\n') {
            let k = choose|k: int| 0 <= k < lr.len() && lr[k] == '\n';
            assert(l[k] == '\n');
        }
    }
    lemma_line_scan_append(s, lr);
    assert(Seq::<char>::empty() + lr =~= lr);
    let t1 = s + l + seq!['\r', '\n'];
    assert(t1.drop_last() =~= s + lr);
    assert(t1.last() == '\n');
    assert(strip_cr(lr) =~= l);
    assert(line_scan(t1) == (done.push(l), Seq::<char>::empty()));
    let t2 = s + l + seq!['\n'];
    assert(t2.drop_last() =~= s + l);
    assert(t2.last() == '\n');
    if l.len() == 0 || l.last() != '\r' {
        assert(strip_cr(l) == l);
        assert(line_scan(t2) == (done.push(l), Seq::<char>::empty()));
    }
}

/// `split(c)`: the text before the first `c` holds no `c` and starts `s`,
/// and `s` goes on with a `c` after it unless it is all of `s`; the second
/// field is there exactly when `s` holds a `c`, holds no `c` itself, follows
/// that first `c`, and is followed by another `c` or by the end of `s`.
pub proof fn law_split_fields(s: Seq<char>, c: char)
    ensures
        !before_char(s, c).contains(c),
        before_char(s, c).is_prefix_of(s),
        before_char(s, c).len() < s.len() ==> s[before_char(s, c).len() as int] == c,
        second_field(s, c) is Some <==> s.contains(c),
        second_field(s, c) matches Some(f) ==> {
            let p = before_char(s, c).len() as int;
            &&& !f.contains(c)
            &&& p + 1 + f.len() <= s.len()
            &&& s.subrange(p + 1, p + 1 + f.len()) == f
            &&& p + 1 + f.len() < s.len() ==> s[p + 1 + f.len()] == c
        },
{
    lemma_find_from(s, c, 0);
    let p = find_from(s, c, 0);
    let b = before_char(s, c);
    assert(b.len() == p);
    assert(!b.contains(c)) by {
        if b.contains(c) {
            let k = choose|k: int| 0 <= k < b.len() && b[k] == c;
            assert(s[k] == c);
        }
    }
    assert(b =~= s.subrange(0, b.len() as int));
    if s.contains(c) {
        let k = choose|k: int| 0 <= k < s.len() && s[k] == c;
        assert(p <= k);
    }
    if p < s.len() {
        lemma_find_from(s, c, p + 1);
        let q = find_from(s, c, p + 1);
        let f = s.subrange(p + 1, q);
        assert(!f.contains(c)) by {
            if f.contains(c) {
                let k = choose|k: int| 0 <= k < f.len() && f[k] == c;
                assert(s[p + 1 + k] == c);
            }
        }
        assert(s.subrange(p + 1, p + 1 + f.len()) =~= f);
    }
}

} // verus!
