//! Line-based configuration files: a value is addressed by a path of keys,
//! each key matched, in order, against the start of a trimmed line.

use vstd::prelude::*;
use vstd::slice::slice_subrange;
use crate::text::{
    law_trim_drops_white_space, white_space_code,
    cr_free_text, joinable_lines, law_lines_of_join_joinable, lemma_joinable_insert,
    append_chars, back_white, chars_of, chars_of_all, clean_line, contains_in, count_char,
    count_char_in, find_char, find_char_from, find_from, has_substring, is_white, join_lines,
    join_lines_chars, law_lines_of_join, lemma_back_white_bounds, lemma_count_char_le_len,
    lemma_find_from, lemma_find_from_is, lemma_lines_empty, lemma_lines_total_len,
    lemma_lines_no_newline, lemma_plain_insert, lemma_rfind_before, lemma_rfind_before_is, plain_lines, lemma_skip_white_bounds, lemma_skip_white_is,
    lemma_total_len_prefix, lemma_trim_bounds, lines_of, plain_text, rfind_before, rfind_char,
    rfind_char_in, second_field, skip_white, split_lines, starts_with_in, str_views, string_of,
    string_views, strings_of, total_len, trim, trim_bounds, trim_start, views,
};

verus! {

/// A line holds a key: its trimmed text starts with the key, or, where
/// `anywhere` holds, contains it.
pub open spec fn line_has_key(line: Seq<char>, key: Seq<char>, anywhere: bool) -> bool {
    if anywhere {
        has_substring(trim(line), key)
    } else {
        key.is_prefix_of(trim(line))
    }
}

/// After the first `n` lines: how many keys of the path have been found, in
/// order, and the index of the line where the latest one was found (0 while
/// none has been).
pub open spec fn key_scan(lines: Seq<Seq<char>>, keys: Seq<Seq<char>>, n: int, anywhere: bool) -> (
    int,
    int,
)
    decreases n,
{
    if n <= 0 {
        (0, 0)
    } else {
        let (found, at) = key_scan(lines, keys, n - 1, anywhere);
        if found < keys.len() && line_has_key(lines[n - 1], keys[found], anywhere) {
            (found + 1, n - 1)
        } else {
            (found, at)
        }
    }
}

/// Every key of a non-empty path was found.
pub open spec fn path_found(lines: Seq<Seq<char>>, keys: Seq<Seq<char>>, anywhere: bool) -> bool {
    keys.len() > 0 && key_scan(lines, keys, lines.len() as int, anywhere).0 == keys.len()
}

/// The line where the last key of the path was found.
pub open spec fn path_line(lines: Seq<Seq<char>>, keys: Seq<Seq<char>>, anywhere: bool) -> int {
    key_scan(lines, keys, lines.len() as int, anywhere).1
}

/// Change of brace depth over one line.
pub open spec fn opens(line: Seq<char>) -> int {
    count_char(trim(line), '{') as int
}

pub open spec fn closes(line: Seq<char>) -> int {
    count_char(trim(line), '}') as int
}

/// End (exclusive) of a section read from line `i` on at brace depth
/// `depth`: the section ends after the first line that brings the depth
/// below `base`, or with the last line.
pub open spec fn section_end(lines: Seq<Seq<char>>, base: int, i: int, depth: int) -> int
    decreases lines.len() - i,
{
    if i < 0 || i >= lines.len() {
        lines.len() as int
    } else {
        let d = depth + opens(lines[i]) - closes(lines[i]);
        if d < base {
            i + 1
        } else {
            section_end(lines, base, i + 1, d)
        }
    }
}

/// Reading the section from line `i` on would take the depth below zero.
pub open spec fn section_underflows(lines: Seq<Seq<char>>, base: int, i: int, depth: int) -> bool
    decreases lines.len() - i,
{
    if i < 0 || i >= lines.len() {
        false
    } else if depth + opens(lines[i]) < closes(lines[i]) {
        true
    } else {
        let d = depth + opens(lines[i]) - closes(lines[i]);
        if d < base {
            false
        } else {
            section_underflows(lines, base, i + 1, d)
        }
    }
}

/// The lines that `load_config` returns: from the line that holds the last
/// key of the path up to the line whose closing brace ends that section.
pub open spec fn loaded_section(lines: Seq<Seq<char>>, keys: Seq<Seq<char>>) -> Seq<Seq<char>> {
    if path_found(lines, keys, false) {
        let s = path_line(lines, keys, false);
        lines.subrange(s, section_end(lines, keys.len() as int, s, keys.len() as int))
    } else {
        seq![]
    }
}

/// The inputs on which reading a section is defined: a key path is given
/// unless there is no line at all, and the brace depth never drops below zero.
pub open spec fn load_defined(lines: Seq<Seq<char>>, keys: Seq<Seq<char>>) -> bool {
    &&& (keys.len() > 0 || lines.len() == 0)
    &&& path_found(lines, keys, false) ==> !section_underflows(
        lines,
        keys.len() as int,
        path_line(lines, keys, false),
        keys.len() as int,
    )
}

proof fn lemma_key_scan_bounds(lines: Seq<Seq<char>>, keys: Seq<Seq<char>>, n: int, anywhere: bool)
    requires
        0 <= n <= lines.len(),
    ensures
        0 <= key_scan(lines, keys, n, anywhere).0 <= keys.len() || keys.len() == 0 && key_scan(lines, keys, n, anywhere).0 == 0,
        0 <= key_scan(lines, keys, n, anywhere).1 < lines.len() || key_scan(lines, keys, n, anywhere).1 == 0,
        key_scan(lines, keys, n, anywhere).0 > 0 ==> key_scan(lines, keys, n, anywhere).1 < n,
        key_scan(lines, keys, n, anywhere).0 == 0 ==> key_scan(lines, keys, n, anywhere).1 == 0,
    decreases n,
{
    if n > 0 {
        lemma_key_scan_bounds(lines, keys, n - 1, anywhere);
    }
}

proof fn lemma_key_scan_stable(lines: Seq<Seq<char>>, keys: Seq<Seq<char>>, m: int, n: int, anywhere: bool)
    requires
        0 <= m <= n <= lines.len(),
        key_scan(lines, keys, m, anywhere).0 >= keys.len(),
    ensures
        key_scan(lines, keys, n, anywhere) == key_scan(lines, keys, m, anywhere),
    decreases n - m,
{
    if n > m {
        lemma_key_scan_stable(lines, keys, m, n - 1, anywhere);
    }
}

proof fn lemma_trimmed_counts(line: Seq<char>)
    ensures
        opens(line) <= line.len(),
        closes(line) <= line.len(),
{
    lemma_trim_bounds(line);
    lemma_count_char_le_len(trim(line), '{');
    lemma_count_char_le_len(trim(line), '}');
}

/// Whether the line at `i` holds `key`.
fn line_holds(line: &Vec<char>, key: &Vec<char>, anywhere: bool) -> (r: bool)
    ensures
        r == line_has_key(line@, key@, anywhere),
{
    let (a, b) = trim_bounds(line.as_slice());
    if anywhere {
        contains_in(line.as_slice(), a, b, key.as_slice())
    } else {
        starts_with_in(line.as_slice(), a, b, key.as_slice())
    }
}

/// Braces opened and closed on a line.
fn brace_counts(line: &Vec<char>) -> (r: (usize, usize))
    ensures
        r.0 == opens(line@),
        r.1 == closes(line@),
{
    let (a, b) = trim_bounds(line.as_slice());
    (count_char_in(line.as_slice(), a, b, '{'), count_char_in(line.as_slice(), a, b, '}'))
}

/// The section of `lines` addressed by `keys`, or `None` where reading it
/// is not defined.
fn section_of(lines: &Vec<Vec<char>>, keys: &Vec<Vec<char>>) -> (r: Option<Vec<Vec<char>>>)
    requires
        total_len(views(lines@)) + keys@.len() <= usize::MAX,
    ensures
        r is Some <==> load_defined(views(lines@), views(keys@)),
        r matches Some(v) ==> views(v@) == loaded_section(views(lines@), views(keys@)),
{
    if keys.len() == 0 {
        if lines.len() == 0 {
            let empty: Vec<Vec<char>> = Vec::new();
            assert(views(empty@) =~= loaded_section(views(lines@), views(keys@)));
            return Some(empty);
        } else {
            return None;
        }
    }
    let ghost ls = views(lines@);
    let ghost ks = views(keys@);
    let ghost k = keys@.len() as int;
    let mut passed: usize = 0;
    let mut collecting = false;
    let mut finished = false;
    let mut list: Vec<Vec<char>> = Vec::new();
    let ghost mut start: int = 0;
    let mut i: usize = 0;
    while i < lines.len() && !finished
        invariant
            ls == views(lines@),
            ks == views(keys@),
            k == keys@.len(),
            k > 0,
            total_len(ls) + k <= usize::MAX,
            i <= lines@.len(),
            !collecting ==> {
                &&& !finished
                &&& key_scan(ls, ks, i as int, false).0 == passed
                &&& passed < k
                &&& list@.len() == 0
            },
            collecting ==> {
                &&& key_scan(ls, ks, i as int, false) == (k, start)
                &&& 0 <= start < i
                &&& views(list@) == ls.subrange(start, i as int)
            },
            collecting && !finished ==> {
                &&& passed >= k
                &&& passed <= k + total_len(ls.take(i as int))
                &&& section_end(ls, k, start, k) == section_end(ls, k, i as int, passed as int)
                &&& section_underflows(ls, k, start, k) == section_underflows(ls, k, i as int, passed as int)
            },
            finished ==> section_end(ls, k, start, k) == i && !section_underflows(ls, k, start, k),
        decreases lines.len() - i,
    {
        proof {
            lemma_total_len_prefix(ls, i as int);
            lemma_key_scan_bounds(ls, ks, i as int, false);
        }
        let line = &lines[i];
        if !collecting && line_holds(line, &keys[passed], false) {
            passed = passed + 1;
            if passed >= keys.len() {
                collecting = true;
                proof {
                    start = i as int;
                }
            }
        }
        if collecting {
            let ghost prev = views(list@);
            let (o, c) = brace_counts(line);
            proof {
                lemma_trimmed_counts(ls[i as int]);
                lemma_key_scan_stable(ls, ks, i as int + 1, ls.len() as int, false);
            }
            if passed + o < c {
                return None;
            }
            passed = passed + o;
            passed = passed - c;
            list.push(copy_chars(line));
            assert(views(list@) =~= ls.subrange(start, i + 1));
            if passed < keys.len() {
                finished = true;
            }
        }
        i = i + 1;
    }
    proof {
        if !collecting {
            assert(!path_found(ls, ks, false));
        } else {
            lemma_key_scan_stable(ls, ks, i as int, ls.len() as int, false);
        }
    }
    Some(list)
}


/// Reads the section of a configuration text addressed by a key path.
///
/// The lines of `content` are searched, in order, for one whose trimmed text
/// starts with `keys[0]`, then for a later one that starts with `keys[1]`,
/// and so on. The result runs from the line that holds the last key through
/// the line whose closing brace brings the depth of braces back below the
/// number of keys, or to the last line; it is empty when the path is not found.
pub fn load_config(content: &str, keys: &[&str]) -> (list: Vec<String>)
    requires
        load_defined(lines_of(content@), str_views(keys@)),
        content@.len() + keys@.len() <= usize::MAX,
    ensures
        string_views(list@) == loaded_section(lines_of(content@), str_views(keys@)),
{
    match try_load_config(content, keys) {
        Some(list) => list,
        // not reached: `load_defined` holds
        None => Vec::new(),
    }
}

/// `load_config`, or `None` on the inputs where reading the section is not
/// defined: a non-empty text with no key, or a line that closes more
/// braces than are open.
pub fn try_load_config(content: &str, keys: &[&str]) -> (r: Option<Vec<String>>)
    requires
        content@.len() + keys@.len() <= usize::MAX,
    ensures
        r is Some <==> load_defined(lines_of(content@), str_views(keys@)),
        r matches Some(list) ==> string_views(list@) == loaded_section(
            lines_of(content@),
            str_views(keys@),
        ),
{
    let chars = chars_of(content);
    let lines = split_lines(chars.as_slice());
    let key_chars = chars_of_all(keys);
    proof {
        lemma_lines_total_len(content@);
    }
    match section_of(&lines, &key_chars) {
        Some(section) => Some(strings_of(&section)),
        None => None,
    }
}


/// Where the key path ends: `key_scan` over all of `lines`.
fn scan_keys(lines: &Vec<Vec<char>>, keys: &Vec<Vec<char>>, anywhere: bool) -> (r: (usize, usize))
    ensures
        r.0 == key_scan(views(lines@), views(keys@), lines@.len() as int, anywhere).0,
        r.1 == key_scan(views(lines@), views(keys@), lines@.len() as int, anywhere).1,
        r.0 <= keys@.len(),
        r.1 < lines@.len() || (r.1 == 0 && r.0 == 0),
{
    let ghost ls = views(lines@);
    let ghost ks = views(keys@);
    let mut passed: usize = 0;
    let mut at: usize = 0;
    let mut i: usize = 0;
    while i < lines.len() && passed < keys.len()
        invariant
            ls == views(lines@),
            ks == views(keys@),
            i <= lines@.len(),
            passed <= keys@.len(),
            (passed as int, at as int) == key_scan(ls, ks, i as int, anywhere),
            at < lines@.len() || (at == 0 && passed == 0),
        decreases lines.len() - i,
    {
        if line_holds(&lines[i], &keys[passed], anywhere) {
            passed = passed + 1;
            at = i;
        }
        i = i + 1;
    }
    proof {
        if passed >= keys.len() {
            lemma_key_scan_stable(ls, ks, i as int, ls.len() as int, anywhere);
        }
    }
    (passed, at)
}

/// The lines left once the line holding the last key of the path is
/// removed; unchanged when the path is not found.
pub open spec fn removed_lines(lines: Seq<Seq<char>>, keys: Seq<Seq<char>>) -> Seq<Seq<char>> {
    if path_found(lines, keys, true) {
        lines.remove(path_line(lines, keys, true))
    } else {
        lines
    }
}

/// Removes from a configuration text the line that holds the last key of a
/// path; here a line holds a key when its trimmed text contains it. The
/// remaining lines are joined with `\n`.
pub fn remove_config(content: &str, keys: &[&str]) -> (r: String)
    requires
        keys@.len() > 0 || content@.len() == 0,
    ensures
        r@ == join_lines(removed_lines(lines_of(content@), str_views(keys@))),
{
    let chars = chars_of(content);
    let mut lines = split_lines(chars.as_slice());
    let key_chars = chars_of_all(keys);
    let ghost ls = views(lines@);
    proof {
        lemma_lines_empty(content@);
    }
    if keys.len() > 0 {
        let (passed, at) = scan_keys(&lines, &key_chars, true);
        if passed == keys.len() {
            lines.remove(at);
            assert(views(lines@) =~= ls.remove(at as int));
        }
    }
    let joined = join_lines_chars(&lines);
    string_of(joined.as_slice())
}


/// `{key} {`: opens the block of a key that was not found.
pub open spec fn opener_line(key: Seq<char>) -> Seq<char> {
    key + seq![' ', '{']
}

/// `{key} "{value}"`: the line that holds a new value.
pub open spec fn leaf_line(key: Seq<char>, value: Seq<char>) -> Seq<char> {
    key + seq![' ', '"'] + value + seq!['"']
}

/// The lines written for the keys `keys[from..]` that were not found: a block
/// opener for each but the last, the value line, and a closing brace for
/// each opened block.
pub open spec fn new_blocks(keys: Seq<Seq<char>>, from: int, value: Seq<char>) -> Seq<Seq<char>> {
    let n = keys.len() - 1 - from;
    Seq::new(n as nat, |j: int| opener_line(keys[from + j])) + seq![
        leaf_line(keys[keys.len() - 1], value),
    ] + Seq::new(n as nat, |j: int| seq!['}'])
}

/// `line` with the text between its first and last `"` replaced by `value`,
/// when it has two quotes or more.
pub open spec fn requoted(line: Seq<char>, value: Seq<char>) -> Seq<char> {
    let a = find_char(line, '"')->0;
    let b = rfind_char(line, '"')->0;
    line.subrange(0, a + 1) + value + line.subrange(b, line.len() as int)
}

/// The lines after `save_config`.
///
/// When the whole path is found, the line holding the last key gets `value`
/// between its first and last quote; a line with no quote is followed by a
/// new line `value`; a line with one quote is kept. Otherwise the blocks for
/// the keys not found, ending in the value line, are inserted after the line
/// where the latest key was found (after the first line when none was).
pub open spec fn saved_lines(lines: Seq<Seq<char>>, keys: Seq<Seq<char>>, value: Seq<char>) -> Seq<
    Seq<char>,
> {
    let (found, at) = key_scan(lines, keys, lines.len() as int, false);
    if keys.len() == 0 {
        lines
    } else if found == keys.len() {
        let line = lines[at];
        if find_char(line, '"') is Some && rfind_char(line, '"') is Some {
            if find_char(line, '"') != rfind_char(line, '"') {
                lines.update(at, requoted(line, value))
            } else {
                lines
            }
        } else {
            lines.insert(at + 1, value)
        }
    } else {
        lines.subrange(0, at + 1) + new_blocks(keys, found, value) + lines.subrange(
            at + 1,
            lines.len() as int,
        )
    }
}

/// A copy of `v`.
fn copy_chars(v: &Vec<char>) -> (r: Vec<char>)
    ensures
        r@ == v@,
{
    let mut r: Vec<char> = Vec::new();
    append_chars(&mut r, v.as_slice());
    r
}

/// `line` with the text between positions `a` and `b` replaced by `value`.
fn replace_between(line: &Vec<char>, a: usize, b: usize, value: &[char]) -> (r: Vec<char>)
    requires
        a < b < line@.len(),
    ensures
        r@ == line@.subrange(0, a + 1) + value@ + line@.subrange(b as int, line@.len() as int),
{
    let mut r: Vec<char> = Vec::new();
    append_chars(&mut r, slice_subrange(line.as_slice(), 0, a + 1));
    append_chars(&mut r, value);
    append_chars(&mut r, slice_subrange(line.as_slice(), b, line.len()));
    r
}

/// The lines written for the keys from `from` on that were not found.
fn make_new_blocks(keys: &Vec<Vec<char>>, from: usize, value: &[char]) -> (r: Vec<Vec<char>>)
    requires
        from < keys@.len(),
    ensures
        views(r@) == new_blocks(views(keys@), from as int, value@),
{
    let ghost ks = views(keys@);
    let last = keys.len() - 1;
    let mut r: Vec<Vec<char>> = Vec::new();
    let mut j: usize = from;
    while j < last
        invariant
            from <= j <= last,
            last == keys@.len() - 1,
            ks == views(keys@),
            views(r@) == Seq::new((j - from) as nat, |t: int| opener_line(ks[from + t])),
        decreases last - j,
    {
        let ghost prev = views(r@);
        let mut line: Vec<char> = Vec::new();
        append_chars(&mut line, keys[j].as_slice());
        line.push(' ');
        line.push('{');
        assert(line@ =~= opener_line(ks[j as int]));
        r.push(line);
        assert(views(r@) =~= prev.push(opener_line(ks[j as int])));
        assert(views(r@) =~= Seq::new((j + 1 - from) as nat, |t: int| opener_line(ks[from + t])));
        j = j + 1;
    }
    let mut leaf: Vec<char> = Vec::new();
    append_chars(&mut leaf, keys[last].as_slice());
    leaf.push(' ');
    leaf.push('"');
    append_chars(&mut leaf, value);
    leaf.push('"');
    assert(leaf@ =~= leaf_line(ks[last as int], value@));
    let ghost openers = views(r@);
    r.push(leaf);
    let mut t: usize = from;
    while t < last
        invariant
            from <= t <= last,
            last == keys@.len() - 1,
            ks == views(keys@),
            views(r@) == openers + seq![leaf_line(ks[last as int], value@)] + Seq::new(
                (t - from) as nat,
                |u: int| seq!['}'],
            ),
        decreases last - t,
    {
        let ghost prev = views(r@);
        let mut close: Vec<char> = Vec::new();
        close.push('}');
        assert(close@ =~= seq!['}']);
        r.push(close);
        assert(views(r@) =~= prev.push(seq!['}']));
        assert(views(r@) =~= openers + seq![leaf_line(ks[last as int], value@)] + Seq::new(
            (t + 1 - from) as nat,
            |u: int| seq!['}'],
        ));
        t = t + 1;
    }
    assert(views(r@) =~= new_blocks(ks, from as int, value@));
    r
}

/// Writes `value` at a key path of a configuration text and returns the new
/// text, its lines joined with `\n`; see `saved_lines`.
pub fn save_config(content: &str, keys: &[&str], value: &str) -> (r: String)
    requires
        (keys@.len() == 0) == (content@.len() == 0),
    ensures
        r@ == join_lines(saved_lines(lines_of(content@), str_views(keys@), value@)),
{
    let chars = chars_of(content);
    let lines = split_lines(chars.as_slice());
    let key_chars = chars_of_all(keys);
    let value_chars = chars_of(value);
    let ghost ls = views(lines@);
    let ghost ks = views(key_chars@);
    proof {
        lemma_lines_empty(content@);
    }
    if keys.len() == 0 {
        let joined = join_lines_chars(&lines);
        return string_of(joined.as_slice());
    }
    let (passed, at) = scan_keys(&lines, &key_chars, false);
    assert(ls.len() > 0);
    assert(at < lines.len());
    let mut out: Vec<Vec<char>> = Vec::new();
    if passed == keys.len() {
        let line = &lines[at];
        let first = find_char_from(line.as_slice(), '"', 0);
        let last = rfind_char_in(line.as_slice(), '"');
        proof {
            lemma_find_from(line@, '"', 0);
            lemma_rfind_before(line@, '"', line@.len() as int);
        }
        let mut k: usize = 0;
        while k < lines.len()
            invariant
                k <= lines@.len(),
                ls == views(lines@),
                views(out@) == ls.take(k as int),
            decreases lines.len() - k,
        {
            let ghost prev = views(out@);
            let c = copy_chars(&lines[k]);
            assert(c@ == ls[k as int]);
            out.push(c);
            assert(views(out@) =~= prev.push(c@));
            assert(ls.take(k + 1) =~= ls.take(k as int).push(ls[k as int]));
            k = k + 1;
        }
        assert(ls.take(ls.len() as int) =~= ls);
        match last {
            Some(b) => {
                if first < line.len() {
                    if first != b {
                        proof {
                            lemma_rfind_before(line@, '"', line@.len() as int);
                        }
                        let replaced = replace_between(line, first, b, value_chars.as_slice());
                        out.set(at, replaced);
                        assert(views(out@) =~= ls.update(at as int, requoted(ls[at as int], value@)));
                    }
                } else {
                    out.insert(at + 1, value_chars);
                    assert(views(out@) =~= ls.insert(at + 1, value@));
                }
            },
            None => {
                out.insert(at + 1, value_chars);
                assert(views(out@) =~= ls.insert(at + 1, value@));
            },
        }
    } else {
        let blocks = make_new_blocks(&key_chars, passed, value_chars.as_slice());
        let n = lines.len();
        let mut k: usize = 0;
        while k <= at
            invariant
                k <= at + 1,
                at < n,
                n == lines@.len(),
                ls == views(lines@),
                views(out@) == ls.take(k as int),
            decreases at + 1 - k,
        {
            let ghost prev = views(out@);
            let c = copy_chars(&lines[k]);
            out.push(c);
            assert(views(out@) =~= prev.push(c@));
            assert(ls.take(k + 1) =~= ls.take(k as int).push(ls[k as int]));
            k = k + 1;
        }
        let ghost head = views(out@);
        let mut t: usize = 0;
        while t < blocks.len()
            invariant
                t <= blocks@.len(),
                views(out@) == head + views(blocks@).take(t as int),
            decreases blocks.len() - t,
        {
            let ghost prev = views(out@);
            let c = copy_chars(&blocks[t]);
            out.push(c);
            assert(views(out@) =~= prev.push(c@));
            assert(views(blocks@).take(t + 1) =~= views(blocks@).take(t as int).push(blocks@[t as int]@));
            assert(views(out@) =~= head + views(blocks@).take(t + 1));
            t = t + 1;
        }
        assert(views(blocks@).take(blocks@.len() as int) =~= views(blocks@));
        let ghost mid = views(out@);
        let mut k: usize = at + 1;
        while k < lines.len()
            invariant
                at + 1 <= k <= lines@.len(),
                ls == views(lines@),
                views(out@) == mid + ls.subrange(at + 1, k as int),
            decreases lines.len() - k,
        {
            let ghost prev = views(out@);
            let c = copy_chars(&lines[k]);
            out.push(c);
            assert(views(out@) =~= prev.push(c@));
            assert(ls.subrange(at + 1, k + 1) =~= ls.subrange(at + 1, k as int).push(ls[k as int]));
            assert(views(out@) =~= mid + ls.subrange(at + 1, k + 1));
            k = k + 1;
        }
        assert(ls.take(at + 1) =~= ls.subrange(0, at + 1));
    }
    let joined = join_lines_chars(&out);
    string_of(joined.as_slice())
}


/// The default configuration file, under the configuration directory.
pub fn config_file_name<'a>(file: Option<&'a str>) -> (name: &'a str)
    ensures
        file matches Some(f) ==> name@ == f@,
        file is None ==> name@ == "haremal-ctrl/config.toml"@,
{
    match file {
        Some(f) => f,
        None => "haremal-ctrl/config.toml",
    }
}

proof fn lemma_key_scan_same_prefix(
    a: Seq<Seq<char>>,
    b: Seq<Seq<char>>,
    keys: Seq<Seq<char>>,
    n: int,
    anywhere: bool,
)
    requires
        0 <= n <= a.len(),
        n <= b.len(),
        a.take(n) == b.take(n),
    ensures
        key_scan(a, keys, n, anywhere) == key_scan(b, keys, n, anywhere),
    decreases n,
{
    if n > 0 {
        assert(a.take(n - 1) =~= a.take(n).take(n - 1));
        assert(b.take(n - 1) =~= b.take(n).take(n - 1));
        assert(a[n - 1] == a.take(n)[n - 1]);
        assert(b[n - 1] == b.take(n)[n - 1]);
        lemma_key_scan_same_prefix(a, b, keys, n - 1, anywhere);
    }
}

proof fn lemma_key_scan_monotone(lines: Seq<Seq<char>>, keys: Seq<Seq<char>>, m: int, n: int, anywhere: bool)
    requires
        0 <= m <= n <= lines.len(),
    ensures
        key_scan(lines, keys, m, anywhere).0 <= key_scan(lines, keys, n, anywhere).0,
    decreases n - m,
{
    if n > m {
        lemma_key_scan_monotone(lines, keys, m, n - 1, anywhere);
    }
}

/// Once the latest key was found at `at`, nothing changes after line `at`.
proof fn lemma_key_scan_at(lines: Seq<Seq<char>>, keys: Seq<Seq<char>>, n: int, anywhere: bool)
    requires
        0 <= n <= lines.len(),
        key_scan(lines, keys, n, anywhere).0 > 0,
    ensures
        key_scan(lines, keys, key_scan(lines, keys, n, anywhere).1 + 1, anywhere) == key_scan(
            lines,
            keys,
            n,
            anywhere,
        ),
    decreases n,
{
    let (found, at) = key_scan(lines, keys, n - 1, anywhere);
    if !(found < keys.len() && line_has_key(lines[n - 1], keys[found], anywhere)) {
        lemma_key_scan_at(lines, keys, n - 1, anywhere);
    }
}

proof fn lemma_section_end_after(lines: Seq<Seq<char>>, base: int, i: int, depth: int)
    requires
        0 <= i < lines.len(),
    ensures
        i + 1 <= section_end(lines, base, i, depth) <= lines.len(),
    decreases lines.len() - i,
{
    let d = depth + opens(lines[i]) - closes(lines[i]);
    if d >= base {
        assert(section_end(lines, base, i, depth) == section_end(lines, base, i + 1, d));
        if i + 1 < lines.len() {
            lemma_section_end_after(lines, base, i + 1, d);
        } else {
            assert(section_end(lines, base, i + 1, d) == lines.len());
        }
    }
}

/// A section is read exactly when its key path is found.
pub proof fn law_section_found(lines: Seq<Seq<char>>, keys: Seq<Seq<char>>)
    ensures
        loaded_section(lines, keys).len() > 0 <==> path_found(lines, keys, false),
        path_found(lines, keys, false) ==> loaded_section(lines, keys)[0] == lines[path_line(
            lines,
            keys,
            false,
        )],
{
    if path_found(lines, keys, false) {
        let s = path_line(lines, keys, false);
        lemma_key_scan_bounds(lines, keys, lines.len() as int, false);
        lemma_section_end_after(lines, keys.len() as int, s, keys.len() as int);
    }
}

/// Writing a value at a key path that is present, where the line of the
/// last key holds no quote and does not close its block, puts the value on
/// the next line; reading the path back gives that line, then the value.
pub proof fn law_save_then_load_present(
    lines: Seq<Seq<char>>,
    keys: Seq<Seq<char>>,
    value: Seq<char>,
)
    requires
        path_found(lines, keys, false),
        !lines[path_line(lines, keys, false)].contains('"'),
        opens(lines[path_line(lines, keys, false)]) >= closes(lines[path_line(lines, keys, false)]),
    ensures
        loaded_section(saved_lines(lines, keys, value), keys).len() >= 2,
        loaded_section(saved_lines(lines, keys, value), keys)[0] == lines[path_line(
            lines,
            keys,
            false,
        )],
        loaded_section(saved_lines(lines, keys, value), keys)[1] == value,
{
    let k = keys.len() as int;
    let n = lines.len() as int;
    let s = path_line(lines, keys, false);
    lemma_key_scan_bounds(lines, keys, n, false);
    let line = lines[s];
    lemma_find_from(line, '"', 0);
    if find_from(line, '"', 0) < line.len() {
        assert(line.contains('"'));
    }
    let saved = lines.insert(s + 1, value);
    assert(saved_lines(lines, keys, value) == saved);
    lemma_key_scan_at(lines, keys, n, false);
    assert(saved.take(s + 1) =~= lines.take(s + 1));
    lemma_key_scan_same_prefix(saved, lines, keys, s + 1, false);
    lemma_key_scan_stable(saved, keys, s + 1, saved.len() as int, false);
    assert(path_found(saved, keys, false));
    assert(path_line(saved, keys, false) == s);
    assert(saved[s] == line);
    let d = k + opens(line) - closes(line);
    lemma_section_end_after(saved, k, s + 1, d);
    assert(section_end(saved, k, s, k) == section_end(saved, k, s + 1, d));
}


/// A line made of `key` and then some text ending in a visible character
/// holds that key, when the key does not begin with whitespace.
proof fn lemma_key_opens_line(key: Seq<char>, rest: Seq<char>)
    requires
        rest.len() > 0,
        !is_white(rest.last()),
        key.len() == 0 || !is_white(key[0]),
    ensures
        line_has_key(key + rest, key, false),
{
    let line = key + rest;
    if key.len() > 0 {
        assert(line[0] == key[0]);
        assert(line.last() == rest.last());
        assert(skip_white(line, 0) == 0);
        assert(back_white(line, 0, line.len() as int) == line.len());
        assert(trim(line) =~= line);
        assert(key =~= line.subrange(0, key.len() as int));
    } else {
        assert(key =~= trim(line).subrange(0, 0));
    }
}

proof fn lemma_scan_new_blocks(
    lines: Seq<Seq<char>>,
    keys: Seq<Seq<char>>,
    value: Seq<char>,
    saved: Seq<Seq<char>>,
    found: int,
    at: int,
    t: int,
)
    requires
        0 <= found < keys.len(),
        0 <= at < lines.len(),
        saved == lines.subrange(0, at + 1) + new_blocks(keys, found, value) + lines.subrange(
            at + 1,
            lines.len() as int,
        ),
        key_scan(saved, keys, at + 1, false) == (found, at),
        forall|j: int| 0 <= j < keys.len() ==> keys[j].len() == 0 || !is_white(#[trigger] keys[j][0]),
        0 <= t <= keys.len() - found,
    ensures
        key_scan(saved, keys, at + 1 + t, false) == (found + t, at + t),
    decreases t,
{
    if t > 0 {
        lemma_scan_new_blocks(lines, keys, value, saved, found, at, t - 1);
        let m = keys.len() - 1 - found;
        let blocks = new_blocks(keys, found, value);
        assert(saved[at + t] == blocks[t - 1]);
        let key = keys[found + t - 1];
        if t - 1 < m {
            assert(blocks[t - 1] == opener_line(key));
            lemma_key_opens_line(key, seq![' ', '{']);
        } else {
            assert(blocks[t - 1] == leaf_line(keys[keys.len() - 1], value));
            assert(leaf_line(key, value) =~= key + (seq![' ', '"'] + value + seq!['"']));
            lemma_key_opens_line(key, seq![' ', '"'] + value + seq!['"']);
        }
    }
}

/// Writing a value at a key path that is not fully present adds the missing
/// blocks, and reading the path back starts with the line `key "value"` of
/// the last key (keys that do not begin with whitespace).
pub proof fn law_save_then_load_missing(
    lines: Seq<Seq<char>>,
    keys: Seq<Seq<char>>,
    value: Seq<char>,
)
    requires
        keys.len() > 0,
        lines.len() > 0,
        !path_found(lines, keys, false),
        forall|j: int| 0 <= j < keys.len() ==> keys[j].len() == 0 || !is_white(#[trigger] keys[j][0]),
    ensures
        path_found(saved_lines(lines, keys, value), keys, false),
        loaded_section(saved_lines(lines, keys, value), keys)[0] == leaf_line(
            keys[keys.len() - 1],
            value,
        ),
{
    let n = lines.len() as int;
    let k = keys.len() as int;
    lemma_key_scan_bounds(lines, keys, n, false);
    let (found, at) = key_scan(lines, keys, n, false);
    if found > 0 {
        lemma_key_scan_at(lines, keys, n, false);
    } else {
        lemma_key_scan_monotone(lines, keys, 1, n, false);
        assert(key_scan(lines, keys, 0, false) == (0int, 0int));
        assert(key_scan(lines, keys, 1, false) == (0int, 0int));
    }
    let saved = lines.subrange(0, at + 1) + new_blocks(keys, found, value) + lines.subrange(
        at + 1,
        n,
    );
    assert(saved_lines(lines, keys, value) == saved);
    assert(saved.take(at + 1) =~= lines.take(at + 1));
    lemma_key_scan_same_prefix(saved, lines, keys, at + 1, false);
    lemma_scan_new_blocks(lines, keys, value, saved, found, at, k - found);
    lemma_key_scan_stable(saved, keys, at + 1 + k - found, saved.len() as int, false);
    let s = at + k - found;
    assert(path_line(saved, keys, false) == s);
    assert(saved[s] == new_blocks(keys, found, value)[k - 1 - found]);
    law_section_found(saved, keys);
}


proof fn lemma_concat_lacks(a: Seq<char>, b: Seq<char>, c: char)
    requires
        !a.contains(c),
        !b.contains(c),
    ensures
        !(a + b).contains(c),
{
    if (a + b).contains(c) {
        let k = choose|k: int| 0 <= k < (a + b).len() && (a + b)[k] == c;
        if k < a.len() {
            assert(a[k] == c);
        } else {
            assert(b[k - a.len()] == c);
        }
    }
}

proof fn lemma_small_lacks(a: Seq<char>, c: char)
    requires
        forall|k: int| 0 <= k < a.len() ==> a[k] != c,
    ensures
        !a.contains(c),
{
}


proof fn lemma_section_end_drop(lines: Seq<Seq<char>>, base: int, i: int, depth: int)
    requires
        lines.len() > 0,
        0 <= i <= lines.len() - 1,
    ensures
        section_end(lines.drop_last(), base, i, depth) == if section_end(lines, base, i, depth)
            < lines.len() - 1 {
            section_end(lines, base, i, depth)
        } else {
            lines.len() - 1
        },
    decreases lines.len() - i,
{
    let short = lines.drop_last();
    let d = depth + opens(lines[i]) - closes(lines[i]);
    lemma_section_end_after(lines, base, i, depth);
    if i < lines.len() - 1 {
        assert(short[i] == lines[i]);
        if d >= base {
            lemma_section_end_drop(lines, base, i + 1, d);
        }
    } else {
        if d >= base {
            assert(section_end(lines, base, i, depth) == section_end(lines, base, i + 1, d));
        }
    }
}

/// Dropping a blank last line that comes after the line of the last key
/// keeps the path where it was, and cuts the section read at most by that
/// line.
proof fn lemma_read_without_blank_last(lines: Seq<Seq<char>>, keys: Seq<Seq<char>>)
    requires
        lines.len() > 0,
        path_found(lines, keys, false),
        path_line(lines, keys, false) < lines.len() - 1,
    ensures
        path_found(lines.drop_last(), keys, false),
        path_line(lines.drop_last(), keys, false) == path_line(lines, keys, false),
        loaded_section(lines.drop_last(), keys).len() == if loaded_section(lines, keys).len()
            < lines.len() - 1 - path_line(lines, keys, false) {
            loaded_section(lines, keys).len() as int
        } else {
            lines.len() - 1 - path_line(lines, keys, false)
        },
        forall|i: int|
            0 <= i < loaded_section(lines.drop_last(), keys).len() ==> #[trigger] loaded_section(
                lines.drop_last(),
                keys,
            )[i] == loaded_section(lines, keys)[i],
{
    let n = lines.len() as int;
    let k = keys.len() as int;
    let p = path_line(lines, keys, false);
    let short = lines.drop_last();
    lemma_key_scan_bounds(lines, keys, n, false);
    lemma_key_scan_at(lines, keys, n, false);
    assert(short.take(p + 1) =~= lines.take(p + 1));
    lemma_key_scan_same_prefix(short, lines, keys, p + 1, false);
    lemma_key_scan_stable(short, keys, p + 1, n - 1, false);
    lemma_section_end_drop(lines, k, p, k);
    lemma_section_end_after(lines, k, p, k);
}

/// The section read from the text that joins some lines is the section
/// read from the lines, up to a blank last line; a line of the section
/// that is not blank is read in both.
proof fn lemma_read_joined(lines: Seq<Seq<char>>, keys: Seq<Seq<char>>)
    requires
        joinable_lines(lines),
        path_found(lines, keys, false),
        lines.last().len() > 0 || path_line(lines, keys, false) < lines.len() - 1,
    ensures
        path_found(lines_of(join_lines(lines)), keys, false),
        forall|i: int|
            0 <= i < loaded_section(lines_of(join_lines(lines)), keys).len() ==> #[trigger] loaded_section(
                lines_of(join_lines(lines)),
                keys,
            )[i] == loaded_section(lines, keys)[i],
        forall|j: int|
            0 <= j < loaded_section(lines, keys).len() && (#[trigger] loaded_section(lines, keys)[j]).len()
                > 0 ==> j < loaded_section(lines_of(join_lines(lines)), keys).len(),
{
    law_lines_of_join_joinable(lines);
    lemma_key_scan_bounds(lines, keys, lines.len() as int, false);
    if lines.len() > 0 && lines.last().len() == 0 {
        lemma_read_without_blank_last(lines, keys);
        let n = lines.len() as int;
        let k = keys.len() as int;
        let p = path_line(lines, keys, false);
        lemma_section_end_after(lines, k, p, k);
        assert forall|j: int|
            0 <= j < loaded_section(lines, keys).len() && (#[trigger] loaded_section(lines, keys)[j]).len()
                > 0 implies j < loaded_section(lines.drop_last(), keys).len() by {
            assert(loaded_section(lines, keys)[j] == lines[p + j]);
            if p + j == n - 1 {
                assert(lines[p + j] == lines.last());
            }
        }
    }
}

/// Writing a value at a key path present in a text with no `\r` before a
/// line end (the line of the last key holds no quote and does not close its
/// block), then reading the path from the written text, gives that line and
/// then the value.
pub proof fn law_write_then_read_present(content: Seq<char>, keys: Seq<Seq<char>>, value: Seq<char>)
    requires
        cr_free_text(content),
        path_found(lines_of(content), keys, false),
        !lines_of(content)[path_line(lines_of(content), keys, false)].contains('"'),
        opens(lines_of(content)[path_line(lines_of(content), keys, false)]) >= closes(
            lines_of(content)[path_line(lines_of(content), keys, false)],
        ),
        clean_line(value),
    ensures
        loaded_section(lines_of(join_lines(saved_lines(lines_of(content), keys, value))), keys).len()
            >= 2,
        loaded_section(lines_of(join_lines(saved_lines(lines_of(content), keys, value))), keys)[0]
            == lines_of(content)[path_line(lines_of(content), keys, false)],
        loaded_section(lines_of(join_lines(saved_lines(lines_of(content), keys, value))), keys)[1]
            == value,
{
    let ls = lines_of(content);
    let s = path_line(ls, keys, false);
    lemma_key_scan_bounds(ls, keys, ls.len() as int, false);
    law_save_then_load_present(ls, keys, value);
    let line = ls[s];
    lemma_find_from(line, '"', 0);
    if find_from(line, '"', 0) < line.len() {
        assert(line.contains('"'));
    }
    let saved = ls.insert(s + 1, value);
    assert(saved_lines(ls, keys, value) == saved);
    lemma_joinable_insert(content, s, seq![value]);
    assert(ls.subrange(0, s + 1) + seq![value] + ls.subrange(s + 1, ls.len() as int) =~= saved);
    law_section_found(saved, keys);
    let p = path_line(saved, keys, false);
    lemma_key_scan_bounds(saved, keys, saved.len() as int, false);
    let e = section_end(saved, keys.len() as int, p, keys.len() as int);
    lemma_section_end_after(saved, keys.len() as int, p, keys.len() as int);
    assert(loaded_section(saved, keys) == saved.subrange(p, e));
    assert(saved[p + 1] == value);
    if saved.last().len() == 0 {
        assert(p + 1 != saved.len() - 1);
    }
    lemma_read_joined(saved, keys);
    let read = loaded_section(lines_of(join_lines(saved)), keys);
    assert(loaded_section(saved, keys)[0] == ls[s]);
    assert(read.len() > 1);
    assert(read[0] == loaded_section(saved, keys)[0]);
    assert(read[1] == loaded_section(saved, keys)[1]);
}

/// Writing a value at a key path missing from a non-empty text with no `\r`
/// before a line end, then
/// reading the path from the written text, starts with the line
/// `key "value"` of the last key (keys that do not begin with whitespace;
/// keys and value without `\n`).
pub proof fn law_write_then_read_missing(content: Seq<char>, keys: Seq<Seq<char>>, value: Seq<char>)
    requires
        cr_free_text(content),
        content.len() > 0,
        keys.len() > 0,
        !path_found(lines_of(content), keys, false),
        forall|j: int| 0 <= j < keys.len() ==> keys[j].len() == 0 || !is_white(#[trigger] keys[j][0]),
        forall|j: int| 0 <= j < keys.len() ==> !(#[trigger] keys[j]).contains('\n'),
        !value.contains('\n'),
    ensures
        path_found(lines_of(join_lines(saved_lines(lines_of(content), keys, value))), keys, false),
        loaded_section(lines_of(join_lines(saved_lines(lines_of(content), keys, value))), keys)[0]
            == leaf_line(keys[keys.len() - 1], value),
{
    let ls = lines_of(content);
    lemma_lines_empty(content);
    law_save_then_load_missing(ls, keys, value);
    lemma_key_scan_bounds(ls, keys, ls.len() as int, false);
    let (found, at) = key_scan(ls, keys, ls.len() as int, false);
    let block = new_blocks(keys, found, value);
    let m = keys.len() - 1 - found;
    lemma_small_lacks(seq![' ', '{'], '\n');
    lemma_small_lacks(seq![' ', '"'], '\n');
    lemma_small_lacks(seq!['"'], '\n');
    lemma_small_lacks(seq!['}'], '\n');
    assert forall|j: int| 0 <= j < block.len() implies clean_line(#[trigger] block[j]) by {
        if j < m {
            let key = keys[found + j];
            assert(block[j] == opener_line(key));
            lemma_concat_lacks(key, seq![' ', '{'], '\n');
            assert(opener_line(key).last() == '{');
        } else if j == m {
            let key = keys[keys.len() - 1];
            assert(block[j] == leaf_line(key, value));
            lemma_concat_lacks(key, seq![' ', '"'], '\n');
            lemma_concat_lacks(key + seq![' ', '"'], value, '\n');
            lemma_concat_lacks(key + seq![' ', '"'] + value, seq!['"'], '\n');
            assert(leaf_line(key, value).last() == '"');
        } else {
            assert(block[j] == seq!['}']);
        }
    }
    lemma_joinable_insert(content, at, block);
    let saved = saved_lines(ls, keys, value);
    law_section_found(saved, keys);
    let p = path_line(saved, keys, false);
    lemma_key_scan_bounds(saved, keys, saved.len() as int, false);
    let leaf = leaf_line(keys[keys.len() - 1], value);
    assert(leaf.len() > 0);
    assert(saved[p] == leaf);
    if saved.last().len() == 0 {
        assert(p != saved.len() - 1);
    }
    lemma_read_joined(saved, keys);
    let read = loaded_section(lines_of(join_lines(saved)), keys);
    assert(read.len() > 0);
    assert(read[0] == loaded_section(saved, keys)[0]);
}


proof fn lemma_no_underflow(lines: Seq<Seq<char>>, base: int, i: int, depth: int)
    requires
        0 <= depth,
        1 <= base,
        forall|j: int| 0 <= j < lines.len() ==> closes(#[trigger] lines[j]) == 0,
    ensures
        !section_underflows(lines, base, i, depth),
    decreases lines.len() - i,
{
    if 0 <= i < lines.len() {
        assert(closes(lines[i]) == 0);
        let d = depth + opens(lines[i]) - closes(lines[i]);
        if d >= base {
            lemma_no_underflow(lines, base, i + 1, d);
        }
    }
}

/// Reading a section is defined for every key path on a text none of
/// whose lines closes a brace.
pub proof fn law_load_defined_without_closing_braces(lines: Seq<Seq<char>>, keys: Seq<Seq<char>>)
    requires
        keys.len() > 0,
        forall|j: int| 0 <= j < lines.len() ==> closes(#[trigger] lines[j]) == 0,
    ensures
        load_defined(lines, keys),
{
    lemma_no_underflow(lines, keys.len() as int, path_line(lines, keys, false), keys.len() as int);
}


proof fn lemma_key_scan_none(lines: Seq<Seq<char>>, keys: Seq<Seq<char>>, m: int, anywhere: bool)
    requires
        0 <= m <= lines.len(),
        keys.len() > 0,
        forall|i: int| 0 <= i < m ==> !line_has_key(#[trigger] lines[i], keys[0], anywhere),
    ensures
        key_scan(lines, keys, m, anywhere) == (0int, 0int),
    decreases m,
{
    if m > 0 {
        lemma_key_scan_none(lines, keys, m - 1, anywhere);
    }
}

/// Writing a value after a line with no quote, then removing by a key that
/// the value's line holds and no line up to the written one holds, gives the
/// lines back.
pub proof fn law_save_then_remove(
    lines: Seq<Seq<char>>,
    keys: Seq<Seq<char>>,
    value: Seq<char>,
    shown: Seq<char>,
)
    requires
        path_found(lines, keys, false),
        !lines[path_line(lines, keys, false)].contains('"'),
        forall|i: int|
            0 <= i <= path_line(lines, keys, false) ==> !line_has_key(#[trigger] lines[i], shown, true),
        line_has_key(value, shown, true),
    ensures
        removed_lines(saved_lines(lines, keys, value), seq![shown]) == lines,
{
    let n = lines.len() as int;
    let s = path_line(lines, keys, false);
    lemma_key_scan_bounds(lines, keys, n, false);
    let line = lines[s];
    lemma_find_from(line, '"', 0);
    if find_from(line, '"', 0) < line.len() {
        assert(line.contains('"'));
    }
    let saved = lines.insert(s + 1, value);
    assert(saved_lines(lines, keys, value) == saved);
    let rk = seq![shown];
    assert forall|i: int| 0 <= i < s + 1 implies !line_has_key(#[trigger] saved[i], rk[0], true) by {
        assert(saved[i] == lines[i]);
    }
    lemma_key_scan_none(saved, rk, s + 1, true);
    assert(saved[s + 1] == value);
    assert(key_scan(saved, rk, s + 2, true) == (1int, s + 1));
    lemma_key_scan_stable(saved, rk, s + 2, saved.len() as int, true);
    assert(saved.remove(s + 1) =~= lines);
}


proof fn lemma_back_white_past(s: Seq<char>, lo: int, j: int, p: int)
    requires
        0 <= lo <= p < j <= s.len(),
        !is_white(s[p]),
    ensures
        back_white(s, lo, j) >= p + 1,
    decreases j - lo,
{
    if j - 1 > p && is_white(s[j - 1]) {
        lemma_back_white_past(s, lo, j - 1, p);
    }
}

/// A key without a quote that starts a trimmed line still starts it once
/// the text between the line's first and last quote is replaced.
proof fn lemma_requoted_keeps_key(line: Seq<char>, key: Seq<char>, value: Seq<char>)
    requires
        line_has_key(line, key, false),
        !key.contains('"'),
        find_char(line, '"') is Some,
        rfind_char(line, '"') is Some,
        find_char(line, '"') != rfind_char(line, '"'),
    ensures
        line_has_key(requoted(line, value), key, false),
{
    let a = find_char(line, '"')->0;
    let b = rfind_char(line, '"')->0;
    lemma_find_from(line, '"', 0);
    lemma_rfind_before(line, '"', line.len() as int);
    let r = requoted(line, value);
    let t0 = trim_start(line);
    lemma_trim_bounds(line);
    lemma_skip_white_bounds(line, 0);
    let m = key.len() as int;
    assert(trim(line).subrange(0, m) == key);
    assert forall|k: int| t0 <= k < t0 + m implies line[k] != '"' by {
        assert(key[k - t0] == line[k]);
        if line[k] == '"' {
            assert(key.contains('"'));
        }
    }
    assert(!is_white(line[a]));
    assert(t0 <= a) by {
        if a < t0 {
            assert(is_white(line[a]));
        }
    }
    assert(t0 + m <= a) by {
        if a < t0 + m {
            assert(line[a] != '"');
        }
    }
    assert(a < b);
    let rl = r.len() as int;
    let v = value.len() as int;
    assert(rl == a + 1 + v + (line.len() - b));
    assert forall|k: int| 0 <= k <= a implies r[k] == line[k] by {}
    assert(r[a + 1 + v] == '"');
    lemma_skip_white_is(r, 0, t0);
    assert(trim_start(r) == t0);
    lemma_back_white_bounds(r, t0, rl);
    lemma_back_white_past(r, t0, rl, a + 1 + v);
    assert(trim(r).subrange(0, m) =~= key);
}

/// A save at a path whose last line holds two quotes rewrites that line
/// only, and the path still ends on it.
proof fn lemma_quoted_save(lines: Seq<Seq<char>>, keys: Seq<Seq<char>>, value: Seq<char>)
    requires
        path_found(lines, keys, false),
        !keys[keys.len() - 1].contains('"'),
        find_char(lines[path_line(lines, keys, false)], '"') is Some,
        find_char(lines[path_line(lines, keys, false)], '"') != rfind_char(
            lines[path_line(lines, keys, false)],
            '"',
        ),
    ensures
        0 <= path_line(lines, keys, false) < lines.len(),
        rfind_char(lines[path_line(lines, keys, false)], '"') is Some,
        saved_lines(lines, keys, value) == lines.update(
            path_line(lines, keys, false),
            requoted(lines[path_line(lines, keys, false)], value),
        ),
        path_found(saved_lines(lines, keys, value), keys, false),
        path_line(saved_lines(lines, keys, value), keys, false) == path_line(lines, keys, false),
{
    let n = lines.len() as int;
    let k = keys.len() as int;
    let s = path_line(lines, keys, false);
    lemma_key_scan_bounds(lines, keys, n, false);
    let line = lines[s];
    lemma_find_from(line, '"', 0);
    lemma_rfind_before(line, '"', line.len() as int);
    assert(rfind_char(line, '"') is Some) by {
        let a = find_from(line, '"', 0);
        assert(line[a] == '"');
        if rfind_before(line, '"', line.len() as int) < 0 {
            assert(line[a] != '"');
        }
    }
    let r = requoted(line, value);
    let saved = lines.update(s, r);
    assert(saved_lines(lines, keys, value) == saved);
    lemma_key_scan_at(lines, keys, n, false);
    lemma_key_scan_bounds(lines, keys, s, false);
    let prev = key_scan(lines, keys, s, false);
    assert(prev.0 + 1 == k && line_has_key(line, keys[prev.0], false));
    lemma_requoted_keeps_key(line, keys[k - 1], value);
    assert(saved.take(s) =~= lines.take(s));
    lemma_key_scan_same_prefix(saved, lines, keys, s, false);
    assert(saved[s] == r);
    assert(key_scan(saved, keys, s + 1, false) == (k, s));
    lemma_key_scan_stable(saved, keys, s + 1, saved.len() as int, false);
}

/// Where the quotes of a rewritten line stand: the first where it was, the
/// last right after the value, when the value holds no quote.
proof fn lemma_requoted_quotes(line: Seq<char>, value: Seq<char>)
    requires
        find_char(line, '"') is Some,
        rfind_char(line, '"') is Some,
        find_char(line, '"') != rfind_char(line, '"'),
        !value.contains('"'),
    ensures
        find_char(requoted(line, value), '"') == find_char(line, '"'),
        rfind_char(requoted(line, value), '"') == Some(find_char(line, '"')->0 + 1 + value.len()),
        second_field(requoted(line, value), '"') == Some(value),
        requoted(line, value).len() > 0,
        requoted(line, value).last() == line.last(),
        requoted(line, value).subrange(
            find_char(line, '"')->0 + 1,
            find_char(line, '"')->0 + 1 + value.len(),
        ) == value,
        !line.contains('\n') && !value.contains('\n') ==> !requoted(line, value).contains('\n'),
{
    let a = find_from(line, '"', 0);
    let b = rfind_before(line, '"', line.len() as int);
    lemma_find_from(line, '"', 0);
    lemma_rfind_before(line, '"', line.len() as int);
    let r = requoted(line, value);
    let v = value.len() as int;
    let rl = r.len() as int;
    assert(a < b);
    assert(rl == a + 1 + v + (line.len() - b));
    assert forall|j: int| 0 <= j < a implies r[j] != '"' by {
        assert(r[j] == line[j]);
    }
    assert(r[a] == '"');
    lemma_find_from_is(r, '"', 0, a);
    assert forall|j: int| a + 1 <= j < a + 1 + v implies r[j] != '"' by {
        assert(r[j] == value[j - a - 1]);
        if r[j] == '"' {
            assert(value.contains('"'));
        }
    }
    assert(r[a + 1 + v] == '"');
    lemma_find_from_is(r, '"', a + 1, a + 1 + v);
    assert(r.subrange(a + 1, a + 1 + v) =~= value);
    assert forall|j: int| a + 1 + v < j < rl implies r[j] != '"' by {
        assert(r[j] == line[b + (j - (a + 1 + v))]);
    }
    lemma_rfind_before_is(r, '"', rl, a + 1 + v);
    assert(r.last() == line.last());
    if !line.contains('\n') && !value.contains('\n') && r.contains('\n') {
        let j = choose|j: int| 0 <= j < rl && r[j] == '\n';
        if j <= a {
            assert(line[j] == '\n');
        } else if j < a + 1 + v {
            assert(value[j - a - 1] == '\n');
        } else {
            assert(line[b + (j - (a + 1 + v))] == '\n');
        }
    }
}

/// Writing a value at a key path whose last line holds a quoted value, and
/// whose last key holds no quote, puts the value between the line's first
/// and last quote; reading the path back starts with that line, and its
/// quoted text is the value when the value holds no quote.
pub proof fn law_save_then_load_quoted(lines: Seq<Seq<char>>, keys: Seq<Seq<char>>, value: Seq<char>)
    requires
        path_found(lines, keys, false),
        !keys[keys.len() - 1].contains('"'),
        find_char(lines[path_line(lines, keys, false)], '"') is Some,
        find_char(lines[path_line(lines, keys, false)], '"') != rfind_char(
            lines[path_line(lines, keys, false)],
            '"',
        ),
    ensures
        loaded_section(saved_lines(lines, keys, value), keys)[0] == requoted(
            lines[path_line(lines, keys, false)],
            value,
        ),
        !value.contains('"') ==> second_field(
            loaded_section(saved_lines(lines, keys, value), keys)[0],
            '"',
        ) == Some(value),
{
    lemma_quoted_save(lines, keys, value);
    law_section_found(saved_lines(lines, keys, value), keys);
    if !value.contains('"') {
        lemma_requoted_quotes(lines[path_line(lines, keys, false)], value);
    }
}

/// Rewriting one line of a text with no `\r` before a line end with a clean
/// line keeps its lines joinable.
proof fn lemma_joinable_update(content: Seq<char>, at: int, line: Seq<char>)
    requires
        cr_free_text(content),
        0 <= at < lines_of(content).len(),
        clean_line(line),
    ensures
        joinable_lines(lines_of(content).update(at, line)),
{
    let ls = lines_of(content);
    lemma_joinable_insert(content, at, seq![line]);
    let ins = ls.subrange(0, at + 1) + seq![line] + ls.subrange(at + 1, ls.len() as int);
    let up = ls.update(at, line);
    assert forall|i: int| 0 <= i < up.len() implies !(#[trigger] up[i]).contains('\n') && !(up[i].len()
        > 0 && up[i].last() == '\r') by {
        if i < at {
            assert(up[i] == ins[i]);
        } else if i == at {
            assert(up[i] == ins[at + 1]);
        } else {
            assert(up[i] == ins[i + 1]);
        }
    }
}

/// Rewriting one line of a plain text with a line that holds no `\n`, is
/// not empty and does not end with `\r` keeps its lines plain.
proof fn lemma_plain_update(content: Seq<char>, at: int, line: Seq<char>)
    requires
        plain_text(content),
        0 <= at < lines_of(content).len(),
        clean_line(line),
    ensures
        plain_lines(lines_of(content).update(at, line)),
{
    let ls = lines_of(content);
    lemma_plain_insert(content, at, seq![line]);
    let ins = ls.subrange(0, at + 1) + seq![line] + ls.subrange(at + 1, ls.len() as int);
    let up = ls.update(at, line);
    assert forall|i: int| 0 <= i < up.len() implies !(#[trigger] up[i]).contains('\n') && !(up[i].len()
        > 0 && up[i].last() == '\r') by {
        if i < at {
            assert(up[i] == ins[i]);
        } else if i == at {
            assert(up[i] == ins[at + 1]);
        } else {
            assert(up[i] == ins[i + 1]);
        }
    }
    if up.len() > 0 {
        if at == up.len() - 1 {
            assert(up.last() == line);
        } else {
            assert(up.last() == ins.last());
        }
    }
}

/// Writing a value at a key path of a text with no `\r` before a line end,
/// whose last line holds a quoted value (last key and value without quote, value without `\n`),
/// then reading the path from the written text, gives the rewritten line,
/// with the value between its first and last quote.
pub proof fn law_write_then_read_quoted(content: Seq<char>, keys: Seq<Seq<char>>, value: Seq<char>)
    requires
        cr_free_text(content),
        path_found(lines_of(content), keys, false),
        !keys[keys.len() - 1].contains('"'),
        find_char(lines_of(content)[path_line(lines_of(content), keys, false)], '"') is Some,
        find_char(lines_of(content)[path_line(lines_of(content), keys, false)], '"') != rfind_char(
            lines_of(content)[path_line(lines_of(content), keys, false)],
            '"',
        ),
        !value.contains('"'),
        !value.contains('\n'),
    ensures
        ({
            let read = loaded_section(
                lines_of(join_lines(saved_lines(lines_of(content), keys, value))),
                keys,
            );
            &&& read.len() > 0
            &&& read[0] == requoted(
                lines_of(content)[path_line(lines_of(content), keys, false)],
                value,
            )
            &&& find_char(read[0], '"') is Some
            &&& rfind_char(read[0], '"') is Some
            &&& read[0].subrange(find_char(read[0], '"')->0 + 1, rfind_char(read[0], '"')->0)
                == value
            &&& second_field(read[0], '"') == Some(value)
        }),
{
    let ls = lines_of(content);
    let s = path_line(ls, keys, false);
    let line = ls[s];
    lemma_quoted_save(ls, keys, value);
    lemma_requoted_quotes(line, value);
    lemma_lines_no_newline(content);
    assert(!line.contains('\n'));
    let r = requoted(line, value);
    assert(line.len() > 0);
    assert(!(line.len() > 0 && line.last() == '\r'));
    assert(clean_line(r));
    lemma_joinable_update(content, s, r);
    let saved = ls.update(s, r);
    law_save_then_load_quoted(ls, keys, value);
    law_section_found(saved, keys);
    assert(saved[s] == r);
    if saved.last().len() == 0 {
        assert(s != saved.len() - 1);
    }
    lemma_read_joined(saved, keys);
    let read = loaded_section(lines_of(join_lines(saved)), keys);
    assert(read.len() > 0);
    assert(read[0] == loaded_section(saved, keys)[0]);
}

/// Saving a value a second time, at a key path of a plain text whose last
/// line holds a quoted value (last key and value without quote, value
/// without `\n`), leaves the written text unchanged. A blank last line is
/// left out: each save drops one, as `str::lines` does not give it back.
pub proof fn law_save_idempotent(content: Seq<char>, keys: Seq<Seq<char>>, value: Seq<char>)
    requires
        plain_text(content),
        path_found(lines_of(content), keys, false),
        !keys[keys.len() - 1].contains('"'),
        find_char(lines_of(content)[path_line(lines_of(content), keys, false)], '"') is Some,
        find_char(lines_of(content)[path_line(lines_of(content), keys, false)], '"') != rfind_char(
            lines_of(content)[path_line(lines_of(content), keys, false)],
            '"',
        ),
        !value.contains('"'),
        !value.contains('\n'),
    ensures
        join_lines(
            saved_lines(
                lines_of(join_lines(saved_lines(lines_of(content), keys, value))),
                keys,
                value,
            ),
        ) == join_lines(saved_lines(lines_of(content), keys, value)),
{
    let ls = lines_of(content);
    let s = path_line(ls, keys, false);
    let line = ls[s];
    lemma_quoted_save(ls, keys, value);
    lemma_requoted_quotes(line, value);
    lemma_lines_no_newline(content);
    let r = requoted(line, value);
    assert(line.len() > 0);
    assert(clean_line(r));
    lemma_plain_update(content, s, r);
    let saved = ls.update(s, r);
    law_lines_of_join(saved);
    // The rewritten line keeps its quotes and the last key, so a second save
    // rewrites it in the same way.
    assert(saved[s] == r);
    assert(!keys[keys.len() - 1].contains('"'));
    lemma_quoted_save(saved, keys, value);
    lemma_requoted_quotes(r, value);
    let a = find_char(line, '"')->0;
    let v = value.len() as int;
    let b = rfind_char(line, '"')->0;
    lemma_find_from(line, '"', 0);
    lemma_rfind_before(line, '"', line.len() as int);
    assert(a == find_from(line, '"', 0));
    assert(b == rfind_before(line, '"', line.len() as int));
    assert(0 <= a < b < line.len());
    assert(r.len() == a + 1 + v + (line.len() - b));
    assert(requoted(r, value) =~= r.subrange(0, a + 1) + value + r.subrange(a + 1 + v, r.len() as int));
    assert(r.subrange(0, a + 1) =~= line.subrange(0, a + 1));
    assert(r.subrange(a + 1 + v, r.len() as int) =~= line.subrange(b, line.len() as int));
    assert(requoted(r, value) =~= r);
    assert(saved.update(s, r) =~= saved);
}


proof fn lemma_same_trim_scan(a: Seq<Seq<char>>, b: Seq<Seq<char>>, keys: Seq<Seq<char>>, n: int, anywhere: bool)
    requires
        a.len() == b.len(),
        0 <= n <= a.len(),
        forall|i: int| 0 <= i < a.len() ==> trim(#[trigger] a[i]) == trim(b[i]),
    ensures
        key_scan(a, keys, n, anywhere) == key_scan(b, keys, n, anywhere),
    decreases n,
{
    if n > 0 {
        assert(trim(a[n - 1]) == trim(b[n - 1]));
        lemma_same_trim_scan(a, b, keys, n - 1, anywhere);
    }
}

proof fn lemma_same_trim_section(a: Seq<Seq<char>>, b: Seq<Seq<char>>, base: int, i: int, depth: int)
    requires
        a.len() == b.len(),
        forall|j: int| 0 <= j < a.len() ==> trim(#[trigger] a[j]) == trim(b[j]),
    ensures
        section_end(a, base, i, depth) == section_end(b, base, i, depth),
        section_underflows(a, base, i, depth) == section_underflows(b, base, i, depth),
    decreases a.len() - i,
{
    if 0 <= i < a.len() {
        assert(trim(a[i]) == trim(b[i]));
        let d = depth + opens(a[i]) - closes(a[i]);
        lemma_same_trim_section(a, b, base, i + 1, d);
    }
}

/// Indenting a line with a character of the `White_Space` list (a tab, a
/// space, ...) changes neither whether it holds a key nor its braces.
pub proof fn law_indent_keeps_key(c: char, line: Seq<char>, key: Seq<char>, anywhere: bool)
    requires
        white_space_code(c as u32),
    ensures
        line_has_key(seq![c] + line, key, anywhere) == line_has_key(line, key, anywhere),
        opens(seq![c] + line) == opens(line),
        closes(seq![c] + line) == closes(line),
{
    law_trim_drops_white_space(c, line);
}

/// Indenting one line of a text with a character of the `White_Space` list
/// changes nothing of what reading a key path finds: whether it is found,
/// on which line, whether reading is defined, and how many lines are read.
pub proof fn law_indent_keeps_section(lines: Seq<Seq<char>>, keys: Seq<Seq<char>>, i: int, c: char)
    requires
        0 <= i < lines.len(),
        white_space_code(c as u32),
    ensures
        ({
            let indented = lines.update(i, seq![c] + lines[i]);
            &&& path_found(indented, keys, false) == path_found(lines, keys, false)
            &&& path_line(indented, keys, false) == path_line(lines, keys, false)
            &&& load_defined(indented, keys) == load_defined(lines, keys)
            &&& loaded_section(indented, keys).len() == loaded_section(lines, keys).len()
        }),
{
    let indented = lines.update(i, seq![c] + lines[i]);
    law_trim_drops_white_space(c, lines[i]);
    assert forall|j: int| 0 <= j < indented.len() implies trim(#[trigger] indented[j]) == trim(lines[j]) by {
        if j == i {
            law_trim_drops_white_space(c, lines[i]);
        }
    }
    lemma_same_trim_scan(indented, lines, keys, lines.len() as int, false);
    let k = keys.len() as int;
    let p = path_line(lines, keys, false);
    lemma_same_trim_section(indented, lines, k, p, k);
    if path_found(lines, keys, false) {
        lemma_key_scan_bounds(lines, keys, lines.len() as int, false);
        lemma_section_end_after(lines, k, p, k);
    }
}

proof fn lemma_scan_stops_at_absent(lines: Seq<Seq<char>>, keys: Seq<Seq<char>>, j: int, n: int, anywhere: bool)
    requires
        0 <= j < keys.len(),
        0 <= n <= lines.len(),
        forall|i: int| 0 <= i < lines.len() ==> !line_has_key(#[trigger] lines[i], keys[j], anywhere),
    ensures
        key_scan(lines, keys, n, anywhere).0 <= j,
    decreases n,
{
    if n > 0 {
        lemma_scan_stops_at_absent(lines, keys, j, n - 1, anywhere);
        assert(!line_has_key(lines[n - 1], keys[j], anywhere));
    }
}

/// No line contains `key` once trimmed.
pub open spec fn held_nowhere(lines: Seq<Seq<char>>, key: Seq<char>) -> bool {
    forall|i: int| 0 <= i < lines.len() ==> !has_substring(trim(#[trigger] lines[i]), key)
}

/// Removing by a key path removes nothing when some key of the path is held
/// (contained, after trimming) by no line, and otherwise removes exactly
/// one line, one that holds the last key.
pub proof fn law_remove_only_on_full_path(lines: Seq<Seq<char>>, keys: Seq<Seq<char>>)
    ensures
        (exists|j: int| 0 <= j < keys.len() && #[trigger] held_nowhere(lines, keys[j]))
            ==> removed_lines(lines, keys) == lines,
        keys.len() == 0 ==> removed_lines(lines, keys) == lines,
        removed_lines(lines, keys) != lines ==> {
            &&& removed_lines(lines, keys).len() + 1 == lines.len()
            &&& exists|r: int|
                0 <= r < lines.len() && line_has_key(lines[r], keys[keys.len() - 1], true)
                    && removed_lines(lines, keys) == lines.remove(r)
        },
{
    let n = lines.len() as int;
    if exists|j: int| 0 <= j < keys.len() && #[trigger] held_nowhere(lines, keys[j]) {
        let j = choose|j: int| 0 <= j < keys.len() && #[trigger] held_nowhere(lines, keys[j]);
        lemma_scan_stops_at_absent(lines, keys, j, n, true);
    }
    if path_found(lines, keys, true) {
        lemma_key_scan_bounds(lines, keys, n, true);
        lemma_key_scan_at(lines, keys, n, true);
        let r = path_line(lines, keys, true);
        lemma_key_scan_bounds(lines, keys, r, true);
        let prev = key_scan(lines, keys, r, true);
        assert(prev.0 + 1 == keys.len());
        assert(line_has_key(lines[r], keys[prev.0], true));
    }
}

/// Removing by a one-key path removes the first line whose trimmed text
/// contains the key, and no other line.
pub proof fn law_remove_first_holder(lines: Seq<Seq<char>>, key: Seq<char>, r: int)
    requires
        0 <= r < lines.len(),
        has_substring(trim(lines[r]), key),
        forall|i: int| 0 <= i < r ==> !has_substring(trim(#[trigger] lines[i]), key),
    ensures
        removed_lines(lines, seq![key]) == lines.remove(r),
{
    let keys = seq![key];
    assert forall|i: int| 0 <= i < r implies !line_has_key(#[trigger] lines[i], keys[0], true) by {
        assert(!has_substring(trim(lines[i]), key));
    }
    lemma_key_scan_none(lines, keys, r, true);
    assert(line_has_key(lines[r], keys[0], true));
    assert(key_scan(lines, keys, r + 1, true) == (1int, r));
    lemma_key_scan_stable(lines, keys, r + 1, lines.len() as int, true);
}

/// The change of brace depth over the lines from `s` up to `t`: the `{`
/// less the `}` of their trimmed text.
pub open spec fn brace_balance(lines: Seq<Seq<char>>, s: int, t: int) -> int
    decreases t - s,
{
    if t <= s {
        0
    } else {
        brace_balance(lines, s, t - 1) + count_char(trim(lines[t - 1]), '{') - count_char(
            trim(lines[t - 1]),
            '}',
        )
    }
}

proof fn lemma_section_end_balance(lines: Seq<Seq<char>>, base: int, s: int, i: int, depth: int)
    requires
        0 <= s <= i < lines.len(),
        depth == base + brace_balance(lines, s, i),
    ensures
        i + 1 <= section_end(lines, base, i, depth) <= lines.len(),
        forall|t: int|
            i <= t < section_end(lines, base, i, depth) - 1 ==> #[trigger] brace_balance(lines, s, t + 1)
                >= 0,
        section_end(lines, base, i, depth) < lines.len() ==> brace_balance(
            lines,
            s,
            section_end(lines, base, i, depth),
        ) < 0,
    decreases lines.len() - i,
{
    let d = depth + opens(lines[i]) - closes(lines[i]);
    assert(brace_balance(lines, s, i + 1) == brace_balance(lines, s, i) + opens(lines[i]) - closes(
        lines[i],
    ));
    if d >= base {
        if i + 1 < lines.len() {
            lemma_section_end_balance(lines, base, s, i + 1, d);
        } else {
            assert(section_end(lines, base, i + 1, d) == lines.len());
        }
    }
}

/// The section read for a key path runs from the line of its last key
/// through the first line at which the braces closed since that line
/// outnumber those opened (counted on the trimmed lines), or to the end of
/// the text when there is no such line.
pub proof fn law_section_ends_at_first_unbalanced(lines: Seq<Seq<char>>, keys: Seq<Seq<char>>)
    requires
        path_found(lines, keys, false),
    ensures
        ({
            let s = path_line(lines, keys, false);
            let e = s + loaded_section(lines, keys).len();
            &&& 0 <= s < e <= lines.len()
            &&& loaded_section(lines, keys) == lines.subrange(s, e)
            &&& forall|t: int| s <= t < e - 1 ==> #[trigger] brace_balance(lines, s, t + 1) >= 0
            &&& e < lines.len() ==> brace_balance(lines, s, e) < 0
        }),
{
    let s = path_line(lines, keys, false);
    let k = keys.len() as int;
    lemma_key_scan_bounds(lines, keys, lines.len() as int, false);
    lemma_section_end_balance(lines, k, s, s, k);
    let e = section_end(lines, k, s, k);
    assert(loaded_section(lines, keys) == lines.subrange(s, e));
}

/// Writing a value at a key path whose line holds quotes replaces all the
/// text between the line's first and its last quote, whatever quotes stand
/// between them, and keeps the rest of the line and every other line.
pub proof fn law_save_replaces_between_outer_quotes(
    lines: Seq<Seq<char>>,
    keys: Seq<Seq<char>>,
    pre: Seq<char>,
    mid: Seq<char>,
    post: Seq<char>,
    value: Seq<char>,
)
    requires
        path_found(lines, keys, false),
        lines[path_line(lines, keys, false)] == pre + seq!['"'] + mid + seq!['"'] + post,
        !pre.contains('"'),
        !post.contains('"'),
    ensures
        saved_lines(lines, keys, value) == lines.update(
            path_line(lines, keys, false),
            pre + seq!['"'] + value + seq!['"'] + post,
        ),
{
    let at = path_line(lines, keys, false);
    let line = lines[at];
    let a = pre.len() as int;
    let b = a + 1 + mid.len();
    assert(line[a] == '"');
    assert(line[b] == '"');
    assert forall|k: int| 0 <= k < a implies line[k] != '"' by {
        assert(line[k] == pre[k]);
    }
    assert forall|k: int| b < k < line.len() implies line[k] != '"' by {
        assert(line[k] == post[k - b - 1]);
    }
    lemma_find_from_is(line, '"', 0, a);
    lemma_rfind_before_is(line, '"', line.len() as int, b);
    assert(find_char(line, '"') == Some(a));
    assert(rfind_char(line, '"') == Some(b));
    assert(line.subrange(0, a + 1) =~= pre + seq!['"']);
    assert(line.subrange(b, line.len() as int) =~= seq!['"'] + post);
    assert(requoted(line, value) =~= pre + seq!['"'] + value + seq!['"'] + post);
}

} // verus!
