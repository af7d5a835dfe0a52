//! The applications tab: keybinds and startup commands kept in the
//! compositor configuration, and default applications kept in the MIME list.

use vstd::prelude::*;
use crate::config::{law_save_then_remove, line_has_key, path_found, path_line, load_defined, loaded_section, saved_lines, removed_lines, save_config, remove_config, try_load_config};
use crate::text::{
    before_char, before_char_of, chars_of, first_word, first_word_of, join_lines, lines_of,
    second_field, second_field_of, is_white, back_white, occurs_at, skip_white, trim, lemma_find_from_is, lemma_find_from, find_from, lemma_skip_white_is, lemma_word_end_is, starts_with_in, white_space_code, law_first_word_bounds, str_views, string_of, string_views,
};

verus! {

/// A section without its first and last line (the line of the key and the
/// closing brace).
pub open spec fn inner_lines(section: Seq<Seq<char>>) -> Seq<Seq<char>> {
    if section.len() < 2 {
        seq![]
    } else {
        section.subrange(1, section.len() - 1)
    }
}

/// A section without its last line.
pub open spec fn without_last(section: Seq<Seq<char>>) -> Seq<Seq<char>> {
    if section.len() == 0 {
        seq![]
    } else {
        section.drop_last()
    }
}

/// A section without its first line.
pub open spec fn without_first(section: Seq<Seq<char>>) -> Seq<Seq<char>> {
    if section.len() == 0 {
        seq![]
    } else {
        section.drop_first()
    }
}

/// The key path of the keybinds block.
pub open spec fn binds_path() -> Seq<Seq<char>> {
    seq!["binds"@]
}

/// The key path of the startup commands.
pub open spec fn startup_path() -> Seq<Seq<char>> {
    seq!["spawn-at-startup"@]
}

/// The key path under which new startup commands are written.
pub open spec fn startup_anchor_path() -> Seq<Seq<char>> {
    seq!["// startups"@]
}

/// The key path of the default applications: the empty key, which every
/// line holds.
pub open spec fn defaults_path() -> Seq<Seq<char>> {
    seq![seq![]]
}

fn path_of(key: &'static str) -> (keys: Vec<&'static str>)
    ensures
        str_views(keys@) == seq![key@],
        keys@.len() == 1,
{
    let keys: Vec<&'static str> = vec![key];
    assert(str_views(keys@) =~= seq![key@]);
    keys
}

/// The keybind lines of the compositor configuration: the `binds` block
/// without its opening and closing lines. `None` where reading the block is
/// not defined.
pub fn keybind_list(content: &str) -> (r: Option<Vec<String>>)
    requires
        content@.len() + 1 <= usize::MAX,
    ensures
        r is Some <==> load_defined(lines_of(content@), binds_path()),
        r matches Some(list) ==> string_views(list@) == inner_lines(
            loaded_section(lines_of(content@), binds_path()),
        ),
{
    let keys = path_of("binds");
    match try_load_config(content, keys.as_slice()) {
        Some(mut list) => {
            let ghost before = string_views(list@);
            if list.len() > 0 {
                list.remove(0);
                list.pop();
            }
            assert(string_views(list@) =~= inner_lines(before));
            Some(list)
        },
        None => None,
    }
}

/// The startup lines of the compositor configuration: the section read
/// from the first `spawn-at-startup` line, without its last line.
pub fn startup_list(content: &str) -> (r: Option<Vec<String>>)
    requires
        content@.len() + 1 <= usize::MAX,
    ensures
        r is Some <==> load_defined(lines_of(content@), startup_path()),
        r matches Some(list) ==> string_views(list@) == without_last(
            loaded_section(lines_of(content@), startup_path()),
        ),
{
    let keys = path_of("spawn-at-startup");
    match try_load_config(content, keys.as_slice()) {
        Some(mut list) => {
            let ghost before = string_views(list@);
            if list.len() > 0 {
                list.pop();
            }
            assert(string_views(list@) =~= without_last(before));
            Some(list)
        },
        None => None,
    }
}

/// The entries of the MIME list: the section read from its first line,
/// without that line.
pub fn default_app_list(content: &str) -> (r: Option<Vec<String>>)
    requires
        content@.len() + 1 <= usize::MAX,
    ensures
        r is Some <==> load_defined(lines_of(content@), defaults_path()),
        r matches Some(list) ==> string_views(list@) == without_first(
            loaded_section(lines_of(content@), defaults_path()),
        ),
{
    let keys = path_of("");
    proof {
        assert(""@ =~= Seq::<char>::empty()) by {
            reveal_strlit("");
        }
    }
    assert(str_views(keys@) =~= defaults_path());
    match try_load_config(content, keys.as_slice()) {
        Some(mut list) => {
            let ghost before = string_views(list@);
            if list.len() > 0 {
                list.remove(0);
            }
            assert(string_views(list@) =~= without_first(before));
            Some(list)
        },
        None => None,
    }
}


/// Number of default-application rows.
pub const DEFAULT_KINDS: usize = 8;

/// The MIME-type prefix of each default-application row: browser, file
/// manager, mail, video, audio, text, image, PDF.
pub open spec fn default_prefix(j: int) -> Seq<char> {
    if j == 0 {
        "x-scheme-handler/https"@
    } else if j == 1 {
        "inode/directory"@
    } else if j == 2 {
        "x-scheme-handler/mailto"@
    } else if j == 3 {
        "video/mp4"@
    } else if j == 4 {
        "audio/mp3"@
    } else if j == 5 {
        "text/plain"@
    } else if j == 6 {
        "image/png"@
    } else {
        "application/pdf"@
    }
}

fn default_prefix_str(j: usize) -> (r: &'static str)
    requires
        j < DEFAULT_KINDS,
    ensures
        r@ == default_prefix(j as int),
{
    if j == 0 {
        "x-scheme-handler/https"
    } else if j == 1 {
        "inode/directory"
    } else if j == 2 {
        "x-scheme-handler/mailto"
    } else if j == 3 {
        "video/mp4"
    } else if j == 4 {
        "audio/mp3"
    } else if j == 5 {
        "text/plain"
    } else if j == 6 {
        "image/png"
    } else {
        "application/pdf"
    }
}

/// The first row whose prefix starts `key`, from `j` on; `DEFAULT_KINDS` when none does.
pub open spec fn kind_from(key: Seq<char>, j: int) -> int
    decreases DEFAULT_KINDS - j,
{
    if j >= DEFAULT_KINDS {
        DEFAULT_KINDS as int
    } else if default_prefix(j).is_prefix_of(key) {
        j
    } else {
        kind_from(key, j + 1)
    }
}

/// The row of a MIME type: the first whose prefix starts it.
pub open spec fn default_kind(key: Seq<char>) -> int {
    kind_from(key, 0)
}

/// The MIME type of an entry `type=apps`.
pub open spec fn entry_type(entry: Seq<char>) -> Seq<char> {
    before_char(entry, '=')
}

/// The applications of an entry: the text after the first `=` up to the
/// next one, or nothing.
pub open spec fn entry_apps(entry: Seq<char>) -> Seq<char> {
    match second_field(entry, '=') {
        Some(f) => f,
        None => seq![],
    }
}

/// The rows after the first `n` entries: each entry sets the row of its
/// type, and a later entry overrides an earlier one.
pub open spec fn defaults_after(entries: Seq<Seq<char>>, n: int) -> Seq<Seq<char>>
    decreases n,
{
    if n <= 0 {
        Seq::new(DEFAULT_KINDS as nat, |j: int| seq![])
    } else {
        let prev = defaults_after(entries, n - 1);
        let kind = default_kind(entry_type(entries[n - 1]));
        if kind < DEFAULT_KINDS {
            prev.update(kind, entry_apps(entries[n - 1]))
        } else {
            prev
        }
    }
}

proof fn lemma_kind_from(key: Seq<char>, j: int)
    requires
        0 <= j,
    ensures
        kind_from(key, j) >= 0,
    decreases DEFAULT_KINDS - j,
{
    if j < DEFAULT_KINDS && !default_prefix(j).is_prefix_of(key) {
        lemma_kind_from(key, j + 1);
    }
}

proof fn lemma_defaults_len(entries: Seq<Seq<char>>, n: int)
    ensures
        defaults_after(entries, n).len() == DEFAULT_KINDS,
    decreases n,
{
    if n > 0 {
        lemma_defaults_len(entries, n - 1);
        lemma_kind_from(entry_type(entries[n - 1]), 0);
    }
}

fn kind_of(key: &Vec<char>) -> (r: usize)
    ensures
        r == default_kind(key@),
        r <= DEFAULT_KINDS,
{
    let mut j: usize = 0;
    while j < DEFAULT_KINDS
        invariant
            j <= DEFAULT_KINDS,
            kind_from(key@, j as int) == kind_from(key@, 0),
        decreases DEFAULT_KINDS - j,
    {
        let prefix = chars_of(default_prefix_str(j));
        if starts_with_in(key.as_slice(), 0, key.len(), prefix.as_slice()) {
            assert(key@.subrange(0, key@.len() as int) =~= key@);
            return j;
        }
        assert(key@.subrange(0, key@.len() as int) =~= key@);
        j = j + 1;
    }
    j
}

/// The applications shown in each default-application row, from the
/// entries of the MIME list.
pub fn default_apps(entries: &Vec<String>) -> (rows: Vec<String>)
    ensures
        string_views(rows@) == defaults_after(string_views(entries@), entries@.len() as int),
{
    let ghost es = string_views(entries@);
    let mut rows: Vec<String> = Vec::new();
    let mut j: usize = 0;
    while j < DEFAULT_KINDS
        invariant
            j <= DEFAULT_KINDS,
            string_views(rows@) == Seq::new(j as nat, |t: int| Seq::<char>::empty()),
        decreases DEFAULT_KINDS - j,
    {
        let ghost prev = string_views(rows@);
        let empty = String::new();
        rows.push(empty);
        assert(string_views(rows@) =~= prev.push(Seq::<char>::empty()));
        assert(string_views(rows@) =~= Seq::new((j + 1) as nat, |t: int| Seq::<char>::empty()));
        j = j + 1;
    }
    assert(string_views(rows@) =~= defaults_after(es, 0));
    let mut i: usize = 0;
    while i < entries.len()
        invariant
            i <= entries@.len(),
            es == string_views(entries@),
            string_views(rows@) == defaults_after(es, i as int),
        decreases entries.len() - i,
    {
        proof {
            lemma_defaults_len(es, i as int);
        }
        let entry = chars_of(entries[i].as_str());
        let key = before_char_of(entry.as_slice(), '=');
        let kind = kind_of(&key);
        if kind < DEFAULT_KINDS {
            let apps = match second_field_of(entry.as_slice(), '=') {
                Some(f) => string_of(f.as_slice()),
                None => String::new(),
            };
            let ghost prev = string_views(rows@);
            rows.set(kind, apps);
            assert(string_views(rows@) =~= prev.update(kind as int, entry_apps(es[i as int])));
        }
        i = i + 1;
    }
    rows
}

proof fn lemma_defaults_push(entries: Seq<Seq<char>>, e: Seq<char>, m: int)
    requires
        0 <= m <= entries.len(),
    ensures
        defaults_after(entries.push(e), m) == defaults_after(entries, m),
    decreases m,
{
    if m > 0 {
        lemma_defaults_push(entries, e, m - 1);
        assert(entries.push(e)[m - 1] == entries[m - 1]);
    }
}

proof fn lemma_kind_none(key: Seq<char>, i: int)
    requires
        0 <= i,
        forall|k: int| i <= k < DEFAULT_KINDS ==> !(#[trigger] default_prefix(k)).is_prefix_of(key),
    ensures
        kind_from(key, i) == DEFAULT_KINDS,
    decreases DEFAULT_KINDS - i,
{
    if i < DEFAULT_KINDS {
        assert(!default_prefix(i).is_prefix_of(key));
        lemma_kind_none(key, i + 1);
    }
}

proof fn lemma_kind_at(key: Seq<char>, i: int, j: int)
    requires
        0 <= i <= j < DEFAULT_KINDS,
        default_prefix(j).is_prefix_of(key),
        forall|k: int| i <= k < j ==> !(#[trigger] default_prefix(k)).is_prefix_of(key),
    ensures
        kind_from(key, i) == j,
    decreases j - i,
{
    if i < j {
        assert(!default_prefix(i).is_prefix_of(key));
        lemma_kind_at(key, i + 1, j);
    }
}

/// No MIME type starts with the prefixes of two different rows.
proof fn lemma_prefixes_apart(key: Seq<char>, k: int, j: int)
    requires
        0 <= k < j < DEFAULT_KINDS,
    ensures
        !(default_prefix(k).is_prefix_of(key) && default_prefix(j).is_prefix_of(key)),
{
    reveal_strlit("x-scheme-handler/https");
    reveal_strlit("inode/directory");
    reveal_strlit("x-scheme-handler/mailto");
    reveal_strlit("video/mp4");
    reveal_strlit("audio/mp3");
    reveal_strlit("text/plain");
    reveal_strlit("image/png");
    reveal_strlit("application/pdf");
    let p = default_prefix(k);
    let q = default_prefix(j);
    let d: int = if k == 0 && j == 2 {
        17
    } else if (k == 1 && j == 6) || (k == 4 && j == 7) {
        1
    } else {
        0
    };
    if p.is_prefix_of(key) && q.is_prefix_of(key) {
        assert(p[d] == key.subrange(0, p.len() as int)[d]);
        assert(q[d] == key.subrange(0, q.len() as int)[d]);
    }
}

/// Each entry `type=apps` of the MIME list sets one row of the defaults,
/// chosen by this table of MIME-type prefixes, in row order: browser
/// (`x-scheme-handler/https`), file manager (`inode/directory`), mail
/// (`x-scheme-handler/mailto`), video (`video/mp4`), audio (`audio/mp3`),
/// text (`text/plain`), image (`image/png`) and PDF (`application/pdf`).
/// An entry whose type starts with the prefix of row `j` puts its
/// applications in row `j` and leaves every other row as it was; before any
/// entry there are eight empty rows.
pub proof fn law_entry_sets_its_row(entries: Seq<Seq<char>>, e: Seq<char>, j: int)
    requires
        0 <= j < 8,
        seq![
            "x-scheme-handler/https"@,
            "inode/directory"@,
            "x-scheme-handler/mailto"@,
            "video/mp4"@,
            "audio/mp3"@,
            "text/plain"@,
            "image/png"@,
            "application/pdf"@,
        ][j].is_prefix_of(before_char(e, '=')),
    ensures
        defaults_after(entries, 0) == Seq::new(8, |k: int| Seq::<char>::empty()),
        defaults_after(entries.push(e), entries.len() + 1int) == defaults_after(
            entries,
            entries.len() as int,
        ).update(j, entry_apps(e)),
{
    let table = seq![
        "x-scheme-handler/https"@,
        "inode/directory"@,
        "x-scheme-handler/mailto"@,
        "video/mp4"@,
        "audio/mp3"@,
        "text/plain"@,
        "image/png"@,
        "application/pdf"@,
    ];
    assert(table[j] == default_prefix(j));
    let n = entries.len() as int;
    let key = before_char(e, '=');
    lemma_defaults_push(entries, e, n);
    assert(entries.push(e)[n] == e);
    assert(entry_type(e) == key);
    assert forall|k: int| 0 <= k < j implies !(#[trigger] default_prefix(k)).is_prefix_of(key) by {
        lemma_prefixes_apart(key, k, j);
    }
    lemma_kind_at(key, 0, j);
    assert(defaults_after(entries, 0) =~= Seq::new(8, |k: int| Seq::<char>::empty()));
}

/// An entry of the MIME list whose type starts with none of the prefixes of
/// the rows (`x-scheme-handler/https`, `inode/directory`,
/// `x-scheme-handler/mailto`, `video/mp4`, `audio/mp3`, `text/plain`,
/// `image/png`, `application/pdf`) changes no row.
pub proof fn law_entry_without_row(entries: Seq<Seq<char>>, e: Seq<char>)
    requires
        !"x-scheme-handler/https"@.is_prefix_of(before_char(e, '=')),
        !"inode/directory"@.is_prefix_of(before_char(e, '=')),
        !"x-scheme-handler/mailto"@.is_prefix_of(before_char(e, '=')),
        !"video/mp4"@.is_prefix_of(before_char(e, '=')),
        !"audio/mp3"@.is_prefix_of(before_char(e, '=')),
        !"text/plain"@.is_prefix_of(before_char(e, '=')),
        !"image/png"@.is_prefix_of(before_char(e, '=')),
        !"application/pdf"@.is_prefix_of(before_char(e, '=')),
    ensures
        defaults_after(entries.push(e), entries.len() + 1int) == defaults_after(
            entries,
            entries.len() as int,
        ),
{
    let n = entries.len() as int;
    let key = before_char(e, '=');
    lemma_defaults_push(entries, e, n);
    assert(entries.push(e)[n] == e);
    assert(entry_type(e) == key);
    assert forall|k: int| 0 <= k < DEFAULT_KINDS implies !(#[trigger] default_prefix(k)).is_prefix_of(key) by {}
    lemma_kind_none(key, 0);
}

/// `    {shortcut} { {action} }`: a keybind line.
pub open spec fn keybind_text(shortcut: Seq<char>, action: Seq<char>) -> Seq<char> {
    seq![' ', ' ', ' ', ' '] + shortcut + seq![' ', '{', ' '] + action + seq![' ', '}']
}

/// The keybind line written for a shortcut and its action.
pub fn keybind_line(shortcut: &str, action: &str) -> (line: String)
    ensures
        line@ == keybind_text(shortcut@, action@),
{
    let mut v: Vec<char> = Vec::new();
    v.push(' ');
    v.push(' ');
    v.push(' ');
    v.push(' ');
    crate::text::append_chars(&mut v, chars_of(shortcut).as_slice());
    v.push(' ');
    v.push('{');
    v.push(' ');
    crate::text::append_chars(&mut v, chars_of(action).as_slice());
    v.push(' ');
    v.push('}');
    assert(v@ =~= keybind_text(shortcut@, action@));
    string_of(v.as_slice())
}

/// The shortcut shown for a keybind line: its first word.
pub open spec fn keybind_shortcut_of(line: Seq<char>) -> Seq<char> {
    first_word(line)
}

/// The shortcut shown for a keybind line is its first word, whatever
/// follows it on the line: where the line holds white space (by the
/// `White_Space` list) before `a`, none from `a` to `b`, and white space or
/// its end at `b`, with `a < b` unless the line is all white space, the
/// shortcut is the text from `a` to `b`.
pub proof fn law_shortcut_is_first_word(line: Seq<char>, a: int, b: int)
    requires
        0 <= a <= b <= line.len(),
        forall|k: int| #![trigger line[k]] 0 <= k < a ==> white_space_code(line[k] as u32),
        forall|k: int| #![trigger line[k]] a <= k < b ==> !white_space_code(line[k] as u32),
        a < line.len() ==> a < b,
        b < line.len() ==> white_space_code(line[b] as u32),
    ensures
        keybind_shortcut_of(line) == line.subrange(a, b),
{
    law_first_word_bounds(line, a, b);
}

/// The action shown for a keybind line: the text after its first `{` up to
/// the next `{` or `}`; nothing when it has no `{`.
pub open spec fn keybind_action_of(line: Seq<char>) -> Seq<char> {
    match second_field(line, '{') {
        Some(f) => before_char(f, '}'),
        None => seq![],
    }
}

/// The action shown for a keybind line is the text after its first `{`, up
/// to the next brace of either kind or the end of the line; a line without
/// `{` shows no action.
pub proof fn law_action_after_first_brace(pre: Seq<char>, act: Seq<char>, rest: Seq<char>)
    requires
        !pre.contains('{'),
        !act.contains('{'),
        !act.contains('}'),
        rest.len() == 0 || rest[0] == '{' || rest[0] == '}',
    ensures
        keybind_action_of(pre + seq!['{'] + act + rest) == act,
        keybind_action_of(pre) == Seq::<char>::empty(),
{
    let line = pre + seq!['{'] + act + rest;
    let p = pre.len() as int;
    let q = p + 1 + act.len();
    assert forall|k: int| 0 <= k < p implies line[k] != '{' by {
        assert(line[k] == pre[k]);
    }
    assert(line[p] == '{');
    lemma_find_from_is(line, '{', 0, p);
    assert forall|k: int| p + 1 <= k < q implies line[k] != '{' && line[k] != '}' by {
        assert(line[k] == act[k - p - 1]);
    }
    if rest.len() > 0 {
        assert(line[q] == rest[0]);
    }
    lemma_find_from(line, '{', p + 1);
    let e = find_from(line, '{', p + 1);
    assert(q <= e);
    let f = line.subrange(p + 1, e);
    assert(second_field(line, '{') == Some(f));
    assert forall|k: int| 0 <= k < act.len() implies f[k] != '}' by {
        assert(f[k] == line[p + 1 + k]);
    }
    if q < e {
        assert(f[act.len() as int] == line[q]);
        assert(line[q] == '}');
    }
    lemma_find_from_is(f, '}', 0, act.len() as int);
    assert(before_char(f, '}') =~= act);
    lemma_find_from(pre, '{', 0);
    if find_from(pre, '{', 0) < pre.len() {
        assert(pre.contains('{'));
    }
}

/// The shortcut and the action shown for a keybind line.
pub fn keybind_parts(line: &str) -> (parts: (String, String))
    ensures
        parts.0@ == keybind_shortcut_of(line@),
        parts.1@ == keybind_action_of(line@),
{
    let chars = chars_of(line);
    let first = first_word_of(chars.as_slice());
    let action = match second_field_of(chars.as_slice(), '{') {
        Some(f) => before_char_of(f.as_slice(), '}'),
        None => Vec::new(),
    };
    (string_of(first.as_slice()), string_of(action.as_slice()))
}

/// `spawn-at-startup "{command}"`: a startup line.
pub open spec fn startup_text(command: Seq<char>) -> Seq<char> {
    "spawn-at-startup \""@ + command + seq!['"']
}

/// The startup line written for a command.
pub fn startup_line(command: &str) -> (line: String)
    ensures
        line@ == startup_text(command@),
{
    let mut v = chars_of("spawn-at-startup \"");
    crate::text::append_chars(&mut v, chars_of(command).as_slice());
    v.push('"');
    string_of(v.as_slice())
}

/// The text of a line between its first two quotes (or from its first
/// quote to its end); nothing when it has no quote. For a startup line, its
/// command.
pub open spec fn quoted_text_of(line: Seq<char>) -> Seq<char> {
    match second_field(line, '"') {
        Some(f) => f,
        None => seq![],
    }
}

/// The text of a line between its first two quotes: the command shown for
/// a startup line.
pub fn quoted_text(line: &str) -> (command: String)
    ensures
        command@ == quoted_text_of(line@),
{
    let chars = chars_of(line);
    match second_field_of(chars.as_slice(), '"') {
        Some(f) => string_of(f.as_slice()),
        None => String::new(),
    }
}

/// Adds a keybind line at the start of the `binds` block of the compositor
/// configuration.
pub fn add_keybind(content: &str, shortcut: &str, action: &str) -> (r: String)
    requires
        content@.len() > 0,
    ensures
        r@ == join_lines(saved_lines(lines_of(content@), binds_path(), keybind_text(shortcut@, action@))),
{
    let keys = path_of("binds");
    let line = keybind_line(shortcut, action);
    save_config(content, keys.as_slice(), line.as_str())
}

/// Adds a startup line after the `// startups` line of the compositor
/// configuration.
pub fn add_startup(content: &str, command: &str) -> (r: String)
    requires
        content@.len() > 0,
    ensures
        r@ == join_lines(saved_lines(lines_of(content@), startup_anchor_path(), startup_text(command@))),
{
    let keys = path_of("// startups");
    let line = startup_line(command);
    save_config(content, keys.as_slice(), line.as_str())
}

/// Removes the first line whose trimmed text contains `shown`: the shortcut
/// of a keybind, or the command of a startup line.
pub fn remove_entry(content: &str, shown: &str) -> (r: String)
    ensures
        r@ == join_lines(removed_lines(lines_of(content@), seq![shown@])),
{
    let keys: Vec<&str> = vec![shown];
    assert(str_views(keys@) =~= seq![shown@]);
    remove_config(content, keys.as_slice())
}


/// A keybind line written for a shortcut and an action shows that shortcut
/// and the action with a space on each side, when the shortcut is one word
/// without `{` and the action holds no brace.
pub proof fn law_keybind_roundtrip(shortcut: Seq<char>, action: Seq<char>)
    requires
        shortcut.len() > 0,
        forall|k: int| 0 <= k < shortcut.len() ==> !is_white(#[trigger] shortcut[k]) && shortcut[k] != '{',
        !action.contains('{'),
        !action.contains('}'),
    ensures
        keybind_shortcut_of(keybind_text(shortcut, action)) == shortcut,
        keybind_action_of(keybind_text(shortcut, action)) == seq![' '] + action + seq![' '],
{
    let line = keybind_text(shortcut, action);
    let n = shortcut.len() as int;
    let m = action.len() as int;
    assert(line.len() == 4 + n + 3 + m + 2);
    assert forall|k: int| 0 <= k < n implies line[4 + k] == shortcut[k] by {}
    assert forall|k: int| 0 <= k < m implies line[4 + n + 3 + k] == action[k] by {}
    assert(line[4 + n] == ' ');
    assert(line[4 + n + 1] == '{');
    assert(line[4 + n + 3 + m] == ' ');
    assert(line[4 + n + 3 + m + 1] == '}');
    lemma_skip_white_is(line, 0, 4);
    lemma_word_end_is(line, 4, 4 + n);
    assert(first_word(line) =~= shortcut);
    lemma_find_from_is(line, '{', 0, 4 + n + 1);
    assert forall|k: int| 4 + n + 2 <= k < line.len() implies line[k] != '{' by {
        if 4 + n + 3 <= k < 4 + n + 3 + m {
            assert(action[k - (4 + n + 3)] == line[k]);
        }
    }
    lemma_find_from_is(line, '{', 4 + n + 2, line.len() as int);
    let field = line.subrange(4 + n + 2, line.len() as int);
    assert(second_field(line, '{') == Some(field));
    assert(field.len() == m + 3);
    assert forall|k: int| 0 <= k < m + 1 implies field[k] != '}' by {
        if 1 <= k {
            assert(action[k - 1] == field[k]);
        }
    }
    lemma_find_from_is(field, '}', 0, m + 2);
    assert(before_char(field, '}') =~= seq![' '] + action + seq![' ']);
}

/// A startup line written for a command shows that command, when the
/// command holds no quote.
pub proof fn law_startup_roundtrip(command: Seq<char>)
    requires
        !command.contains('"'),
    ensures
        quoted_text_of(startup_text(command)) == command,
{
    reveal_strlit("spawn-at-startup \"");
    let head = "spawn-at-startup \""@;
    let line = startup_text(command);
    let h = head.len() as int;
    let m = command.len() as int;
    assert(h == 18);
    assert forall|k: int| 0 <= k < h - 1 implies line[k] != '"' by {
        assert(line[k] == head[k]);
    }
    assert(line[h - 1] == '"');
    lemma_find_from_is(line, '"', 0, h - 1);
    assert forall|k: int| h <= k < h + m implies line[k] != '"' by {
        assert(line[k] == command[k - h]);
    }
    assert(line[h + m] == '"');
    lemma_find_from_is(line, '"', h, h + m);
    assert(line.subrange(h, h + m) =~= command);
}


/// Adding a startup command and then deleting the startup shown for it
/// removes the added line and nothing else, when the `// startups` line
/// holds no quote, the command holds no quote, and no line up to the
/// `// startups` line contains the command.
pub proof fn law_add_then_delete_startup(lines: Seq<Seq<char>>, command: Seq<char>)
    requires
        path_found(lines, startup_anchor_path(), false),
        !lines[path_line(lines, startup_anchor_path(), false)].contains('"'),
        !command.contains('"'),
        forall|i: int|
            0 <= i <= path_line(lines, startup_anchor_path(), false) ==> !line_has_key(
                #[trigger] lines[i],
                command,
                true,
            ),
    ensures
        removed_lines(
            saved_lines(lines, startup_anchor_path(), startup_text(command)),
            seq![quoted_text_of(startup_text(command))],
        ) == lines,
{
    law_startup_roundtrip(command);
    reveal_strlit("spawn-at-startup \"");
    let text = startup_text(command);
    let h = 18int;
    assert(text[0] == 's');
    assert(text.last() == '"');
    assert(skip_white(text, 0) == 0);
    assert(back_white(text, 0, text.len() as int) == text.len());
    assert(trim(text) =~= text);
    assert(text.subrange(h, h + command.len()) =~= command);
    assert(occurs_at(trim(text), command, h));
    law_save_then_remove(lines, startup_anchor_path(), text, command);
}

/// Adding a keybind and then deleting the keybind shown for it removes the
/// added line and nothing else, when the `binds` line holds no quote, the
/// shortcut is one word without `{`, the action holds no brace, and no line
/// up to the `binds` line contains the shortcut.
pub proof fn law_add_then_delete_keybind(lines: Seq<Seq<char>>, shortcut: Seq<char>, action: Seq<char>)
    requires
        path_found(lines, binds_path(), false),
        !lines[path_line(lines, binds_path(), false)].contains('"'),
        shortcut.len() > 0,
        forall|k: int| 0 <= k < shortcut.len() ==> !is_white(#[trigger] shortcut[k]) && shortcut[k] != '{',
        !action.contains('{'),
        !action.contains('}'),
        forall|i: int|
            0 <= i <= path_line(lines, binds_path(), false) ==> !line_has_key(
                #[trigger] lines[i],
                shortcut,
                true,
            ),
    ensures
        removed_lines(
            saved_lines(lines, binds_path(), keybind_text(shortcut, action)),
            seq![keybind_shortcut_of(keybind_text(shortcut, action))],
        ) == lines,
{
    law_keybind_roundtrip(shortcut, action);
    let text = keybind_text(shortcut, action);
    let n = shortcut.len() as int;
    assert(text[4] == shortcut[0]);
    assert(text.last() == '}');
    lemma_skip_white_is(text, 0, 4);
    assert(back_white(text, 4, text.len() as int) == text.len());
    assert(text.subrange(4, 4 + n) =~= shortcut);
    assert(trim(text).subrange(0, n) =~= shortcut);
    assert(occurs_at(trim(text), shortcut, 0));
    law_save_then_remove(lines, binds_path(), text, shortcut);
}

} // verus!
