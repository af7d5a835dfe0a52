//! The region tab: the lists read from system tools, the language choices
//! offered, and the commands that apply a language.

use vstd::prelude::*;
use vstd::utf8::{decode_utf8, encode_utf8, valid_utf8};
use crate::applications::{quoted_text, quoted_text_of};
use vstd::string::StrSliceExecFns;
use crate::text::{
    before_char, before_char_of, chars_of, first_word, first_word_of, has_substring, contains_in,
    lines_of, split_lines, string_of, string_views, strings_of, white_space_code, law_first_word_bounds,
};

verus! {

/// What `String::from_utf8_lossy` makes of some bytes.
pub uninterp spec fn utf8_lossy(bytes: Seq<u8>) -> Seq<char>;

/// `String::from_utf8_lossy`: decodes bytes as UTF-8, with a replacement
/// character for each invalid sequence. Claimed: the result is the named
/// decoding of the bytes, and valid UTF-8 decodes to the characters it
/// encodes.
#[verifier::external_body]
fn decode_lossy(bytes: &[u8]) -> (s: String)
    ensures
        s@ == utf8_lossy(bytes@),
        valid_utf8(bytes@) ==> s@ == decode_utf8(bytes@),
{
    String::from_utf8_lossy(bytes).into_owned()
}

/// The lines that a system tool printed.
pub fn output_lines(stdout: &[u8]) -> (lines: Vec<String>)
    ensures
        string_views(lines@) == lines_of(utf8_lossy(stdout@)),
        valid_utf8(stdout@) ==> string_views(lines@) == lines_of(decode_utf8(stdout@)),
{
    let text = decode_lossy(stdout);
    let chars = chars_of(text.as_str());
    let ls = split_lines(chars.as_slice());
    strings_of(&ls)
}

/// The reference name, in English, of the language with an ISO 639 code.
pub uninterp spec fn language_name(code: Seq<char>) -> Option<Seq<char>>;

/// `locale_codes::language::lookup`: the language with a two- or
/// three-byte ISO 639 code, of which the reference name is taken. Claimed:
/// the result is the named lookup of the code.
#[verifier::external_body]
fn lookup_language_name(code: &str) -> (name: Option<String>)
    requires
        code.len() == 2 || code.len() == 3,
    ensures
        name matches Some(n) ==> language_name(code@) == Some(n@),
        name is None ==> language_name(code@) is None,
{
    locale_codes::language::lookup(code).map(|l| l.reference_name.to_string())
}

/// What `str::to_uppercase` makes of a string.
pub uninterp spec fn upper_case(s: Seq<char>) -> Seq<char>;

/// `str::to_uppercase`. Claimed: the result is the named upper case of the
/// string.
#[verifier::external_body]
fn to_upper(s: &str) -> (r: String)
    ensures
        r@ == upper_case(s@),
{
    s.to_uppercase()
}

/// A language offered in the language list: the locale written to the
/// system and the name shown.
pub struct LanguageChoice {
    pub locale: String,
    pub name: String,
}

/// The language of a locale such as `de_DE.UTF-8`: its text before `_`.
pub open spec fn language_of(locale: Seq<char>) -> Seq<char> {
    before_char(locale, '_')
}

/// A UTF-8 locale without a modifier, other than `C.UTF-8`.
pub open spec fn offered_locale(locale: Seq<char>) -> bool {
    &&& !locale.contains('@')
    &&& has_substring(locale, ".UTF-8"@)
    &&& locale != "C.UTF-8"@
}

/// The name shown for a language code: its reference name, or the code in
/// upper case.
pub open spec fn shown_name(code: Seq<char>) -> Seq<char> {
    match language_name(code) {
        Some(n) => n,
        None => upper_case(code),
    }
}

/// After the first `n` supported locales: the languages seen so far and the
/// choices offered. A locale is offered when it is a UTF-8 locale whose
/// language was not seen before and has a two- or three-byte code.
pub open spec fn choices_scan(locales: Seq<Seq<char>>, n: int) -> (
    Seq<Seq<char>>,
    Seq<(Seq<char>, Seq<char>)>,
)
    decreases n,
{
    if n <= 0 {
        (seq![], seq![])
    } else {
        let (seen, out) = choices_scan(locales, n - 1);
        let locale = locales[n - 1];
        let code = language_of(locale);
        if !offered_locale(locale) || seen.contains(code) {
            (seen, out)
        } else if encode_utf8(code).len() == 2 || encode_utf8(code).len() == 3 {
            (seen.push(code), out.push((locale, shown_name(code))))
        } else {
            (seen.push(code), out)
        }
    }
}

/// The language choices offered for the supported locales.
pub open spec fn language_choices_of(locales: Seq<Seq<char>>) -> Seq<(Seq<char>, Seq<char>)> {
    choices_scan(locales, locales.len() as int).1
}

pub open spec fn choice_views(v: Seq<LanguageChoice>) -> Seq<(Seq<char>, Seq<char>)> {
    v.map_values(|c: LanguageChoice| (c.locale@, c.name@))
}

proof fn lemma_encode_len(s: Seq<char>)
    ensures
        s.len() <= encode_utf8(s).len() <= 4 * s.len(),
    decreases s.len(),
{
    if s.len() > 0 {
        lemma_encode_len(s.drop_first());
    }
}

fn seen_contains(seen: &Vec<Vec<char>>, code: &Vec<char>) -> (r: bool)
    ensures
        r == crate::text::views(seen@).contains(code@),
{
    let mut i: usize = 0;
    while i < seen.len()
        invariant
            i <= seen@.len(),
            forall|k: int| 0 <= k < i ==> seen@[k]@ != code@,
        decreases seen.len() - i,
    {
        if vec_chars_eq(&seen[i], code) {
            assert(crate::text::views(seen@)[i as int] == code@);
            return true;
        }
        i = i + 1;
    }
    assert(!crate::text::views(seen@).contains(code@)) by {
        assert forall|k: int| 0 <= k < seen@.len() implies crate::text::views(seen@)[k] != code@ by {}
    }
    false
}

fn vec_chars_eq(a: &Vec<char>, b: &Vec<char>) -> (r: bool)
    ensures
        r == (a@ == b@),
{
    if a.len() != b.len() {
        return false;
    }
    let mut i: usize = 0;
    while i < a.len()
        invariant
            i <= a@.len(),
            a@.len() == b@.len(),
            forall|k: int| 0 <= k < i ==> a@[k] == b@[k],
        decreases a.len() - i,
    {
        if a[i] != b[i] {
            return false;
        }
        i = i + 1;
    }
    assert(a@ =~= b@);
    true
}

/// The language choices offered for the supported locales, in order.
pub fn language_choices(locales: &Vec<String>) -> (choices: Vec<LanguageChoice>)
    ensures
        choice_views(choices@) == language_choices_of(string_views(locales@)),
{
    let ghost ls = string_views(locales@);
    let utf8 = chars_of(".UTF-8");
    let c_utf8 = chars_of("C.UTF-8");
    let mut seen: Vec<Vec<char>> = Vec::new();
    let mut choices: Vec<LanguageChoice> = Vec::new();
    let mut i: usize = 0;
    while i < locales.len()
        invariant
            i <= locales@.len(),
            ls == string_views(locales@),
            utf8@ == ".UTF-8"@,
            c_utf8@ == "C.UTF-8"@,
            (crate::text::views(seen@), choice_views(choices@)) == choices_scan(ls, i as int),
        decreases locales.len() - i,
    {
        let locale = chars_of(locales[i].as_str());
        let has_at = crate::text::find_char_from(locale.as_slice(), '@', 0) < locale.len();
        proof {
            crate::text::lemma_find_from(locale@, '@', 0);
            if locale@.contains('@') {
                let k = choose|k: int| 0 <= k < locale@.len() && locale@[k] == '@';
                assert(crate::text::find_from(locale@, '@', 0) <= k);
            }
            if crate::text::find_from(locale@, '@', 0) < locale@.len() {
                assert(locale@[crate::text::find_from(locale@, '@', 0)] == '@');
            }
        }
        assert(locale@ == ls[i as int]);
        assert(has_at == ls[i as int].contains('@'));
        let has_utf8 = contains_in(locale.as_slice(), 0, locale.len(), utf8.as_slice());
        assert(locale@.subrange(0, locale@.len() as int) =~= locale@);
        let is_c = vec_chars_eq(&locale, &c_utf8);
        assert(has_utf8 == has_substring(ls[i as int], ".UTF-8"@));
        assert(is_c == (ls[i as int] == "C.UTF-8"@));
        if !has_at && has_utf8 && !is_c {
            let code = before_char_of(locale.as_slice(), '_');
            if !seen_contains(&seen, &code) {
                let code_str = string_of(code.as_slice());
                proof {
                    lemma_encode_len(code@);
                }
                let short_code = if code.len() <= 3 {
                    let bytes = code_str.as_str().len();
                    bytes == 2 || bytes == 3
                } else {
                    false
                };
                assert(short_code == (encode_utf8(code@).len() == 2 || encode_utf8(code@).len() == 3));
                let ghost prev_seen = crate::text::views(seen@);
                let ghost prev_out = choice_views(choices@);
                let code_copy = crate::text::copy_range(code.as_slice(), 0, code.len());
                assert(code@.subrange(0, code@.len() as int) =~= code@);
                seen.push(code_copy);
                assert(crate::text::views(seen@) =~= prev_seen.push(code@));
                if short_code {
                    let name = match lookup_language_name(code_str.as_str()) {
                        Some(n) => n,
                        None => to_upper(code_str.as_str()),
                    };
                    assert(name@ == shown_name(code@));
                    let value = string_of(locale.as_slice());
                    choices.push(LanguageChoice { locale: value, name });
                    assert(choice_views(choices@) =~= prev_out.push((ls[i as int], shown_name(code@))));
                }
            }
        }
        i = i + 1;
    }
    choices
}

/// A language chosen in the list: the first word of the choice, or
/// `en_US.UTF-8` when there is none.
pub open spec fn chosen_locale(choice: Seq<char>) -> Seq<char> {
    if first_word(choice).len() > 0 {
        first_word(choice)
    } else {
        "en_US.UTF-8"@
    }
}

/// The locale named by a choice of the language list.
pub fn chosen_locale_of(choice: &str) -> (locale: String)
    ensures
        locale@ == chosen_locale(choice@),
{
    let chars = chars_of(choice);
    let word = first_word_of(chars.as_slice());
    if word.len() > 0 {
        string_of(word.as_slice())
    } else {
        String::from_str("en_US.UTF-8")
    }
}

/// The locale named by a choice is its first word: where the choice holds
/// white space (by the `White_Space` list) before `a`, none from `a` to
/// `b`, and white space or its end at `b`, with `a < b` unless it is all
/// white space, the locale is the text from `a` to `b`; a choice of white
/// space only names `en_US.UTF-8`.
pub proof fn law_chosen_locale_first_word(choice: Seq<char>, a: int, b: int)
    requires
        0 <= a <= b <= choice.len(),
        forall|k: int| #![trigger choice[k]] 0 <= k < a ==> white_space_code(choice[k] as u32),
        forall|k: int| #![trigger choice[k]] a <= k < b ==> !white_space_code(choice[k] as u32),
        a < choice.len() ==> a < b,
        b < choice.len() ==> white_space_code(choice[b] as u32),
    ensures
        a < b ==> chosen_locale(choice) == choice.subrange(a, b),
        a == b ==> chosen_locale(choice) == "en_US.UTF-8"@,
{
    law_first_word_bounds(choice, a, b);
}

/// The shell command that adds a locale to `/etc/locale.gen` unless it is
/// already listed there.
pub open spec fn locale_gen_text(locale: Seq<char>) -> Seq<char> {
    "grep -qxF '"@ + locale + "' /etc/locale.gen || echo '"@ + locale
        + "' | sudo tee -a /etc/locale.gen"@
}

pub fn locale_gen_command(locale: &str) -> (cmd: String)
    ensures
        cmd@ == locale_gen_text(locale@),
        cmd@ == "grep -qxF '"@ + locale@ + "' /etc/locale.gen || echo '"@ + locale@
            + "' | sudo tee -a /etc/locale.gen"@,
{
    let mut cmd = String::from_str("grep -qxF '");
    cmd.append(locale);
    cmd.append("' /etc/locale.gen || echo '");
    cmd.append(locale);
    cmd.append("' | sudo tee -a /etc/locale.gen");
    cmd
}

/// `LANG={locale}`: the setting given to `localectl set-locale`.
pub fn lang_setting(locale: &str) -> (setting: String)
    ensures
        setting@ == "LANG="@ + locale@,
{
    let mut s = String::from_str("LANG=");
    s.append(locale);
    s
}


proof fn lemma_choices_scan(locales: Seq<Seq<char>>, n: int)
    requires
        0 <= n <= locales.len(),
    ensures
        forall|i: int|
            0 <= i < choices_scan(locales, n).1.len() ==> {
                &&& choices_scan(locales, n).0.contains(language_of(#[trigger] choices_scan(locales, n).1[i].0))
                &&& offered_locale(choices_scan(locales, n).1[i].0)
            },
        forall|i: int, j: int|
            0 <= i < j < choices_scan(locales, n).1.len() ==> language_of(
                #[trigger] choices_scan(locales, n).1[i].0,
            ) != language_of(#[trigger] choices_scan(locales, n).1[j].0),
    decreases n,
{
    if n > 0 {
        lemma_choices_scan(locales, n - 1);
        let (seen, out) = choices_scan(locales, n - 1);
        let (seen2, out2) = choices_scan(locales, n);
        assert forall|i: int| 0 <= i < out2.len() implies seen2.contains(language_of(#[trigger] out2[i].0))
            && offered_locale(out2[i].0) by {
            if i < out.len() {
                assert(out2[i] == out[i]);
                let w = choose|k: int| 0 <= k < seen.len() && seen[k] == language_of(out[i].0);
                assert(seen2[w] == seen[w]);
            } else {
                assert(seen2[seen2.len() - 1] == language_of(out2[i].0));
            }
        }
        assert forall|i: int, j: int| 0 <= i < j < out2.len() implies language_of(#[trigger] out2[i].0)
            != language_of(#[trigger] out2[j].0) by {
            if j >= out.len() {
                assert(out2[i] == out[i]);
                let code = language_of(locales[n - 1]);
                assert(!seen.contains(code));
                assert(seen.contains(language_of(out[i].0)));
            } else {
                assert(out2[i] == out[i]);
                assert(out2[j] == out[j]);
            }
        }
    }
}

/// Each language is offered at most once, and only for a UTF-8 locale
/// without a modifier.
pub proof fn law_choices_distinct(locales: Seq<Seq<char>>)
    ensures
        forall|i: int, j: int|
            0 <= i < j < language_choices_of(locales).len() ==> language_of(
                #[trigger] language_choices_of(locales)[i].0,
            ) != language_of(#[trigger] language_choices_of(locales)[j].0),
        forall|i: int|
            0 <= i < language_choices_of(locales).len() ==> offered_locale(
                #[trigger] language_choices_of(locales)[i].0,
            ),
{
    lemma_choices_scan(locales, locales.len() as int);
    assert forall|i: int| 0 <= i < language_choices_of(locales).len() implies offered_locale(
        #[trigger] language_choices_of(locales)[i].0,
    ) by {
    }
}


/// The value stored for a setting, read from its section: the quoted text
/// of the section's first line, when there is one and it is not empty.
pub open spec fn stored_value_of(section: Seq<Seq<char>>) -> Option<Seq<char>> {
    if section.len() > 0 && quoted_text_of(section[0]).len() > 0 {
        Some(quoted_text_of(section[0]))
    } else {
        None
    }
}

pub fn stored_value(section: &Vec<String>) -> (r: Option<String>)
    ensures
        r matches Some(v) ==> stored_value_of(string_views(section@)) == Some(v@),
        r is None ==> stored_value_of(string_views(section@)) is None,
{
    if section.len() == 0 {
        return None;
    }
    let v = quoted_text(section[0].as_str());
    if v.as_str().unicode_len() > 0 {
        Some(v)
    } else {
        None
    }
}


/// A line of the supported-locale list that names a UTF-8 locale: it holds
/// no `@` modifier, contains `.UTF-8`, and is not `C.UTF-8`.
pub open spec fn utf8_list_entry(l: Seq<char>) -> bool {
    !l.contains('@') && has_substring(l, ".UTF-8"@) && l != "C.UTF-8"@
}

/// The language code of a list line has two or three bytes.
pub open spec fn short_code(l: Seq<char>) -> bool {
    encode_utf8(before_char(l, '_')).len() == 2 || encode_utf8(before_char(l, '_')).len() == 3
}

/// No line before `i` is a UTF-8 entry of the same language as line `i`.
pub open spec fn first_of_language(locales: Seq<Seq<char>>, i: int) -> bool {
    forall|k: int|
        0 <= k < i ==> !(utf8_list_entry(#[trigger] locales[k]) && before_char(locales[k], '_')
            == before_char(locales[i], '_'))
}

/// `choice` is offered for line `i` of the list: it holds that line and
/// the language's reference name (or, lacking one, its code in upper case),
/// the line is a UTF-8 entry with a two- or three-byte code, and it is the
/// first UTF-8 entry of its language.
pub open spec fn choice_for_entry(
    locales: Seq<Seq<char>>,
    i: int,
    choice: (Seq<char>, Seq<char>),
) -> bool {
    &&& 0 <= i < locales.len()
    &&& choice.0 == locales[i]
    &&& choice.1 == match language_name(before_char(locales[i], '_')) {
        Some(name) => name,
        None => upper_case(before_char(locales[i], '_')),
    }
    &&& utf8_list_entry(locales[i])
    &&& short_code(locales[i])
    &&& first_of_language(locales, i)
}

/// Some UTF-8 entry before `n` has language code `c`.
spec fn entry_of_code(locales: Seq<Seq<char>>, n: int, c: Seq<char>) -> bool {
    exists|i: int|
        0 <= i < n && utf8_list_entry(#[trigger] locales[i]) && before_char(locales[i], '_') == c
}

/// `choice` is offered for some line before `n`.
spec fn entry_before(locales: Seq<Seq<char>>, n: int, choice: (Seq<char>, Seq<char>)) -> bool {
    exists|i: int| 0 <= i < n && #[trigger] choice_for_entry(locales, i, choice)
}

/// `choice` is offered for some line of the list.
pub open spec fn offered_for_entry(locales: Seq<Seq<char>>, choice: (Seq<char>, Seq<char>)) -> bool {
    exists|i: int| #[trigger] choice_for_entry(locales, i, choice)
}

/// `first` is offered for an earlier line of the list than `second`.
pub open spec fn in_list_order(
    locales: Seq<Seq<char>>,
    first: (Seq<char>, Seq<char>),
    second: (Seq<char>, Seq<char>),
) -> bool {
    exists|i1: int, i2: int|
        #![trigger choice_for_entry(locales, i1, first), choice_for_entry(locales, i2, second)]
        i1 < i2 && choice_for_entry(locales, i1, first) && choice_for_entry(locales, i2, second)
}

/// Some choice in `out` has language code `c`.
spec fn offers_code(out: Seq<(Seq<char>, Seq<char>)>, c: Seq<char>) -> bool {
    exists|j: int| 0 <= j < out.len() && before_char((#[trigger] out[j]).0, '_') == c
}

proof fn lemma_choices_first(locales: Seq<Seq<char>>, n: int)
    requires
        0 <= n <= locales.len(),
    ensures
        forall|c: Seq<char>|
            #![trigger choices_scan(locales, n).0.contains(c)]
            choices_scan(locales, n).0.contains(c) <==> entry_of_code(locales, n, c),
        forall|i: int|
            0 <= i < n && utf8_list_entry(#[trigger] locales[i]) && short_code(locales[i]) ==> offers_code(
                choices_scan(locales, n).1,
                before_char(locales[i], '_'),
            ),
        forall|j: int|
            0 <= j < choices_scan(locales, n).1.len() ==> #[trigger] entry_before(
                locales,
                n,
                choices_scan(locales, n).1[j],
            ),
        forall|j1: int, j2: int|
            0 <= j1 < j2 < choices_scan(locales, n).1.len() ==> #[trigger] in_list_order(
                locales,
                choices_scan(locales, n).1[j1],
                choices_scan(locales, n).1[j2],
            ),
    decreases n,
{
    if n > 0 {
        lemma_choices_first(locales, n - 1);
        let (seen, out) = choices_scan(locales, n - 1);
        let (seen2, out2) = choices_scan(locales, n);
        let l = locales[n - 1];
        let code = before_char(l, '_');
        assert(language_of(l) == code);
        assert(offered_locale(l) == utf8_list_entry(l));
        assert forall|c: Seq<char>| #![trigger seen2.contains(c)] seen2.contains(c) <==> entry_of_code(
            locales,
            n,
            c,
        ) by {
            if seen2.contains(c) {
                if seen.contains(c) {
                    let i = choose|i: int|
                        0 <= i < n - 1 && utf8_list_entry(#[trigger] locales[i]) && before_char(
                            locales[i],
                            '_',
                        ) == c;
                    assert(entry_of_code(locales, n, c));
                } else {
                    let w = choose|w: int| 0 <= w < seen2.len() && seen2[w] == c;
                    assert(seen2 != seen);
                    assert(w == seen.len()) by {
                        if w < seen.len() {
                            assert(seen2[w] == seen[w]);
                        }
                    }
                    assert(utf8_list_entry(locales[n - 1]));
                    assert(entry_of_code(locales, n, c));
                }
            }
            if entry_of_code(locales, n, c) {
                let i = choose|i: int|
                    0 <= i < n && utf8_list_entry(#[trigger] locales[i]) && before_char(locales[i], '_')
                        == c;
                if i < n - 1 {
                    assert(entry_of_code(locales, n - 1, c));
                    assert(seen.contains(c));
                    let w = choose|w: int| 0 <= w < seen.len() && seen[w] == c;
                    if seen2 != seen {
                        assert(seen2[w] == seen[w]);
                    }
                } else {
                    if !seen.contains(code) {
                        assert(seen2[seen.len() as int] == code);
                    }
                }
            }
        }
        assert forall|i: int|
            0 <= i < n && utf8_list_entry(#[trigger] locales[i]) && short_code(locales[i]) implies offers_code(
            out2,
            before_char(locales[i], '_'),
        ) by {
            if i < n - 1 {
                let j = choose|j: int|
                    0 <= j < out.len() && before_char((#[trigger] out[j]).0, '_') == before_char(locales[i], '_');
                if out2 != out {
                    assert(out2[j] == out[j]);
                }
            } else {
                if seen.contains(code) {
                    assert(entry_of_code(locales, n - 1, code));
                    let i2 = choose|i2: int|
                        0 <= i2 < n - 1 && utf8_list_entry(#[trigger] locales[i2]) && before_char(
                            locales[i2],
                            '_',
                        ) == code;
                    assert(short_code(locales[i2]));
                    let j = choose|j: int|
                        0 <= j < out.len() && before_char((#[trigger] out[j]).0, '_') == before_char(
                            locales[i2],
                            '_',
                        );
                    if out2 != out {
                        assert(out2[j] == out[j]);
                    }
                } else {
                    assert(out2[out.len() as int].0 == l);
                }
            }
        }
        assert forall|j: int| 0 <= j < out2.len() implies #[trigger] entry_before(locales, n, out2[j]) by {
            if j < out.len() {
                if out2 != out {
                    assert(out2[j] == out[j]);
                }
                assert(entry_before(locales, n - 1, out[j]));
                let i = choose|i: int| 0 <= i < n - 1 && #[trigger] choice_for_entry(locales, i, out[j]);
                assert(choice_for_entry(locales, i, out2[j]));
            } else {
                assert(out2[j] == (l, shown_name(code)));
                assert(!seen.contains(code));
                assert forall|k: int| 0 <= k < n - 1 implies !(utf8_list_entry(#[trigger] locales[k])
                    && before_char(locales[k], '_') == before_char(locales[n - 1], '_')) by {
                    if utf8_list_entry(locales[k]) && before_char(locales[k], '_') == code {
                        assert(entry_of_code(locales, n - 1, code));
                    }
                }
                assert(choice_for_entry(locales, n - 1, out2[j]));
            }
        }
        assert forall|j1: int, j2: int| 0 <= j1 < j2 < out2.len() implies #[trigger] in_list_order(
            locales,
            out2[j1],
            out2[j2],
        ) by {
            if out2 != out {
                assert(out2[j1] == out[j1]);
            }
            if j2 < out.len() {
                if out2 != out {
                    assert(out2[j2] == out[j2]);
                }
                assert(in_list_order(locales, out[j1], out[j2]));
            } else {
                assert(entry_before(locales, n - 1, out[j1]));
                let i1 = choose|i: int| 0 <= i < n - 1 && #[trigger] choice_for_entry(locales, i, out[j1]);
                assert(entry_before(locales, n, out2[j2]));
                let i2 = choose|i: int| 0 <= i < n && #[trigger] choice_for_entry(locales, i, out2[j2]);
                assert(out2[j2].0 == l);
                assert(i2 == n - 1) by {
                    if i2 < n - 1 {
                        assert(utf8_list_entry(locales[i2]));
                        assert(locales[i2] == l);
                        assert(entry_of_code(locales, n - 1, code));
                    }
                }
                assert(choice_for_entry(locales, i1, out2[j1]));
                assert(choice_for_entry(locales, i2, out2[j2]));
            }
        }
        assert(choices_scan(locales, n).1 == out2);
    } else {
        assert(choices_scan(locales, n).1.len() == 0);
    }
}

/// Every language with a UTF-8 entry of the list (no `@`, `.UTF-8`, not
/// `C.UTF-8`) and a two- or three-byte code is offered, however the entries
/// filtered out are placed; and each choice is offered for the first UTF-8
/// entry of its language (see `choice_for_entry`).
pub proof fn law_choices_first_entry_per_language(locales: Seq<Seq<char>>)
    ensures
        forall|i: int|
            0 <= i < locales.len() && utf8_list_entry(#[trigger] locales[i]) && short_code(locales[i])
                ==> exists|j: int|
                0 <= j < language_choices_of(locales).len() && before_char(
                    (#[trigger] language_choices_of(locales)[j]).0,
                    '_',
                ) == before_char(locales[i], '_'),
        forall|j: int|
            0 <= j < language_choices_of(locales).len() ==> offered_for_entry(
                locales,
                #[trigger] language_choices_of(locales)[j],
            ),
{
    let n = locales.len() as int;
    lemma_choices_first(locales, n);
    let out = choices_scan(locales, n).1;
    assert(language_choices_of(locales) == out);
    assert forall|i: int|
        0 <= i < n && utf8_list_entry(#[trigger] locales[i]) && short_code(locales[i]) implies exists|
            j: int,
        | 0 <= j < out.len() && before_char((#[trigger] out[j]).0, '_') == before_char(locales[i], '_') by {
        assert(offers_code(out, before_char(locales[i], '_')));
    }
    assert forall|j: int| 0 <= j < out.len() implies offered_for_entry(locales, #[trigger] out[j]) by {
        assert(entry_before(locales, n, out[j]));
        let i = choose|i: int| 0 <= i < n && #[trigger] choice_for_entry(locales, i, out[j]);
        assert(choice_for_entry(locales, i, out[j]));
    }
}

/// The choices come in the order of the list: of two choices, the one
/// offered first stands for an earlier line.
pub proof fn law_choices_in_list_order(locales: Seq<Seq<char>>)
    ensures
        forall|j1: int, j2: int|
            0 <= j1 < j2 < language_choices_of(locales).len() ==> #[trigger] in_list_order(
                locales,
                language_choices_of(locales)[j1],
                language_choices_of(locales)[j2],
            ),
{
    lemma_choices_first(locales, locales.len() as int);
}

} // verus!
