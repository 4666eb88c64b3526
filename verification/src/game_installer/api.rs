//! What a build offers, and which of it belongs to an installation.

use vstd::prelude::*;
use crate::digest::equal_ignoring_case;
use crate::digest::same_ignoring_case;
use crate::text::chars_of;
use crate::text::parse_decimal;
use crate::text::parse_digits;
use super::error::ErrorView;
use super::error::SophonError;
use super::error::SophonResult;

verus! {

/// Where and how the chunks of a manifest are served.
#[derive(Debug)]
pub struct DownloadInfo {
    pub encryption: u32,
    pub password: String,
    pub compression: u32,
    pub url_prefix: String,
    pub url_suffix: String,
}

/// What a download source says.
pub ghost struct DownloadView {
    pub encryption: u32,
    pub password: Seq<char>,
    pub compression: u32,
    pub url_prefix: Seq<char>,
    pub url_suffix: Seq<char>,
}

impl View for DownloadInfo {
    type V = DownloadView;

    open spec fn view(&self) -> DownloadView {
        DownloadView {
            encryption: self.encryption,
            password: self.password@,
            compression: self.compression,
            url_prefix: self.url_prefix@,
            url_suffix: self.url_suffix@,
        }
    }
}

impl Clone for DownloadInfo {
    fn clone(&self) -> (r: Self)
        ensures
            r@ == self@,
    {
        DownloadInfo {
            encryption: self.encryption,
            password: self.password.clone(),
            compression: self.compression,
            url_prefix: self.url_prefix.clone(),
            url_suffix: self.url_suffix.clone(),
        }
    }
}

/// The voice pack locales.
pub open spec fn known_locale(field: Seq<char>) -> bool {
    ||| same_ignoring_case(field, "en-us"@)
    ||| same_ignoring_case(field, "zh-cn"@)
    ||| same_ignoring_case(field, "zh-tw"@)
    ||| same_ignoring_case(field, "ko-kr"@)
    ||| same_ignoring_case(field, "ja-jp"@)
}

/// Whether `field` is the locale of a voice pack.
pub fn is_known_vo_locale(field: &str) -> (r: bool)
    ensures
        r == known_locale(field@),
{
    equal_ignoring_case(field, "en-us") || equal_ignoring_case(field, "zh-cn")
        || equal_ignoring_case(field, "zh-tw") || equal_ignoring_case(field, "ko-kr")
        || equal_ignoring_case(field, "ja-jp")
}

/// The voice pack `field` is in the language `lang`, which may be a locale or a
/// short code.
pub open spec fn speaks(field: Seq<char>, lang: Seq<char>) -> bool {
    ||| known_locale(field) && same_ignoring_case(field, lang)
    ||| same_ignoring_case(lang, "cn"@) && (same_ignoring_case(field, "zh-cn"@)
        || same_ignoring_case(field, "zh-tw"@))
    ||| same_ignoring_case(lang, "en"@) && same_ignoring_case(field, "en-us"@)
    ||| same_ignoring_case(lang, "jp"@) && same_ignoring_case(field, "ja-jp"@)
    ||| same_ignoring_case(lang, "kr"@) && same_ignoring_case(field, "ko-kr"@)
}

/// Whether the voice pack `field` is in the language `lang`.
pub fn vo_lang_matches(field: &str, lang: &str) -> (r: bool)
    ensures
        r == speaks(field@, lang@),
{
    if is_known_vo_locale(field) && equal_ignoring_case(field, lang) {
        return true;
    }
    if equal_ignoring_case(lang, "cn") && (equal_ignoring_case(field, "zh-cn")
        || equal_ignoring_case(field, "zh-tw")) {
        return true;
    }
    if equal_ignoring_case(lang, "en") && equal_ignoring_case(field, "en-us") {
        return true;
    }
    if equal_ignoring_case(lang, "jp") && equal_ignoring_case(field, "ja-jp") {
        return true;
    }
    equal_ignoring_case(lang, "kr") && equal_ignoring_case(field, "ko-kr")
}

/// The manifest for `field` belongs to an installation in the language `lang`:
/// the game itself, the voice pack in that language, and whatever is no voice
/// pack.
pub open spec fn qualifies(field: Seq<char>, lang: Seq<char>) -> bool {
    field == "game"@ || speaks(field, lang) || !known_locale(field)
}

/// Whether the manifest for `field` belongs to an installation in the language
/// `lang`.
pub fn manifest_qualifies(field: &str, lang: &str) -> (r: bool)
    ensures
        r == qualifies(field@, lang@),
{
    *field == *"game" || vo_lang_matches(field, lang) || !is_known_vo_locale(field)
}

/// The indices below `n` of the manifests that belong to an installation.
pub open spec fn qualifying_below(fields: Seq<Seq<char>>, lang: Seq<char>, n: int) -> Seq<int>
    decreases n,
{
    if n <= 0 {
        Seq::empty()
    } else if qualifies(fields[n - 1], lang) {
        qualifying_below(fields, lang, n - 1).push(n - 1)
    } else {
        qualifying_below(fields, lang, n - 1)
    }
}

/// The indices of the manifests that belong to an installation, in order; an
/// error when there are none.
pub fn qualifying_manifests(fields: &Vec<String>, lang: &str) -> (r: SophonResult<Vec<usize>>)
    ensures
        ({
            let q = qualifying_below(crate::text::views(fields@), lang@, fields@.len() as int);
            if q.len() == 0 {
                r matches Err(e) && e@ == ErrorView::NoGameManifest
            } else {
                r matches Ok(v) && crate::ordering::as_ints(v@) == q
            }
        }),
{
    let ghost names = crate::text::views(fields@);
    let mut out: Vec<usize> = Vec::new();
    let mut i: usize = 0;
    assert(crate::ordering::as_ints(out@) =~= qualifying_below(names, lang@, 0));
    while i < fields.len()
        invariant
            i <= fields@.len(),
            names == crate::text::views(fields@),
            crate::ordering::as_ints(out@) == qualifying_below(names, lang@, i as int),
        decreases fields@.len() - i,
    {
        let ghost before = crate::ordering::as_ints(out@);
        assert(names[i as int] == fields@[i as int]@);
        if manifest_qualifies(fields[i].as_str(), lang) {
            out.push(i);
            assert(crate::ordering::as_ints(out@) =~= before.push(i as int));
        }
        i += 1;
    }
    assert(crate::ordering::as_ints(out@).len() == out@.len());
    if out.len() == 0 {
        return Err(SophonError::NoGameManifest);
    }
    Ok(out)
}

/// The game itself always belongs to an installation, and a voice pack only in
/// its own language.
pub proof fn law_game_qualifies(field: Seq<char>, lang: Seq<char>)
    ensures
        qualifies("game"@, lang),
        known_locale(field) && field != "game"@ ==> (qualifies(field, lang) <==> speaks(
            field,
            lang,
        )),
{
}

/// `text` without one leading plus sign.
pub open spec fn unsigned_part(text: Seq<char>) -> Seq<char> {
    if text.len() > 0 && text[0] == '+' {
        text.skip(1)
    } else {
        text
    }
}

/// The size that `text` states: decimal digits, with or without a plus sign
/// before them, of a number of 64 bits.
pub open spec fn stated_size(text: Seq<char>) -> Option<u64> {
    match parse_digits(unsigned_part(text)) {
        Some(v) => if v <= u64::MAX {
            Some(v as u64)
        } else {
            None
        },
        None => None,
    }
}

/// Reads a number in decimal digits.
pub fn parse_number(text: &str) -> (r: Option<u64>)
    ensures
        r == stated_size(text@),
{
    let chars = chars_of(text);
    assert(chars@.skip(0) =~= chars@);
    let from: usize = if chars.len() > 0 && chars[0] == '+' {
        1
    } else {
        0
    };
    parse_decimal(&chars, from, u64::MAX)
}

/// Reads a size in decimal digits.
pub fn parse_size(text: &str) -> (r: SophonResult<u64>)
    ensures
        match stated_size(text@) {
            Some(v) => r matches Ok(w) && w == v,
            None => r matches Err(e) && e@ == ErrorView::ApiError(
                0,
                "size is not a decimal number"@,
            ),
        },
{
    match parse_number(text) {
        Some(v) => Ok(v),
        None => Err(SophonError::ApiError(0, "size is not a decimal number".to_owned())),
    }
}

/// A voice pack is one in any case of its letters, a language speaks only voice
/// packs, and the same ones in any case.
pub proof fn law_case_of_a_locale_is_immaterial(
    field: Seq<char>,
    other: Seq<char>,
    lang: Seq<char>,
    tongue: Seq<char>,
)
    requires
        same_ignoring_case(field, other),
        same_ignoring_case(lang, tongue),
    ensures
        known_locale(field) == known_locale(other),
        speaks(field, lang) == speaks(other, tongue),
        speaks(field, lang) ==> known_locale(field),
        known_locale(field) ==> speaks(field, field),
{
}

/// One language has one voice pack: two that it speaks are the same, or both are
/// Chinese.
pub proof fn law_languages_have_one_voice(field: Seq<char>, other: Seq<char>, lang: Seq<char>)
    requires
        speaks(field, lang),
        speaks(other, lang),
    ensures
        same_ignoring_case(field, other) || (same_ignoring_case(lang, "cn"@)
            && is_chinese(field) && is_chinese(other)),
{
    reveal_strlit("en-us");
    reveal_strlit("zh-cn");
    reveal_strlit("zh-tw");
    reveal_strlit("ko-kr");
    reveal_strlit("ja-jp");
    reveal_strlit("cn");
    reveal_strlit("en");
    reveal_strlit("jp");
    reveal_strlit("kr");
    let l = crate::text::lower_chars(lang);
    assert(l.len() == lang.len());
    assert(crate::text::lower_chars("en-us"@).len() == 5);
    assert(crate::text::lower_chars("zh-cn"@).len() == 5);
    assert(crate::text::lower_chars("zh-tw"@).len() == 5);
    assert(crate::text::lower_chars("ko-kr"@).len() == 5);
    assert(crate::text::lower_chars("ja-jp"@).len() == 5);
    assert(crate::text::lower_chars("cn"@)[0] == 'c' && crate::text::lower_chars("cn"@).len() == 2);
    assert(crate::text::lower_chars("en"@)[0] == 'e' && crate::text::lower_chars("en"@).len() == 2);
    assert(crate::text::lower_chars("jp"@)[0] == 'j' && crate::text::lower_chars("jp"@).len() == 2);
    assert(crate::text::lower_chars("kr"@)[0] == 'k' && crate::text::lower_chars("kr"@).len() == 2);
}

/// A voice pack is one of the two Chinese ones.
pub open spec fn is_chinese(field: Seq<char>) -> bool {
    same_ignoring_case(field, "zh-cn"@) || same_ignoring_case(field, "zh-tw"@)
}

/// Exactly the manifests that belong to an installation are taken, in their order:
/// that of the game itself, those of the voice packs in the language, and those of
/// what is no voice pack.
pub proof fn law_manifests_are_chosen_by_language(fields: Seq<Seq<char>>, lang: Seq<char>, n: int)
    requires
        0 <= n <= fields.len(),
    ensures
        forall|i: int| #[trigger]
            qualifying_below(fields, lang, n).contains(i) <==> 0 <= i < n && (fields[i] == "game"@
                || speaks(fields[i], lang) || !known_locale(fields[i])),
        forall|a: int, b: int|
            0 <= a < b < qualifying_below(fields, lang, n).len() ==> #[trigger] qualifying_below(
                fields,
                lang,
                n,
            )[a] < #[trigger] qualifying_below(fields, lang, n)[b],
        forall|a: int|
            0 <= a < qualifying_below(fields, lang, n).len() ==> 0 <= #[trigger] qualifying_below(
                fields,
                lang,
                n,
            )[a] < n,
    decreases n,
{
    if n > 0 {
        law_manifests_are_chosen_by_language(fields, lang, n - 1);
        let b = qualifying_below(fields, lang, n - 1);
        let r = qualifying_below(fields, lang, n);
        assert forall|i: int| #[trigger] r.contains(i) <==> 0 <= i < n && (fields[i] == "game"@
            || speaks(fields[i], lang) || !known_locale(fields[i])) by {
            assert(b.contains(i) <==> 0 <= i < n - 1 && (fields[i] == "game"@ || speaks(
                fields[i],
                lang,
            ) || !known_locale(fields[i])));
            if b.contains(i) {
                let j = choose|j: int| 0 <= j < b.len() && b[j] == i;
                assert(r[j] == i);
            }
            if r.contains(i) {
                let j = choose|j: int| 0 <= j < r.len() && r[j] == i;
                if j < b.len() {
                    assert(b[j] == i);
                }
            }
            if i == n - 1 && r.len() > b.len() {
                assert(r[b.len() as int] == i);
            }
        }
    }
}

} // verus!
