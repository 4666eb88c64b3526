//! What hkrpg leaves out of an installation, and its record of voice languages.

use vstd::prelude::*;
use crate::proto_parse::asset_views;
use crate::proto_parse::AssetView;
use crate::proto_parse::SophonManifestAssetProperty;
use crate::strings::has_prefix;
use crate::strings::lowercase;
use crate::strings::lowercase_of;
use crate::strings::starts_with;
use crate::text::chars_of;
use crate::text::contains_chars;
use crate::text::has_text;
use crate::text::string_of_range;
use crate::text::views;
use super::asset_filter::extract_blacklist_filename;
use super::asset_filter::listed_name;
use super::audio_record::add_to_record;
use super::audio_record::record_view;
use super::audio_record::record_with;

verus! {

/// Where the files of a download stand.
pub const STREAMING_PREFIX: &'static str = "StarRail_Data/StreamingAssets/";

/// Where the files that were changed since stand.
pub const PERSISTENT_PREFIX: &'static str = "StarRail_Data/Persistent/";

/// The blacklist, in the game directory.
pub const BLACKLIST_PATH: &'static str = "StarRail_Data/Persistent/DownloadBlacklist.json";

/// The record of voice languages, in the game directory.
pub const RECORD_PATH: &'static str = "StarRail_Data/Persistent/AudioLaucherRecord.txt";

/// The place of a file in the other of the two directories that may hold it.
pub open spec fn counterpart(path: Seq<char>) -> Option<Seq<char>> {
    if starts_with(path, STREAMING_PREFIX@) {
        Some(PERSISTENT_PREFIX@ + path.skip(STREAMING_PREFIX@.len() as int))
    } else if starts_with(path, PERSISTENT_PREFIX@) {
        Some(STREAMING_PREFIX@ + path.skip(PERSISTENT_PREFIX@.len() as int))
    } else {
        None
    }
}

fn moved(path: &str, from: &str, to: &str) -> (r: String)
    requires
        from@.len() <= path@.len(),
    ensures
        r@ == to@ + path@.skip(from@.len() as int),
{
    let chars = chars_of(path);
    let start: usize = chars_of(from).len();
    let n: usize = chars.len();
    let rest = string_of_range(&chars, start, n);
    assert(rest@ =~= path@.skip(from@.len() as int));
    let mut out: String = to.to_owned();
    out.append(rest.as_str());
    out
}

fn find_counterpart(path: &str) -> (r: Option<String>)
    ensures
        crate::text::text_of(r) == counterpart(path@),
{
    if has_prefix(path, STREAMING_PREFIX) {
        Some(moved(path, STREAMING_PREFIX, PERSISTENT_PREFIX))
    } else if has_prefix(path, PERSISTENT_PREFIX) {
        Some(moved(path, PERSISTENT_PREFIX, STREAMING_PREFIX))
    } else {
        None
    }
}

/// The files that the first `n` lines of the blacklist name, each followed by its
/// place in the other directory.
pub open spec fn blacklisted(lines: Seq<Seq<char>>, n: int) -> Seq<Seq<char>>
    decreases n,
{
    if n <= 0 {
        Seq::empty()
    } else {
        match listed_name(lines[n - 1]) {
            None => blacklisted(lines, n - 1),
            Some(name) => match counterpart(name) {
                None => blacklisted(lines, n - 1).push(name),
                Some(other) => blacklisted(lines, n - 1).push(name).push(other),
            },
        }
    }
}

/// The files that a blacklist names.
pub fn read_blacklist_lines(lines: &Vec<String>) -> (r: Vec<String>)
    ensures
        views(r@) == blacklisted(views(lines@), lines@.len() as int),
{
    let ghost v = views(lines@);
    let mut out: Vec<String> = Vec::new();
    let mut i: usize = 0;
    assert(views(out@) =~= blacklisted(v, 0));
    while i < lines.len()
        invariant
            i <= lines@.len(),
            v == views(lines@),
            views(out@) == blacklisted(v, i as int),
        decreases lines@.len() - i,
    {
        assert(v[i as int] == lines@[i as int]@);
        let ghost before = views(out@);
        match extract_blacklist_filename(lines[i].as_str()) {
            None => {},
            Some(name) => {
                let other = find_counterpart(name.as_str());
                let ghost text = name@;
                out.push(name);
                assert(views(out@) =~= before.push(text));
                match other {
                    None => {},
                    Some(o) => {
                        out.push(o);
                        assert(views(out@) =~= before.push(text).push(o@));
                    },
                }
            },
        }
        i += 1;
    }
    out
}

/// One of the entries, which are in lower case, stands in the name, which is too.
pub open spec fn named_by(lower: Seq<char>, entries: Seq<Seq<char>>) -> bool {
    exists|i: int| 0 <= i < entries.len() && contains_chars(lower, #[trigger] entries[i])
}

/// Whether one of the entries, which are in lower case, stands in the name, which
/// is too.
pub fn is_named(lower: &str, entries: &Vec<String>) -> (r: bool)
    ensures
        r == named_by(lower@, views(entries@)),
{
    let ghost v = views(entries@);
    let mut i: usize = 0;
    while i < entries.len()
        invariant
            i <= entries@.len(),
            v == views(entries@),
            forall|j: int| 0 <= j < i ==> !contains_chars(lower@, #[trigger] v[j]),
        decreases entries@.len() - i,
    {
        assert(v[i as int] == entries@[i as int]@);
        if has_text(lower, entries[i].as_str()) {
            assert(contains_chars(lower@, v[i as int]));
            return true;
        }
        i += 1;
    }
    false
}

/// The entries in lower case.
pub open spec fn lowered(entries: Seq<Seq<char>>) -> Seq<Seq<char>> {
    entries.map_values(|e: Seq<char>| lowercase_of(e))
}

/// Those of the first `n` files that no entry of the blacklist names.
pub open spec fn kept_below(assets: Seq<AssetView>, entries: Seq<Seq<char>>, n: int) -> Seq<AssetView>
    decreases n,
{
    if n <= 0 {
        Seq::empty()
    } else if named_by(lowercase_of(assets[n - 1].name), lowered(entries)) {
        kept_below(assets, entries, n - 1)
    } else {
        kept_below(assets, entries, n - 1).push(assets[n - 1])
    }
}

fn lower_all(entries: &Vec<String>) -> (r: Vec<String>)
    ensures
        views(r@) == lowered(views(entries@)),
{
    let ghost v = lowered(views(entries@));
    let mut out: Vec<String> = Vec::new();
    let mut i: usize = 0;
    while i < entries.len()
        invariant
            i <= entries@.len(),
            v == lowered(views(entries@)),
            views(out@) =~= v.take(i as int),
        decreases entries@.len() - i,
    {
        let ghost before = views(out@);
        let low = lowercase(entries[i].as_str());
        out.push(low);
        assert(v[i as int] == lowercase_of(entries@[i as int]@));
        assert(views(out@) =~= before.push(low@));
        i += 1;
    }
    assert(views(out@) =~= v);
    out
}

/// Takes the files that a blacklist names out of an installation. `lines` are the
/// lines of the blacklist, where there is one.
pub fn filter_hsr_asset_list(
    lines: Option<&Vec<String>>,
    assets: Vec<SophonManifestAssetProperty>,
) -> (r: Vec<SophonManifestAssetProperty>)
    ensures
        match lines {
            None => asset_views(r@) == asset_views(assets@),
            Some(l) => asset_views(r@) == kept_below(
                asset_views(assets@),
                blacklisted(views(l@), l@.len() as int),
                assets@.len() as int,
            ),
        },
{
    let entries = match lines {
        None => return assets,
        Some(l) => read_blacklist_lines(l),
    };
    let low = lower_all(&entries);
    let ghost e = views(entries@);
    let ghost v = asset_views(assets@);
    let mut out: Vec<SophonManifestAssetProperty> = Vec::new();
    let mut i: usize = 0;
    assert(asset_views(out@) =~= kept_below(v, e, 0));
    while i < assets.len()
        invariant
            i <= assets@.len(),
            v == asset_views(assets@),
            views(low@) == lowered(e),
            asset_views(out@) == kept_below(v, e, i as int),
        decreases assets@.len() - i,
    {
        let a = &assets[i];
        assert(v[i as int] == a@);
        let ghost before = asset_views(out@);
        let name = lowercase(a.asset_name.as_str());
        if !is_named(name.as_str(), &low) {
            out.push(a.clone());
            assert(asset_views(out@) =~= before.push(a@));
        }
        i += 1;
    }
    out
}

/// The name under which a voice language is recorded.
pub open spec fn audio_name(locale: Seq<char>) -> Option<Seq<char>> {
    if locale == "zh-cn"@ || locale == "zh-tw"@ || locale == "cn"@ {
        Some("Chinese"@)
    } else if locale == "en-us"@ || locale == "en"@ {
        Some("English(US)"@)
    } else if locale == "ja-jp"@ || locale == "jp"@ {
        Some("Japanese"@)
    } else if locale == "ko-kr"@ || locale == "kr"@ {
        Some("Korean"@)
    } else {
        None
    }
}

/// The name under which a voice language is recorded.
pub fn locale_code_to_audio_lang_name(locale: &str) -> (r: Option<&'static str>)
    ensures
        match audio_name(locale@) {
            Some(name) => r matches Some(s) && s@ == name,
            None => r is None,
        },
{
    if *locale == *"zh-cn" || *locale == *"zh-tw" || *locale == *"cn" {
        Some("Chinese")
    } else if *locale == *"en-us" || *locale == *"en" {
        Some("English(US)")
    } else if *locale == *"ja-jp" || *locale == *"jp" {
        Some("Japanese")
    } else if *locale == *"ko-kr" || *locale == *"kr" {
        Some("Korean")
    } else {
        None
    }
}

/// The names of the first `n` voice languages, without those that have none.
pub open spec fn audio_names(langs: Seq<Seq<char>>, n: int) -> Seq<Seq<char>>
    decreases n,
{
    if n <= 0 {
        Seq::empty()
    } else {
        match audio_name(langs[n - 1]) {
            Some(name) => audio_names(langs, n - 1).push(name),
            None => audio_names(langs, n - 1),
        }
    }
}

/// The text of the record of voice languages, with the installed ones added to
/// what stands there.
pub fn write_audio_lang_record(content: Option<&str>, vo_langs: &Vec<String>) -> (r: String)
    ensures
        r@ == record_with(
            record_view(content),
            audio_names(views(vo_langs@), vo_langs@.len() as int),
        ),
{
    let ghost v = views(vo_langs@);
    let mut names: Vec<String> = Vec::new();
    let mut i: usize = 0;
    assert(views(names@) =~= audio_names(v, 0));
    while i < vo_langs.len()
        invariant
            i <= vo_langs@.len(),
            v == views(vo_langs@),
            views(names@) == audio_names(v, i as int),
        decreases vo_langs@.len() - i,
    {
        assert(v[i as int] == vo_langs@[i as int]@);
        let ghost before = views(names@);
        match locale_code_to_audio_lang_name(vo_langs[i].as_str()) {
            Some(name) => {
                names.push(name.to_owned());
                assert(views(names@) =~= before.push(name@));
            },
            None => {},
        }
        i += 1;
    }
    add_to_record(content, &names)
}

/// The counterpart of a counterpart is the file itself.
pub proof fn law_counterparts_come_in_pairs(path: Seq<char>)
    requires
        counterpart(path) is Some,
    ensures
        counterpart(counterpart(path)->0) == Some(path),
{
    reveal_strlit("StarRail_Data/StreamingAssets/");
    reveal_strlit("StarRail_Data/Persistent/");
    let s = STREAMING_PREFIX@;
    let p = PERSISTENT_PREFIX@;
    let c = counterpart(path)->0;
    assert(s[14] == 'S' && p[14] == 'P');
    if starts_with(path, s) {
        assert(path.subrange(0, s.len() as int)[14] == 'S');
        assert(c.subrange(0, p.len() as int) =~= p);
        assert(!starts_with(c, s)) by {
            if starts_with(c, s) {
                assert(c.subrange(0, s.len() as int)[14] == 'S');
                assert(c[14] == p[14]);
            }
        }
        assert(c.skip(p.len() as int) =~= path.skip(s.len() as int));
        assert(s + path.skip(s.len() as int) =~= path) by {
            assert(path.subrange(0, s.len() as int) =~= s);
            assert(path =~= path.subrange(0, s.len() as int) + path.skip(s.len() as int));
        }
    } else {
        assert(c.subrange(0, s.len() as int) =~= s);
        assert(c.skip(s.len() as int) =~= path.skip(p.len() as int));
        assert(p + path.skip(p.len() as int) =~= path) by {
            assert(path.subrange(0, p.len() as int) =~= p);
            assert(path =~= path.subrange(0, p.len() as int) + path.skip(p.len() as int));
        }
    }
}

} // verus!
