//! What nap leaves out of an installation, and its records of voice languages.

use vstd::prelude::*;
use crate::proto_parse::asset_views;
use crate::proto_parse::SophonManifestAssetProperty;
use crate::text::views;
use super::audio_record::add_to_record;
use super::audio_record::record_view;
use super::audio_record::record_with;

verus! {

/// Where the game keeps its records, in the game directory.
pub const PERSISTENT_DIR: &'static str = "ZenlessZoneZero_Data/Persistent";

/// The record of voice languages for the launcher.
pub const AUDIO_LANG_LAUNCHER_FILE: &'static str = "audio_lang_launcher";

/// The record of voice languages for the game.
pub const AUDIO_LANG_FILE: &'static str = "audio_lang";

/// The record of the features that were removed.
pub const KDEL_RESOURCE_FILE: &'static str = "KDelResource";

/// Takes nothing out of an installation: removed features are only left out of
/// patches.
pub fn filter_nap_asset_list(assets: Vec<SophonManifestAssetProperty>) -> (r: Vec<
    SophonManifestAssetProperty,
>)
    ensures
        asset_views(r@) == asset_views(assets@),
{
    assets
}

/// The name of a voice language for the launcher.
pub open spec fn audio_name(locale: Seq<char>) -> Option<Seq<char>> {
    if locale == "zh-cn"@ || locale == "zh-tw"@ || locale == "cn"@ {
        Some("Chinese"@)
    } else if locale == "en-us"@ || locale == "en"@ {
        Some("English(US)"@)
    } else if locale == "ja-jp"@ || locale == "jp"@ {
        Some("Japanese"@)
    } else if locale == "ko-kr"@ || locale == "kr"@ {
        Some("Korean"@)
    } else {
        None
    }
}

/// The short name of a voice language.
pub open spec fn short_name(locale: Seq<char>) -> Option<Seq<char>> {
    if locale == "zh-cn"@ || locale == "zh-tw"@ || locale == "cn"@ {
        Some("Cn"@)
    } else if locale == "en-us"@ || locale == "en"@ {
        Some("En"@)
    } else if locale == "ja-jp"@ || locale == "jp"@ {
        Some("Jp"@)
    } else if locale == "ko-kr"@ || locale == "kr"@ {
        Some("Kr"@)
    } else {
        None
    }
}

/// The name of a voice language for the launcher.
pub fn locale_code_to_audio_lang_name(locale: &str) -> (r: Option<&'static str>)
    ensures
        match audio_name(locale@) {
            Some(name) => r matches Some(s) && s@ == name,
            None => r is None,
        },
{
    if *locale == *"zh-cn" || *locale == *"zh-tw" || *locale == *"cn" {
        Some("Chinese")
    } else if *locale == *"en-us" || *locale == *"en" {
        Some("English(US)")
    } else if *locale == *"ja-jp" || *locale == *"jp" {
        Some("Japanese")
    } else if *locale == *"ko-kr" || *locale == *"kr" {
        Some("Korean")
    } else {
        None
    }
}

/// The short name of a voice language.
pub fn locale_code_to_abbrev_lang_name(locale: &str) -> (r: Option<&'static str>)
    ensures
        match short_name(locale@) {
            Some(name) => r matches Some(s) && s@ == name,
            None => r is None,
        },
{
    if *locale == *"zh-cn" || *locale == *"zh-tw" || *locale == *"cn" {
        Some("Cn")
    } else if *locale == *"en-us" || *locale == *"en" {
        Some("En")
    } else if *locale == *"ja-jp" || *locale == *"jp" {
        Some("Jp")
    } else if *locale == *"ko-kr" || *locale == *"kr" {
        Some("Kr")
    } else {
        None
    }
}

/// The names of the first `n` voice languages, short or not, without those that
/// have none.
pub open spec fn lang_names(langs: Seq<Seq<char>>, short: bool, n: int) -> Seq<Seq<char>>
    decreases n,
{
    if n <= 0 {
        Seq::empty()
    } else {
        let name = if short {
            short_name(langs[n - 1])
        } else {
            audio_name(langs[n - 1])
        };
        match name {
            Some(s) => lang_names(langs, short, n - 1).push(s),
            None => lang_names(langs, short, n - 1),
        }
    }
}

fn list_names(vo_langs: &Vec<String>, short: bool) -> (r: Vec<String>)
    ensures
        views(r@) == lang_names(views(vo_langs@), short, vo_langs@.len() as int),
{
    let ghost v = views(vo_langs@);
    let mut names: Vec<String> = Vec::new();
    let mut i: usize = 0;
    assert(views(names@) =~= lang_names(v, short, 0));
    while i < vo_langs.len()
        invariant
            i <= vo_langs@.len(),
            v == views(vo_langs@),
            views(names@) == lang_names(v, short, i as int),
        decreases vo_langs@.len() - i,
    {
        assert(v[i as int] == vo_langs@[i as int]@);
        let ghost before = views(names@);
        let name = if short {
            locale_code_to_abbrev_lang_name(vo_langs[i].as_str())
        } else {
            locale_code_to_audio_lang_name(vo_langs[i].as_str())
        };
        match name {
            Some(s) => {
                names.push(s.to_owned());
                assert(views(names@) =~= before.push(s@));
            },
            None => {},
        }
        i += 1;
    }
    names
}

/// The texts of the two records of voice languages, for the launcher and for the
/// game, with the installed ones added to what stands there.
pub fn write_nap_audio_lang_records(
    launcher: Option<&str>,
    game: Option<&str>,
    vo_langs: &Vec<String>,
) -> (r: (String, String))
    ensures
        ({
            let v = views(vo_langs@);
            let n = v.len() as int;
            &&& r.0@ == record_with(record_view(launcher), lang_names(v, false, n))
            &&& r.1@ == record_with(record_view(game), lang_names(v, true, n))
        }),
{
    let full = list_names(vo_langs, false);
    let short = list_names(vo_langs, true);
    (add_to_record(launcher, &full), add_to_record(game, &short))
}

} // verus!
