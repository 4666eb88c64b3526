//! Files of features that a player has removed: their patches may be skipped.

use vstd::prelude::*;
use crate::digest::equal_ignoring_case;
use crate::digest::same_ignoring_case;
use crate::strings::filled_lines;
use crate::strings::has_prefix;
use crate::strings::has_string;
use crate::strings::has_suffix;
use crate::strings::lines;
use crate::strings::lines_of;
use crate::strings::lowercase;
use crate::strings::lowercase_of;
use crate::strings::replace_any;
use crate::strings::replaced_any;
use crate::strings::starts_with;
use crate::strings::ends_with;
use crate::strings::substitute;
use crate::strings::substituted;
use crate::strings::trimmed_lines;
use crate::text::behind_last;
use crate::text::chars_of;
use crate::text::contains_chars;
use crate::text::find;
use crate::text::find_from;
use crate::text::has_text;
use crate::text::last_part;
use crate::text::lower_chars;
use crate::text::split;
use crate::text::split_on;
use crate::text::string_of_range;
use crate::text::to_lower_chars;
use crate::text::views;
use super::preinstall_plan::PatchAssetInfo;
use super::preinstall_plan::PatchMethod;
use super::preinstall_plan::target_views;
use super::preinstall_plan::TargetView;

verus! {

/// The data directory of hk4e.
pub const HK4E_DATA_DIR_GLOBAL: &'static str = "GenshinImpact_Data";

/// The data directory of hk4e in China.
pub const HK4E_DATA_DIR_CN: &'static str = "YuanShen_Data";

/// The data directory of hkrpg.
pub const HKRPG_DATA_DIR: &'static str = "StarRail_Data";

/// The data directory of nap.
pub const NAP_GAME_DATA_DIR: &'static str = "ZenlessZoneZero_Data";

/// The name of nap.
pub const NAP_GAME_NAME: &'static str = "ZenlessZoneZero";

/// The directory, or its data directory, says that the game is nap.
pub open spec fn is_nap(game_dir: Seq<char>, has_data_dir: bool) -> bool {
    contains_chars(game_dir, NAP_GAME_NAME@) || has_data_dir
}

/// Whether the directory, or its data directory, says that the game is nap.
pub fn looks_like_nap(game_dir: &str, has_data_dir: bool) -> (r: bool)
    ensures
        r == is_nap(game_dir@, has_data_dir),
{
    has_text(game_dir, NAP_GAME_NAME) || has_data_dir
}

/// Those of the first `n` texts that are not empty.
pub open spec fn filled_below(parts: Seq<Seq<char>>, n: int) -> Seq<Seq<char>>
    decreases n,
{
    if n <= 0 {
        Seq::empty()
    } else if parts[n - 1].len() > 0 {
        filled_below(parts, n - 1).push(parts[n - 1])
    } else {
        filled_below(parts, n - 1)
    }
}

/// The words of a line between the characters that separate them.
pub open spec fn tokens_of(line: Seq<char>) -> Seq<Seq<char>> {
    let parts = split_on(replaced_any(line, "|;,$#@+ "@, ' '), ' ');
    filled_below(parts, parts.len() as int)
}

/// The words of a line between the characters that separate them.
pub fn tokens(line: &str) -> (r: Vec<String>)
    ensures
        views(r@) == tokens_of(line@),
{
    let spaced = replace_any(line, "|;,$#@+ ", ' ');
    let parts = split(&chars_of(spaced.as_str()), ' ');
    let ghost v = views(parts@);
    let mut out: Vec<String> = Vec::new();
    let mut i: usize = 0;
    assert(views(out@) =~= filled_below(v, 0));
    while i < parts.len()
        invariant
            i <= parts@.len(),
            v == views(parts@),
            views(out@) == filled_below(v, i as int),
        decreases parts@.len() - i,
    {
        assert(v[i as int] == parts@[i as int]@);
        let ghost before = views(out@);
        if !parts[i].as_str().is_empty() {
            out.push(parts[i].clone());
            assert(views(out@) =~= before.push(parts@[i as int]@));
        }
        i += 1;
    }
    out
}

/// The features that nap has removed, by the first line of its record.
pub open spec fn removed_features(content: Seq<char>) -> Option<Seq<Seq<char>>> {
    let all = lines_of(content);
    if all.len() == 0 || tokens_of(all[0]).len() == 0 {
        None
    } else {
        Some(tokens_of(all[0]))
    }
}

/// What some optional texts say.
pub open spec fn optional_views(v: Option<Vec<String>>) -> Option<Seq<Seq<char>>> {
    match v {
        Some(all) => Some(views(all@)),
        None => None,
    }
}

/// The features that nap has removed, by the first line of its record.
pub fn read_removed_features(content: &str) -> (r: Option<Vec<String>>)
    ensures
        optional_views(r) == removed_features(content@),
{
    let all = lines(content);
    assert(views(all@).len() == all@.len());
    if all.len() == 0 {
        return None;
    }
    assert(views(all@)[0] == all@[0]@);
    let out = tokens(all[0].as_str());
    assert(views(out@).len() == out@.len());
    if out.len() == 0 {
        None
    } else {
        Some(out)
    }
}

/// The text between the mark of a file name and the next quotation mark.
pub open spec fn quoted_name(line: Seq<char>) -> Option<Seq<char>> {
    let mark = "\"fileName\":\""@;
    match find_from(line, mark, 0) {
        None => None,
        Some(i) => {
            let start = i + mark.len();
            match find_from(line, "\""@, start) {
                None => None,
                Some(j) => Some(line.subrange(start, j)),
            }
        },
    }
}

/// The text between the mark of a file name and the next quotation mark.
pub fn extract_filename(line: &str) -> (r: Option<String>)
    ensures
        crate::text::text_of(r) == quoted_name(line@),
{
    let s = chars_of(line);
    let mark = chars_of("\"fileName\":\"");
    match find(&s, &mark, 0) {
        None => None,
        Some(i) => {
            let n: usize = s.len();
            let start: usize = i + mark.len();
            match find(&s, &chars_of("\""), start) {
                None => None,
                Some(j) => {
                    let name = string_of_range(&s, start, j);
                    Some(name)
                },
            }
        },
    }
}

/// The name of a file in a line of a blacklist, with slashes between its parts.
pub open spec fn listed_name(line: Seq<char>) -> Option<Seq<char>> {
    match quoted_name(line) {
        Some(name) => Some(replaced_any(name, "\\"@, '/')),
        None => None,
    }
}

/// The name of a file in a line of a blacklist, with slashes between its parts.
pub fn extract_blacklist_filename(line: &str) -> (r: Option<String>)
    ensures
        crate::text::text_of(r) == listed_name(line@),
{
    match extract_filename(line) {
        Some(name) => Some(replace_any(name.as_str(), "\\", '/')),
        None => None,
    }
}

/// The names in the first `n` lines of a blacklist, in lower case.
pub open spec fn lowered_names(all: Seq<Seq<char>>, n: int) -> Seq<Seq<char>>
    decreases n,
{
    if n <= 0 {
        Seq::empty()
    } else {
        match listed_name(all[n - 1]) {
            Some(name) => lowered_names(all, n - 1).push(lowercase_of(name)),
            None => lowered_names(all, n - 1),
        }
    }
}

/// The name under which a file stands in the other of the two directories that
/// may hold it.
pub open spec fn variant_of(name: Seq<char>) -> Option<Seq<char>> {
    if contains_chars(name, "persistent/"@) {
        Some(substituted(name, "persistent/"@, "streamingassets/"@, 0))
    } else if contains_chars(name, "streamingassets/"@) {
        Some(substituted(name, "streamingassets/"@, "persistent/"@, 0))
    } else {
        None
    }
}

/// The variants of the first `n` names.
pub open spec fn variants_below(all: Seq<Seq<char>>, n: int) -> Seq<Seq<char>>
    decreases n,
{
    if n <= 0 {
        Seq::empty()
    } else {
        match variant_of(all[n - 1]) {
            Some(name) => variants_below(all, n - 1).push(name),
            None => variants_below(all, n - 1),
        }
    }
}

/// The names of a blacklist and their variants.
pub open spec fn blacklist_of(lowered: Seq<Seq<char>>) -> Option<Seq<Seq<char>>> {
    if lowered.len() == 0 {
        None
    } else {
        Some(lowered + variants_below(lowered, lowered.len() as int))
    }
}

fn find_variant(name: &str) -> (r: Option<String>)
    ensures
        crate::text::text_of(r) == variant_of(name@),
{
    proof {
        reveal_strlit("persistent/");
        reveal_strlit("streamingassets/");
    }
    if has_text(name, "persistent/") {
        Some(substitute(name, "persistent/", "streamingassets/"))
    } else if has_text(name, "streamingassets/") {
        Some(substitute(name, "streamingassets/", "persistent/"))
    } else {
        None
    }
}

/// The names of a blacklist, which are in lower case, and their variants.
pub fn with_variants(lowered: Vec<String>) -> (r: Option<Vec<String>>)
    ensures
        optional_views(r) == blacklist_of(views(lowered@)),
{
    let ghost v = views(lowered@);
    let n: usize = lowered.len();
    if n == 0 {
        return None;
    }
    let mut out = lowered;
    let mut i: usize = 0;
    assert(views(out@) =~= v + variants_below(v, 0));
    while i < n
        invariant
            i <= n,
            n == v.len(),
            n <= out@.len(),
            views(out@) == v + variants_below(v, i as int),
        decreases n - i,
    {
        let ghost before = views(out@);
        assert(before[i as int] == v[i as int]);
        assert(views(out@)[i as int] == out@[i as int]@);
        match find_variant(out[i].as_str()) {
            Some(name) => {
                out.push(name);
                assert(views(out@) =~= before.push(name@));
                assert(views(out@) =~= v + variants_below(v, i as int + 1));
            },
            None => {},
        }
        i += 1;
    }
    Some(out)
}

/// The names of a blacklist, in lower case, and their variants.
pub fn read_blacklist(content: &str) -> (r: Option<Vec<String>>)
    ensures
        optional_views(r) == blacklist_of(
            lowered_names(lines_of(content@), lines_of(content@).len() as int),
        ),
{
    let all = lines(content);
    let ghost v = views(all@);
    assert(v.len() == all@.len());
    let mut lowered: Vec<String> = Vec::new();
    let mut i: usize = 0;
    assert(views(lowered@) =~= lowered_names(v, 0));
    while i < all.len()
        invariant
            i <= all@.len(),
            v == views(all@),
            views(lowered@) == lowered_names(v, i as int),
        decreases all@.len() - i,
    {
        assert(v[i as int] == all@[i as int]@);
        let ghost before = views(lowered@);
        match extract_blacklist_filename(all[i].as_str()) {
            Some(name) => {
                let low = lowercase(name.as_str());
                lowered.push(low);
                assert(views(lowered@) =~= before.push(low@));
            },
            None => {},
        }
        i += 1;
    }
    with_variants(lowered)
}

/// A file in a directory, and what it holds where it could be read.
pub struct LangFile {
    pub name: String,
    pub content: Option<String>,
}

/// The languages that a file records, if it records any.
pub open spec fn recorded_langs(f: LangFile) -> Option<Seq<Seq<char>>> {
    if starts_with(f.name@, "audio_lang_"@) && f.content is Some && filled_lines(
        f.content->0@,
    ).len() > 0 {
        Some(filled_lines(f.content->0@))
    } else {
        None
    }
}

/// The languages of the first of the files, from `i` on, that records any.
pub open spec fn langs_from(files: Seq<LangFile>, i: int) -> Seq<Seq<char>>
    decreases files.len() - i,
{
    if i >= files.len() {
        seq!["English(US)"@]
    } else {
        match recorded_langs(files[i]) {
            Some(all) => all,
            None => langs_from(files, i + 1),
        }
    }
}

/// The languages that are installed for hk4e.
pub fn read_hk4e_installed_langs(files: &Vec<LangFile>) -> (r: Vec<String>)
    ensures
        views(r@) == langs_from(files@, 0),
{
    let mut i: usize = 0;
    while i < files.len()
        invariant
            i <= files@.len(),
            langs_from(files@, 0) == langs_from(files@, i as int),
        decreases files@.len() - i,
    {
        if has_prefix(files[i].name.as_str(), "audio_lang_") {
            match &files[i].content {
                Some(content) => {
                    let all = trimmed_lines(content.as_str());
                    assert(views(all@).len() == all@.len());
                    if all.len() > 0 {
                        return all;
                    }
                },
                None => {},
            }
        }
        i += 1;
    }
    let mut out: Vec<String> = Vec::new();
    out.push("English(US)".to_owned());
    assert(views(out@) =~= seq!["English(US)"@]);
    out
}

/// The directories of the languages of hk4e that are not installed.
pub open spec fn ignored_dirs(installed: Seq<Seq<char>>) -> Seq<Seq<char>> {
    let a = if installed.contains("Chinese"@) {
        Seq::<Seq<char>>::empty()
    } else {
        seq!["/chinese/"@]
    };
    let b = if installed.contains("English(US)"@) {
        a
    } else {
        a.push("/english(us)/"@)
    };
    let c = if installed.contains("Japanese"@) {
        b
    } else {
        b.push("/japanese/"@)
    };
    if installed.contains("Korean"@) {
        c
    } else {
        c.push("/korean/"@)
    }
}

fn add_dir(out: &mut Vec<String>, dir: &str)
    ensures
        views(final(out)@) == views(old(out)@).push(dir@),
{
    let ghost before = views(out@);
    out.push(dir.to_owned());
    assert(views(out@) =~= before.push(dir@));
}

/// The directories of the languages of hk4e that are not installed.
pub fn ignored_lang_dirs(installed: &Vec<String>) -> (r: Vec<String>)
    ensures
        views(r@) == ignored_dirs(views(installed@)),
{
    let mut out: Vec<String> = Vec::new();
    assert(views(out@) =~= Seq::<Seq<char>>::empty());
    if !has_string(installed, "Chinese") {
        add_dir(&mut out, "/chinese/");
        assert(views(out@) =~= seq!["/chinese/"@]);
    }
    if !has_string(installed, "English(US)") {
        add_dir(&mut out, "/english(us)/");
    }
    if !has_string(installed, "Japanese") {
        add_dir(&mut out, "/japanese/");
    }
    if !has_string(installed, "Korean") {
        add_dir(&mut out, "/korean/");
    }
    out
}

/// What a player has removed: features by the part of the game, and files by
/// what their paths contain.
pub struct FilterCache {
    pub kdel_tokens: Option<Vec<String>>,
    pub blacklist_entries: Option<Vec<String>>,
    pub ignored_lang_patterns: Option<Vec<String>>,
}

/// What is found in a game directory: whose data it holds, and the records.
pub struct FilterRecords {
    /// The path of the directory.
    pub game_dir: String,
    /// Whether the data directory of nap is there.
    pub has_nap_dir: bool,
    /// Whether the data directory of hkrpg is there.
    pub has_hkrpg_dir: bool,
    /// Whether a data directory of hk4e is there.
    pub has_hk4e_dir: bool,
    /// The record of the features that nap has removed.
    pub kdel_resource: Option<String>,
    /// The blacklist of hkrpg.
    pub download_blacklist: Option<String>,
    /// The files among which hk4e records its languages.
    pub lang_files: Vec<LangFile>,
}

/// What a player has removed, in terms of what it says.
pub ghost struct FilterView {
    pub features: Option<Seq<Seq<char>>>,
    pub blacklist: Option<Seq<Seq<char>>>,
    pub dirs: Option<Seq<Seq<char>>>,
}

impl View for FilterCache {
    type V = FilterView;

    open spec fn view(&self) -> FilterView {
        FilterView {
            features: optional_views(self.kdel_tokens),
            blacklist: optional_views(self.blacklist_entries),
            dirs: optional_views(self.ignored_lang_patterns),
        }
    }
}

/// What a player has removed, by the records in the game directory. A record
/// counts only where the directory holds the game that keeps it.
pub open spec fn filter_of(records: FilterRecords) -> FilterView {
    FilterView {
        features: if is_nap(records.game_dir@, records.has_nap_dir) {
            match records.kdel_resource {
                Some(content) => removed_features(content@),
                None => None,
            }
        } else {
            None
        },
        blacklist: if records.has_hkrpg_dir {
            match records.download_blacklist {
                Some(content) => blacklist_of(
                    lowered_names(lines_of(content@), lines_of(content@).len() as int),
                ),
                None => None,
            }
        } else {
            None
        },
        dirs: if records.has_hk4e_dir {
            Some(ignored_dirs(langs_from(records.lang_files@, 0)))
        } else {
            None
        },
    }
}

impl FilterCache {
    /// What a player has removed, by the records in the game directory.
    pub fn new(records: &FilterRecords) -> (r: Self)
        ensures
            r@ == filter_of(*records),
    {
        let nap = looks_like_nap(records.game_dir.as_str(), records.has_nap_dir);
        let kdel_tokens = match &records.kdel_resource {
            Some(content) => if nap {
                read_removed_features(content.as_str())
            } else {
                None
            },
            None => None,
        };
        let blacklist_entries = match &records.download_blacklist {
            Some(content) => if records.has_hkrpg_dir {
                read_blacklist(content.as_str())
            } else {
                None
            },
            None => None,
        };
        let ignored_lang_patterns = if records.has_hk4e_dir {
            let installed = read_hk4e_installed_langs(&records.lang_files);
            Some(ignored_lang_dirs(&installed))
        } else {
            None
        };
        FilterCache { kdel_tokens, blacklist_entries, ignored_lang_patterns }
    }
}

/// `pat`, which is in lower case, stands in `s` but for the case of ASCII letters.
pub open spec fn holds_lowered(s: Seq<char>, pat: Seq<char>) -> bool {
    contains_chars(lower_chars(s), pat)
}

/// Whether `pattern`, which is in lower case, stands in `haystack` but for the
/// case of ASCII letters.
pub fn contains_ignore_ascii_case(haystack: &str, pattern: &str) -> (r: bool)
    ensures
        r == holds_lowered(haystack@, pattern@),
{
    find(&to_lower_chars(haystack), &chars_of(pattern), 0).is_some()
}

/// One of the patterns stands in the path.
pub open spec fn holds_one(path: Seq<char>, all: Seq<Seq<char>>) -> bool {
    exists|i: int| 0 <= i < all.len() && holds_lowered(path, #[trigger] all[i])
}

/// The part of the game is one of the features.
pub open spec fn names_one(field: Seq<char>, all: Seq<Seq<char>>) -> bool {
    exists|i: int| 0 <= i < all.len() && same_ignoring_case(field, #[trigger] all[i])
}

/// There are patterns, and one of them stands in the path.
pub open spec fn matches_any(path: Seq<char>, patterns: Option<Seq<Seq<char>>>) -> bool {
    match patterns {
        Some(all) => holds_one(path, all),
        None => false,
    }
}

/// The part of the game is one of the removed features.
pub open spec fn is_removed(field: Seq<char>, features: Option<Seq<Seq<char>>>) -> bool {
    match features {
        Some(all) => names_one(field, all),
        None => false,
    }
}

/// A file belongs to what a player has removed.
pub open spec fn filtered(cache: FilterView, t: TargetView) -> bool {
    ||| is_removed(t.matching_field, cache.features)
    ||| matches_any(t.target_file_path, cache.blacklist)
    ||| matches_any(t.target_file_path, cache.dirs)
}

fn path_matches(path: &str, patterns: &Option<Vec<String>>) -> (r: bool)
    ensures
        r == matches_any(path@, optional_views(*patterns)),
{
    match patterns {
        None => false,
        Some(all) => {
            let ghost v = views(all@);
            let mut i: usize = 0;
            while i < all.len()
                invariant
                    i <= all@.len(),
                    v == views(all@),
                    optional_views(*patterns) == Some(v),
                    forall|j: int| 0 <= j < i ==> !holds_lowered(path@, #[trigger] v[j]),
                decreases all@.len() - i,
            {
                assert(v[i as int] == all@[i as int]@);
                if contains_ignore_ascii_case(path, all[i].as_str()) {
                    assert(holds_one(path@, v));
                    return true;
                }
                i += 1;
            }
            false
        },
    }
}

fn field_removed(field: &str, features: &Option<Vec<String>>) -> (r: bool)
    ensures
        r == is_removed(field@, optional_views(*features)),
{
    match features {
        None => false,
        Some(all) => {
            let ghost v = views(all@);
            let mut i: usize = 0;
            while i < all.len()
                invariant
                    i <= all@.len(),
                    v == views(all@),
                    optional_views(*features) == Some(v),
                    forall|j: int| 0 <= j < i ==> !same_ignoring_case(field@, #[trigger] v[j]),
                decreases all@.len() - i,
            {
                assert(v[i as int] == all@[i as int]@);
                if equal_ignoring_case(field, all[i].as_str()) {
                    assert(names_one(field@, v));
                    return true;
                }
                i += 1;
            }
            false
        },
    }
}

/// Whether a file belongs to what a player has removed.
pub fn is_filtered_asset(cache: &FilterCache, asset: &PatchAssetInfo) -> (r: bool)
    ensures
        r == filtered(cache@, asset@),
{
    field_removed(asset.matching_field.as_str(), &cache.kdel_tokens) || path_matches(
        asset.target_file_path.as_str(),
        &cache.blacklist_entries,
    ) || path_matches(asset.target_file_path.as_str(), &cache.ignored_lang_patterns)
}

/// A file once the filter is applied: skipped, where it would be made and belongs
/// to what a player has removed.
pub open spec fn after_filter(cache: FilterView, t: TargetView) -> TargetView {
    let made = t.patch_method == PatchMethod::CopyOver || t.patch_method
        == PatchMethod::DownloadOver || t.patch_method == PatchMethod::Patch;
    if made && filtered(cache, t) {
        TargetView { patch_method: PatchMethod::Skip, ..t }
    } else {
        t
    }
}

/// Skips the files that belong to what a player has removed.
pub fn filter_patch_assets_for_removed_features(cache: &FilterCache, assets: &mut Vec<
    PatchAssetInfo,
>)
    ensures
        final(assets)@.len() == old(assets)@.len(),
        target_views(final(assets)@) == target_views(old(assets)@).map_values(
            |t: TargetView| after_filter(cache@, t),
        ),
{
    let ghost before = target_views(assets@);
    let n: usize = assets.len();
    let mut i: usize = 0;
    while i < n
        invariant
            i <= n,
            n == assets@.len(),
            n == before.len(),
            forall|j: int| 0 <= j < i ==> #[trigger] assets@[j]@ == after_filter(cache@, before[j]),
            forall|j: int| i <= j < n ==> #[trigger] assets@[j]@ == before[j],
        decreases n - i,
    {
        let method: PatchMethod = assets[i].patch_method;
        let made = method == PatchMethod::CopyOver || method == PatchMethod::DownloadOver || method
            == PatchMethod::Patch;
        if made && is_filtered_asset(cache, &assets[i]) {
            let mut one = assets[i].clone();
            one.patch_method = PatchMethod::Skip;
            assets.set(i, one);
        }
        i += 1;
    }
    assert(target_views(assets@) =~= before.map_values(|t: TargetView| after_filter(cache@, t)));
}

/// A file lists what an installation of hk4e holds.
pub open spec fn lists_packages(path: Seq<char>) -> bool {
    let name = behind_last(path, '/');
    ||| name == "pkg_version"@
    ||| name == "beyond_pkg_version"@
    ||| starts_with(name, "Audio_"@) && (ends_with(name, "pkg_version"@) || ends_with(
        name,
        "beyond_pkg_version"@,
    ))
}

/// Whether a file lists what an installation of hk4e holds.
pub fn is_hk4e_pkg_version(target_file_path: &str) -> (r: bool)
    ensures
        r == lists_packages(target_file_path@),
{
    let name = last_part(target_file_path, '/');
    let s = name.as_str();
    *s == *"pkg_version" || *s == *"beyond_pkg_version" || (has_prefix(s, "Audio_") && (has_suffix(
        s,
        "pkg_version",
    ) || has_suffix(s, "beyond_pkg_version")))
}

/// To filter twice is to filter once.
pub proof fn law_filtering_twice_changes_nothing(cache: FilterView, t: TargetView)
    ensures
        after_filter(cache, after_filter(cache, t)) == after_filter(cache, t),
{
}

/// In a directory that holds none of the games that keep records, every file is
/// left as it is.
pub proof fn law_nothing_is_filtered_without_records(records: FilterRecords, t: TargetView)
    requires
        !is_nap(records.game_dir@, records.has_nap_dir),
        !records.has_hkrpg_dir,
        !records.has_hk4e_dir,
    ensures
        !filtered(filter_of(records), t),
        after_filter(filter_of(records), t) == t,
{
}

} // verus!
