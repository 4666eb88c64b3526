//! What a filter comes to: which files a player's records leave out, and which
//! they leave in.

use vstd::prelude::*;
use crate::digest::same_ignoring_case;
use crate::proto_parse::AssetView;
use crate::strings::filled_lines;
use crate::strings::lines_of;
use crate::strings::lowercase_of;
use crate::strings::starts_with;
use crate::strings::substituted;
use crate::text::contains_chars;
use crate::text::find_from;
use crate::text::lemma_find_from;
use crate::text::lower_chars;
use crate::text::matches_at;
use super::asset_filter::after_filter;
use super::asset_filter::blacklist_of;
use super::asset_filter::filled_below;
use super::asset_filter::filter_of;
use super::asset_filter::filtered;
use super::asset_filter::holds_lowered;
use super::asset_filter::ignored_dirs;
use super::asset_filter::is_nap;
use super::asset_filter::langs_from;
use super::asset_filter::listed_name;
use super::asset_filter::lowered_names;
use super::asset_filter::quoted_name;
use super::asset_filter::recorded_langs;
use super::asset_filter::tokens_of;
use super::asset_filter::variant_of;
use super::asset_filter::variants_below;
use super::asset_filter::FilterRecords;
use super::asset_filter::FilterView;
use super::asset_filter::LangFile;
use super::hsr_filter::audio_name;
use super::hsr_filter::audio_names;
use super::hsr_filter::blacklisted;
use super::hsr_filter::counterpart;
use super::hsr_filter::kept_below;
use super::hsr_filter::lowered;
use super::hsr_filter::named_by;
use super::nap_filter;
use super::nap_filter::lang_names;
use super::preinstall_plan::PatchMethod;
use super::preinstall_plan::TargetView;

verus! {

/// One of the texts, in lower case, stands in the path but for the case of ASCII
/// letters.
pub open spec fn path_holds(path: Seq<char>, all: Option<Seq<Seq<char>>>) -> bool {
    all is Some && exists|i: int|
        0 <= i < all->0.len() && contains_chars(lower_chars(path), #[trigger] all->0[i])
}

/// One of the texts is the part of the game, but for the case of ASCII letters.
pub open spec fn field_is(field: Seq<char>, all: Option<Seq<Seq<char>>>) -> bool {
    all is Some && exists|i: int|
        0 <= i < all->0.len() && same_ignoring_case(field, #[trigger] all->0[i])
}

/// A file is skipped where it was before, and where it would have been copied,
/// downloaded or patched and belongs to a removed feature, to the blacklist or to
/// a language that is not installed. Nothing else of it changes, and a file that
/// is removed stays so.
pub proof fn law_removed_features_are_skipped(cache: FilterView, t: TargetView)
    ensures
        after_filter(cache, t).patch_method == PatchMethod::Skip <==> t.patch_method
            == PatchMethod::Skip || (t.patch_method != PatchMethod::Remove && (field_is(
            t.matching_field,
            cache.features,
        ) || path_holds(t.target_file_path, cache.blacklist) || path_holds(
            t.target_file_path,
            cache.dirs,
        ))),
        after_filter(cache, t) == (TargetView {
            patch_method: after_filter(cache, t).patch_method,
            ..t
        }),
        after_filter(cache, t).patch_method == PatchMethod::Skip || after_filter(
            cache,
            t,
        ).patch_method == t.patch_method,
{
    let path = t.target_file_path;
    if path_holds(path, cache.blacklist) {
        let all = cache.blacklist->0;
        let i = choose|i: int|
            0 <= i < all.len() && contains_chars(lower_chars(path), #[trigger] all[i]);
        assert(holds_lowered(path, all[i]));
    }
    if path_holds(path, cache.dirs) {
        let all = cache.dirs->0;
        let i = choose|i: int|
            0 <= i < all.len() && contains_chars(lower_chars(path), #[trigger] all[i]);
        assert(holds_lowered(path, all[i]));
    }
}

/// The directory of a language is left out exactly where the language is not
/// installed, and no other directory is.
pub proof fn law_other_languages_are_left_out(installed: Seq<Seq<char>>, dir: Seq<char>)
    ensures
        ignored_dirs(installed).contains(dir) <==> (dir == "/chinese/"@ && !installed.contains(
            "Chinese"@,
        )) || (dir == "/english(us)/"@ && !installed.contains("English(US)"@)) || (dir
            == "/japanese/"@ && !installed.contains("Japanese"@)) || (dir == "/korean/"@
            && !installed.contains("Korean"@)),
{
    let a = if installed.contains("Chinese"@) {
        Seq::<Seq<char>>::empty()
    } else {
        seq!["/chinese/"@]
    };
    let b = if installed.contains("English(US)"@) {
        a
    } else {
        a.push("/english(us)/"@)
    };
    let c = if installed.contains("Japanese"@) {
        b
    } else {
        b.push("/japanese/"@)
    };
    let d = ignored_dirs(installed);
    assert(a.contains(dir) <==> dir == "/chinese/"@ && !installed.contains("Chinese"@)) by {
        if !installed.contains("Chinese"@) {
            assert(a[0] == "/chinese/"@);
        }
    }
    lemma_pushed(a, "/english(us)/"@, dir);
    lemma_pushed(b, "/japanese/"@, dir);
    lemma_pushed(c, "/korean/"@, dir);
    assert(d == if installed.contains("Korean"@) {
        c
    } else {
        c.push("/korean/"@)
    });
}

proof fn lemma_pushed(s: Seq<Seq<char>>, x: Seq<char>, y: Seq<char>)
    ensures
        s.push(x).contains(y) <==> s.contains(y) || x == y,
{
    let r = s.push(x);
    if s.contains(y) {
        let i = choose|i: int| 0 <= i < s.len() && s[i] == y;
        assert(r[i] == y);
    }
    if x == y {
        assert(r[s.len() as int] == y);
    }
    if r.contains(y) {
        let i = choose|i: int| 0 <= i < r.len() && r[i] == y;
        if i < s.len() {
            assert(s[i] == y);
        }
    }
}

/// The file at `i` is named for a record of languages, could be read, and holds
/// something.
pub open spec fn records_langs(f: LangFile) -> bool {
    starts_with(f.name@, "audio_lang_"@) && f.content is Some && filled_lines(
        f.content->0@,
    ).len() > 0
}

/// The languages of hk4e are those in the first file that records any; where none
/// does, English is installed.
pub proof fn law_the_first_record_counts(files: Seq<LangFile>, i: int)
    requires
        0 <= i <= files.len(),
        forall|j: int| 0 <= j < i ==> !records_langs(#[trigger] files[j]),
    ensures
        i < files.len() && records_langs(files[i]) ==> langs_from(files, 0) == filled_lines(
            files[i].content->0@,
        ),
        i == files.len() ==> langs_from(files, 0) =~= seq!["English(US)"@],
{
    lemma_skipped(files, i, 0);
}

proof fn lemma_skipped(files: Seq<LangFile>, i: int, from: int)
    requires
        0 <= from <= i <= files.len(),
        forall|j: int| 0 <= j < i ==> !records_langs(#[trigger] files[j]),
    ensures
        langs_from(files, from) == langs_from(files, i),
    decreases i - from,
{
    if from < i {
        assert(!records_langs(files[from]));
        assert(recorded_langs(files[from]) is None);
        lemma_skipped(files, i, from + 1);
    }
}

/// The words of a line are those of its pieces that are not empty.
pub proof fn law_words_are_not_empty(parts: Seq<Seq<char>>, n: int, word: Seq<char>)
    requires
        0 <= n <= parts.len(),
    ensures
        filled_below(parts, n).contains(word) <==> word.len() > 0 && exists|i: int|
            0 <= i < n && #[trigger] parts[i] == word,
    decreases n,
{
    if n > 0 {
        law_words_are_not_empty(parts, n - 1, word);
        lemma_pushed(filled_below(parts, n - 1), parts[n - 1], word);
        if filled_below(parts, n - 1).contains(word) {
            let i = choose|i: int| 0 <= i < n - 1 && #[trigger] parts[i] == word;
            assert(parts[i] == word);
        }
    }
}

/// One of the first `n` lines names a file whose name in lower case is `low`.
pub open spec fn line_names(all: Seq<Seq<char>>, n: int, low: Seq<char>) -> bool {
    exists|i: int|
        0 <= i < n && listed_name(#[trigger] all[i]) is Some && lowercase_of(listed_name(all[i])->0)
            == low
}

proof fn lemma_lowered(all: Seq<Seq<char>>, n: int, low: Seq<char>)
    requires
        0 <= n <= all.len(),
    ensures
        lowered_names(all, n).contains(low) <==> line_names(all, n, low),
    decreases n,
{
    if n > 0 {
        lemma_lowered(all, n - 1, low);
        if listed_name(all[n - 1]) is Some {
            lemma_pushed(lowered_names(all, n - 1), lowercase_of(listed_name(all[n - 1])->0), low);
        }
        if line_names(all, n - 1, low) {
            let i = choose|i: int|
                0 <= i < n - 1 && listed_name(#[trigger] all[i]) is Some && lowercase_of(
                    listed_name(all[i])->0,
                ) == low;
            assert(listed_name(all[i]) is Some);
        }
    }
}

proof fn lemma_variants(all: Seq<Seq<char>>, n: int, x: Seq<char>)
    requires
        0 <= n <= all.len(),
    ensures
        variants_below(all, n).contains(x) <==> exists|i: int|
            0 <= i < n && variant_of(#[trigger] all[i]) == Some(x),
    decreases n,
{
    if n > 0 {
        lemma_variants(all, n - 1, x);
        if variant_of(all[n - 1]) is Some {
            lemma_pushed(variants_below(all, n - 1), variant_of(all[n - 1])->0, x);
        }
        if variants_below(all, n - 1).contains(x) {
            let i = choose|i: int| 0 <= i < n - 1 && variant_of(#[trigger] all[i]) == Some(x);
            assert(variant_of(all[i]) == Some(x));
        }
    }
}

/// One of the names has the variant `x`.
pub open spec fn is_variant_of_one(all: Seq<Seq<char>>, x: Seq<char>) -> bool {
    exists|i: int| 0 <= i < all.len() && variant_of(#[trigger] all[i]) == Some(x)
}

/// A blacklist holds the names in the lines, in lower case, and where each of them
/// stands in the other directory, and nothing else; without a name there is none.
pub proof fn law_blacklists_hold_both_places(all: Seq<Seq<char>>, x: Seq<char>)
    ensures
        ({
            let low = lowered_names(all, all.len() as int);
            &&& blacklist_of(low) is None <==> forall|i: int|
                0 <= i < all.len() ==> listed_name(#[trigger] all[i]) is None
            &&& blacklist_of(low) matches Some(list) ==> (list.contains(x) <==> line_names(
                all,
                all.len() as int,
                x,
            ) || is_variant_of_one(low, x))
        }),
{
    let n = all.len() as int;
    let low = lowered_names(all, n);
    lemma_lowered(all, n, x);
    lemma_variants(low, low.len() as int, x);
    let v = variants_below(low, low.len() as int);
    let list = low + v;
    if low.contains(x) {
        let i = choose|i: int| 0 <= i < low.len() && low[i] == x;
        assert(list[i] == x);
    }
    if v.contains(x) {
        let i = choose|i: int| 0 <= i < v.len() && v[i] == x;
        assert(list[low.len() + i] == x);
    }
    if list.contains(x) {
        let i = choose|i: int| 0 <= i < list.len() && list[i] == x;
        if i < low.len() {
            assert(low[i] == x);
        } else {
            assert(v[i - low.len()] == x);
        }
    }
    if low.len() == 0 {
        assert forall|i: int| 0 <= i < n implies listed_name(#[trigger] all[i]) is None by {
            if listed_name(all[i]) is Some {
                let y = lowercase_of(listed_name(all[i])->0);
                lemma_lowered(all, n, y);
                assert(line_names(all, n, y));
                assert(low.contains(y));
            }
        }
    } else {
        let y = low[0];
        assert(low.contains(y));
        lemma_lowered(all, n, y);
        let i = choose|i: int|
            0 <= i < n && listed_name(#[trigger] all[i]) is Some && lowercase_of(
                listed_name(all[i])->0,
            ) == y;
        assert(listed_name(all[i]) is Some);
    }
}

/// A file that a line of the blacklist of hkrpg names is filtered, and so is one in
/// the other directory that may hold it, where the game is there.
pub proof fn law_blacklisted_files_are_filtered(records: FilterRecords, i: int, t: TargetView)
    requires
        records.has_hkrpg_dir,
        records.download_blacklist is Some,
        0 <= i < lines_of(records.download_blacklist->0@).len(),
        listed_name(lines_of(records.download_blacklist->0@)[i]) is Some,
        ({
            let name = lowercase_of(listed_name(lines_of(records.download_blacklist->0@)[i])->0);
            contains_chars(lower_chars(t.target_file_path), name) || (variant_of(name) is Some
                && contains_chars(lower_chars(t.target_file_path), variant_of(name)->0))
        }),
    ensures
        filtered(filter_of(records), t),
{
    let all = lines_of(records.download_blacklist->0@);
    let n = all.len() as int;
    let low = lowered_names(all, n);
    let name = lowercase_of(listed_name(all[i])->0);
    lemma_lowered(all, n, name);
    assert(line_names(all, n, name));
    let j = choose|j: int| 0 <= j < low.len() && low[j] == name;
    let list = low + variants_below(low, low.len() as int);
    assert(filter_of(records).blacklist == Some(list));
    if contains_chars(lower_chars(t.target_file_path), name) {
        assert(list[j] == name);
        assert(holds_lowered(t.target_file_path, list[j]));
    } else {
        let other = variant_of(name)->0;
        lemma_variants(low, low.len() as int, other);
        assert(variant_of(low[j]) == Some(other));
        let v = variants_below(low, low.len() as int);
        let k = choose|k: int| 0 <= k < v.len() && v[k] == other;
        assert(list[low.len() + k] == other);
        assert(holds_lowered(t.target_file_path, list[low.len() + k]));
    }
}

/// A part of nap that the first line of its record names, in any case, is
/// filtered.
pub proof fn law_removed_parts_are_filtered(records: FilterRecords, k: int, t: TargetView)
    requires
        is_nap(records.game_dir@, records.has_nap_dir),
        records.kdel_resource is Some,
        lines_of(records.kdel_resource->0@).len() > 0,
        0 <= k < tokens_of(lines_of(records.kdel_resource->0@)[0]).len(),
        same_ignoring_case(
            t.matching_field,
            tokens_of(lines_of(records.kdel_resource->0@)[0])[k],
        ),
    ensures
        filtered(filter_of(records), t),
{
    let all = tokens_of(lines_of(records.kdel_resource->0@)[0]);
    assert(filter_of(records).features == Some(all));
    assert(same_ignoring_case(t.matching_field, all[k]));
}

/// A line names the text between its first mark of a file name and the next
/// quotation mark.
pub proof fn law_names_stand_between_quotation_marks(
    before: Seq<char>,
    name: Seq<char>,
    behind: Seq<char>,
)
    requires
        !name.contains('"'),
        ({
            let line = before + "\"fileName\":\""@ + name + "\""@ + behind;
            forall|j: int|
                0 <= j < before.len() ==> !#[trigger] matches_at(line, "\"fileName\":\""@, j)
        }),
    ensures
        quoted_name(before + "\"fileName\":\""@ + name + "\""@ + behind) == Some(name),
{
    reveal_strlit("\"fileName\":\"");
    reveal_strlit("\"");
    let mark = "\"fileName\":\""@;
    let quote = "\""@;
    let line = before + mark + name + quote + behind;
    let at = before.len() as int;
    assert(line.subrange(at, at + mark.len()) =~= mark);
    assert(matches_at(line, mark, at));
    lemma_find_from(line, mark, 0);
    assert(find_from(line, mark, 0) == Some(at));
    let start = at + mark.len();
    let end = start + name.len();
    assert(line.subrange(end, end + 1) =~= quote);
    assert(matches_at(line, quote, end));
    lemma_find_from(line, quote, start);
    assert forall|j: int| start <= j < end implies !#[trigger] matches_at(line, quote, j) by {
        if matches_at(line, quote, j) {
            assert(line.subrange(j, j + 1)[0] == '"');
            assert(line[j] == name[j - start]);
            assert(name.contains('"'));
        }
    }
    assert(find_from(line, quote, start) == Some(end));
    assert(line.subrange(start, end) =~= name);
}

/// One of the first `n` lines of the blacklist names the file, or its place in the
/// other directory.
pub open spec fn is_blacklisted(lines: Seq<Seq<char>>, n: int, x: Seq<char>) -> bool {
    exists|i: int|
        0 <= i < n && listed_name(#[trigger] lines[i]) is Some && (listed_name(lines[i]) == Some(x)
            || counterpart(listed_name(lines[i])->0) == Some(x))
}

/// The blacklist of an installation of hkrpg holds exactly the files that its lines
/// name, and their places in the other directory.
pub proof fn law_blacklists_name_files(lines: Seq<Seq<char>>, n: int, x: Seq<char>)
    requires
        0 <= n <= lines.len(),
    ensures
        blacklisted(lines, n).contains(x) <==> is_blacklisted(lines, n, x),
    decreases n,
{
    if n > 0 {
        law_blacklists_name_files(lines, n - 1, x);
        let b = blacklisted(lines, n - 1);
        match listed_name(lines[n - 1]) {
            None => {},
            Some(name) => {
                lemma_pushed(b, name, x);
                match counterpart(name) {
                    None => {},
                    Some(other) => lemma_pushed(b.push(name), other, x),
                }
            },
        }
        if is_blacklisted(lines, n - 1, x) {
            let i = choose|i: int|
                0 <= i < n - 1 && listed_name(#[trigger] lines[i]) is Some && (listed_name(lines[i])
                    == Some(x) || counterpart(listed_name(lines[i])->0) == Some(x));
            assert(listed_name(lines[i]) is Some);
        }
        if listed_name(lines[n - 1]) is Some && (listed_name(lines[n - 1]) == Some(x) || counterpart(
            listed_name(lines[n - 1])->0,
        ) == Some(x)) {
            assert(is_blacklisted(lines, n, x));
        }
    }
}

/// One of the entries, in lower case, stands in the name of the file, in lower
/// case.
pub open spec fn is_listed_in(a: AssetView, entries: Seq<Seq<char>>) -> bool {
    exists|i: int|
        0 <= i < entries.len() && contains_chars(
            lowercase_of(a.name),
            lowercase_of(#[trigger] entries[i]),
        )
}

/// An installation of hkrpg keeps exactly the files that no entry of the blacklist
/// names.
pub proof fn law_blacklisted_files_are_not_installed(
    assets: Seq<AssetView>,
    entries: Seq<Seq<char>>,
    n: int,
    a: AssetView,
)
    requires
        0 <= n <= assets.len(),
    ensures
        kept_below(assets, entries, n).contains(a) <==> !is_listed_in(a, entries) && exists|i: int|
            0 <= i < n && #[trigger] assets[i] == a,
    decreases n,
{
    if n > 0 {
        law_blacklisted_files_are_not_installed(assets, entries, n - 1, a);
        let x = assets[n - 1];
        let b = kept_below(assets, entries, n - 1);
        let r = kept_below(assets, entries, n);
        lemma_named(x, entries);
        if b.contains(a) {
            let i = choose|i: int| 0 <= i < b.len() && b[i] == a;
            assert(r[i] == a);
            let j = choose|j: int| 0 <= j < n - 1 && #[trigger] assets[j] == a;
            assert(assets[j] == a);
        }
        if x == a && !is_listed_in(a, entries) {
            assert(r[b.len() as int] == a);
        }
        if r.contains(a) {
            let i = choose|i: int| 0 <= i < r.len() && r[i] == a;
            if i < b.len() {
                assert(b[i] == a);
            } else {
                assert(assets[n - 1] == a);
            }
        }
    }
}

proof fn lemma_named(a: AssetView, entries: Seq<Seq<char>>)
    ensures
        named_by(lowercase_of(a.name), lowered(entries)) <==> is_listed_in(a, entries),
{
    let low = lowered(entries);
    let name = lowercase_of(a.name);
    if named_by(name, low) {
        let i = choose|i: int| 0 <= i < low.len() && contains_chars(name, #[trigger] low[i]);
        assert(low[i] == lowercase_of(entries[i]));
    }
    if is_listed_in(a, entries) {
        let i = choose|i: int|
            0 <= i < entries.len() && contains_chars(name, lowercase_of(#[trigger] entries[i]));
        assert(low[i] == lowercase_of(entries[i]));
    }
}

/// The record of hkrpg takes the names of exactly those languages that have one.
pub proof fn law_languages_are_recorded(langs: Seq<Seq<char>>, n: int, name: Seq<char>)
    requires
        0 <= n <= langs.len(),
    ensures
        audio_names(langs, n).contains(name) <==> exists|i: int|
            0 <= i < n && audio_name(#[trigger] langs[i]) == Some(name),
    decreases n,
{
    if n > 0 {
        law_languages_are_recorded(langs, n - 1, name);
        if audio_name(langs[n - 1]) is Some {
            lemma_pushed(audio_names(langs, n - 1), audio_name(langs[n - 1])->0, name);
        }
        if audio_names(langs, n - 1).contains(name) {
            let i = choose|i: int| 0 <= i < n - 1 && audio_name(#[trigger] langs[i]) == Some(name);
            assert(audio_name(langs[i]) == Some(name));
        }
    }
}

/// The record of nap for its launcher takes the names of exactly those languages
/// that have one, and its record for the game the short names of the same ones.
pub proof fn law_both_records_agree(langs: Seq<Seq<char>>, n: int, name: Seq<char>)
    requires
        0 <= n <= langs.len(),
    ensures
        lang_names(langs, false, n).contains(name) <==> exists|i: int|
            0 <= i < n && nap_filter::audio_name(#[trigger] langs[i]) == Some(name),
        lang_names(langs, true, n).contains(name) <==> exists|i: int|
            0 <= i < n && nap_filter::short_name(#[trigger] langs[i]) == Some(name),
        lang_names(langs, true, n).len() == lang_names(langs, false, n).len(),
        lang_names(langs, false, n) == audio_names(langs, n),
    decreases n,
{
    if n > 0 {
        law_both_records_agree(langs, n - 1, name);
        let x = langs[n - 1];
        if nap_filter::audio_name(x) is Some {
            lemma_pushed(lang_names(langs, false, n - 1), nap_filter::audio_name(x)->0, name);
        }
        if nap_filter::short_name(x) is Some {
            lemma_pushed(lang_names(langs, true, n - 1), nap_filter::short_name(x)->0, name);
        }
        if lang_names(langs, false, n - 1).contains(name) {
            let i = choose|i: int|
                0 <= i < n - 1 && nap_filter::audio_name(#[trigger] langs[i]) == Some(name);
            assert(nap_filter::audio_name(langs[i]) == Some(name));
        }
        if lang_names(langs, true, n - 1).contains(name) {
            let i = choose|i: int|
                0 <= i < n - 1 && nap_filter::short_name(#[trigger] langs[i]) == Some(name);
            assert(nap_filter::short_name(langs[i]) == Some(name));
        }
    }
}

/// The only place at which `pat` stands in `s` is `at`.
pub open spec fn stands_only_at(s: Seq<char>, pat: Seq<char>, at: int) -> bool {
    matches_at(s, pat, at) && forall|j: int| #[trigger] matches_at(s, pat, j) ==> j == at
}

/// What is replaced at the only place where it stands is replaced there, and all
/// around it stays.
proof fn lemma_substituted(s: Seq<char>, from: Seq<char>, to: Seq<char>, at: int)
    requires
        from.len() > 0,
        stands_only_at(s, from, at),
    ensures
        substituted(s, from, to, 0) == s.take(at) + to + s.skip(at + from.len()),
{
    lemma_find_from(s, from, 0);
    lemma_find_from(s, from, at + from.len());
    assert(find_from(s, from, 0) == Some(at));
    assert(find_from(s, from, at + from.len()) is None);
    assert(substituted(s, from, to, at + from.len()) == s.skip(at + from.len()));
    assert(s.subrange(0, at) =~= s.take(at));
}

/// A file on the blacklist stands in the other of the two directories under the same
/// path but for the name of the directory, and one in neither has no other place.
pub proof fn law_variants_stand_in_the_other_directory(name: Seq<char>, at: int)
    ensures
        stands_only_at(name, "persistent/"@, at) ==> variant_of(name) == Some(
            name.take(at) + "streamingassets/"@ + name.skip(at + 11),
        ),
        stands_only_at(name, "streamingassets/"@, at) && !contains_chars(name, "persistent/"@)
            ==> variant_of(name) == Some(name.take(at) + "persistent/"@ + name.skip(at + 16)),
        variant_of(name) is None <==> !contains_chars(name, "persistent/"@) && !contains_chars(
            name,
            "streamingassets/"@,
        ),
{
    reveal_strlit("persistent/");
    reveal_strlit("streamingassets/");
    lemma_find_from(name, "persistent/"@, 0);
    lemma_find_from(name, "streamingassets/"@, 0);
    if stands_only_at(name, "persistent/"@, at) {
        assert(contains_chars(name, "persistent/"@));
        lemma_substituted(name, "persistent/"@, "streamingassets/"@, at);
    }
    if stands_only_at(name, "streamingassets/"@, at) {
        assert(contains_chars(name, "streamingassets/"@));
        lemma_substituted(name, "streamingassets/"@, "persistent/"@, at);
    }
}

} // verus!
