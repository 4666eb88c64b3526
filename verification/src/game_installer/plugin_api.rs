//! The plugins and channel kits that belong to a game.

use vstd::prelude::*;
use crate::collections::add_name;
use crate::collections::names;
use crate::collections::new_name_set;
use crate::collections::NameSet;
use crate::strings::lowercase;
use crate::strings::lowercase_of;
use crate::text::behind_last;
use crate::text::contains_chars;
use crate::text::copy_text;
use crate::text::has_text;
use crate::text::last_part;
use crate::text::text_of;
use super::api::parse_number;
use super::api::stated_size;
use super::error::ErrorView;
use super::error::SophonError;
use super::error::SophonResult;

verus! {

/// The launcher that asks.
pub const LAUNCHER_ID: &'static str = "VYTpXlbWo8";

/// Where plugins are listed.
pub const PLUGIN_URL: &'static str = "https://sg-hyp-api.hoyoverse.com/hyp/hyp-connect/api/getGamePlugins";

/// Where channel kits are listed.
pub const SDK_URL: &'static str = "https://sg-hyp-api.hoyoverse.com/hyp/hyp-connect/api/getGameChannelSDKs";

/// The identifier of the game with the code `code`.
pub open spec fn game_id(code: Seq<char>) -> Option<Seq<char>> {
    if code == "bh3"@ {
        Some("bxPTXSET5t"@)
    } else if code == "hk4e"@ {
        Some("gopR6Cufr3"@)
    } else if code == "hkrpg"@ {
        Some("4ziysqXOQ8"@)
    } else if code == "nap"@ {
        Some("U5hbdsT9W7"@)
    } else {
        None
    }
}

/// The identifier of the game with the code `code`.
pub fn game_id_for_code(code: &str) -> (r: Option<&'static str>)
    ensures
        match game_id(code@) {
            Some(id) => r matches Some(s) && s@ == id,
            None => r is None,
        },
{
    if *code == *"bh3" {
        Some("bxPTXSET5t")
    } else if *code == *"hk4e" {
        Some("gopR6Cufr3")
    } else if *code == *"hkrpg" {
        Some("4ziysqXOQ8")
    } else if *code == *"nap" {
        Some("U5hbdsT9W7")
    } else {
        None
    }
}

/// The address at which `base` lists what belongs to a game.
pub open spec fn list_address(base: Seq<char>, game: Seq<char>) -> Seq<char> {
    base + "?launcher_id="@ + LAUNCHER_ID@ + "&game_ids[]="@ + game + "&language=en"@
}

fn list_url(base: &str, game_id: &str) -> (r: String)
    ensures
        r@ == list_address(base@, game_id@),
{
    let mut out: String = base.to_owned();
    out.append("?launcher_id=");
    out.append(LAUNCHER_ID);
    out.append("&game_ids[]=");
    out.append(game_id);
    out.append("&language=en");
    out
}

/// The address at which the plugins of a game are listed.
pub fn plugin_list_url(game_id: &str) -> (r: String)
    ensures
        r@ == list_address(PLUGIN_URL@, game_id@),
{
    list_url(PLUGIN_URL, game_id)
}

/// The address at which the channel kits of a game are listed.
pub fn sdk_list_url(game_id: &str) -> (r: String)
    ensures
        r@ == list_address(SDK_URL@, game_id@),
{
    list_url(SDK_URL, game_id)
}

/// A game, by its identifier and its line of business.
#[derive(Debug)]
pub struct GameRef {
    pub id: String,
    pub biz: String,
}

/// A file that a package has to bring.
#[derive(Debug)]
pub struct ValidationEntry {
    pub path: String,
    pub md5: Option<String>,
    pub size: Option<u64>,
}

/// A package to fetch.
#[derive(Debug)]
pub struct PackageData {
    pub url: String,
    pub md5: String,
    pub size: u64,
    pub decompressed_size: u64,
    pub command: Option<String>,
    pub validation: Vec<ValidationEntry>,
    pub pkg_version_file_name: Option<String>,
}

/// A plugin.
#[derive(Debug)]
pub struct PluginPackageInfo {
    pub plugin_id: String,
    pub release_id: String,
    pub version: String,
    pub plugin_pkg: PackageData,
}

/// The plugins that were released together.
#[derive(Debug)]
pub struct PluginRelease {
    pub game: GameRef,
    pub plugins: Vec<PluginPackageInfo>,
}

/// A channel kit.
#[derive(Debug)]
pub struct ChannelSdkData {
    pub game: GameRef,
    pub channel_sdk_pkg: PackageData,
    pub pkg_version_file_name: String,
    pub version: String,
}

/// What a game reference says.
pub ghost struct GameView {
    pub id: Seq<char>,
    pub biz: Seq<char>,
}

/// What is said of a file that a package has to bring.
pub ghost struct EntryView {
    pub path: Seq<char>,
    pub md5: Option<Seq<char>>,
    pub size: Option<u64>,
}

/// What a package says.
pub ghost struct PackageView {
    pub url: Seq<char>,
    pub md5: Seq<char>,
    pub size: u64,
    pub decompressed_size: u64,
    pub command: Option<Seq<char>>,
    pub validation: Seq<EntryView>,
    pub pkg_version_file_name: Option<Seq<char>>,
}

/// What a plugin says.
pub ghost struct PluginView {
    pub plugin_id: Seq<char>,
    pub release_id: Seq<char>,
    pub version: Seq<char>,
    pub plugin_pkg: PackageView,
}

/// What a channel kit says.
pub ghost struct SdkView {
    pub game: GameView,
    pub channel_sdk_pkg: PackageView,
    pub pkg_version_file_name: Seq<char>,
    pub version: Seq<char>,
}

impl View for GameRef {
    type V = GameView;

    open spec fn view(&self) -> GameView {
        GameView { id: self.id@, biz: self.biz@ }
    }
}

impl View for ValidationEntry {
    type V = EntryView;

    open spec fn view(&self) -> EntryView {
        EntryView { path: self.path@, md5: text_of(self.md5), size: self.size }
    }
}

/// What is said of the files that a package has to bring.
pub open spec fn entry_views(v: Seq<ValidationEntry>) -> Seq<EntryView> {
    v.map_values(|e: ValidationEntry| e@)
}

impl View for PackageData {
    type V = PackageView;

    open spec fn view(&self) -> PackageView {
        PackageView {
            url: self.url@,
            md5: self.md5@,
            size: self.size,
            decompressed_size: self.decompressed_size,
            command: text_of(self.command),
            validation: entry_views(self.validation@),
            pkg_version_file_name: text_of(self.pkg_version_file_name),
        }
    }
}

impl View for PluginPackageInfo {
    type V = PluginView;

    open spec fn view(&self) -> PluginView {
        PluginView {
            plugin_id: self.plugin_id@,
            release_id: self.release_id@,
            version: self.version@,
            plugin_pkg: self.plugin_pkg@,
        }
    }
}

impl View for ChannelSdkData {
    type V = SdkView;

    open spec fn view(&self) -> SdkView {
        SdkView {
            game: self.game@,
            channel_sdk_pkg: self.channel_sdk_pkg@,
            pkg_version_file_name: self.pkg_version_file_name@,
            version: self.version@,
        }
    }
}

/// What some plugins say.
pub open spec fn plugin_views(v: Seq<PluginPackageInfo>) -> Seq<PluginView> {
    v.map_values(|p: PluginPackageInfo| p@)
}

/// What some channel kits say.
pub open spec fn sdk_views(v: Seq<ChannelSdkData>) -> Seq<SdkView> {
    v.map_values(|s: ChannelSdkData| s@)
}

impl Clone for GameRef {
    fn clone(&self) -> (r: Self)
        ensures
            r@ == self@,
    {
        GameRef { id: self.id.clone(), biz: self.biz.clone() }
    }
}

impl Clone for ValidationEntry {
    fn clone(&self) -> (r: Self)
        ensures
            r@ == self@,
    {
        ValidationEntry { path: self.path.clone(), md5: copy_text(&self.md5), size: self.size }
    }
}

impl Clone for PackageData {
    fn clone(&self) -> (r: Self)
        ensures
            r@ == self@,
    {
        let mut validation: Vec<ValidationEntry> = Vec::new();
        let mut i: usize = 0;
        while i < self.validation.len()
            invariant
                i <= self.validation@.len(),
                entry_views(validation@) =~= entry_views(self.validation@).take(i as int),
            decreases self.validation@.len() - i,
        {
            let ghost before = entry_views(validation@);
            validation.push(self.validation[i].clone());
            assert(entry_views(validation@) =~= before.push(self.validation[i as int]@));
            i += 1;
        }
        assert(entry_views(validation@) =~= entry_views(self.validation@));
        PackageData {
            url: self.url.clone(),
            md5: self.md5.clone(),
            size: self.size,
            decompressed_size: self.decompressed_size,
            command: copy_text(&self.command),
            validation,
            pkg_version_file_name: copy_text(&self.pkg_version_file_name),
        }
    }
}

impl Clone for PluginPackageInfo {
    fn clone(&self) -> (r: Self)
        ensures
            r@ == self@,
    {
        PluginPackageInfo {
            plugin_id: self.plugin_id.clone(),
            release_id: self.release_id.clone(),
            version: self.version.clone(),
            plugin_pkg: self.plugin_pkg.clone(),
        }
    }
}

impl Clone for ChannelSdkData {
    fn clone(&self) -> (r: Self)
        ensures
            r@ == self@,
    {
        ChannelSdkData {
            game: self.game.clone(),
            channel_sdk_pkg: self.channel_sdk_pkg.clone(),
            pkg_version_file_name: self.pkg_version_file_name.clone(),
            version: self.version.clone(),
        }
    }
}

/// The size that a listing states for a file, where it states one.
pub open spec fn listed_size(text: Option<Seq<char>>) -> Option<Option<u64>> {
    match text {
        None => Some(None),
        Some(t) => if t.len() == 0 {
            Some(None)
        } else {
            match stated_size(t) {
                Some(v) => Some(Some(v)),
                None => None,
            }
        },
    }
}

/// Reads the size of a file in a listing, which may be left out or empty.
pub fn parse_listed_size(text: &Option<String>) -> (r: SophonResult<Option<u64>>)
    ensures
        match listed_size(text_of(*text)) {
            Some(v) => r matches Ok(w) && w == v,
            None => r matches Err(e) && e@ == ErrorView::ApiError(
                0,
                "size is not a decimal number"@,
            ),
        },
{
    match text {
        None => Ok(None),
        Some(t) => if t.as_str().is_empty() {
            Ok(None)
        } else {
            match parse_number(t.as_str()) {
                Some(v) => Ok(Some(v)),
                None => Err(SophonError::ApiError(0, "size is not a decimal number".to_owned())),
            }
        },
    }
}

/// A listing of files says that there are none.
pub open spec fn lists_nothing(raw: Seq<char>) -> bool {
    raw.len() == 0 || raw == "[]"@
}

/// Whether a listing of files says that there are none.
pub fn validation_is_empty(raw: &str) -> (r: bool)
    ensures
        r == lists_nothing(raw@),
{
    raw.is_empty() || *raw == *"[]"
}

/// A file of the name `lower`, which is in lower case, sets up DirectX.
pub open spec fn sets_up_directx(lower: Seq<char>) -> bool {
    contains_chars(lower, "dxsetup"@)
}

/// Whether a file of the name `lower`, which is in lower case, sets up DirectX.
pub fn is_directx_setup(lower: &str) -> (r: bool)
    ensures
        r == sets_up_directx(lower@),
{
    has_text(lower, "dxsetup")
}

/// The package at `url` sets up DirectX.
pub open spec fn fetches_directx(url: Seq<char>) -> bool {
    sets_up_directx(lowercase_of(behind_last(url, '/')))
}

/// Whether the package at `url` sets up DirectX.
pub fn is_directx_url(url: &str) -> (r: bool)
    ensures
        r == fetches_directx(url@),
{
    let name = last_part(url, '/');
    let lower = lowercase(name.as_str());
    is_directx_setup(lower.as_str())
}

/// One of the first `n` plugins has the identifier `id`.
pub open spec fn listed_before(all: Seq<PluginView>, n: int, id: Seq<char>) -> bool {
    exists|j: int| 0 <= j < n && (#[trigger] all[j]).plugin_id == id
}

/// Those of the first `n` plugins that are installed: of several with the same
/// identifier the first, and none that sets up DirectX.
pub open spec fn wanted_plugins(all: Seq<PluginView>, n: int) -> Seq<PluginView>
    decreases n,
{
    if n <= 0 {
        Seq::empty()
    } else {
        let p = all[n - 1];
        if !listed_before(all, n - 1, p.plugin_id) && !fetches_directx(p.plugin_pkg.url) {
            wanted_plugins(all, n - 1).push(p)
        } else {
            wanted_plugins(all, n - 1)
        }
    }
}

/// The plugins of the first `n` releases, one after the other.
pub open spec fn released_plugins(releases: Seq<Seq<PluginView>>, n: int) -> Seq<PluginView>
    decreases n,
{
    if n <= 0 {
        Seq::empty()
    } else {
        released_plugins(releases, n - 1) + releases[n - 1]
    }
}

/// What some releases say.
pub open spec fn release_views(v: Seq<PluginRelease>) -> Seq<Seq<PluginView>> {
    v.map_values(|r: PluginRelease| plugin_views(r.plugins@))
}

/// An answer that lists plugins.
#[derive(Debug)]
pub struct PluginApiResponse {
    pub retcode: i32,
    pub message: String,
    pub plugin_releases: Vec<PluginRelease>,
}

/// An answer that lists channel kits.
#[derive(Debug)]
pub struct SdkApiResponse {
    pub retcode: i32,
    pub message: String,
    pub game_channel_sdks: Vec<ChannelSdkData>,
}

/// The plugins of the releases, one after the other.
pub fn all_plugins(releases: &Vec<PluginRelease>) -> (r: Vec<PluginPackageInfo>)
    ensures
        plugin_views(r@) == released_plugins(release_views(releases@), releases@.len() as int),
{
    let ghost v = release_views(releases@);
    let mut out: Vec<PluginPackageInfo> = Vec::new();
    let mut i: usize = 0;
    assert(plugin_views(out@) =~= released_plugins(v, 0));
    while i < releases.len()
        invariant
            i <= releases@.len(),
            v == release_views(releases@),
            plugin_views(out@) == released_plugins(v, i as int),
        decreases releases@.len() - i,
    {
        let plugins = &releases[i].plugins;
        let ghost head = plugin_views(out@);
        let ghost part = plugin_views(plugins@);
        assert(v[i as int] == part);
        let mut k: usize = 0;
        assert(head + part.take(0) =~= head);
        while k < plugins.len()
            invariant
                k <= plugins@.len(),
                part == plugin_views(plugins@),
                plugin_views(out@) == head + part.take(k as int),
            decreases plugins@.len() - k,
        {
            let ghost before = plugin_views(out@);
            out.push(plugins[k].clone());
            assert(plugin_views(out@) =~= before.push(part[k as int]));
            assert(part.take(k as int + 1) =~= part.take(k as int).push(part[k as int]));
            assert(plugin_views(out@) =~= head + part.take(k as int + 1));
            k += 1;
        }
        assert(part.take(part.len() as int) =~= part);
        i += 1;
    }
    out
}

/// The plugins that are installed, of those that were released.
pub fn select_plugins(all: &Vec<PluginPackageInfo>) -> (r: Vec<PluginPackageInfo>)
    ensures
        plugin_views(r@) == wanted_plugins(plugin_views(all@), all@.len() as int),
{
    let ghost v = plugin_views(all@);
    let mut seen: NameSet = new_name_set();
    let mut out: Vec<PluginPackageInfo> = Vec::new();
    let mut i: usize = 0;
    assert(plugin_views(out@) =~= wanted_plugins(v, 0));
    while i < all.len()
        invariant
            i <= all@.len(),
            v == plugin_views(all@),
            plugin_views(out@) == wanted_plugins(v, i as int),
            forall|id: Seq<char>|
                #[trigger] names(seen).contains(id) == listed_before(v, i as int, id),
        decreases all@.len() - i,
    {
        let p = &all[i];
        assert(v[i as int] == p@);
        let ghost had = names(seen);
        let fresh = add_name(&mut seen, p.plugin_id.clone());
        proof {
            assert forall|id: Seq<char>|
                #[trigger] names(seen).contains(id) == listed_before(v, i as int + 1, id) by {
                assert(had.contains(id) == listed_before(v, i as int, id));
                if listed_before(v, i as int + 1, id) && id != p.plugin_id@ {
                    let j = choose|j: int| 0 <= j < i + 1 && (#[trigger] v[j]).plugin_id == id;
                    assert(j < i);
                }
            }
        }
        if fresh {
            let ghost before = plugin_views(out@);
            if !is_directx_url(p.plugin_pkg.url.as_str()) {
                out.push(p.clone());
                assert(plugin_views(out@) =~= before.push(p@));
            }
        }
        i += 1;
    }
    out
}

/// Reads an answer that lists plugins: what the service refused is an error, and
/// otherwise the plugins that are installed come out, in the order of the answer.
pub fn fetch_plugins(resp: &PluginApiResponse) -> (r: SophonResult<Vec<PluginPackageInfo>>)
    ensures
        if resp.retcode != 0 {
            r matches Err(e) && e@ == ErrorView::ApiError(resp.retcode, resp.message@)
        } else {
            r matches Ok(plugins) && {
                let all = released_plugins(
                    release_views(resp.plugin_releases@),
                    resp.plugin_releases@.len() as int,
                );
                plugin_views(plugins@) == wanted_plugins(all, all.len() as int)
            }
        },
{
    if resp.retcode != 0 {
        return Err(SophonError::ApiError(resp.retcode, resp.message.clone()));
    }
    let all = all_plugins(&resp.plugin_releases);
    Ok(select_plugins(&all))
}

/// Those of the first `n` channel kits that are installed: none that sets up
/// DirectX.
pub open spec fn wanted_sdks(all: Seq<SdkView>, n: int) -> Seq<SdkView>
    decreases n,
{
    if n <= 0 {
        Seq::empty()
    } else if fetches_directx(all[n - 1].channel_sdk_pkg.url) {
        wanted_sdks(all, n - 1)
    } else {
        wanted_sdks(all, n - 1).push(all[n - 1])
    }
}

/// Reads an answer that lists channel kits: what the service refused is an error,
/// and otherwise the kits that are installed come out, in the order of the answer.
pub fn fetch_channel_sdks(resp: &SdkApiResponse) -> (r: SophonResult<Vec<ChannelSdkData>>)
    ensures
        if resp.retcode != 0 {
            r matches Err(e) && e@ == ErrorView::ApiError(resp.retcode, resp.message@)
        } else {
            r matches Ok(sdks) && sdk_views(sdks@) == wanted_sdks(
                sdk_views(resp.game_channel_sdks@),
                resp.game_channel_sdks@.len() as int,
            )
        },
{
    if resp.retcode != 0 {
        return Err(SophonError::ApiError(resp.retcode, resp.message.clone()));
    }
    let all = &resp.game_channel_sdks;
    let ghost v = sdk_views(all@);
    let mut out: Vec<ChannelSdkData> = Vec::new();
    let mut i: usize = 0;
    assert(sdk_views(out@) =~= wanted_sdks(v, 0));
    while i < all.len()
        invariant
            i <= all@.len(),
            v == sdk_views(all@),
            sdk_views(out@) == wanted_sdks(v, i as int),
        decreases all@.len() - i,
    {
        let s = &all[i];
        assert(v[i as int] == s@);
        let ghost before = sdk_views(out@);
        if !is_directx_url(s.channel_sdk_pkg.url.as_str()) {
            out.push(s.clone());
            assert(sdk_views(out@) =~= before.push(s@));
        }
        i += 1;
    }
    Ok(out)
}

/// What is installed was listed, under an identifier that nothing before it has.
proof fn lemma_wanted_is_listed(all: Seq<PluginView>, n: int, k: int)
    requires
        0 <= n <= all.len(),
        0 <= k < wanted_plugins(all, n).len(),
    ensures
        listed_before(all, n, wanted_plugins(all, n)[k].plugin_id),
        !fetches_directx(wanted_plugins(all, n)[k].plugin_pkg.url),
    decreases n,
{
    if n > 0 {
        let head = wanted_plugins(all, n - 1);
        if k < head.len() {
            lemma_wanted_is_listed(all, n - 1, k);
            let id = head[k].plugin_id;
            let j = choose|j: int| 0 <= j < n - 1 && (#[trigger] all[j]).plugin_id == id;
            assert(all[j].plugin_id == id);
        } else {
            assert(all[n - 1].plugin_id == wanted_plugins(all, n)[k].plugin_id);
        }
    }
}

/// No identifier is installed twice, wherever in the answer its duplicates
/// stand, and nothing that is installed sets up DirectX.
pub proof fn law_plugins_are_installed_once(all: Seq<PluginView>, n: int)
    requires
        0 <= n <= all.len(),
    ensures
        forall|i: int, j: int|
            0 <= i < j < wanted_plugins(all, n).len() ==> (#[trigger] wanted_plugins(
                all,
                n,
            )[i]).plugin_id != (#[trigger] wanted_plugins(all, n)[j]).plugin_id,
        forall|i: int|
            0 <= i < wanted_plugins(all, n).len() ==> !fetches_directx(
                (#[trigger] wanted_plugins(all, n)[i]).plugin_pkg.url,
            ),
    decreases n,
{
    let w = wanted_plugins(all, n);
    assert forall|i: int| 0 <= i < w.len() implies !fetches_directx(
        (#[trigger] w[i]).plugin_pkg.url,
    ) by {
        lemma_wanted_is_listed(all, n, i);
    }
    if n > 0 {
        law_plugins_are_installed_once(all, n - 1);
        let head = wanted_plugins(all, n - 1);
        assert forall|i: int, j: int| 0 <= i < j < w.len() implies (#[trigger] w[i]).plugin_id != (
        #[trigger] w[j]).plugin_id by {
            assert(w[i] == head[i]);
            lemma_wanted_is_listed(all, n - 1, i);
            if j < head.len() {
                assert(w[j] == head[j]);
            }
        }
    }
}

/// Of the plugins with one identifier the first in the answer is installed,
/// unless it sets up DirectX.
pub proof fn law_first_release_wins(all: Seq<PluginView>, n: int, k: int)
    requires
        0 <= k < n <= all.len(),
        !listed_before(all, k, all[k].plugin_id),
        !fetches_directx(all[k].plugin_pkg.url),
    ensures
        wanted_plugins(all, n).contains(all[k]),
    decreases n,
{
    let w = wanted_plugins(all, n);
    if k < n - 1 {
        law_first_release_wins(all, n - 1, k);
        let head = wanted_plugins(all, n - 1);
        let i = choose|i: int| 0 <= i < head.len() && head[i] == all[k];
        assert(w[i] == all[k]);
    } else {
        assert(w.last() == all[k]);
    }
}

} // verus!
