//! The shell's data model: tabs, downloads, search engines, the root
//! `BrowserState` aggregate, and the closed message set the reducer accepts.

use vstd::prelude::*;

verus! {

/// The internal scheme prefix for pages the shell renders itself.
pub open spec fn home_scheme() -> Seq<char> {
    "app://"@
}

/// The landing-page URL of a fresh tab.
pub open spec fn home_url() -> Seq<char> {
    "app://home"@
}

/// One navigable unit: a URL, its display title, and a load flag.
#[derive(Clone, Debug, PartialEq)]
pub struct Tab {
    pub id: u32,
    pub title: String,
    pub url: String,
    pub favicon: Option<String>,
    pub is_loading: bool,
}

/// The mathematical value of a [`Tab`]: the same fields with strings as
/// character sequences.
#[verifier::ext_equal]
pub struct AbsTab {
    pub id: u32,
    pub title: Seq<char>,
    pub url: Seq<char>,
    pub favicon: Option<Seq<char>>,
    pub is_loading: bool,
}

impl View for Tab {
    type V = AbsTab;

    open spec fn view(&self) -> AbsTab {
        AbsTab {
            id: self.id,
            title: self.title@,
            url: self.url@,
            favicon: match self.favicon {
                Some(f) => Some(f@),
                None => None,
            },
            is_loading: self.is_loading,
        }
    }
}

/// A finished or in-flight download record; the shell only lists and deletes
/// these.
#[derive(Clone, Debug, PartialEq)]
pub struct Download {
    pub id: u32,
    pub filename: String,
    pub completed: bool,
}

/// The mathematical value of a [`Download`].
#[verifier::ext_equal]
pub struct AbsDownload {
    pub id: u32,
    pub filename: Seq<char>,
    pub completed: bool,
}

impl View for Download {
    type V = AbsDownload;

    open spec fn view(&self) -> AbsDownload {
        AbsDownload { id: self.id, filename: self.filename@, completed: self.completed }
    }
}

/// The closed set of search providers.
#[derive(Clone, Debug, PartialEq)]
pub enum SearchEngine {
    Yahoo,
    Google,
    Bing,
    DuckDuckGo,
    Brave,
}

/// The root aggregate the shell owns and persists.
#[derive(Clone, Debug, PartialEq)]
pub struct BrowserState {
    pub tabs: Vec<Tab>,
    pub active_tab_id: u32,
    pub next_tab_id: u32,
    pub search_engine: SearchEngine,
    pub proxy_server: String,
    pub downloads: Vec<Download>,
    pub history: Vec<String>,
    pub history_index: usize,
}

/// The mathematical value of a [`BrowserState`].
#[verifier::ext_equal]
pub struct AbsState {
    pub tabs: Seq<AbsTab>,
    pub active_tab_id: u32,
    pub next_tab_id: u32,
    pub search_engine: SearchEngine,
    pub proxy_server: Seq<char>,
    pub downloads: Seq<AbsDownload>,
    pub history: Seq<Seq<char>>,
    pub history_index: usize,
}

pub open spec fn abs_tabs(tabs: Seq<Tab>) -> Seq<AbsTab> {
    tabs.map_values(|t: Tab| t@)
}

pub open spec fn abs_downloads(downloads: Seq<Download>) -> Seq<AbsDownload> {
    downloads.map_values(|d: Download| d@)
}

pub open spec fn abs_history(history: Seq<String>) -> Seq<Seq<char>> {
    history.map_values(|s: String| s@)
}

impl View for BrowserState {
    type V = AbsState;

    open spec fn view(&self) -> AbsState {
        AbsState {
            tabs: abs_tabs(self.tabs@),
            active_tab_id: self.active_tab_id,
            next_tab_id: self.next_tab_id,
            search_engine: self.search_engine,
            proxy_server: self.proxy_server@,
            downloads: abs_downloads(self.downloads@),
            history: abs_history(self.history@),
            history_index: self.history_index,
        }
    }
}

/// The index of the first tab with the given id, or `-1` if no tab has it.
pub open spec fn tab_idx_of(tabs: Seq<AbsTab>, id: u32) -> int
    decreases tabs.len(),
{
    if tabs.len() == 0 {
        -1
    } else if tabs[0].id == id {
        0
    } else {
        let r = tab_idx_of(tabs.drop_first(), id);
        if r < 0 {
            -1
        } else {
            r + 1
        }
    }
}

/// Some tab in the sequence has the given id.
pub open spec fn has_tab(tabs: Seq<AbsTab>, id: u32) -> bool {
    tab_idx_of(tabs, id) >= 0
}

/// What `tab_idx_of` returns: the first index with the given id when one
/// exists, `-1` otherwise.
pub proof fn lemma_tab_idx(tabs: Seq<AbsTab>, id: u32)
    ensures
        tab_idx_of(tabs, id) >= -1,
        tab_idx_of(tabs, id) >= 0 ==> tab_idx_of(tabs, id) < tabs.len() && tabs[tab_idx_of(
            tabs,
            id,
        )].id == id && (forall|j: int| 0 <= j < tab_idx_of(tabs, id) ==> tabs[j].id != id),
        tab_idx_of(tabs, id) < 0 ==> (forall|j: int| 0 <= j < tabs.len() ==> tabs[j].id != id),
    decreases tabs.len(),
{
    if tabs.len() > 0 && tabs[0].id != id {
        let d = tabs.drop_first();
        lemma_tab_idx(d, id);
        let r = tab_idx_of(d, id);
        if r >= 0 {
            assert(tabs[r + 1] == d[r]);
            assert forall|j: int| 0 <= j < r + 1 implies tabs[j].id != id by {
                if j > 0 {
                    assert(d[j - 1].id != id);
                    assert(tabs[j] == d[j - 1]);
                }
            }
        } else {
            assert forall|j: int| 0 <= j < tabs.len() implies tabs[j].id != id by {
                if j > 0 {
                    assert(d[j - 1].id != id);
                    assert(tabs[j] == d[j - 1]);
                }
            }
        }
    }
}

/// `tab_idx_of` finds the first occurrence.
pub proof fn lemma_tab_idx_at(tabs: Seq<AbsTab>, id: u32, i: int)
    requires
        0 <= i < tabs.len(),
        tabs[i].id == id,
        forall|j: int| 0 <= j < i ==> tabs[j].id != id,
    ensures
        tab_idx_of(tabs, id) == i,
    decreases i,
{
    if i > 0 {
        lemma_tab_idx_at(tabs.drop_first(), id, i - 1);
    }
}

/// `tab_idx_of` reports absence faithfully.
pub proof fn lemma_tab_idx_none(tabs: Seq<AbsTab>, id: u32)
    requires
        forall|j: int| 0 <= j < tabs.len() ==> tabs[j].id != id,
    ensures
        tab_idx_of(tabs, id) == -1,
    decreases tabs.len(),
{
    if tabs.len() > 0 {
        lemma_tab_idx_none(tabs.drop_first(), id);
    }
}

/// The documented invariant of the root aggregate: at least one tab, the
/// active id present, ids unique, and every id below the allocation counter.
pub open spec fn wf_state(s: AbsState) -> bool {
    &&& s.tabs.len() >= 1
    &&& has_tab(s.tabs, s.active_tab_id)
    &&& forall|i: int, j: int|
        0 <= i < j < s.tabs.len() ==> (#[trigger] s.tabs[i].id) != (#[trigger] s.tabs[j].id)
    &&& forall|i: int| 0 <= i < s.tabs.len() ==> (#[trigger] s.tabs[i].id) < s.next_tab_id
}

/// The fresh "Home" tab with id 0.
pub open spec fn default_tab() -> AbsTab {
    AbsTab { id: 0, title: "Home"@, url: home_url(), favicon: None, is_loading: false }
}

/// The documented default state: one home tab, Google, no proxy, three seed
/// downloads.
pub open spec fn default_state() -> AbsState {
    AbsState {
        tabs: seq![default_tab()],
        active_tab_id: 0,
        next_tab_id: 1,
        search_engine: SearchEngine::Google,
        proxy_server: Seq::empty(),
        downloads: seq![
            AbsDownload { id: 0, filename: "welcome.png"@, completed: true },
            AbsDownload { id: 1, filename: "readme.txt"@, completed: true },
            AbsDownload { id: 2, filename: "setup.exe"@, completed: true },
        ],
        history: Seq::empty(),
        history_index: 0,
    }
}

pub proof fn lemma_default_state_wf()
    ensures
        wf_state(default_state()),
{
    assert(tab_idx_of(default_state().tabs, 0) == 0);
}

impl Default for Tab {
    fn default() -> (t: Tab)
        ensures
            t@ == default_tab(),
    {
        let t = Tab {
            id: 0,
            title: "Home".to_owned(),
            url: "app://home".to_owned(),
            favicon: None,
            is_loading: false,
        };
        proof {
            assert(t@ =~= default_tab());
        }
        t
    }
}

impl Default for SearchEngine {
    fn default() -> (e: SearchEngine)
        ensures
            e == SearchEngine::Google,
    {
        SearchEngine::Google
    }
}

impl Default for BrowserState {
    fn default() -> (s: BrowserState)
        ensures
            s@ == default_state(),
    {
        let mut tabs: Vec<Tab> = Vec::new();
        tabs.push(Tab::default());
        let mut downloads: Vec<Download> = Vec::new();
        downloads.push(Download { id: 0, filename: "welcome.png".to_owned(), completed: true });
        downloads.push(Download { id: 1, filename: "readme.txt".to_owned(), completed: true });
        downloads.push(Download { id: 2, filename: "setup.exe".to_owned(), completed: true });
        let s = BrowserState {
            tabs,
            active_tab_id: 0,
            next_tab_id: 1,
            search_engine: SearchEngine::Google,
            proxy_server: String::new(),
            downloads,
            history: Vec::new(),
            history_index: 0,
        };
        proof {
            assert(abs_tabs(s.tabs@) =~= default_state().tabs);
            assert(abs_downloads(s.downloads@) =~= default_state().downloads);
            assert(abs_history(s.history@) =~= default_state().history);
            assert(s@ =~= default_state());
        }
        s
    }
}

/// The closed set of user intents the reducer accepts.
pub enum Msg {
    NewTab,
    CloseTab(u32),
    SelectTab(u32),
    Navigate(String),
    GoBack,
    GoForward,
    Reload,
    GoHome,
    UpdateUrlBar(String),
    SetSearchEngine(SearchEngine),
    SetProxyServer(String),
    ToggleSettingsPanel,
    ToggleDownloadsPanel,
    DeleteDownload(u32),
    OpenDownloadFolder(u32),
    DragStart(u32),
    DragOver(u32),
    DragEnd,
    CloseAllPanels,
    NoOp,
}

} // verus!
