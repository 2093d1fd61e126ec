//! The shell reducer: the single entry point that turns one user intent into
//! the next application state, plus the ephemeral UI state around the
//! persisted `BrowserState`.

use crate::model::abs_downloads;
use crate::model::abs_tabs;
use crate::model::has_tab;
use crate::model::home_url;
use crate::model::lemma_tab_idx;
use crate::model::lemma_tab_idx_at;
use crate::model::lemma_tab_idx_none;
use crate::model::tab_idx_of;
use crate::model::wf_state;
use crate::model::AbsDownload;
use crate::model::AbsState;
use crate::model::AbsTab;
use crate::model::BrowserState;
use crate::model::Download;
use crate::model::Msg;
use crate::model::SearchEngine;
use crate::model::Tab;
use crate::resolver::resolve;
use crate::resolver::title_for;
use crate::resolver::percent_encode;
use crate::resolver::percent_encode_str;
use crate::text::str_eq;
use vstd::prelude::*;
use vstd::string::StrSliceExecFns;
use vstd::string::StringExecFns;

verus! {

/// The whole application: the persisted state plus ephemeral UI state that
/// is reset on restart.
pub struct App {
    pub state: BrowserState,
    pub url_input: String,
    pub show_settings: bool,
    pub show_downloads: bool,
    pub dragging_tab: Option<u32>,
}

/// The mathematical value of an [`App`].
#[verifier::ext_equal]
pub struct AbsApp {
    pub state: AbsState,
    pub url_input: Seq<char>,
    pub show_settings: bool,
    pub show_downloads: bool,
    pub dragging_tab: Option<u32>,
}

impl View for App {
    type V = AbsApp;

    open spec fn view(&self) -> AbsApp {
        AbsApp {
            state: self.state@,
            url_input: self.url_input@,
            show_settings: self.show_settings,
            show_downloads: self.show_downloads,
            dragging_tab: self.dragging_tab,
        }
    }
}

/// What the URL bar shows for a tab's URL: nothing for the home page, the
/// URL itself otherwise.
pub open spec fn display_url(url: Seq<char>) -> Seq<char> {
    if url == home_url() {
        Seq::empty()
    } else {
        url
    }
}

/// The URL bar's initial text: the active tab's display URL, or empty when
/// no tab matches the active id.
pub open spec fn initial_input(s: AbsState) -> Seq<char> {
    let i = tab_idx_of(s.tabs, s.active_tab_id);
    if i >= 0 {
        display_url(s.tabs[i].url)
    } else {
        Seq::empty()
    }
}

/// Open a fresh home tab, make it active, advance the id counter.
pub open spec fn st_new_tab(s: AbsState) -> AbsState {
    AbsState {
        tabs: s.tabs.push(
            AbsTab {
                id: s.next_tab_id,
                title: "Home"@,
                url: home_url(),
                favicon: None,
                is_loading: false,
            },
        ),
        active_tab_id: s.next_tab_id,
        next_tab_id: (s.next_tab_id + 1) as u32,
        ..s
    }
}

/// Close a tab: a no-op when it is the sole tab or the id is unknown;
/// otherwise remove it, and when it was active, activate its left neighbour
/// (the new first tab when it was first).
pub open spec fn st_close_tab(s: AbsState, id: u32) -> AbsState {
    if s.tabs.len() <= 1 {
        s
    } else {
        let i = tab_idx_of(s.tabs, id);
        if i < 0 {
            s
        } else {
            let tabs2 = s.tabs.remove(i);
            let active = if s.active_tab_id == id {
                tabs2[if i > 0 {
                    i - 1
                } else {
                    0
                }].id
            } else {
                s.active_tab_id
            };
            AbsState { tabs: tabs2, active_tab_id: active, ..s }
        }
    }
}

/// Resolve the input against the current engine and load it in the active
/// tab.
pub open spec fn st_navigate(s: AbsState, input: Seq<char>) -> AbsState {
    let u = resolve(input, s.search_engine);
    let i = tab_idx_of(s.tabs, s.active_tab_id);
    if i < 0 {
        s
    } else {
        AbsState {
            tabs: s.tabs.update(
                i,
                AbsTab { url: u, title: title_for(u), is_loading: true, ..s.tabs[i] },
            ),
            ..s
        }
    }
}

/// Mark the active tab as loading again.
pub open spec fn st_reload(s: AbsState) -> AbsState {
    let i = tab_idx_of(s.tabs, s.active_tab_id);
    if i < 0 {
        s
    } else {
        AbsState { tabs: s.tabs.update(i, AbsTab { is_loading: true, ..s.tabs[i] }), ..s }
    }
}

/// Return the active tab to the home page.
pub open spec fn st_go_home(s: AbsState) -> AbsState {
    let i = tab_idx_of(s.tabs, s.active_tab_id);
    if i < 0 {
        s
    } else {
        AbsState {
            tabs: s.tabs.update(
                i,
                AbsTab { url: home_url(), title: "Home"@, is_loading: false, ..s.tabs[i] },
            ),
            ..s
        }
    }
}

/// The downloads that survive deleting the given id.
pub open spec fn keep_downloads(ds: Seq<AbsDownload>, id: u32) -> Seq<AbsDownload> {
    ds.filter(|d: AbsDownload| d.id != id)
}

/// Move the dragged tab to the drop target's current position; a no-op when
/// the ids are equal or either is unknown.
pub open spec fn st_reorder(s: AbsState, drag_id: u32, target_id: u32) -> AbsState {
    if drag_id == target_id {
        s
    } else {
        let fi = tab_idx_of(s.tabs, drag_id);
        let ti = tab_idx_of(s.tabs, target_id);
        if fi >= 0 && ti >= 0 {
            AbsState { tabs: s.tabs.remove(fi).insert(ti, s.tabs[fi]), ..s }
        } else {
            s
        }
    }
}

/// Close a tab and, when the active tab went away, sync the URL bar to the
/// newly active tab.
pub open spec fn app_close_tab(a: AbsApp, id: u32) -> AbsApp {
    let s2 = st_close_tab(a.state, id);
    let i = tab_idx_of(a.state.tabs, id);
    let ui = if a.state.tabs.len() > 1 && i >= 0 && a.state.active_tab_id == id {
        display_url(s2.tabs[tab_idx_of(s2.tabs, s2.active_tab_id)].url)
    } else {
        a.url_input
    };
    AbsApp { state: s2, url_input: ui, ..a }
}

/// Activate a tab and show its URL; ignored when the id is unknown.
pub open spec fn app_select_tab(a: AbsApp, id: u32) -> AbsApp {
    let i = tab_idx_of(a.state.tabs, id);
    if i < 0 {
        a
    } else {
        AbsApp {
            state: AbsState { active_tab_id: id, ..a.state },
            url_input: display_url(a.state.tabs[i].url),
            ..a
        }
    }
}

/// One reducer step: the next application state for a message.
pub open spec fn spec_update(a: AbsApp, msg: Msg) -> AbsApp {
    match msg {
        Msg::NewTab => AbsApp { state: st_new_tab(a.state), url_input: Seq::empty(), ..a },
        Msg::CloseTab(id) => app_close_tab(a, id),
        Msg::SelectTab(id) => app_select_tab(a, id),
        Msg::Navigate(input) => AbsApp {
            state: st_navigate(a.state, input@),
            url_input: resolve(input@, a.state.search_engine),
            ..a
        },
        Msg::GoBack => a,
        Msg::GoForward => a,
        Msg::Reload => AbsApp { state: st_reload(a.state), ..a },
        Msg::GoHome => AbsApp { state: st_go_home(a.state), url_input: Seq::empty(), ..a },
        Msg::UpdateUrlBar(v) => AbsApp { url_input: v@, ..a },
        Msg::SetSearchEngine(e) => AbsApp { state: AbsState { search_engine: e, ..a.state }, ..a },
        Msg::SetProxyServer(p) => AbsApp {
            state: AbsState { proxy_server: p@, ..a.state },
            ..a
        },
        Msg::ToggleSettingsPanel => AbsApp {
            show_settings: !a.show_settings,
            show_downloads: false,
            ..a
        },
        Msg::ToggleDownloadsPanel => AbsApp {
            show_downloads: !a.show_downloads,
            show_settings: false,
            ..a
        },
        Msg::DeleteDownload(id) => AbsApp {
            state: AbsState { downloads: keep_downloads(a.state.downloads, id), ..a.state },
            ..a
        },
        Msg::OpenDownloadFolder(_) => a,
        Msg::DragStart(id) => AbsApp { dragging_tab: Some(id), ..a },
        Msg::DragOver(target_id) => match a.dragging_tab {
            Some(drag_id) => AbsApp { state: st_reorder(a.state, drag_id, target_id), ..a },
            None => a,
        },
        Msg::DragEnd => AbsApp { dragging_tab: None, ..a },
        Msg::CloseAllPanels => AbsApp { show_settings: false, show_downloads: false, ..a },
        Msg::NoOp => a,
    }
}

/// Which messages are followed by a persistence write: exactly those that
/// mutate the persisted `BrowserState` (closing is only attempted when more
/// than one tab is open).
pub open spec fn persists(a: AbsApp, msg: Msg) -> bool {
    match msg {
        Msg::NewTab => true,
        Msg::CloseTab(_) => a.state.tabs.len() > 1,
        Msg::SelectTab(_) => true,
        Msg::Navigate(_) => true,
        Msg::GoHome => true,
        Msg::SetSearchEngine(_) => true,
        Msg::SetProxyServer(_) => true,
        Msg::DeleteDownload(_) => true,
        Msg::DragEnd => true,
        _ => false,
    }
}

/// The first index holding the given tab id, if any.
pub fn find_tab_index(tabs: &Vec<Tab>, id: u32) -> (r: Option<usize>)
    ensures
        match r {
            Some(i) => i < tabs@.len() && tab_idx_of(abs_tabs(tabs@), id) == i as int && abs_tabs(
                tabs@,
            )[i as int].id == id,
            None => tab_idx_of(abs_tabs(tabs@), id) == -1,
        },
{
    let n = tabs.len();
    let mut i: usize = 0;
    while i < n
        invariant
            n == tabs@.len(),
            i <= n,
            forall|j: int| 0 <= j < i ==> abs_tabs(tabs@)[j].id != id,
        decreases n - i,
    {
        if tabs[i].id == id {
            proof {
                assert(abs_tabs(tabs@)[i as int].id == id);
                lemma_tab_idx_at(abs_tabs(tabs@), id, i as int);
            }
            return Some(i);
        }
        proof {
            assert(abs_tabs(tabs@)[i as int].id != id);
        }
        i = i + 1;
    }
    proof {
        lemma_tab_idx_none(abs_tabs(tabs@), id);
    }
    None
}

/// The URL bar text for a tab URL: empty for the home page.
pub fn display_url_of(url: &String) -> (r: String)
    ensures
        r@ == display_url(url@),
{
    if str_eq(url.as_str(), "app://home") {
        String::new()
    } else {
        url.clone()
    }
}

/// The downloads vector without the entry of the given id.
fn remove_download(ds: &Vec<Download>, id: u32) -> (r: Vec<Download>)
    ensures
        abs_downloads(r@) == keep_downloads(abs_downloads(ds@), id),
{
    let n = ds.len();
    let mut kept: Vec<Download> = Vec::new();
    let mut i: usize = 0;
    proof {
        reveal(Seq::filter);
        assert(abs_downloads(ds@.take(0)) =~= Seq::<AbsDownload>::empty());
        assert(abs_downloads(kept@) =~= keep_downloads(abs_downloads(ds@.take(0)), id));
    }
    while i < n
        invariant
            n == ds@.len(),
            i <= n,
            abs_downloads(kept@) == keep_downloads(abs_downloads(ds@.take(i as int)), id),
        decreases n - i,
    {
        let keep = ds[i].id != id;
        if keep {
            let d = Download {
                id: ds[i].id,
                filename: ds[i].filename.clone(),
                completed: ds[i].completed,
            };
            proof {
                assert(d@ =~= ds@[i as int]@);
            }
            kept.push(d);
        }
        proof {
            reveal(Seq::filter);
            let pre = abs_downloads(ds@.take(i as int));
            let now = abs_downloads(ds@.take(i + 1));
            assert(now.drop_last() =~= pre);
            assert(now.last() =~= ds@[i as int]@);
            assert(abs_downloads(kept@) =~= keep_downloads(now, id));
        }
        i = i + 1;
    }
    proof {
        assert(ds@.take(n as int) =~= ds@);
    }
    kept
}

/// Tab sequences with the same ids at the same positions index the same.
proof fn lemma_tab_idx_same_ids(t1: Seq<AbsTab>, t2: Seq<AbsTab>, id: u32)
    requires
        t1.len() == t2.len(),
        forall|j: int| 0 <= j < t1.len() ==> t1[j].id == t2[j].id,
    ensures
        tab_idx_of(t1, id) == tab_idx_of(t2, id),
    decreases t1.len(),
{
    if t1.len() > 0 {
        lemma_tab_idx_same_ids(t1.drop_first(), t2.drop_first(), id);
    }
}

/// An id that occurs in the sequence is found.
proof fn lemma_has_tab_at(tabs: Seq<AbsTab>, k: int)
    requires
        0 <= k < tabs.len(),
    ensures
        has_tab(tabs, tabs[k].id),
{
    lemma_tab_idx(tabs, tabs[k].id);
}

/// One reducer step preserves the state invariant.
pub proof fn lemma_step_wf(a: AbsApp, msg: Msg)
    requires
        wf_state(a.state),
        msg is NewTab ==> a.state.next_tab_id < u32::MAX,
    ensures
        wf_state(spec_update(a, msg).state),
{
    let s = a.state;
    lemma_tab_idx(s.tabs, s.active_tab_id);
    match msg {
        Msg::NewTab => {
            let s2 = st_new_tab(s);
            lemma_has_tab_at(s2.tabs, s.tabs.len() as int);
        },
        Msg::CloseTab(id) => {
            lemma_close_wf(s, id);
        },
        Msg::SelectTab(id) => {
            lemma_tab_idx(s.tabs, id);
        },
        Msg::Navigate(input) => {
            let s2 = st_navigate(s, input@);
            lemma_tab_idx_same_ids(s.tabs, s2.tabs, s.active_tab_id);
        },
        Msg::Reload => {
            let s2 = st_reload(s);
            lemma_tab_idx_same_ids(s.tabs, s2.tabs, s.active_tab_id);
        },
        Msg::GoHome => {
            let s2 = st_go_home(s);
            lemma_tab_idx_same_ids(s.tabs, s2.tabs, s.active_tab_id);
        },
        Msg::DragOver(target_id) => {
            if a.dragging_tab is Some {
                lemma_reorder_wf(s, a.dragging_tab->0, target_id);
            }
        },
        _ => {},
    }
}

/// Closing a tab preserves the state invariant.
proof fn lemma_close_wf(s: AbsState, id: u32)
    requires
        wf_state(s),
    ensures
        wf_state(st_close_tab(s, id)),
{
    lemma_tab_idx(s.tabs, id);
    lemma_tab_idx(s.tabs, s.active_tab_id);
    if s.tabs.len() > 1 && tab_idx_of(s.tabs, id) >= 0 {
        let i = tab_idx_of(s.tabs, id);
        let tabs2 = s.tabs.remove(i);
        assert(forall|j: int| 0 <= j < i ==> tabs2[j] == s.tabs[j]);
        assert(forall|j: int| i <= j < tabs2.len() ==> tabs2[j] == s.tabs[j + 1]);
        if s.active_tab_id == id {
            let ni = if i > 0 {
                i - 1
            } else {
                0
            };
            lemma_has_tab_at(tabs2, ni);
        } else {
            let k = tab_idx_of(s.tabs, s.active_tab_id);
            if k < i {
                lemma_has_tab_at(tabs2, k);
            } else {
                assert(s.tabs[k].id != id);
                assert(k != i);
                assert(tabs2[k - 1].id == s.active_tab_id);
                lemma_has_tab_at(tabs2, k - 1);
            }
        }
    }
}

/// Reordering tabs preserves the state invariant.
proof fn lemma_reorder_wf(s: AbsState, drag_id: u32, target_id: u32)
    requires
        wf_state(s),
    ensures
        wf_state(st_reorder(s, drag_id, target_id)),
{
    if drag_id != target_id {
        lemma_tab_idx(s.tabs, drag_id);
        lemma_tab_idx(s.tabs, target_id);
        lemma_tab_idx(s.tabs, s.active_tab_id);
        let fi = tab_idx_of(s.tabs, drag_id);
        let ti = tab_idx_of(s.tabs, target_id);
        if fi >= 0 && ti >= 0 {
            let x = s.tabs[fi];
            let tm = s.tabs.remove(fi);
            let t2 = tm.insert(ti, x);
            assert(forall|j: int| 0 <= j < fi ==> tm[j] == s.tabs[j]);
            assert(forall|j: int| fi <= j < tm.len() ==> tm[j] == s.tabs[j + 1]);
            assert(forall|j: int| 0 <= j < ti ==> t2[j] == tm[j]);
            assert(t2[ti] == x);
            assert(forall|j: int| ti < j < t2.len() ==> t2[j] == tm[j - 1]);
            // ids stay unique: distinct positions of t2 come from distinct
            // positions of s.tabs
            assert forall|j1: int, j2: int|
                0 <= j1 < j2 < t2.len() implies t2[j1].id != t2[j2].id by {
                let k1 = reorder_src(fi, ti, j1);
                let k2 = reorder_src(fi, ti, j2);
                assert(t2[j1] == s.tabs[k1]);
                assert(t2[j2] == s.tabs[k2]);
                assert(k1 != k2);
            }
            let k = tab_idx_of(s.tabs, s.active_tab_id);
            let jk = reorder_dst(fi, ti, k);
            assert(t2[jk] == s.tabs[k]);
            lemma_has_tab_at(t2, jk);
            assert(forall|j: int|
                0 <= j < t2.len() ==> (#[trigger] t2[j]).id < s.next_tab_id);
        }
    }
}

/// The index of `s.tabs` that position `j` of the reordered sequence came
/// from.
spec fn reorder_src(fi: int, ti: int, j: int) -> int {
    if j == ti {
        fi
    } else {
        let jm = if j < ti {
            j
        } else {
            j - 1
        };
        if jm < fi {
            jm
        } else {
            jm + 1
        }
    }
}

/// The position that index `k` of `s.tabs` moved to in the reordered
/// sequence.
spec fn reorder_dst(fi: int, ti: int, k: int) -> int {
    if k == fi {
        ti
    } else {
        let km = if k < fi {
            k
        } else {
            k - 1
        };
        if km < ti {
            km
        } else {
            km + 1
        }
    }
}

impl App {
    /// Build the application around a loaded state, with all ephemeral UI
    /// state reset.
    pub fn create(state: BrowserState) -> (app: App)
        ensures
            app@ == (AbsApp {
                state: state@,
                url_input: initial_input(state@),
                show_settings: false,
                show_downloads: false,
                dragging_tab: None,
            }),
    {
        let idx_opt = find_tab_index(&state.tabs, state.active_tab_id);
        let url_input = match idx_opt {
            Some(idx) => display_url_of(&state.tabs[idx].url),
            None => String::new(),
        };
        let app = App {
            state,
            url_input,
            show_settings: false,
            show_downloads: false,
            dragging_tab: None,
        };
        proof {
            assert(app@ =~~= (AbsApp {
                state: app.state@,
                url_input: initial_input(app.state@),
                show_settings: false,
                show_downloads: false,
                dragging_tab: None,
            }));
        }
        app
    }

    /// The canonical navigable URL for raw URL-bar input, using the state's
    /// current search engine.
    pub fn process_url(&self, input: &str) -> (r: String)
        ensures
            r@ == resolve(input@, self.state.search_engine),
    {
        let t = crate::text::trim_str(input);
        if crate::text::str_starts_with(t.as_str(), "http://") || crate::text::str_starts_with(
            t.as_str(),
            "https://",
        ) || crate::text::str_starts_with(t.as_str(), "app://") {
            t
        } else if crate::text::str_contains_char(t.as_str(), '.')
            && !crate::resolver::str_has_space(t.as_str()) {
            let mut r: String = "https://".to_owned();
            r.append(t.as_str());
            r
        } else {
            self.state.search_engine.get_search_url(t.as_str())
        }
    }

    /// The display title for a URL.
    pub fn get_title_from_url(url: &str) -> (r: String)
        ensures
            r@ == title_for(url@),
    {
        if crate::text::str_starts_with(url, "app://") {
            return "Home".to_owned();
        }
        let stripped: &str = if crate::text::str_starts_with(url, "https://") {
            proof {
                reveal_strlit("https://");
            }
            url.substring_char(8, url.unicode_len())
        } else if crate::text::str_starts_with(url, "http://") {
            proof {
                reveal_strlit("http://");
            }
            url.substring_char(7, url.unicode_len())
        } else {
            url
        };
        proof {
            assert(stripped@ =~= crate::resolver::strip_web_scheme(url@));
        }
        let host = crate::resolver::host_of(stripped);
        if host.as_str().unicode_len() == 0 {
            "New Tab".to_owned()
        } else {
            host
        }
    }

    /// The URL handed to the content viewer: the resolved URL itself, or the
    /// proxy with the URL as an encoded query parameter.
    pub fn get_proxied_url(&self, url: &str) -> (r: String)
        ensures
            r@ == crate::resolver::proxied(self.state.proxy_server@, url@),
    {
        if self.state.proxy_server.as_str().unicode_len() == 0 {
            url.to_owned()
        } else {
            let mut r = self.state.proxy_server.clone();
            r.append("?url=");
            let encoded = percent_encode_str(url);
            r.append(encoded.as_str());
            proof {
                assert(r@ =~= self.state.proxy_server@ + "?url="@ + percent_encode(url@));
            }
            r
        }
    }

    /// Whether a persistence write follows this message.
    pub fn should_persist(&self, msg: &Msg) -> (r: bool)
        ensures
            r == persists(self@, *msg),
    {
        match msg {
            Msg::NewTab => true,
            Msg::CloseTab(_) => self.state.tabs.len() > 1,
            Msg::SelectTab(_) => true,
            Msg::Navigate(_) => true,
            Msg::GoHome => true,
            Msg::SetSearchEngine(_) => true,
            Msg::SetProxyServer(_) => true,
            Msg::DeleteDownload(_) => true,
            Msg::DragEnd => true,
            _ => false,
        }
    }

    /// One reducer step: apply a message to the application state and report
    /// whether the view must redraw.
    #[verifier::rlimit(100)]
    pub fn update(&mut self, msg: Msg) -> (redraw: bool)
        requires
            wf_state(old(self)@.state),
            msg is NewTab ==> old(self).state.next_tab_id < u32::MAX,
        ensures
            final(self)@ == spec_update(old(self)@, msg),
            wf_state(final(self)@.state),
            redraw == !(msg is NoOp),
    {
        let ghost m = msg;
        let redraw = match msg {
            Msg::NewTab => {
                let new_tab = Tab {
                    id: self.state.next_tab_id,
                    title: "Home".to_owned(),
                    url: "app://home".to_owned(),
                    favicon: None,
                    is_loading: false,
                };
                self.state.tabs.push(new_tab);
                self.state.active_tab_id = self.state.next_tab_id;
                self.state.next_tab_id = self.state.next_tab_id + 1;
                self.url_input = String::new();
                proof {
                    assert(abs_tabs(self.state.tabs@) =~= st_new_tab(old(self)@.state).tabs);
                    assert(self@ =~~= spec_update(old(self)@, m));
                }
                true
            },
            Msg::CloseTab(id) => {
                if self.state.tabs.len() > 1 {
                    let idx_opt = find_tab_index(&self.state.tabs, id);
                    if let Some(idx) = idx_opt {
                        self.state.tabs.remove(idx);
                        proof {
                            assert(abs_tabs(self.state.tabs@) =~= abs_tabs(
                                old(self).state.tabs@,
                            ).remove(idx as int));
                        }
                        if self.state.active_tab_id == id {
                            let new_idx = if idx > 0 {
                                idx - 1
                            } else {
                                0
                            };
                            proof {
                                lemma_tab_idx(abs_tabs(old(self).state.tabs@), id);
                            }
                            self.state.active_tab_id = self.state.tabs[new_idx].id;
                            self.url_input = display_url_of(&self.state.tabs[new_idx].url);
                            proof {
                                let s2 = st_close_tab(old(self)@.state, id);
                                lemma_has_tab_at(s2.tabs, new_idx as int);
                                lemma_tab_idx(s2.tabs, s2.active_tab_id);
                                lemma_close_wf(old(self)@.state, id);
                                let j = tab_idx_of(s2.tabs, s2.active_tab_id);
                                assert(s2.tabs[j].id == s2.tabs[new_idx as int].id);
                                assert(j == new_idx as int);
                            }
                        }
                    }
                }
                proof {
                    assert(self@ =~~= spec_update(old(self)@, m));
                }
                true
            },
            Msg::SelectTab(id) => {
                let idx_opt = find_tab_index(&self.state.tabs, id);
                if let Some(idx) = idx_opt {
                    self.state.active_tab_id = id;
                    self.url_input = display_url_of(&self.state.tabs[idx].url);
                }
                proof {
                    assert(self@ =~~= spec_update(old(self)@, m));
                }
                true
            },
            Msg::Navigate(url) => {
                let final_url = self.process_url(url.as_str());
                let title = App::get_title_from_url(final_url.as_str());
                let idx_opt = find_tab_index(&self.state.tabs, self.state.active_tab_id);
                if let Some(idx) = idx_opt {
                    let mut t = self.state.tabs.remove(idx);
                    t.url = final_url.clone();
                    t.title = title;
                    t.is_loading = true;
                    self.state.tabs.insert(idx, t);
                    proof {
                        assert(abs_tabs(self.state.tabs@) =~= st_navigate(
                            old(self)@.state,
                            url@,
                        ).tabs);
                    }
                }
                self.url_input = final_url;
                proof {
                    assert(self@ =~~= spec_update(old(self)@, m));
                }
                true
            },
            Msg::GoBack => {
                true
            },
            Msg::GoForward => {
                true
            },
            Msg::Reload => {
                let idx_opt = find_tab_index(&self.state.tabs, self.state.active_tab_id);
                if let Some(idx) = idx_opt {
                    let mut t = self.state.tabs.remove(idx);
                    t.is_loading = true;
                    self.state.tabs.insert(idx, t);
                    proof {
                        assert(abs_tabs(self.state.tabs@) =~= st_reload(old(self)@.state).tabs);
                    }
                }
                proof {
                    assert(self@ =~~= spec_update(old(self)@, m));
                }
                true
            },
            Msg::GoHome => {
                let idx_opt = find_tab_index(&self.state.tabs, self.state.active_tab_id);
                if let Some(idx) = idx_opt {
                    let mut t = self.state.tabs.remove(idx);
                    t.url = "app://home".to_owned();
                    t.title = "Home".to_owned();
                    t.is_loading = false;
                    self.state.tabs.insert(idx, t);
                    proof {
                        assert(abs_tabs(self.state.tabs@) =~= st_go_home(old(self)@.state).tabs);
                    }
                }
                self.url_input = String::new();
                proof {
                    assert(self@ =~~= spec_update(old(self)@, m));
                }
                true
            },
            Msg::UpdateUrlBar(value) => {
                self.url_input = value;
                proof {
                    assert(self@ =~~= spec_update(old(self)@, m));
                }
                true
            },
            Msg::SetSearchEngine(engine) => {
                self.state.search_engine = engine;
                proof {
                    assert(self@ =~~= spec_update(old(self)@, m));
                }
                true
            },
            Msg::SetProxyServer(proxy) => {
                self.state.proxy_server = proxy;
                proof {
                    assert(self@ =~~= spec_update(old(self)@, m));
                }
                true
            },
            Msg::ToggleSettingsPanel => {
                self.show_settings = !self.show_settings;
                self.show_downloads = false;
                proof {
                    assert(self@ =~~= spec_update(old(self)@, m));
                }
                true
            },
            Msg::ToggleDownloadsPanel => {
                self.show_downloads = !self.show_downloads;
                self.show_settings = false;
                proof {
                    assert(self@ =~~= spec_update(old(self)@, m));
                }
                true
            },
            Msg::DeleteDownload(id) => {
                let kept = remove_download(&self.state.downloads, id);
                self.state.downloads = kept;
                proof {
                    assert(self@ =~~= spec_update(old(self)@, m));
                }
                true
            },
            Msg::OpenDownloadFolder(_id) => {
                true
            },
            Msg::DragStart(id) => {
                self.dragging_tab = Some(id);
                proof {
                    assert(self@ =~~= spec_update(old(self)@, m));
                }
                true
            },
            Msg::DragOver(target_id) => {
                if let Some(drag_id) = self.dragging_tab {
                    if drag_id != target_id {
                        let from_opt = find_tab_index(&self.state.tabs, drag_id);
                        let to_opt = find_tab_index(&self.state.tabs, target_id);
                        if let Some(from) = from_opt {
                            if let Some(to) = to_opt {
                                let t = self.state.tabs.remove(from);
                                self.state.tabs.insert(to, t);
                                proof {
                                    assert(abs_tabs(self.state.tabs@) =~= st_reorder(
                                        old(self)@.state,
                                        drag_id,
                                        target_id,
                                    ).tabs);
                                }
                            }
                        }
                    }
                }
                proof {
                    assert(self@ =~~= spec_update(old(self)@, m));
                }
                true
            },
            Msg::DragEnd => {
                self.dragging_tab = None;
                proof {
                    assert(self@ =~~= spec_update(old(self)@, m));
                }
                true
            },
            Msg::CloseAllPanels => {
                self.show_settings = false;
                self.show_downloads = false;
                proof {
                    assert(self@ =~~= spec_update(old(self)@, m));
                }
                true
            },
            Msg::NoOp => false,
        };
        proof {
            lemma_step_wf(old(self)@, m);
        }
        redraw
    }
}

} // verus!
