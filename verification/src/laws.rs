//! The shell's general guarantees, proved once over the reducer's and
//! resolver's specifications.

use crate::model::has_tab;
use crate::model::home_scheme;
use crate::model::lemma_tab_idx;
use crate::model::tab_idx_of;
use crate::model::wf_state;
use crate::model::Msg;
use crate::model::SearchEngine;
use crate::resolver::resolve;
use crate::shell::lemma_step_wf;
use crate::shell::spec_update;
use crate::shell::AbsApp;
use crate::text::starts_with;
use crate::text::trim;
use vstd::prelude::*;

verus! {

/// Closing the sole remaining tab is a no-op: the whole application state is
/// unchanged.
pub proof fn lemma_close_sole_tab_noop(a: AbsApp, id: u32)
    requires
        a.state.tabs.len() == 1,
    ensures
        spec_update(a, Msg::CloseTab(id)) == a,
{
    assert(spec_update(a, Msg::CloseTab(id)) =~~= a);
}

/// No reducer step ever leaves the tab list empty, and every step keeps the
/// state invariant: the active id present, ids unique and below the
/// allocation counter.
pub proof fn lemma_tabs_never_empty(a: AbsApp, msg: Msg)
    requires
        wf_state(a.state),
        msg is NewTab ==> a.state.next_tab_id < u32::MAX,
    ensures
        wf_state(spec_update(a, msg).state),
        spec_update(a, msg).state.tabs.len() >= 1,
{
    lemma_step_wf(a, msg);
}

/// Closing the active tab, with at least two tabs open, activates its left
/// neighbour; when the closed tab was first, the tab that is now first.
pub proof fn lemma_close_active_picks_neighbour(a: AbsApp, id: u32)
    requires
        wf_state(a.state),
        a.state.tabs.len() >= 2,
        has_tab(a.state.tabs, id),
        a.state.active_tab_id == id,
    ensures
        ({
            let i = tab_idx_of(a.state.tabs, id);
            let s2 = spec_update(a, Msg::CloseTab(id)).state;
            &&& (i > 0 ==> s2.active_tab_id == a.state.tabs[i - 1].id)
            &&& (i == 0 ==> s2.active_tab_id == a.state.tabs[1].id)
        }),
{
    lemma_tab_idx(a.state.tabs, id);
    let i = tab_idx_of(a.state.tabs, id);
    let tabs2 = a.state.tabs.remove(i);
    if i > 0 {
        assert(tabs2[i - 1] == a.state.tabs[i - 1]);
    } else {
        assert(tabs2[0] == a.state.tabs[1]);
    }
}

/// Opening a new tab allocates exactly the current counter value as the new
/// tab's id, makes it active, and advances the counter by one, so ids
/// strictly increase and are never reused.
pub proof fn lemma_new_tab_id_monotonic(a: AbsApp)
    requires
        wf_state(a.state),
        a.state.next_tab_id < u32::MAX,
    ensures
        ({
            let a2 = spec_update(a, Msg::NewTab);
            &&& a2.state.next_tab_id == a.state.next_tab_id + 1
            &&& a2.state.active_tab_id == a.state.next_tab_id
            &&& a2.state.tabs.len() == a.state.tabs.len() + 1
            &&& a2.state.tabs.last().id == a.state.next_tab_id
            &&& wf_state(a2.state)
        }),
{
    lemma_step_wf(a, Msg::NewTab);
}

/// No two tabs ever share an id after a step from a well-formed state.
pub proof fn lemma_ids_unique(a: AbsApp, msg: Msg)
    requires
        wf_state(a.state),
        msg is NewTab ==> a.state.next_tab_id < u32::MAX,
    ensures
        forall|i: int, j: int|
            0 <= i < j < spec_update(a, msg).state.tabs.len() ==> (#[trigger] spec_update(
                a,
                msg,
            ).state.tabs[i].id) != (#[trigger] spec_update(a, msg).state.tabs[j].id),
{
    lemma_step_wf(a, msg);
}

/// Text that is already a navigable URL (trimmed, and carrying one of the
/// accepted schemes) resolves to itself, unchanged.
pub proof fn lemma_resolve_already_url(url: Seq<char>, e: SearchEngine)
    requires
        trim(url) == url,
        starts_with(url, "http://"@) || starts_with(url, "https://"@) || starts_with(
            url,
            home_scheme(),
        ),
    ensures
        resolve(url, e) == url,
{
}

/// Toggling the settings panel and then the downloads panel leaves exactly
/// the downloads panel open, never both.
pub proof fn lemma_panels_exclusive(a: AbsApp)
    ensures
        ({
            let a2 = spec_update(spec_update(a, Msg::ToggleSettingsPanel), Msg::ToggleDownloadsPanel);
            &&& a2.show_downloads
            &&& !a2.show_settings
        }),
{
}

/// At most one panel is ever open: every step preserves it.
pub proof fn lemma_at_most_one_panel(a: AbsApp, msg: Msg)
    requires
        !(a.show_settings && a.show_downloads),
    ensures
        !(spec_update(a, msg).show_settings && spec_update(a, msg).show_downloads),
{
}

/// Dragging a tab over itself leaves the application state unchanged.
pub proof fn lemma_reorder_self_noop(a: AbsApp, id: u32)
    requires
        a.dragging_tab == Some(id),
    ensures
        spec_update(a, Msg::DragOver(id)) == a,
{
    assert(spec_update(a, Msg::DragOver(id)) =~~= a);
}

} // verus!
