use browser::App;
use browser::BrowserState;
use browser::Msg;
use browser::SearchEngine;

fn default_app() -> App {
    App::create(BrowserState::default())
}

fn tab_ids(app: &App) -> Vec<u32> {
    app.state.tabs.iter().map(|t| t.id).collect()
}

#[test]
fn default_state_has_one_home_tab() {
    let app = default_app();
    assert_eq!(app.state.tabs.len(), 1);
    assert_eq!(app.state.tabs[0].id, 0);
    assert_eq!(app.state.tabs[0].title, "Home");
    assert_eq!(app.state.tabs[0].url, "app://home");
    assert_eq!(app.state.active_tab_id, 0);
    assert_eq!(app.state.next_tab_id, 1);
    assert_eq!(app.state.search_engine, SearchEngine::Google);
    assert_eq!(app.state.proxy_server, "");
    assert_eq!(app.state.downloads.len(), 3);
    assert_eq!(app.url_input, "");
    assert!(!app.show_settings);
    assert!(!app.show_downloads);
}

#[test]
fn scenario_new_tab_navigate_close() {
    let mut app = default_app();

    app.update(Msg::NewTab);
    assert_eq!(tab_ids(&app), vec![0, 1]);
    assert_eq!(app.state.active_tab_id, 1);
    assert_eq!(app.url_input, "");

    app.update(Msg::Navigate(String::from("rust-lang.org")));
    let active = app.state.tabs.iter().find(|t| t.id == 1).unwrap();
    assert_eq!(active.url, "https://rust-lang.org");
    assert_eq!(active.title, "rust-lang.org");
    assert!(active.is_loading);
    assert_eq!(app.url_input, "https://rust-lang.org");

    app.update(Msg::CloseTab(1));
    assert_eq!(tab_ids(&app), vec![0]);
    assert_eq!(app.state.active_tab_id, 0);
    assert_eq!(app.url_input, "");
}

#[test]
fn closing_sole_tab_is_noop() {
    let mut app = default_app();
    app.update(Msg::CloseTab(0));
    assert_eq!(tab_ids(&app), vec![0]);
    assert_eq!(app.state.active_tab_id, 0);
}

#[test]
fn closing_unknown_tab_is_noop() {
    let mut app = default_app();
    app.update(Msg::NewTab);
    app.update(Msg::CloseTab(99));
    assert_eq!(tab_ids(&app), vec![0, 1]);
}

#[test]
fn closing_active_prefers_left_neighbour() {
    let mut app = default_app();
    app.update(Msg::NewTab);
    app.update(Msg::NewTab);
    // tabs [0, 1, 2], active 2
    app.update(Msg::CloseTab(2));
    assert_eq!(tab_ids(&app), vec![0, 1]);
    assert_eq!(app.state.active_tab_id, 1);
}

#[test]
fn closing_first_active_tab_activates_new_first() {
    let mut app = default_app();
    app.update(Msg::NewTab);
    app.update(Msg::NewTab);
    app.update(Msg::SelectTab(0));
    app.update(Msg::CloseTab(0));
    assert_eq!(tab_ids(&app), vec![1, 2]);
    assert_eq!(app.state.active_tab_id, 1);
}

#[test]
fn tab_ids_are_never_reused() {
    let mut app = default_app();
    app.update(Msg::NewTab);
    app.update(Msg::CloseTab(1));
    app.update(Msg::NewTab);
    assert_eq!(tab_ids(&app), vec![0, 2]);
    assert_eq!(app.state.next_tab_id, 3);
}

#[test]
fn select_tab_syncs_url_bar() {
    let mut app = default_app();
    app.update(Msg::NewTab);
    app.update(Msg::Navigate(String::from("https://x.com")));
    app.update(Msg::SelectTab(0));
    assert_eq!(app.state.active_tab_id, 0);
    assert_eq!(app.url_input, "");
    app.update(Msg::SelectTab(1));
    assert_eq!(app.url_input, "https://x.com");
}

#[test]
fn select_unknown_tab_is_ignored() {
    let mut app = default_app();
    app.update(Msg::SelectTab(42));
    assert_eq!(app.state.active_tab_id, 0);
}

#[test]
fn go_home_resets_active_tab() {
    let mut app = default_app();
    app.update(Msg::Navigate(String::from("https://x.com")));
    app.update(Msg::GoHome);
    assert_eq!(app.state.tabs[0].url, "app://home");
    assert_eq!(app.state.tabs[0].title, "Home");
    assert!(!app.state.tabs[0].is_loading);
    assert_eq!(app.url_input, "");
}

#[test]
fn reload_only_sets_loading() {
    let mut app = default_app();
    app.update(Msg::Reload);
    assert!(app.state.tabs[0].is_loading);
    assert_eq!(app.state.tabs[0].url, "app://home");
}

#[test]
fn go_back_and_forward_change_nothing() {
    let mut app = default_app();
    let before = app.state.clone();
    assert!(app.update(Msg::GoBack));
    assert!(app.update(Msg::GoForward));
    assert_eq!(app.state, before);
}

#[test]
fn panels_are_mutually_exclusive() {
    let mut app = default_app();
    app.update(Msg::ToggleSettingsPanel);
    assert!(app.show_settings);
    assert!(!app.show_downloads);
    app.update(Msg::ToggleDownloadsPanel);
    assert!(app.show_downloads);
    assert!(!app.show_settings);
    app.update(Msg::CloseAllPanels);
    assert!(!app.show_settings);
    assert!(!app.show_downloads);
}

#[test]
fn drag_reorders_tabs_live() {
    let mut app = default_app();
    app.update(Msg::NewTab);
    app.update(Msg::NewTab);
    // tabs [0, 1, 2]
    app.update(Msg::DragStart(0));
    app.update(Msg::DragOver(2));
    assert_eq!(tab_ids(&app), vec![1, 2, 0]);
    app.update(Msg::DragEnd);
    assert_eq!(app.dragging_tab, None);
}

#[test]
fn drag_over_same_tab_keeps_order() {
    let mut app = default_app();
    app.update(Msg::NewTab);
    app.update(Msg::NewTab);
    app.update(Msg::DragStart(1));
    app.update(Msg::DragOver(1));
    assert_eq!(tab_ids(&app), vec![0, 1, 2]);
}

#[test]
fn drag_over_without_drag_start_is_ignored() {
    let mut app = default_app();
    app.update(Msg::NewTab);
    app.update(Msg::DragOver(0));
    assert_eq!(tab_ids(&app), vec![0, 1]);
}

#[test]
fn delete_download_removes_only_that_id() {
    let mut app = default_app();
    app.update(Msg::DeleteDownload(1));
    let ids: Vec<u32> = app.state.downloads.iter().map(|d| d.id).collect();
    assert_eq!(ids, vec![0, 2]);
    app.update(Msg::DeleteDownload(7));
    let ids: Vec<u32> = app.state.downloads.iter().map(|d| d.id).collect();
    assert_eq!(ids, vec![0, 2]);
}

#[test]
fn update_url_bar_is_ephemeral() {
    let mut app = default_app();
    let before = app.state.clone();
    app.update(Msg::UpdateUrlBar(String::from("typing...")));
    assert_eq!(app.url_input, "typing...");
    assert_eq!(app.state, before);
}

#[test]
fn settings_messages_update_state() {
    let mut app = default_app();
    app.update(Msg::SetSearchEngine(SearchEngine::Brave));
    assert_eq!(app.state.search_engine, SearchEngine::Brave);
    app.update(Msg::SetProxyServer(String::from("ws://p")));
    assert_eq!(app.state.proxy_server, "ws://p");
}

#[test]
fn noop_requests_no_redraw() {
    let mut app = default_app();
    assert!(!app.update(Msg::NoOp));
    assert!(app.update(Msg::NewTab));
}

#[test]
fn persistence_follows_state_mutations_only() {
    let mut app = default_app();
    assert!(app.should_persist(&Msg::NewTab));
    assert!(app.should_persist(&Msg::Navigate(String::from("x"))));
    assert!(app.should_persist(&Msg::SetProxyServer(String::new())));
    assert!(app.should_persist(&Msg::DragEnd));
    assert!(!app.should_persist(&Msg::Reload));
    assert!(!app.should_persist(&Msg::UpdateUrlBar(String::new())));
    assert!(!app.should_persist(&Msg::CloseAllPanels));
    assert!(!app.should_persist(&Msg::GoBack));
    // the sole tab cannot be closed, so nothing is written
    assert!(!app.should_persist(&Msg::CloseTab(0)));
    app.update(Msg::NewTab);
    assert!(app.should_persist(&Msg::CloseTab(0)));
}

#[test]
fn create_shows_active_tab_url() {
    let mut app = default_app();
    app.update(Msg::NewTab);
    app.update(Msg::Navigate(String::from("https://x.com")));
    let reopened = App::create(app.state.clone());
    assert_eq!(reopened.url_input, "https://x.com");
    app.update(Msg::GoHome);
    let reopened = App::create(app.state.clone());
    assert_eq!(reopened.url_input, "");
}
