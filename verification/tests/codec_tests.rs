use browser::codec::load;
use browser::codec::save;
use browser::App;
use browser::BrowserState;
use browser::Msg;
use browser::SearchEngine;
use browser::Tab;

#[test]
fn default_state_round_trips() {
    let s = BrowserState::default();
    assert_eq!(load(save(&s).as_str()), s);
}

#[test]
fn mutated_state_round_trips() {
    let mut app = App::create(BrowserState::default());
    app.update(Msg::NewTab);
    app.update(Msg::Navigate(String::from("h\u{e9}llo w\u{f6}rld")));
    app.update(Msg::SetSearchEngine(SearchEngine::DuckDuckGo));
    app.update(Msg::SetProxyServer(String::from("wss://proxy.example")));
    app.update(Msg::DeleteDownload(0));
    app.update(Msg::NewTab);
    app.update(Msg::DragStart(2));
    app.update(Msg::DragOver(0));
    app.update(Msg::DragEnd);
    let s = app.state;
    assert_eq!(load(save(&s).as_str()), s);
}

#[test]
fn favicon_and_history_round_trip() {
    let mut s = BrowserState::default();
    s.tabs.push(Tab {
        id: 1,
        title: String::from("t"),
        url: String::from("https://t.example"),
        favicon: Some(String::from("https://t.example/f.ico")),
        is_loading: true,
    });
    s.tabs.push(Tab {
        id: 2,
        title: String::new(),
        url: String::new(),
        favicon: Some(String::new()),
        is_loading: false,
    });
    s.next_tab_id = 3;
    s.active_tab_id = 2;
    s.history.push(String::from("https://a.example"));
    s.history.push(String::new());
    s.history_index = 1;
    assert_eq!(load(save(&s).as_str()), s);
}

#[test]
fn missing_or_corrupt_data_falls_back_to_default() {
    assert_eq!(load(""), BrowserState::default());
    assert_eq!(load("not a snapshot"), BrowserState::default());
    let good = save(&BrowserState::default());
    // truncated
    assert_eq!(load(&good[..good.len() - 1]), BrowserState::default());
    // trailing garbage
    let mut long = good.clone();
    long.push('Z');
    assert_eq!(load(long.as_str()), BrowserState::default());
}

#[test]
fn snapshot_of_ill_formed_state_is_rejected() {
    let mut s = BrowserState::default();
    s.active_tab_id = 5;
    assert_eq!(load(save(&s).as_str()), BrowserState::default());
}
