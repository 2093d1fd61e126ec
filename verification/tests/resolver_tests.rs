use browser::App;
use browser::BrowserState;
use browser::Msg;
use browser::SearchEngine;

fn default_app() -> App {
    App::create(BrowserState::default())
}

#[test]
fn bare_domain_gets_https() {
    let app = default_app();
    assert_eq!(app.process_url("example.com"), "https://example.com");
}

#[test]
fn search_query_is_percent_encoded() {
    let mut app = default_app();
    app.update(Msg::SetSearchEngine(SearchEngine::Google));
    assert_eq!(
        app.process_url("foo bar"),
        "https://www.google.com/search?q=foo%20bar"
    );
}

#[test]
fn existing_url_is_unchanged() {
    let app = default_app();
    assert_eq!(app.process_url("https://x.com"), "https://x.com");
}

#[test]
fn input_is_trimmed_before_classification() {
    let app = default_app();
    assert_eq!(app.process_url("  https://x.com  "), "https://x.com");
    assert_eq!(app.process_url("\texample.com\n"), "https://example.com");
}

#[test]
fn internal_scheme_is_kept() {
    let app = default_app();
    assert_eq!(app.process_url("app://home"), "app://home");
}

#[test]
fn domain_with_space_is_a_search() {
    let mut app = default_app();
    app.update(Msg::SetSearchEngine(SearchEngine::Bing));
    assert_eq!(
        app.process_url("foo.com bar"),
        "https://www.bing.com/search?q=foo.com%20bar"
    );
}

#[test]
fn non_ascii_query_uses_utf8_escapes() {
    let mut app = default_app();
    app.update(Msg::SetSearchEngine(SearchEngine::Google));
    assert_eq!(
        app.process_url("h\u{e9}llo w\u{f6}rld"),
        "https://www.google.com/search?q=h%C3%A9llo%20w%C3%B6rld"
    );
}

#[test]
fn unreserved_characters_pass_through() {
    let mut app = default_app();
    app.update(Msg::SetSearchEngine(SearchEngine::DuckDuckGo));
    assert_eq!(
        app.process_url("a-b_c~d!e*f'(g)"),
        "https://duckduckgo.com/?q=a-b_c~d!e*f'(g)"
    );
}

#[test]
fn empty_input_falls_through_to_search() {
    let app = default_app();
    assert_eq!(app.process_url(""), "https://www.google.com/search?q=");
    assert_eq!(app.process_url("   "), "https://www.google.com/search?q=");
}

#[test]
fn each_engine_has_its_template() {
    assert_eq!(
        SearchEngine::Yahoo.get_search_url("q"),
        "https://search.yahoo.com/search?p=q"
    );
    assert_eq!(
        SearchEngine::Google.get_search_url("q"),
        "https://www.google.com/search?q=q"
    );
    assert_eq!(
        SearchEngine::Bing.get_search_url("q"),
        "https://www.bing.com/search?q=q"
    );
    assert_eq!(
        SearchEngine::DuckDuckGo.get_search_url("q"),
        "https://duckduckgo.com/?q=q"
    );
    assert_eq!(
        SearchEngine::Brave.get_search_url("q"),
        "https://search.brave.com/search?q=q"
    );
}

#[test]
fn engine_icons() {
    assert_eq!(SearchEngine::Google.get_icon(), "https://www.google.com/favicon.ico");
    assert_eq!(SearchEngine::Yahoo.get_icon(), "https://www.yahoo.com/favicon.ico");
    assert_eq!(SearchEngine::Bing.get_icon(), "https://www.bing.com/favicon.ico");
    assert_eq!(SearchEngine::DuckDuckGo.get_icon(), "https://duckduckgo.com/favicon.ico");
    assert_eq!(
        SearchEngine::Brave.get_icon(),
        "https://brave.com/static-assets/images/brave-favicon.png"
    );
}

#[test]
fn titles_from_urls() {
    assert_eq!(App::get_title_from_url("app://home"), "Home");
    assert_eq!(App::get_title_from_url("https://rust-lang.org"), "rust-lang.org");
    assert_eq!(App::get_title_from_url("https://exa.com/path/x"), "exa.com");
    assert_eq!(App::get_title_from_url("http://exa.com/path"), "exa.com");
    assert_eq!(App::get_title_from_url(""), "New Tab");
    assert_eq!(App::get_title_from_url("https:///path"), "New Tab");
}

#[test]
fn proxied_url_with_and_without_proxy() {
    let mut app = default_app();
    assert_eq!(app.get_proxied_url("https://x.com/a b"), "https://x.com/a b");
    app.update(Msg::SetProxyServer(String::from("wss://proxy.example")));
    assert_eq!(
        app.get_proxied_url("https://x.com/a b"),
        "wss://proxy.example?url=https%3A%2F%2Fx.com%2Fa%20b"
    );
}
