//! URL resolution: classify raw URL-bar text as an existing URL, a bare
//! domain, or a search query; percent-encode query text; derive display
//! titles; and apply the optional proxy prefix.

use crate::model::home_scheme;
use crate::model::SearchEngine;
use crate::text::contains_char;
use crate::text::is_space;
use crate::text::push_char;
use crate::text::starts_with;
use crate::text::trim;
use vstd::prelude::*;
use vstd::string::StrSliceExecFns;
use vstd::string::StringExecFns;
use vstd::utf8::char_is_scalar;
use vstd::utf8::encode_scalar;

verus! {

/// Characters that percent-encoding leaves unchanged: ASCII letters and
/// digits and `- _ . ! ~ * ' ( )`.
pub open spec fn is_unreserved(c: char) -> bool {
    let u = c as u32;
    ||| (0x41 <= u && u <= 0x5A)
    ||| (0x61 <= u && u <= 0x7A)
    ||| (0x30 <= u && u <= 0x39)
    ||| c == '-'
    ||| c == '_'
    ||| c == '.'
    ||| c == '!'
    ||| c == '~'
    ||| c == '*'
    ||| c == '\''
    ||| c == '('
    ||| c == ')'
}

fn char_is_unreserved(c: char) -> (r: bool)
    ensures
        r == is_unreserved(c),
{
    let u = c as u32;
    (0x41 <= u && u <= 0x5A) || (0x61 <= u && u <= 0x7A) || (0x30 <= u && u <= 0x39) || c == '-'
        || c == '_' || c == '.' || c == '!' || c == '~' || c == '*' || c == '\'' || c == '(' || c
        == ')'
}

/// The upper-case hexadecimal digit for a value below 16.
pub open spec fn hex_upper(d: u32) -> char {
    if d == 0 {
        '0'
    } else if d == 1 {
        '1'
    } else if d == 2 {
        '2'
    } else if d == 3 {
        '3'
    } else if d == 4 {
        '4'
    } else if d == 5 {
        '5'
    } else if d == 6 {
        '6'
    } else if d == 7 {
        '7'
    } else if d == 8 {
        '8'
    } else if d == 9 {
        '9'
    } else if d == 10 {
        'A'
    } else if d == 11 {
        'B'
    } else if d == 12 {
        'C'
    } else if d == 13 {
        'D'
    } else if d == 14 {
        'E'
    } else {
        'F'
    }
}

pub(crate) fn hex_upper_char(d: u32) -> (c: char)
    requires
        d < 16,
    ensures
        c == hex_upper(d),
{
    if d == 0 {
        '0'
    } else if d == 1 {
        '1'
    } else if d == 2 {
        '2'
    } else if d == 3 {
        '3'
    } else if d == 4 {
        '4'
    } else if d == 5 {
        '5'
    } else if d == 6 {
        '6'
    } else if d == 7 {
        '7'
    } else if d == 8 {
        '8'
    } else if d == 9 {
        '9'
    } else if d == 10 {
        'A'
    } else if d == 11 {
        'B'
    } else if d == 12 {
        'C'
    } else if d == 13 {
        'D'
    } else if d == 14 {
        'E'
    } else {
        'F'
    }
}

/// The `%XX` escape of each byte, in order.
pub open spec fn pct_bytes(bs: Seq<u8>) -> Seq<char>
    decreases bs.len(),
{
    if bs.len() == 0 {
        Seq::empty()
    } else {
        seq!['%', hex_upper((bs[0] >> 4) as u32), hex_upper((bs[0] & 0x0F) as u32)] + pct_bytes(
            bs.drop_first(),
        )
    }
}

/// One character of percent-encoded output: unreserved characters pass
/// through, everything else becomes the `%XX` escapes of its UTF-8 bytes.
pub open spec fn pct_char(c: char) -> Seq<char> {
    if is_unreserved(c) {
        seq![c]
    } else {
        pct_bytes(encode_scalar(c as u32))
    }
}

/// Percent-encoding of a whole string.
pub open spec fn percent_encode(s: Seq<char>) -> Seq<char>
    decreases s.len(),
{
    if s.len() == 0 {
        Seq::empty()
    } else {
        pct_char(s[0]) + percent_encode(s.drop_first())
    }
}

proof fn lemma_pct_bytes_app(a: Seq<u8>, b: Seq<u8>)
    ensures
        pct_bytes(a + b) == pct_bytes(a) + pct_bytes(b),
    decreases a.len(),
{
    if a.len() == 0 {
        assert(a + b =~= b);
        assert(pct_bytes(a) + pct_bytes(b) =~= pct_bytes(b));
    } else {
        lemma_pct_bytes_app(a.drop_first(), b);
        assert((a + b).drop_first() =~= a.drop_first() + b);
        assert((a + b)[0] == a[0]);
        assert(pct_bytes(a + b) =~= pct_bytes(a) + pct_bytes(b));
    }
}

proof fn lemma_percent_encode_app(a: Seq<char>, b: Seq<char>)
    ensures
        percent_encode(a + b) == percent_encode(a) + percent_encode(b),
    decreases a.len(),
{
    if a.len() == 0 {
        assert(a + b =~= b);
        assert(percent_encode(a) + percent_encode(b) =~= percent_encode(b));
    } else {
        lemma_percent_encode_app(a.drop_first(), b);
        assert((a + b).drop_first() =~= a.drop_first() + b);
        assert((a + b)[0] == a[0]);
        assert(percent_encode(a + b) =~= percent_encode(a) + percent_encode(b));
    }
}

/// The UTF-8 bytes of one character, computed with the standard bit layout.
fn char_utf8_bytes(c: char) -> (v: Vec<u8>)
    ensures
        v@ == encode_scalar(c as u32),
{
    proof {
        char_is_scalar(c);
    }
    let u = c as u32;
    let mut v: Vec<u8> = Vec::new();
    if u <= 0x7F {
        v.push((u & 0x7F) as u8);
        proof {
            assert(v@ =~= encode_scalar(c as u32));
        }
    } else if u <= 0x7FF {
        v.push(0xC0 | (((u >> 6) & 0x1F) as u8));
        v.push(0x80 | ((u & 0x3F) as u8));
        proof {
            assert(v@ =~= encode_scalar(c as u32));
        }
    } else if u <= 0xFFFF {
        v.push(0xE0 | (((u >> 12) & 0x0F) as u8));
        v.push(0x80 | (((u >> 6) & 0x3F) as u8));
        v.push(0x80 | ((u & 0x3F) as u8));
        proof {
            assert(v@ =~= encode_scalar(c as u32));
        }
    } else {
        v.push(0xF0 | (((u >> 18) & 0x07) as u8));
        v.push(0x80 | (((u >> 12) & 0x3F) as u8));
        v.push(0x80 | (((u >> 6) & 0x3F) as u8));
        v.push(0x80 | ((u & 0x3F) as u8));
        proof {
            assert(v@ =~= encode_scalar(c as u32));
        }
    }
    v
}

/// Percent-encode a string, as `encodeURIComponent` does.
pub fn percent_encode_str(s: &str) -> (r: String)
    ensures
        r@ == percent_encode(s@),
{
    let n = s.unicode_len();
    let mut r = String::new();
    let mut i: usize = 0;
    while i < n
        invariant
            n == s@.len(),
            i <= n,
            r@ == percent_encode(s@.take(i as int)),
        decreases n - i,
    {
        let c = s.get_char(i);
        proof {
            assert(s@.take(i + 1).drop_last() =~= s@.take(i as int));
            assert(s@.take(i + 1) =~= s@.take(i as int) + seq![c]);
            lemma_percent_encode_app(s@.take(i as int), seq![c]);
            assert(seq![c].drop_first() =~= Seq::<char>::empty());
            assert(percent_encode(Seq::<char>::empty()) == Seq::<char>::empty());
            assert(percent_encode(seq![c]) =~= pct_char(c));
        }
        if char_is_unreserved(c) {
            push_char(&mut r, c);
            proof {
                assert(r@ =~= percent_encode(s@.take(i + 1)));
            }
        } else {
            let bytes = char_utf8_bytes(c);
            let ghost base = percent_encode(s@.take(i as int));
            let m = bytes.len();
            let mut k: usize = 0;
            while k < m
                invariant
                    m == bytes@.len(),
                    k <= m,
                    bytes@ == encode_scalar(c as u32),
                    r@ == base + pct_bytes(bytes@.take(k as int)),
                decreases m - k,
            {
                let b = bytes[k];
                proof {
                    assert(b >> 4 < 16 && b & 0x0F < 16) by (bit_vector);
                }
                push_char(&mut r, '%');
                push_char(&mut r, hex_upper_char((b >> 4) as u32));
                push_char(&mut r, hex_upper_char((b & 0x0F) as u32));
                proof {
                    assert(bytes@.take(k + 1) =~= bytes@.take(k as int) + seq![b]);
                    lemma_pct_bytes_app(bytes@.take(k as int), seq![b]);
                    assert(seq![b].drop_first() =~= Seq::<u8>::empty());
                    assert(pct_bytes(Seq::<u8>::empty()) == Seq::<char>::empty());
                    assert(pct_bytes(seq![b]) =~= seq![
                        '%',
                        hex_upper((b >> 4) as u32),
                        hex_upper((b & 0x0F) as u32),
                    ]);
                    assert(r@ =~= base + pct_bytes(bytes@.take(k + 1)));
                }
                k = k + 1;
            }
            proof {
                assert(bytes@.take(m as int) =~= bytes@);
                assert(!is_unreserved(c));
                assert(r@ =~= percent_encode(s@.take(i + 1)));
            }
        }
        i = i + 1;
    }
    proof {
        assert(s@.take(n as int) =~= s@);
    }
    r
}

/// The provider-specific search-URL prefix; the percent-encoded query is
/// appended to it.
pub open spec fn search_prefix(e: SearchEngine) -> Seq<char> {
    match e {
        SearchEngine::Yahoo => "https://search.yahoo.com/search?p="@,
        SearchEngine::Google => "https://www.google.com/search?q="@,
        SearchEngine::Bing => "https://www.bing.com/search?q="@,
        SearchEngine::DuckDuckGo => "https://duckduckgo.com/?q="@,
        SearchEngine::Brave => "https://search.brave.com/search?q="@,
    }
}

/// The search URL a provider gives for a free-text query.
pub open spec fn search_url(e: SearchEngine, q: Seq<char>) -> Seq<char> {
    search_prefix(e) + percent_encode(q)
}

/// The fixed icon reference of a provider.
pub open spec fn icon_url(e: SearchEngine) -> Seq<char> {
    match e {
        SearchEngine::Yahoo => "https://www.yahoo.com/favicon.ico"@,
        SearchEngine::Google => "https://www.google.com/favicon.ico"@,
        SearchEngine::Bing => "https://www.bing.com/favicon.ico"@,
        SearchEngine::DuckDuckGo => "https://duckduckgo.com/favicon.ico"@,
        SearchEngine::Brave => "https://brave.com/static-assets/images/brave-favicon.png"@,
    }
}

impl SearchEngine {
    /// The provider's full search URL for a query.
    pub fn get_search_url(&self, query: &str) -> (r: String)
        ensures
            r@ == search_url(*self, query@),
    {
        let encoded = percent_encode_str(query);
        let mut r: String = match self {
            SearchEngine::Yahoo => "https://search.yahoo.com/search?p=".to_owned(),
            SearchEngine::Google => "https://www.google.com/search?q=".to_owned(),
            SearchEngine::Bing => "https://www.bing.com/search?q=".to_owned(),
            SearchEngine::DuckDuckGo => "https://duckduckgo.com/?q=".to_owned(),
            SearchEngine::Brave => "https://search.brave.com/search?q=".to_owned(),
        };
        r.append(encoded.as_str());
        r
    }

    /// The provider's icon reference.
    pub fn get_icon(&self) -> (r: &'static str)
        ensures
            r@ == icon_url(*self),
    {
        match self {
            SearchEngine::Yahoo => "https://www.yahoo.com/favicon.ico",
            SearchEngine::Google => "https://www.google.com/favicon.ico",
            SearchEngine::Bing => "https://www.bing.com/favicon.ico",
            SearchEngine::DuckDuckGo => "https://duckduckgo.com/favicon.ico",
            SearchEngine::Brave => "https://brave.com/static-assets/images/brave-favicon.png",
        }
    }
}

/// Some character of `s` is whitespace.
pub open spec fn has_space(s: Seq<char>) -> bool {
    exists|i: int| 0 <= i < s.len() && is_space(s[i])
}

pub fn str_has_space(s: &str) -> (r: bool)
    ensures
        r == has_space(s@),
{
    let n = s.unicode_len();
    let mut i: usize = 0;
    while i < n
        invariant
            n == s@.len(),
            i <= n,
            forall|j: int| 0 <= j < i ==> !is_space(s@[j]),
        decreases n - i,
    {
        if crate::text::char_is_space(s.get_char(i)) {
            return true;
        }
        i = i + 1;
    }
    false
}

/// The canonical navigable URL for raw URL-bar input: trim; keep text that
/// already carries a scheme; prepend `https://` to a bare domain (a `.` and
/// no whitespace); otherwise search with the given provider.
pub open spec fn resolve(input: Seq<char>, e: SearchEngine) -> Seq<char> {
    let t = trim(input);
    if starts_with(t, "http://"@) || starts_with(t, "https://"@) || starts_with(t, home_scheme()) {
        t
    } else if contains_char(t, '.') && !has_space(t) {
        "https://"@ + t
    } else {
        search_url(e, t)
    }
}

/// The part of `s` before its first `/`, or all of `s` if it has none.
pub open spec fn before_slash(s: Seq<char>) -> Seq<char>
    decreases s.len(),
{
    if s.len() == 0 {
        Seq::empty()
    } else if s[0] == '/' {
        Seq::empty()
    } else {
        seq![s[0]] + before_slash(s.drop_first())
    }
}

proof fn lemma_before_slash_at(s: Seq<char>, i: int)
    requires
        0 <= i <= s.len(),
        forall|j: int| 0 <= j < i ==> s[j] != '/',
        i < s.len() ==> s[i] == '/',
    ensures
        before_slash(s) == s.take(i),
    decreases i,
{
    if i == 0 {
        assert(s.take(0) =~= Seq::<char>::empty());
    } else {
        lemma_before_slash_at(s.drop_first(), i - 1);
        assert(seq![s[0]] + s.drop_first().take(i - 1) =~= s.take(i));
    }
}

/// A web URL with its `https://` or `http://` prefix removed.
pub open spec fn strip_web_scheme(url: Seq<char>) -> Seq<char> {
    if starts_with(url, "https://"@) {
        url.skip("https://"@.len() as int)
    } else if starts_with(url, "http://"@) {
        url.skip("http://"@.len() as int)
    } else {
        url
    }
}

/// The display title derived from a URL: `Home` for internal pages, else the
/// host part, else `New Tab`.
pub open spec fn title_for(url: Seq<char>) -> Seq<char> {
    if starts_with(url, home_scheme()) {
        "Home"@
    } else {
        let host = before_slash(strip_web_scheme(url));
        if host.len() == 0 {
            "New Tab"@
        } else {
            host
        }
    }
}

/// What the content viewer is asked to load: the URL itself without a proxy,
/// else the proxy with the URL percent-encoded into its query string.
pub open spec fn proxied(proxy: Seq<char>, url: Seq<char>) -> Seq<char> {
    if proxy.len() == 0 {
        url
    } else {
        proxy + "?url="@ + percent_encode(url)
    }
}

/// The host part of `s`: everything before the first `/`.
pub fn host_of(s: &str) -> (r: String)
    ensures
        r@ == before_slash(s@),
{
    let n = s.unicode_len();
    let mut i: usize = 0;
    while i < n && s.get_char(i) != '/'
        invariant
            n == s@.len(),
            i <= n,
            forall|j: int| 0 <= j < i ==> s@[j] != '/',
        decreases n - i,
    {
        i = i + 1;
    }
    proof {
        lemma_before_slash_at(s@, i as int);
        assert(s@.take(i as int) =~= s@.subrange(0, i as int));
    }
    s.substring_char(0, i).to_owned()
}

} // verus!
