//! Persistence: a schema-stable text encoding of the whole `BrowserState`
//! and its parser. Numbers are fixed-width upper-case hexadecimal, strings
//! are length-prefixed, so every state round-trips exactly; corrupt input is
//! rejected and the caller falls back to the default state.

use crate::model::abs_downloads;
use crate::model::abs_history;
use crate::model::abs_tabs;
use crate::model::default_state;
use crate::model::wf_state;
use crate::model::AbsDownload;
use crate::model::AbsState;
use crate::model::AbsTab;
use crate::model::BrowserState;
use crate::model::Download;
use crate::model::SearchEngine;
use crate::model::Tab;
use crate::resolver::hex_upper;
use crate::resolver::hex_upper_char;
use crate::shell::find_tab_index;
use crate::text::push_char;
use vstd::prelude::*;
use vstd::string::StrSliceExecFns;
use vstd::string::StringExecFns;

verus! {

/// The value of an upper-case hexadecimal digit, or 16 for any other
/// character.
pub open spec fn hex_val(c: char) -> u32 {
    if c == '0' {
        0
    } else if c == '1' {
        1
    } else if c == '2' {
        2
    } else if c == '3' {
        3
    } else if c == '4' {
        4
    } else if c == '5' {
        5
    } else if c == '6' {
        6
    } else if c == '7' {
        7
    } else if c == '8' {
        8
    } else if c == '9' {
        9
    } else if c == 'A' {
        10
    } else if c == 'B' {
        11
    } else if c == 'C' {
        12
    } else if c == 'D' {
        13
    } else if c == 'E' {
        14
    } else if c == 'F' {
        15
    } else {
        16
    }
}

fn hex_val_char(c: char) -> (r: u32)
    ensures
        r == hex_val(c),
{
    if c == '0' {
        0
    } else if c == '1' {
        1
    } else if c == '2' {
        2
    } else if c == '3' {
        3
    } else if c == '4' {
        4
    } else if c == '5' {
        5
    } else if c == '6' {
        6
    } else if c == '7' {
        7
    } else if c == '8' {
        8
    } else if c == '9' {
        9
    } else if c == 'A' {
        10
    } else if c == 'B' {
        11
    } else if c == 'C' {
        12
    } else if c == 'D' {
        13
    } else if c == 'E' {
        14
    } else if c == 'F' {
        15
    } else {
        16
    }
}

proof fn lemma_hex_rt(d: u32)
    requires
        d < 16,
    ensures
        hex_val(hex_upper(d)) == d,
{
}

/// A `u32` as 8 upper-case hexadecimal digits, most significant first.
pub open spec fn ser_u32(n: u32) -> Seq<char> {
    seq![
        hex_upper((n >> 28) & 0xF),
        hex_upper((n >> 24) & 0xF),
        hex_upper((n >> 20) & 0xF),
        hex_upper((n >> 16) & 0xF),
        hex_upper((n >> 12) & 0xF),
        hex_upper((n >> 8) & 0xF),
        hex_upper((n >> 4) & 0xF),
        hex_upper(n & 0xF),
    ]
}

/// A `u64` as 16 upper-case hexadecimal digits, most significant first.
pub open spec fn ser_u64(n: u64) -> Seq<char> {
    seq![
        hex_upper(((n >> 60) & 0xF) as u32),
        hex_upper(((n >> 56) & 0xF) as u32),
        hex_upper(((n >> 52) & 0xF) as u32),
        hex_upper(((n >> 48) & 0xF) as u32),
        hex_upper(((n >> 44) & 0xF) as u32),
        hex_upper(((n >> 40) & 0xF) as u32),
        hex_upper(((n >> 36) & 0xF) as u32),
        hex_upper(((n >> 32) & 0xF) as u32),
        hex_upper(((n >> 28) & 0xF) as u32),
        hex_upper(((n >> 24) & 0xF) as u32),
        hex_upper(((n >> 20) & 0xF) as u32),
        hex_upper(((n >> 16) & 0xF) as u32),
        hex_upper(((n >> 12) & 0xF) as u32),
        hex_upper(((n >> 8) & 0xF) as u32),
        hex_upper(((n >> 4) & 0xF) as u32),
        hex_upper((n & 0xF) as u32),
    ]
}

/// A string as its length followed by its characters.
pub open spec fn ser_str(t: Seq<char>) -> Seq<char> {
    ser_u64(t.len() as u64) + t
}

/// A boolean as one digit.
pub open spec fn ser_bool(b: bool) -> Seq<char> {
    if b {
        seq!['1']
    } else {
        seq!['0']
    }
}

/// An optional string as a presence digit followed by the string.
pub open spec fn ser_opt_str(f: Option<Seq<char>>) -> Seq<char> {
    match f {
        Some(t) => seq!['1'] + ser_str(t),
        None => seq!['0'],
    }
}

/// A search engine as its one-letter tag.
pub open spec fn ser_engine(e: SearchEngine) -> Seq<char> {
    match e {
        SearchEngine::Yahoo => seq!['Y'],
        SearchEngine::Google => seq!['G'],
        SearchEngine::Bing => seq!['B'],
        SearchEngine::DuckDuckGo => seq!['D'],
        SearchEngine::Brave => seq!['R'],
    }
}

/// One tab: id, title, URL, favicon, loading flag.
pub open spec fn ser_tab(t: AbsTab) -> Seq<char> {
    ser_u32(t.id) + ser_str(t.title) + ser_str(t.url) + ser_opt_str(t.favicon) + ser_bool(
        t.is_loading,
    )
}

/// One download: id, filename, completion flag.
pub open spec fn ser_download(d: AbsDownload) -> Seq<char> {
    ser_u32(d.id) + ser_str(d.filename) + ser_bool(d.completed)
}

pub open spec fn ser_tab_list(ts: Seq<AbsTab>) -> Seq<char>
    decreases ts.len(),
{
    if ts.len() == 0 {
        Seq::empty()
    } else {
        ser_tab(ts[0]) + ser_tab_list(ts.drop_first())
    }
}

pub open spec fn ser_download_list(ds: Seq<AbsDownload>) -> Seq<char>
    decreases ds.len(),
{
    if ds.len() == 0 {
        Seq::empty()
    } else {
        ser_download(ds[0]) + ser_download_list(ds.drop_first())
    }
}

pub open spec fn ser_str_list(hs: Seq<Seq<char>>) -> Seq<char>
    decreases hs.len(),
{
    if hs.len() == 0 {
        Seq::empty()
    } else {
        ser_str(hs[0]) + ser_str_list(hs.drop_first())
    }
}

/// The serialized snapshot of a whole state.
pub open spec fn spec_save(s: AbsState) -> Seq<char> {
    ser_u64(s.tabs.len() as u64) + ser_tab_list(s.tabs) + ser_u32(s.active_tab_id) + ser_u32(
        s.next_tab_id,
    ) + ser_engine(s.search_engine) + ser_str(s.proxy_server) + ser_u64(
        s.downloads.len() as u64,
    ) + ser_download_list(s.downloads) + ser_u64(s.history.len() as u64) + ser_str_list(s.history)
        + ser_u64(s.history_index as u64)
}

#[verifier::opaque]
pub open spec fn spec_parse_u32(s: Seq<char>) -> Option<(u32, Seq<char>)> {
    if s.len() < 8 {
        None
    } else {
        let d0 = hex_val(s[0]);
        let d1 = hex_val(s[1]);
        let d2 = hex_val(s[2]);
        let d3 = hex_val(s[3]);
        let d4 = hex_val(s[4]);
        let d5 = hex_val(s[5]);
        let d6 = hex_val(s[6]);
        let d7 = hex_val(s[7]);
        if d0 < 16 && d1 < 16 && d2 < 16 && d3 < 16 && d4 < 16 && d5 < 16 && d6 < 16 && d7 < 16 {
            Some(
                (
                    (d0 << 28) | (d1 << 24) | (d2 << 20) | (d3 << 16) | (d4 << 12) | (d5 << 8) | (
                    d6 << 4) | d7,
                    s.skip(8),
                ),
            )
        } else {
            None
        }
    }
}

#[verifier::opaque]
pub open spec fn spec_parse_u64(s: Seq<char>) -> Option<(u64, Seq<char>)> {
    if s.len() < 16 {
        None
    } else {
        match (spec_parse_u32(s), spec_parse_u32(s.skip(8))) {
            (Some((hi, _)), Some((lo, rest))) => Some(
                (((hi as u64) << 32) | (lo as u64), rest),
            ),
            _ => None,
        }
    }
}

#[verifier::opaque]
pub open spec fn spec_parse_str(s: Seq<char>) -> Option<(Seq<char>, Seq<char>)> {
    match spec_parse_u64(s) {
        Some((n, rest)) => if rest.len() >= n {
            Some((rest.take(n as int), rest.skip(n as int)))
        } else {
            None
        },
        None => None,
    }
}

pub open spec fn spec_parse_bool(s: Seq<char>) -> Option<(bool, Seq<char>)> {
    if s.len() < 1 {
        None
    } else if s[0] == '1' {
        Some((true, s.skip(1)))
    } else if s[0] == '0' {
        Some((false, s.skip(1)))
    } else {
        None
    }
}

#[verifier::opaque]
pub open spec fn spec_parse_opt_str(s: Seq<char>) -> Option<(Option<Seq<char>>, Seq<char>)> {
    if s.len() < 1 {
        None
    } else if s[0] == '0' {
        Some((None, s.skip(1)))
    } else if s[0] == '1' {
        match spec_parse_str(s.skip(1)) {
            Some((t, rest)) => Some((Some(t), rest)),
            None => None,
        }
    } else {
        None
    }
}

pub open spec fn spec_parse_engine(s: Seq<char>) -> Option<(SearchEngine, Seq<char>)> {
    if s.len() < 1 {
        None
    } else if s[0] == 'Y' {
        Some((SearchEngine::Yahoo, s.skip(1)))
    } else if s[0] == 'G' {
        Some((SearchEngine::Google, s.skip(1)))
    } else if s[0] == 'B' {
        Some((SearchEngine::Bing, s.skip(1)))
    } else if s[0] == 'D' {
        Some((SearchEngine::DuckDuckGo, s.skip(1)))
    } else if s[0] == 'R' {
        Some((SearchEngine::Brave, s.skip(1)))
    } else {
        None
    }
}

pub open spec fn spec_parse_usize(s: Seq<char>) -> Option<(usize, Seq<char>)> {
    match spec_parse_u64(s) {
        Some((n, rest)) => if n <= usize::MAX as u64 {
            Some((n as usize, rest))
        } else {
            None
        },
        None => None,
    }
}

#[verifier::opaque]
pub open spec fn spec_parse_tab(s: Seq<char>) -> Option<(AbsTab, Seq<char>)> {
    match spec_parse_u32(s) {
        None => None,
        Some((id, s1)) => match spec_parse_str(s1) {
            None => None,
            Some((title, s2)) => match spec_parse_str(s2) {
                None => None,
                Some((url, s3)) => match spec_parse_opt_str(s3) {
                    None => None,
                    Some((favicon, s4)) => match spec_parse_bool(s4) {
                        None => None,
                        Some((is_loading, s5)) => Some(
                            (AbsTab { id, title, url, favicon, is_loading }, s5),
                        ),
                    },
                },
            },
        },
    }
}

#[verifier::opaque]
pub open spec fn spec_parse_download(s: Seq<char>) -> Option<(AbsDownload, Seq<char>)> {
    match spec_parse_u32(s) {
        None => None,
        Some((id, s1)) => match spec_parse_str(s1) {
            None => None,
            Some((filename, s2)) => match spec_parse_bool(s2) {
                None => None,
                Some((completed, s3)) => Some((AbsDownload { id, filename, completed }, s3)),
            },
        },
    }
}

pub open spec fn spec_parse_tabs(s: Seq<char>, n: u64) -> Option<(Seq<AbsTab>, Seq<char>)>
    decreases n,
{
    if n == 0 {
        Some((Seq::empty(), s))
    } else {
        match spec_parse_tab(s) {
            None => None,
            Some((t, s1)) => match spec_parse_tabs(s1, (n - 1) as u64) {
                None => None,
                Some((ts, s2)) => Some((seq![t] + ts, s2)),
            },
        }
    }
}

pub open spec fn spec_parse_downloads(s: Seq<char>, n: u64) -> Option<(Seq<AbsDownload>, Seq<char>)>
    decreases n,
{
    if n == 0 {
        Some((Seq::empty(), s))
    } else {
        match spec_parse_download(s) {
            None => None,
            Some((d, s1)) => match spec_parse_downloads(s1, (n - 1) as u64) {
                None => None,
                Some((ds, s2)) => Some((seq![d] + ds, s2)),
            },
        }
    }
}

pub open spec fn spec_parse_history(s: Seq<char>, n: u64) -> Option<(Seq<Seq<char>>, Seq<char>)>
    decreases n,
{
    if n == 0 {
        Some((Seq::empty(), s))
    } else {
        match spec_parse_str(s) {
            None => None,
            Some((h, s1)) => match spec_parse_history(s1, (n - 1) as u64) {
                None => None,
                Some((hs, s2)) => Some((seq![h] + hs, s2)),
            },
        }
    }
}

pub open spec fn spec_parse_state(s: Seq<char>) -> Option<(AbsState, Seq<char>)> {
    match spec_parse_u64(s) {
        None => None,
        Some((ntabs, s1)) => match spec_parse_tabs(s1, ntabs) {
            None => None,
            Some((tabs, s2)) => match spec_parse_u32(s2) {
                None => None,
                Some((active_tab_id, s3)) => match spec_parse_u32(s3) {
                    None => None,
                    Some((next_tab_id, s4)) => match spec_parse_engine(s4) {
                        None => None,
                        Some((search_engine, s5)) => match spec_parse_str(s5) {
                            None => None,
                            Some((proxy_server, s6)) => match spec_parse_u64(s6) {
                                None => None,
                                Some((ndls, s7)) => match spec_parse_downloads(s7, ndls) {
                                    None => None,
                                    Some((downloads, s8)) => match spec_parse_u64(s8) {
                                        None => None,
                                        Some((nh, s9)) => match spec_parse_history(s9, nh) {
                                            None => None,
                                            Some((history, s10)) => match spec_parse_usize(s10) {
                                                None => None,
                                                Some((history_index, s11)) => Some(
                                                    (
                                                        AbsState {
                                                            tabs,
                                                            active_tab_id,
                                                            next_tab_id,
                                                            search_engine,
                                                            proxy_server,
                                                            downloads,
                                                            history,
                                                            history_index,
                                                        },
                                                        s11,
                                                    ),
                                                ),
                                            },
                                        },
                                    },
                                },
                            },
                        },
                    },
                },
            },
        },
    }
}

/// What `load` returns for stored text: the parsed state when the whole text
/// is a valid snapshot of a well-formed state, the default state otherwise.
pub open spec fn spec_load(s: Seq<char>) -> AbsState {
    match spec_parse_state(s) {
        Some(p) => if p.1.len() == 0 && wf_state(p.0) {
            p.0
        } else {
            default_state()
        },
        None => default_state(),
    }
}

/// The view of an optional string.
pub open spec fn opt_view(f: Option<String>) -> Option<Seq<char>> {
    match f {
        Some(x) => Some(x@),
        None => None,
    }
}

pub open spec fn opt_len_ok(f: Option<Seq<char>>) -> bool {
    match f {
        Some(t) => t.len() <= u64::MAX,
        None => true,
    }
}

/// A tab whose strings fit the length prefix.
pub open spec fn tab_encodable(t: AbsTab) -> bool {
    t.title.len() <= u64::MAX && t.url.len() <= u64::MAX && opt_len_ok(t.favicon)
}

/// A download whose filename fits the length prefix.
pub open spec fn dl_encodable(d: AbsDownload) -> bool {
    d.filename.len() <= u64::MAX
}

/// A state every one of whose strings and collections fits the encoding's
/// length prefixes; every state held in memory does.
pub open spec fn encodable(s: AbsState) -> bool {
    &&& s.tabs.len() <= u64::MAX
    &&& (forall|i: int| 0 <= i < s.tabs.len() ==> tab_encodable(#[trigger] s.tabs[i]))
    &&& s.proxy_server.len() <= u64::MAX
    &&& s.downloads.len() <= u64::MAX
    &&& (forall|i: int| 0 <= i < s.downloads.len() ==> dl_encodable(#[trigger] s.downloads[i]))
    &&& s.history.len() <= u64::MAX
    &&& (forall|i: int| 0 <= i < s.history.len() ==> (#[trigger] s.history[i]).len() <= u64::MAX)
}

fn write_u32(out: &mut String, n: u32)
    ensures
        final(out)@ == old(out)@ + ser_u32(n),
{
    proof {
        assert((n >> 28) & 0xF < 16 && (n >> 24) & 0xF < 16 && (n >> 20) & 0xF < 16 && (n >> 16)
            & 0xF < 16 && (n >> 12) & 0xF < 16 && (n >> 8) & 0xF < 16 && (n >> 4) & 0xF < 16 && n
            & 0xF < 16) by (bit_vector);
    }
    push_char(out, hex_upper_char((n >> 28) & 0xF));
    push_char(out, hex_upper_char((n >> 24) & 0xF));
    push_char(out, hex_upper_char((n >> 20) & 0xF));
    push_char(out, hex_upper_char((n >> 16) & 0xF));
    push_char(out, hex_upper_char((n >> 12) & 0xF));
    push_char(out, hex_upper_char((n >> 8) & 0xF));
    push_char(out, hex_upper_char((n >> 4) & 0xF));
    push_char(out, hex_upper_char(n & 0xF));
    proof {
        assert(out@ =~= old(out)@ + ser_u32(n));
    }
}

/// `ser_u64` is the two `ser_u32` halves, most significant first.
proof fn lemma_ser_u64_split(n: u64)
    ensures
        ser_u64(n) == ser_u32((n >> 32) as u32) + ser_u32(n as u32),
{
    assert(((n >> 60) & 0xF) as u32 == ((((n >> 32) as u32) >> 28) & 0xF)) by (bit_vector);
    assert(((n >> 56) & 0xF) as u32 == ((((n >> 32) as u32) >> 24) & 0xF)) by (bit_vector);
    assert(((n >> 52) & 0xF) as u32 == ((((n >> 32) as u32) >> 20) & 0xF)) by (bit_vector);
    assert(((n >> 48) & 0xF) as u32 == ((((n >> 32) as u32) >> 16) & 0xF)) by (bit_vector);
    assert(((n >> 44) & 0xF) as u32 == ((((n >> 32) as u32) >> 12) & 0xF)) by (bit_vector);
    assert(((n >> 40) & 0xF) as u32 == ((((n >> 32) as u32) >> 8) & 0xF)) by (bit_vector);
    assert(((n >> 36) & 0xF) as u32 == ((((n >> 32) as u32) >> 4) & 0xF)) by (bit_vector);
    assert(((n >> 32) & 0xF) as u32 == (((n >> 32) as u32) & 0xF)) by (bit_vector);
    assert(((n >> 28) & 0xF) as u32 == (((n as u32) >> 28) & 0xF)) by (bit_vector);
    assert(((n >> 24) & 0xF) as u32 == (((n as u32) >> 24) & 0xF)) by (bit_vector);
    assert(((n >> 20) & 0xF) as u32 == (((n as u32) >> 20) & 0xF)) by (bit_vector);
    assert(((n >> 16) & 0xF) as u32 == (((n as u32) >> 16) & 0xF)) by (bit_vector);
    assert(((n >> 12) & 0xF) as u32 == (((n as u32) >> 12) & 0xF)) by (bit_vector);
    assert(((n >> 8) & 0xF) as u32 == (((n as u32) >> 8) & 0xF)) by (bit_vector);
    assert(((n >> 4) & 0xF) as u32 == (((n as u32) >> 4) & 0xF)) by (bit_vector);
    assert((n & 0xF) as u32 == ((n as u32) & 0xF)) by (bit_vector);
    assert(ser_u64(n) =~= ser_u32((n >> 32) as u32) + ser_u32(n as u32));
}

fn write_u64(out: &mut String, n: u64)
    ensures
        final(out)@ == old(out)@ + ser_u64(n),
{
    proof {
        lemma_ser_u64_split(n);
    }
    write_u32(out, (n >> 32) as u32);
    write_u32(out, n as u32);
    proof {
        assert(out@ =~= old(out)@ + ser_u64(n));
    }
}

fn write_str(out: &mut String, s: &str)
    ensures
        final(out)@ == old(out)@ + ser_str(s@),
        s@.len() <= u64::MAX,
{
    let l = s.unicode_len();
    proof {
        assert(usize::MAX <= u64::MAX);
        assert((l as u64) as nat == s@.len());
    }
    write_u64(out, l as u64);
    out.append(s);
    proof {
        assert(out@ =~= old(out)@ + ser_str(s@));
    }
}

fn write_bool(out: &mut String, b: bool)
    ensures
        final(out)@ == old(out)@ + ser_bool(b),
{
    if b {
        push_char(out, '1');
    } else {
        push_char(out, '0');
    }
    proof {
        assert(out@ =~= old(out)@ + ser_bool(b));
    }
}

fn write_engine(out: &mut String, e: &SearchEngine)
    ensures
        final(out)@ == old(out)@ + ser_engine(*e),
{
    match e {
        SearchEngine::Yahoo => push_char(out, 'Y'),
        SearchEngine::Google => push_char(out, 'G'),
        SearchEngine::Bing => push_char(out, 'B'),
        SearchEngine::DuckDuckGo => push_char(out, 'D'),
        SearchEngine::Brave => push_char(out, 'R'),
    }
    proof {
        assert(out@ =~= old(out)@ + ser_engine(*e));
    }
}

fn write_opt_str(out: &mut String, f: &Option<String>)
    ensures
        final(out)@ == old(out)@ + ser_opt_str(opt_view(*f)),
        opt_len_ok(opt_view(*f)),
{
    match f {
        Some(x) => {
            push_char(out, '1');
            write_str(out, x.as_str());
        },
        None => {
            push_char(out, '0');
        },
    }
    proof {
        assert(out@ =~= old(out)@ + ser_opt_str(opt_view(*f)));
    }
}

fn write_tab(out: &mut String, t: &Tab)
    ensures
        final(out)@ == old(out)@ + ser_tab(t@),
        tab_encodable(t@),
{
    write_u32(out, t.id);
    write_str(out, t.title.as_str());
    write_str(out, t.url.as_str());
    write_opt_str(out, &t.favicon);
    write_bool(out, t.is_loading);
    proof {
        assert(t@.favicon == opt_view(t.favicon));
        assert(out@ =~= old(out)@ + ser_tab(t@));
    }
}

fn write_download(out: &mut String, d: &Download)
    ensures
        final(out)@ == old(out)@ + ser_download(d@),
        dl_encodable(d@),
{
    write_u32(out, d.id);
    write_str(out, d.filename.as_str());
    write_bool(out, d.completed);
    proof {
        assert(out@ =~= old(out)@ + ser_download(d@));
    }
}

proof fn lemma_ser_tab_list_app(a: Seq<AbsTab>, b: Seq<AbsTab>)
    ensures
        ser_tab_list(a + b) == ser_tab_list(a) + ser_tab_list(b),
    decreases a.len(),
{
    if a.len() == 0 {
        assert(a + b =~= b);
        assert(ser_tab_list(a) + ser_tab_list(b) =~= ser_tab_list(b));
    } else {
        lemma_ser_tab_list_app(a.drop_first(), b);
        assert((a + b).drop_first() =~= a.drop_first() + b);
        assert((a + b)[0] == a[0]);
        assert(ser_tab_list(a + b) =~= ser_tab_list(a) + ser_tab_list(b));
    }
}

proof fn lemma_ser_download_list_app(a: Seq<AbsDownload>, b: Seq<AbsDownload>)
    ensures
        ser_download_list(a + b) == ser_download_list(a) + ser_download_list(b),
    decreases a.len(),
{
    if a.len() == 0 {
        assert(a + b =~= b);
        assert(ser_download_list(a) + ser_download_list(b) =~= ser_download_list(b));
    } else {
        lemma_ser_download_list_app(a.drop_first(), b);
        assert((a + b).drop_first() =~= a.drop_first() + b);
        assert((a + b)[0] == a[0]);
        assert(ser_download_list(a + b) =~= ser_download_list(a) + ser_download_list(b));
    }
}

proof fn lemma_ser_str_list_app(a: Seq<Seq<char>>, b: Seq<Seq<char>>)
    ensures
        ser_str_list(a + b) == ser_str_list(a) + ser_str_list(b),
    decreases a.len(),
{
    if a.len() == 0 {
        assert(a + b =~= b);
        assert(ser_str_list(a) + ser_str_list(b) =~= ser_str_list(b));
    } else {
        lemma_ser_str_list_app(a.drop_first(), b);
        assert((a + b).drop_first() =~= a.drop_first() + b);
        assert((a + b)[0] == a[0]);
        assert(ser_str_list(a + b) =~= ser_str_list(a) + ser_str_list(b));
    }
}

/// Serialize a state into the persisted text form.
#[verifier::rlimit(100)]
pub fn save(state: &BrowserState) -> (r: String)
    ensures
        r@ == spec_save(state@),
        encodable(state@),
{
    let mut out = String::new();
    let ntabs = state.tabs.len();
    write_u64(&mut out, ntabs as u64);
    let mut i: usize = 0;
    while i < ntabs
        invariant
            ntabs == state.tabs@.len(),
            i <= ntabs,
            out@ == ser_u64(ntabs as u64) + ser_tab_list(abs_tabs(state.tabs@.take(i as int))),
            forall|j: int| 0 <= j < i ==> tab_encodable(#[trigger] abs_tabs(state.tabs@)[j]),
        decreases ntabs - i,
    {
        write_tab(&mut out, &state.tabs[i]);
        proof {
            let pre = abs_tabs(state.tabs@.take(i as int));
            let one = seq![state.tabs@[i as int]@];
            assert(abs_tabs(state.tabs@.take(i + 1)) =~= pre + one);
            lemma_ser_tab_list_app(pre, one);
            assert(one.drop_first() =~= Seq::<AbsTab>::empty());
            assert(ser_tab_list(Seq::<AbsTab>::empty()) == Seq::<char>::empty());
            assert(ser_tab_list(one) =~= ser_tab(state.tabs@[i as int]@));
            assert(out@ =~= ser_u64(ntabs as u64) + ser_tab_list(abs_tabs(state.tabs@.take(i + 1))));
        }
        i = i + 1;
    }
    proof {
        assert(state.tabs@.take(ntabs as int) =~= state.tabs@);
    }
    write_u32(&mut out, state.active_tab_id);
    write_u32(&mut out, state.next_tab_id);
    write_engine(&mut out, &state.search_engine);
    write_str(&mut out, state.proxy_server.as_str());
    let ndls = state.downloads.len();
    write_u64(&mut out, ndls as u64);
    let ghost mid = out@;
    let mut i: usize = 0;
    while i < ndls
        invariant
            ndls == state.downloads@.len(),
            i <= ndls,
            out@ == mid + ser_download_list(abs_downloads(state.downloads@.take(i as int))),
            forall|j: int| 0 <= j < i ==> dl_encodable(#[trigger] abs_downloads(state.downloads@)[j]),
        decreases ndls - i,
    {
        write_download(&mut out, &state.downloads[i]);
        proof {
            let pre = abs_downloads(state.downloads@.take(i as int));
            let one = seq![state.downloads@[i as int]@];
            assert(abs_downloads(state.downloads@.take(i + 1)) =~= pre + one);
            lemma_ser_download_list_app(pre, one);
            assert(one.drop_first() =~= Seq::<AbsDownload>::empty());
            assert(ser_download_list(Seq::<AbsDownload>::empty()) == Seq::<char>::empty());
            assert(ser_download_list(one) =~= ser_download(state.downloads@[i as int]@));
            assert(out@ =~= mid + ser_download_list(abs_downloads(state.downloads@.take(i + 1))));
        }
        i = i + 1;
    }
    proof {
        assert(state.downloads@.take(ndls as int) =~= state.downloads@);
    }
    let nh = state.history.len();
    write_u64(&mut out, nh as u64);
    let ghost mid2 = out@;
    let mut i: usize = 0;
    while i < nh
        invariant
            nh == state.history@.len(),
            i <= nh,
            out@ == mid2 + ser_str_list(abs_history(state.history@.take(i as int))),
            forall|j: int| 0 <= j < i ==> (#[trigger] abs_history(state.history@)[j]).len()
                <= u64::MAX,
        decreases nh - i,
    {
        write_str(&mut out, state.history[i].as_str());
        proof {
            let pre = abs_history(state.history@.take(i as int));
            let one = seq![state.history@[i as int]@];
            assert(abs_history(state.history@.take(i + 1)) =~= pre + one);
            lemma_ser_str_list_app(pre, one);
            assert(one.drop_first() =~= Seq::<Seq<char>>::empty());
            assert(ser_str_list(Seq::<Seq<char>>::empty()) == Seq::<char>::empty());
            assert(ser_str_list(one) =~= ser_str(state.history@[i as int]@));
            assert(out@ =~= mid2 + ser_str_list(abs_history(state.history@.take(i + 1))));
        }
        i = i + 1;
    }
    proof {
        assert(state.history@.take(nh as int) =~= state.history@);
    }
    write_u64(&mut out, state.history_index as u64);
    proof {
        assert(usize::MAX <= u64::MAX);
        assert(out@ =~= spec_save(state@));
    }
    out
}

fn chars_of(s: &str) -> (v: Vec<char>)
    ensures
        v@ == s@,
{
    let n = s.unicode_len();
    let mut v: Vec<char> = Vec::new();
    let mut i: usize = 0;
    while i < n
        invariant
            n == s@.len(),
            i <= n,
            v@ == s@.take(i as int),
        decreases n - i,
    {
        v.push(s.get_char(i));
        proof {
            assert(s@.take(i + 1) =~= s@.take(i as int).push(s@[i as int]));
        }
        i = i + 1;
    }
    proof {
        assert(s@.take(n as int) =~= s@);
    }
    v
}

fn parse_u32(v: &Vec<char>, i: usize) -> (r: Option<(u32, usize)>)
    requires
        i <= v@.len(),
    ensures
        match r {
            Some(p) => i <= p.1 <= v@.len() && spec_parse_u32(v@.skip(i as int)) == Some(
                (p.0, v@.skip(p.1 as int)),
            ),
            None => spec_parse_u32(v@.skip(i as int)) is None,
        },
{
    proof {
        reveal(spec_parse_u32);
    }
    if v.len() - i < 8 {
        return None;
    }
    let d0 = hex_val_char(v[i]);
    let d1 = hex_val_char(v[i + 1]);
    let d2 = hex_val_char(v[i + 2]);
    let d3 = hex_val_char(v[i + 3]);
    let d4 = hex_val_char(v[i + 4]);
    let d5 = hex_val_char(v[i + 5]);
    let d6 = hex_val_char(v[i + 6]);
    let d7 = hex_val_char(v[i + 7]);
    proof {
        let s = v@.skip(i as int);
        assert(s[0] == v@[i as int]);
        assert(s[1] == v@[i + 1]);
        assert(s[2] == v@[i + 2]);
        assert(s[3] == v@[i + 3]);
        assert(s[4] == v@[i + 4]);
        assert(s[5] == v@[i + 5]);
        assert(s[6] == v@[i + 6]);
        assert(s[7] == v@[i + 7]);
    }
    if d0 < 16 && d1 < 16 && d2 < 16 && d3 < 16 && d4 < 16 && d5 < 16 && d6 < 16 && d7 < 16 {
        let n = (d0 << 28) | (d1 << 24) | (d2 << 20) | (d3 << 16) | (d4 << 12) | (d5 << 8) | (d6
            << 4) | d7;
        proof {
            assert(v@.skip(i as int).skip(8) =~= v@.skip(i + 8));
        }
        Some((n, i + 8))
    } else {
        None
    }
}

fn parse_u64(v: &Vec<char>, i: usize) -> (r: Option<(u64, usize)>)
    requires
        i <= v@.len(),
    ensures
        match r {
            Some(p) => i <= p.1 <= v@.len() && spec_parse_u64(v@.skip(i as int)) == Some(
                (p.0, v@.skip(p.1 as int)),
            ),
            None => spec_parse_u64(v@.skip(i as int)) is None,
        },
{
    proof {
        reveal(spec_parse_u64);
        reveal(spec_parse_u32);
    }
    if v.len() - i < 16 {
        return None;
    }
    let (hi, j) = match parse_u32(v, i) {
        Some(p) => p,
        None => {
            return None;
        },
    };
    proof {
        assert(v@.skip(j as int) == v@.skip(i as int).skip(8));
    }
    let (lo, j2) = match parse_u32(v, j) {
        Some(p) => p,
        None => {
            return None;
        },
    };
    let n = ((hi as u64) << 32) | (lo as u64);
    Some((n, j2))
}

fn parse_str(v: &Vec<char>, i: usize) -> (r: Option<(String, usize)>)
    requires
        i <= v@.len(),
    ensures
        match r {
            Some(p) => i <= p.1 <= v@.len() && spec_parse_str(v@.skip(i as int)) == Some(
                (p.0@, v@.skip(p.1 as int)),
            ),
            None => spec_parse_str(v@.skip(i as int)) is None,
        },
{
    proof {
        reveal(spec_parse_str);
    }
    let (n, j) = match parse_u64(v, i) {
        Some(p) => p,
        None => {
            return None;
        },
    };
    let rem = v.len() - j;
    if n > rem as u64 {
        proof {
            assert(v@.skip(j as int).len() < n);
        }
        return None;
    }
    let len = n as usize;
    let mut out = String::new();
    let mut k: usize = 0;
    while k < len
        invariant
            j + len <= v@.len(),
            v@.len() <= usize::MAX,
            k <= len,
            out@ == v@.subrange(j as int, j + k),
        decreases len - k,
    {
        push_char(&mut out, v[j + k]);
        proof {
            assert(v@.subrange(j as int, j + k + 1) =~= v@.subrange(j as int, j + k).push(
                v@[j + k],
            ));
        }
        k = k + 1;
    }
    proof {
        let s1 = v@.skip(j as int);
        assert(s1.take(n as int) =~= v@.subrange(j as int, j + len));
        assert(s1.skip(n as int) =~= v@.skip(j + len));
    }
    Some((out, j + len))
}

fn parse_bool(v: &Vec<char>, i: usize) -> (r: Option<(bool, usize)>)
    requires
        i <= v@.len(),
    ensures
        match r {
            Some(p) => i <= p.1 <= v@.len() && spec_parse_bool(v@.skip(i as int)) == Some(
                (p.0, v@.skip(p.1 as int)),
            ),
            None => spec_parse_bool(v@.skip(i as int)) is None,
        },
{
    if v.len() - i < 1 {
        return None;
    }
    proof {
        assert(v@.skip(i as int)[0] == v@[i as int]);
        assert(v@.skip(i as int).skip(1) =~= v@.skip(i + 1));
    }
    let c = v[i];
    if c == '1' {
        Some((true, i + 1))
    } else if c == '0' {
        Some((false, i + 1))
    } else {
        None
    }
}

fn parse_engine(v: &Vec<char>, i: usize) -> (r: Option<(SearchEngine, usize)>)
    requires
        i <= v@.len(),
    ensures
        match r {
            Some(p) => i <= p.1 <= v@.len() && spec_parse_engine(v@.skip(i as int)) == Some(
                (p.0, v@.skip(p.1 as int)),
            ),
            None => spec_parse_engine(v@.skip(i as int)) is None,
        },
{
    if v.len() - i < 1 {
        return None;
    }
    proof {
        assert(v@.skip(i as int)[0] == v@[i as int]);
        assert(v@.skip(i as int).skip(1) =~= v@.skip(i + 1));
    }
    let c = v[i];
    if c == 'Y' {
        Some((SearchEngine::Yahoo, i + 1))
    } else if c == 'G' {
        Some((SearchEngine::Google, i + 1))
    } else if c == 'B' {
        Some((SearchEngine::Bing, i + 1))
    } else if c == 'D' {
        Some((SearchEngine::DuckDuckGo, i + 1))
    } else if c == 'R' {
        Some((SearchEngine::Brave, i + 1))
    } else {
        None
    }
}

fn parse_opt_str(v: &Vec<char>, i: usize) -> (r: Option<(Option<String>, usize)>)
    requires
        i <= v@.len(),
    ensures
        match r {
            Some(p) => i <= p.1 <= v@.len() && spec_parse_opt_str(v@.skip(i as int)) == Some(
                (opt_view(p.0), v@.skip(p.1 as int)),
            ),
            None => spec_parse_opt_str(v@.skip(i as int)) is None,
        },
{
    proof {
        reveal(spec_parse_opt_str);
    }
    if v.len() - i < 1 {
        return None;
    }
    proof {
        assert(v@.skip(i as int)[0] == v@[i as int]);
        assert(v@.skip(i as int).skip(1) =~= v@.skip(i + 1));
    }
    let c = v[i];
    if c == '0' {
        Some((None, i + 1))
    } else if c == '1' {
        match parse_str(v, i + 1) {
            Some((t, j)) => Some((Some(t), j)),
            None => None,
        }
    } else {
        None
    }
}

fn parse_usize(v: &Vec<char>, i: usize) -> (r: Option<(usize, usize)>)
    requires
        i <= v@.len(),
    ensures
        match r {
            Some(p) => i <= p.1 <= v@.len() && spec_parse_usize(v@.skip(i as int)) == Some(
                (p.0, v@.skip(p.1 as int)),
            ),
            None => spec_parse_usize(v@.skip(i as int)) is None,
        },
{
    let (n, j) = match parse_u64(v, i) {
        Some(p) => p,
        None => {
            return None;
        },
    };
    if n <= usize::MAX as u64 {
        Some((n as usize, j))
    } else {
        None
    }
}

fn parse_tab(v: &Vec<char>, i: usize) -> (r: Option<(Tab, usize)>)
    requires
        i <= v@.len(),
    ensures
        match r {
            Some(p) => i <= p.1 <= v@.len() && spec_parse_tab(v@.skip(i as int)) == Some(
                (p.0@, v@.skip(p.1 as int)),
            ),
            None => spec_parse_tab(v@.skip(i as int)) is None,
        },
{
    proof {
        reveal(spec_parse_tab);
    }
    let (id, j1) = match parse_u32(v, i) {
        Some(p) => p,
        None => {
            return None;
        },
    };
    let (title, j2) = match parse_str(v, j1) {
        Some(p) => p,
        None => {
            return None;
        },
    };
    let (url, j3) = match parse_str(v, j2) {
        Some(p) => p,
        None => {
            return None;
        },
    };
    let (favicon, j4) = match parse_opt_str(v, j3) {
        Some(p) => p,
        None => {
            return None;
        },
    };
    let (is_loading, j5) = match parse_bool(v, j4) {
        Some(p) => p,
        None => {
            return None;
        },
    };
    let tab = Tab { id, title, url, favicon, is_loading };
    proof {
        assert(tab@ =~= AbsTab {
            id,
            title: tab.title@,
            url: tab.url@,
            favicon: opt_view(tab.favicon),
            is_loading,
        });
    }
    Some((tab, j5))
}

fn parse_download(v: &Vec<char>, i: usize) -> (r: Option<(Download, usize)>)
    requires
        i <= v@.len(),
    ensures
        match r {
            Some(p) => i <= p.1 <= v@.len() && spec_parse_download(v@.skip(i as int)) == Some(
                (p.0@, v@.skip(p.1 as int)),
            ),
            None => spec_parse_download(v@.skip(i as int)) is None,
        },
{
    proof {
        reveal(spec_parse_download);
    }
    let (id, j1) = match parse_u32(v, i) {
        Some(p) => p,
        None => {
            return None;
        },
    };
    let (filename, j2) = match parse_str(v, j1) {
        Some(p) => p,
        None => {
            return None;
        },
    };
    let (completed, j3) = match parse_bool(v, j2) {
        Some(p) => p,
        None => {
            return None;
        },
    };
    let d = Download { id, filename, completed };
    proof {
        assert(d@ =~= AbsDownload { id, filename: d.filename@, completed });
    }
    Some((d, j3))
}

spec fn tabs_cont(whole: Seq<char>, n: u64, acc: Seq<AbsTab>, rem: Seq<char>, left: u64) -> bool {
    match spec_parse_tabs(rem, left) {
        Some(p) => spec_parse_tabs(whole, n) == Some((acc + p.0, p.1)),
        None => spec_parse_tabs(whole, n) is None,
    }
}

fn parse_tabs(v: &Vec<char>, i: usize, n: u64) -> (r: Option<(Vec<Tab>, usize)>)
    requires
        i <= v@.len(),
    ensures
        match r {
            Some(p) => i <= p.1 <= v@.len() && spec_parse_tabs(v@.skip(i as int), n) == Some(
                (abs_tabs(p.0@), v@.skip(p.1 as int)),
            ),
            None => spec_parse_tabs(v@.skip(i as int), n) is None,
        },
{
    let mut acc: Vec<Tab> = Vec::new();
    let mut cur: usize = i;
    let mut k: u64 = 0;
    proof {
        assert(abs_tabs(acc@) =~= Seq::<AbsTab>::empty());
        match spec_parse_tabs(v@.skip(i as int), n) {
            Some(p) => {
                assert(Seq::<AbsTab>::empty() + p.0 =~= p.0);
            },
            None => {},
        }
    }
    while k < n
        invariant
            i <= cur <= v@.len(),
            k <= n,
            tabs_cont(v@.skip(i as int), n, abs_tabs(acc@), v@.skip(cur as int), (n - k) as u64),
        decreases n - k,
    {
        match parse_tab(v, cur) {
            None => {
                return None;
            },
            Some((tab, j)) => {
                proof {
                    let rem = v@.skip(cur as int);
                    let left = (n - k) as u64;
                    let remn = v@.skip(j as int);
                    assert(spec_parse_tab(rem) == Some((tab@, remn)));
                    match spec_parse_tabs(remn, (left - 1) as u64) {
                        Some(p) => {
                            assert(spec_parse_tabs(rem, left) == Some((seq![tab@] + p.0, p.1)));
                            assert(abs_tabs(acc@.push(tab)) =~= abs_tabs(acc@) + seq![tab@]);
                            assert((abs_tabs(acc@) + seq![tab@]) + p.0 =~= abs_tabs(acc@) + (seq![
                                tab@,
                            ] + p.0));
                        },
                        None => {
                            assert(spec_parse_tabs(rem, left) is None);
                        },
                    }
                }
                acc.push(tab);
                cur = j;
                k = k + 1;
            },
        }
    }
    proof {
        assert(abs_tabs(acc@) + Seq::<AbsTab>::empty() =~= abs_tabs(acc@));
    }
    Some((acc, cur))
}

spec fn dls_cont(
    whole: Seq<char>,
    n: u64,
    acc: Seq<AbsDownload>,
    rem: Seq<char>,
    left: u64,
) -> bool {
    match spec_parse_downloads(rem, left) {
        Some(p) => spec_parse_downloads(whole, n) == Some((acc + p.0, p.1)),
        None => spec_parse_downloads(whole, n) is None,
    }
}

fn parse_downloads(v: &Vec<char>, i: usize, n: u64) -> (r: Option<(Vec<Download>, usize)>)
    requires
        i <= v@.len(),
    ensures
        match r {
            Some(p) => i <= p.1 <= v@.len() && spec_parse_downloads(v@.skip(i as int), n) == Some(
                (abs_downloads(p.0@), v@.skip(p.1 as int)),
            ),
            None => spec_parse_downloads(v@.skip(i as int), n) is None,
        },
{
    let mut acc: Vec<Download> = Vec::new();
    let mut cur: usize = i;
    let mut k: u64 = 0;
    proof {
        assert(abs_downloads(acc@) =~= Seq::<AbsDownload>::empty());
        match spec_parse_downloads(v@.skip(i as int), n) {
            Some(p) => {
                assert(Seq::<AbsDownload>::empty() + p.0 =~= p.0);
            },
            None => {},
        }
    }
    while k < n
        invariant
            i <= cur <= v@.len(),
            k <= n,
            dls_cont(
                v@.skip(i as int),
                n,
                abs_downloads(acc@),
                v@.skip(cur as int),
                (n - k) as u64,
            ),
        decreases n - k,
    {
        match parse_download(v, cur) {
            None => {
                return None;
            },
            Some((d, j)) => {
                proof {
                    let rem = v@.skip(cur as int);
                    let left = (n - k) as u64;
                    let remn = v@.skip(j as int);
                    assert(spec_parse_download(rem) == Some((d@, remn)));
                    match spec_parse_downloads(remn, (left - 1) as u64) {
                        Some(p) => {
                            assert(spec_parse_downloads(rem, left) == Some((seq![d@] + p.0, p.1)));
                            assert(abs_downloads(acc@.push(d)) =~= abs_downloads(acc@) + seq![d@]);
                            assert((abs_downloads(acc@) + seq![d@]) + p.0 =~= abs_downloads(acc@)
                                + (seq![d@] + p.0));
                        },
                        None => {
                            assert(spec_parse_downloads(rem, left) is None);
                        },
                    }
                }
                acc.push(d);
                cur = j;
                k = k + 1;
            },
        }
    }
    proof {
        assert(abs_downloads(acc@) + Seq::<AbsDownload>::empty() =~= abs_downloads(acc@));
    }
    Some((acc, cur))
}

spec fn hist_cont(
    whole: Seq<char>,
    n: u64,
    acc: Seq<Seq<char>>,
    rem: Seq<char>,
    left: u64,
) -> bool {
    match spec_parse_history(rem, left) {
        Some(p) => spec_parse_history(whole, n) == Some((acc + p.0, p.1)),
        None => spec_parse_history(whole, n) is None,
    }
}

fn parse_history(v: &Vec<char>, i: usize, n: u64) -> (r: Option<(Vec<String>, usize)>)
    requires
        i <= v@.len(),
    ensures
        match r {
            Some(p) => i <= p.1 <= v@.len() && spec_parse_history(v@.skip(i as int), n) == Some(
                (abs_history(p.0@), v@.skip(p.1 as int)),
            ),
            None => spec_parse_history(v@.skip(i as int), n) is None,
        },
{
    let mut acc: Vec<String> = Vec::new();
    let mut cur: usize = i;
    let mut k: u64 = 0;
    proof {
        assert(abs_history(acc@) =~= Seq::<Seq<char>>::empty());
        match spec_parse_history(v@.skip(i as int), n) {
            Some(p) => {
                assert(Seq::<Seq<char>>::empty() + p.0 =~= p.0);
            },
            None => {},
        }
    }
    while k < n
        invariant
            i <= cur <= v@.len(),
            k <= n,
            hist_cont(
                v@.skip(i as int),
                n,
                abs_history(acc@),
                v@.skip(cur as int),
                (n - k) as u64,
            ),
        decreases n - k,
    {
        match parse_str(v, cur) {
            None => {
                return None;
            },
            Some((h, j)) => {
                proof {
                    let rem = v@.skip(cur as int);
                    let left = (n - k) as u64;
                    let remn = v@.skip(j as int);
                    assert(spec_parse_str(rem) == Some((h@, remn)));
                    match spec_parse_history(remn, (left - 1) as u64) {
                        Some(p) => {
                            assert(spec_parse_history(rem, left) == Some((seq![h@] + p.0, p.1)));
                            assert(abs_history(acc@.push(h)) =~= abs_history(acc@) + seq![h@]);
                            assert((abs_history(acc@) + seq![h@]) + p.0 =~= abs_history(acc@) + (
                            seq![h@] + p.0));
                        },
                        None => {
                            assert(spec_parse_history(rem, left) is None);
                        },
                    }
                }
                acc.push(h);
                cur = j;
                k = k + 1;
            },
        }
    }
    proof {
        assert(abs_history(acc@) + Seq::<Seq<char>>::empty() =~= abs_history(acc@));
    }
    Some((acc, cur))
}

fn parse_state(v: &Vec<char>, i: usize) -> (r: Option<(BrowserState, usize)>)
    requires
        i <= v@.len(),
    ensures
        match r {
            Some(p) => i <= p.1 <= v@.len() && spec_parse_state(v@.skip(i as int)) == Some(
                (p.0@, v@.skip(p.1 as int)),
            ),
            None => spec_parse_state(v@.skip(i as int)) is None,
        },
{
    let (ntabs, j1) = match parse_u64(v, i) {
        Some(p) => p,
        None => {
            return None;
        },
    };
    let (tabs, j2) = match parse_tabs(v, j1, ntabs) {
        Some(p) => p,
        None => {
            return None;
        },
    };
    let (active_tab_id, j3) = match parse_u32(v, j2) {
        Some(p) => p,
        None => {
            return None;
        },
    };
    let (next_tab_id, j4) = match parse_u32(v, j3) {
        Some(p) => p,
        None => {
            return None;
        },
    };
    let (search_engine, j5) = match parse_engine(v, j4) {
        Some(p) => p,
        None => {
            return None;
        },
    };
    let (proxy_server, j6) = match parse_str(v, j5) {
        Some(p) => p,
        None => {
            return None;
        },
    };
    let (ndls, j7) = match parse_u64(v, j6) {
        Some(p) => p,
        None => {
            return None;
        },
    };
    let (downloads, j8) = match parse_downloads(v, j7, ndls) {
        Some(p) => p,
        None => {
            return None;
        },
    };
    let (nh, j9) = match parse_u64(v, j8) {
        Some(p) => p,
        None => {
            return None;
        },
    };
    let (history, j10) = match parse_history(v, j9, nh) {
        Some(p) => p,
        None => {
            return None;
        },
    };
    let (history_index, j11) = match parse_usize(v, j10) {
        Some(p) => p,
        None => {
            return None;
        },
    };
    let st = BrowserState {
        tabs,
        active_tab_id,
        next_tab_id,
        search_engine,
        proxy_server,
        downloads,
        history,
        history_index,
    };
    proof {
        assert(st@ =~= AbsState {
            tabs: abs_tabs(st.tabs@),
            active_tab_id,
            next_tab_id,
            search_engine,
            proxy_server: st.proxy_server@,
            downloads: abs_downloads(st.downloads@),
            history: abs_history(st.history@),
            history_index,
        });
    }
    Some((st, j11))
}

/// Whether a state satisfies the documented invariant; used to reject
/// corrupt snapshots.
fn check_wf(state: &BrowserState) -> (r: bool)
    ensures
        r == wf_state(state@),
{
    let n = state.tabs.len();
    if n == 0 {
        return false;
    }
    match find_tab_index(&state.tabs, state.active_tab_id) {
        None => {
            return false;
        },
        Some(_) => {},
    }
    let mut i: usize = 0;
    while i < n
        invariant
            n == state.tabs@.len(),
            i <= n,
            forall|a: int, b: int|
                0 <= a < b < n && a < i ==> (#[trigger] abs_tabs(state.tabs@)[a].id) != (
                #[trigger] abs_tabs(state.tabs@)[b].id),
            forall|a: int|
                0 <= a < i ==> (#[trigger] abs_tabs(state.tabs@)[a].id) < state.next_tab_id,
        decreases n - i,
    {
        if state.tabs[i].id >= state.next_tab_id {
            proof {
                assert(abs_tabs(state.tabs@)[i as int].id == state.tabs@[i as int]@.id);
            }
            return false;
        }
        let mut j: usize = i + 1;
        while j < n
            invariant
                n == state.tabs@.len(),
                i < j <= n,
                forall|b: int|
                    i < b < j ==> (#[trigger] abs_tabs(state.tabs@)[b].id) != abs_tabs(
                        state.tabs@,
                    )[i as int].id,
            decreases n - j,
        {
            if state.tabs[j].id == state.tabs[i].id {
                proof {
                    assert(abs_tabs(state.tabs@)[i as int].id == state.tabs@[i as int]@.id);
                    assert(abs_tabs(state.tabs@)[j as int].id == state.tabs@[j as int]@.id);
                }
                return false;
            }
            j = j + 1;
        }
        i = i + 1;
    }
    true
}

/// Parse a persisted snapshot; any text that is not a complete snapshot of a
/// well-formed state yields the default state.
pub fn load(input: &str) -> (r: BrowserState)
    ensures
        r@ == spec_load(input@),
{
    let v = chars_of(input);
    proof {
        assert(v@.skip(0) =~= input@);
    }
    match parse_state(&v, 0) {
        Some((st, j)) => {
            if j == v.len() && check_wf(&st) {
                proof {
                    assert(v@.skip(j as int).len() == 0);
                }
                st
            } else {
                proof {
                    if j != v.len() {
                        assert(v@.skip(j as int).len() > 0);
                    }
                }
                BrowserState::default()
            }
        },
        None => BrowserState::default(),
    }
}

proof fn lemma_rt_u32(n: u32, rest: Seq<char>)
    ensures
        spec_parse_u32(ser_u32(n) + rest) == Some((n, rest)),
{
    reveal(spec_parse_u32);
    let s = ser_u32(n) + rest;
    assert((n >> 28) & 0xF < 16 && (n >> 24) & 0xF < 16 && (n >> 20) & 0xF < 16 && (n >> 16) & 0xF
        < 16 && (n >> 12) & 0xF < 16 && (n >> 8) & 0xF < 16 && (n >> 4) & 0xF < 16 && n & 0xF
        < 16) by (bit_vector);
    lemma_hex_rt((n >> 28) & 0xF);
    lemma_hex_rt((n >> 24) & 0xF);
    lemma_hex_rt((n >> 20) & 0xF);
    lemma_hex_rt((n >> 16) & 0xF);
    lemma_hex_rt((n >> 12) & 0xF);
    lemma_hex_rt((n >> 8) & 0xF);
    lemma_hex_rt((n >> 4) & 0xF);
    lemma_hex_rt(n & 0xF);
    assert(s[0] == hex_upper((n >> 28) & 0xF));
    assert(s[1] == hex_upper((n >> 24) & 0xF));
    assert(s[2] == hex_upper((n >> 20) & 0xF));
    assert(s[3] == hex_upper((n >> 16) & 0xF));
    assert(s[4] == hex_upper((n >> 12) & 0xF));
    assert(s[5] == hex_upper((n >> 8) & 0xF));
    assert(s[6] == hex_upper((n >> 4) & 0xF));
    assert(s[7] == hex_upper(n & 0xF));
    assert((((n >> 28) & 0xF) << 28) | (((n >> 24) & 0xF) << 24) | (((n >> 20) & 0xF) << 20) | (((n
        >> 16) & 0xF) << 16) | (((n >> 12) & 0xF) << 12) | (((n >> 8) & 0xF) << 8) | (((n >> 4)
        & 0xF) << 4) | (n & 0xF) == n) by (bit_vector);
    assert(s.skip(8) =~= rest);
}

proof fn lemma_rt_u64(n: u64, rest: Seq<char>)
    ensures
        spec_parse_u64(ser_u64(n) + rest) == Some((n, rest)),
{
    reveal(spec_parse_u64);
    let hi = (n >> 32) as u32;
    let lo = n as u32;
    lemma_ser_u64_split(n);
    let s = ser_u64(n) + rest;
    assert(s =~= ser_u32(hi) + (ser_u32(lo) + rest));
    lemma_rt_u32(hi, ser_u32(lo) + rest);
    assert(s.skip(8) =~= ser_u32(lo) + rest);
    lemma_rt_u32(lo, rest);
    assert((((n >> 32) as u32 as u64) << 32) | (n as u32 as u64) == n) by (bit_vector);
}

proof fn lemma_rt_str(t: Seq<char>, rest: Seq<char>)
    requires
        t.len() <= u64::MAX,
    ensures
        spec_parse_str(ser_str(t) + rest) == Some((t, rest)),
{
    reveal(spec_parse_str);
    let l = t.len() as u64;
    lemma_rt_u64(l, t + rest);
    assert(ser_str(t) + rest =~= ser_u64(l) + (t + rest));
    assert(l as nat == t.len());
    assert((t + rest).take(l as int) =~= t);
    assert((t + rest).skip(l as int) =~= rest);
}

proof fn lemma_rt_bool(b: bool, rest: Seq<char>)
    ensures
        spec_parse_bool(ser_bool(b) + rest) == Some((b, rest)),
{
    let s = ser_bool(b) + rest;
    assert(s.skip(1) =~= rest);
}

proof fn lemma_rt_engine(e: SearchEngine, rest: Seq<char>)
    ensures
        spec_parse_engine(ser_engine(e) + rest) == Some((e, rest)),
{
    let s = ser_engine(e) + rest;
    assert(s.skip(1) =~= rest);
}

proof fn lemma_rt_opt_str(f: Option<Seq<char>>, rest: Seq<char>)
    requires
        opt_len_ok(f),
    ensures
        spec_parse_opt_str(ser_opt_str(f) + rest) == Some((f, rest)),
{
    reveal(spec_parse_opt_str);
    let s = ser_opt_str(f) + rest;
    match f {
        None => {
            assert(s.skip(1) =~= rest);
        },
        Some(t) => {
            assert(s[0] == '1');
            assert(s.skip(1) =~= ser_str(t) + rest);
            lemma_rt_str(t, rest);
        },
    }
}

#[verifier::rlimit(100)]
proof fn lemma_rt_tab(t: AbsTab, rest: Seq<char>)
    requires
        tab_encodable(t),
    ensures
        spec_parse_tab(ser_tab(t) + rest) == Some((t, rest)),
{
    reveal(spec_parse_tab);
    let r5 = rest;
    let r4 = ser_bool(t.is_loading) + r5;
    let r3 = ser_opt_str(t.favicon) + r4;
    let r2 = ser_str(t.url) + r3;
    let r1 = ser_str(t.title) + r2;
    assert(ser_tab(t) + rest =~= ser_u32(t.id) + r1);
    lemma_rt_u32(t.id, r1);
    lemma_rt_str(t.title, r2);
    lemma_rt_str(t.url, r3);
    lemma_rt_opt_str(t.favicon, r4);
    lemma_rt_bool(t.is_loading, r5);
    assert(AbsTab {
        id: t.id,
        title: t.title,
        url: t.url,
        favicon: t.favicon,
        is_loading: t.is_loading,
    } =~= t);
}

#[verifier::rlimit(100)]
proof fn lemma_rt_download(d: AbsDownload, rest: Seq<char>)
    requires
        dl_encodable(d),
    ensures
        spec_parse_download(ser_download(d) + rest) == Some((d, rest)),
{
    reveal(spec_parse_download);
    let r3 = rest;
    let r2 = ser_bool(d.completed) + r3;
    let r1 = ser_str(d.filename) + r2;
    assert(ser_download(d) + rest =~= ser_u32(d.id) + r1);
    lemma_rt_u32(d.id, r1);
    lemma_rt_str(d.filename, r2);
    lemma_rt_bool(d.completed, r3);
    assert(AbsDownload { id: d.id, filename: d.filename, completed: d.completed } =~= d);
}

#[verifier::rlimit(100)]
proof fn lemma_rt_tabs(ts: Seq<AbsTab>, rest: Seq<char>)
    requires
        ts.len() <= u64::MAX,
        forall|i: int| 0 <= i < ts.len() ==> tab_encodable(#[trigger] ts[i]),
    ensures
        spec_parse_tabs(ser_tab_list(ts) + rest, ts.len() as u64) == Some((ts, rest)),
    decreases ts.len(),
{
    if ts.len() == 0 {
        assert(ser_tab_list(ts) + rest =~= rest);
        assert(Seq::<AbsTab>::empty() =~= ts);
    } else {
        let d = ts.drop_first();
        lemma_rt_tab(ts[0], ser_tab_list(d) + rest);
        assert(ser_tab_list(ts) + rest =~= ser_tab(ts[0]) + (ser_tab_list(d) + rest));
        assert(forall|i: int| 0 <= i < d.len() ==> tab_encodable(#[trigger] d[i]));
        lemma_rt_tabs(d, rest);
        assert((ts.len() as u64 - 1) as u64 == d.len() as u64);
        assert(seq![ts[0]] + d =~= ts);
    }
}

#[verifier::rlimit(100)]
proof fn lemma_rt_downloads(ds: Seq<AbsDownload>, rest: Seq<char>)
    requires
        ds.len() <= u64::MAX,
        forall|i: int| 0 <= i < ds.len() ==> dl_encodable(#[trigger] ds[i]),
    ensures
        spec_parse_downloads(ser_download_list(ds) + rest, ds.len() as u64) == Some((ds, rest)),
    decreases ds.len(),
{
    if ds.len() == 0 {
        assert(ser_download_list(ds) + rest =~= rest);
        assert(Seq::<AbsDownload>::empty() =~= ds);
    } else {
        let d = ds.drop_first();
        lemma_rt_download(ds[0], ser_download_list(d) + rest);
        assert(ser_download_list(ds) + rest =~= ser_download(ds[0]) + (ser_download_list(d)
            + rest));
        assert(forall|i: int| 0 <= i < d.len() ==> dl_encodable(#[trigger] d[i]));
        lemma_rt_downloads(d, rest);
        assert((ds.len() as u64 - 1) as u64 == d.len() as u64);
        assert(seq![ds[0]] + d =~= ds);
    }
}

#[verifier::rlimit(100)]
proof fn lemma_rt_history(hs: Seq<Seq<char>>, rest: Seq<char>)
    requires
        hs.len() <= u64::MAX,
        forall|i: int| 0 <= i < hs.len() ==> (#[trigger] hs[i]).len() <= u64::MAX,
    ensures
        spec_parse_history(ser_str_list(hs) + rest, hs.len() as u64) == Some((hs, rest)),
    decreases hs.len(),
{
    if hs.len() == 0 {
        assert(ser_str_list(hs) + rest =~= rest);
        assert(Seq::<Seq<char>>::empty() =~= hs);
    } else {
        let d = hs.drop_first();
        lemma_rt_str(hs[0], ser_str_list(d) + rest);
        assert(ser_str_list(hs) + rest =~= ser_str(hs[0]) + (ser_str_list(d) + rest));
        assert(forall|i: int| 0 <= i < d.len() ==> (#[trigger] d[i]).len() <= u64::MAX);
        lemma_rt_history(d, rest);
        assert((hs.len() as u64 - 1) as u64 == d.len() as u64);
        assert(seq![hs[0]] + d =~= hs);
    }
}

#[verifier::rlimit(100)]
proof fn lemma_rt_state(s: AbsState, rest: Seq<char>)
    requires
        encodable(s),
    ensures
        spec_parse_state(spec_save(s) + rest) == Some((s, rest)),
{
    let r11 = rest;
    let r10 = ser_u64(s.history_index as u64) + r11;
    let r9 = ser_str_list(s.history) + r10;
    let r8 = ser_u64(s.history.len() as u64) + r9;
    let r7 = ser_download_list(s.downloads) + r8;
    let r6 = ser_u64(s.downloads.len() as u64) + r7;
    let r5 = ser_str(s.proxy_server) + r6;
    let r4 = ser_engine(s.search_engine) + r5;
    let r3 = ser_u32(s.next_tab_id) + r4;
    let r2 = ser_u32(s.active_tab_id) + r3;
    let r1 = ser_tab_list(s.tabs) + r2;
    assert(spec_save(s) + rest =~= ser_u64(s.tabs.len() as u64) + r1);
    lemma_rt_u64(s.tabs.len() as u64, r1);
    lemma_rt_tabs(s.tabs, r2);
    lemma_rt_u32(s.active_tab_id, r3);
    lemma_rt_u32(s.next_tab_id, r4);
    lemma_rt_engine(s.search_engine, r5);
    lemma_rt_str(s.proxy_server, r6);
    lemma_rt_u64(s.downloads.len() as u64, r7);
    lemma_rt_downloads(s.downloads, r8);
    lemma_rt_u64(s.history.len() as u64, r9);
    lemma_rt_history(s.history, r10);
    lemma_rt_u64(s.history_index as u64, r11);
    assert(usize::MAX <= u64::MAX);
    assert((s.history_index as u64) <= usize::MAX as u64);
    assert((s.history_index as u64) as usize == s.history_index);
    assert(AbsState {
        tabs: s.tabs,
        active_tab_id: s.active_tab_id,
        next_tab_id: s.next_tab_id,
        search_engine: s.search_engine,
        proxy_server: s.proxy_server,
        downloads: s.downloads,
        history: s.history,
        history_index: s.history_index,
    } =~= s);
}

/// The persistence round trip: loading what was saved gives back exactly the
/// state that was saved, for every well-formed state whose strings and
/// collections fit in memory.
pub proof fn lemma_save_load_roundtrip(s: AbsState)
    requires
        wf_state(s),
        encodable(s),
    ensures
        spec_load(spec_save(s)) == s,
{
    lemma_rt_state(s, Seq::empty());
    assert(spec_save(s) + Seq::<char>::empty() =~= spec_save(s));
}

} // verus!
