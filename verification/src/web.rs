//! The decisions of the HTTP endpoints and download workers: forwarded
//! request headers, proxy links, download names and types, byte ranges,
//! segment retries, helper-program arguments, and the suggestion cache.

use vstd::prelude::*;
use crate::text::{
    strings_view, to_chars, string_from_chars, push_all, chars_eq, eq_str, to_lower, lower, trim, trim_ws,
    has_prefix, starts_with_str, contains_str, contains_seq, slice_chars, parse_unsigned,
    parse_unsigned_exec, dec, dec_chars, copy_chars, unsigned_digits, lemma_digits_value_nonneg,
};
use crate::urls::{
    opt_str_view, url_encode, url_encoded, is_hls_or_dash_spec, is_hls_or_dash_url, JobKind,
    download_extension, infer_download_extension,
};
use crate::jobs::{headers_view, JobStatus};
use crate::ssrf::{is_blocked_host, is_blocked_host_spec};
use crate::progress::eq_ignore_ascii_case;
use crate::strmap::StrMap;

verus! {

// ------------------------------------------------------------------ headers

/// What `serde_json` reads from a text as a JSON array of string pairs
/// (`[["name", "value"], ...]`), if it is one.
pub uninterp spec fn json_string_pairs_spec(text: Seq<char>) -> Option<Seq<(Seq<char>, Seq<char>)>>;

/// `serde_json::from_str::<Vec<(String, String)>>`: the pairs of a JSON
/// array of two-string arrays, or `None` when the text is not one.
#[verifier::external_body]
fn json_string_pairs(text: &str) -> (r: Option<Vec<(String, String)>>)
    ensures
        r matches Some(v) ==> json_string_pairs_spec(text@) == Some(headers_view(v@)),
        r is None ==> json_string_pairs_spec(text@) is None,
{
    serde_json::from_str::<Vec<(String, String)>>(text).ok()
}

/// The request headers a client passes as JSON; none when the text is not
/// a JSON array of string pairs.
pub open spec fn parse_headers_spec(text: Seq<char>) -> Seq<(Seq<char>, Seq<char>)> {
    match json_string_pairs_spec(text) {
        Some(p) => p,
        None => Seq::empty(),
    }
}

/// Reads the `headers` query parameter: `[["Referer", "..."], ...]`.
pub fn parse_headers(h_str: &str) -> (r: Vec<(String, String)>)
    ensures
        headers_view(r@) == parse_headers_spec(h_str@),
{
    match json_string_pairs(h_str) {
        Some(v) => v,
        None => Vec::new(),
    }
}

/// A header that the client's own `Range` request decides for a direct
/// download, not the stored stream headers.
pub open spec fn is_range_header(name: Seq<char>) -> bool {
    eq_ignore_ascii_case(name, "range"@) || eq_ignore_ascii_case(name, "if-range"@)
}

pub open spec fn without_range_headers(hs: Seq<(Seq<char>, Seq<char>)>) -> Seq<(Seq<char>, Seq<char>)>
    decreases hs.len(),
{
    if hs.len() == 0 {
        Seq::empty()
    } else if is_range_header(hs.last().0) {
        without_range_headers(hs.drop_last())
    } else {
        without_range_headers(hs.drop_last()).push(hs.last())
    }
}

fn eq_ignore_case_exec(a: &[char], lit: &str) -> (r: bool)
    ensures
        r == eq_ignore_ascii_case(a@, lit@),
{
    let la = to_lower(a);
    let lb = to_lower(&to_chars(lit));
    chars_eq(&la, &lb)
}

/// The stream headers forwarded on a direct download, in order, without
/// `Range` and `If-Range` (the browser's own are forwarded instead).
pub fn forward_download_headers(hs: &Vec<(String, String)>) -> (r: Vec<(String, String)>)
    ensures
        headers_view(r@) == without_range_headers(headers_view(hs@)),
{
    let ghost hv = headers_view(hs@);
    let mut r: Vec<(String, String)> = Vec::new();
    let mut i: usize = 0;
    assert(hv.take(0) =~= Seq::<(Seq<char>, Seq<char>)>::empty());
    while i < hs.len()
        invariant
            i <= hs.len(),
            hv == headers_view(hs@),
            headers_view(r@) == without_range_headers(hv.take(i as int)),
        decreases hs.len() - i,
    {
        assert(hv.take(i + 1).drop_last() =~= hv.take(i as int));
        let name = to_chars(hs[i].0.as_str());
        assert(hv[i as int] == (hs@[i as int].0@, hs@[i as int].1@));
        if !eq_ignore_case_exec(&name, "range") && !eq_ignore_case_exec(&name, "if-range") {
            let ghost before = headers_view(r@);
            r.push((hs[i].0.clone(), hs[i].1.clone()));
            assert(headers_view(r@) =~= before.push(hv[i as int]));
        }
        i = i + 1;
    }
    assert(hv.take(hs.len() as int) =~= hv);
    r
}

/// The query suffix that carries the stream headers through the proxy:
/// `&headers=<encoded JSON>`, or nothing.
pub open spec fn headers_param_spec(headers: Option<Seq<char>>) -> Seq<char> {
    match headers {
        Some(h) => "&headers="@ + url_encoded(h),
        None => Seq::empty(),
    }
}

pub fn headers_query_param(headers: Option<&str>) -> (r: String)
    ensures
        r@ == headers_param_spec(opt_str_view(headers)),
{
    match headers {
        Some(h) => {
            let mut v = to_chars("&headers=");
            let e = url_encode(h);
            push_all(&mut v, &to_chars(e.as_str()));
            string_from_chars(&v)
        },
        None => String::new(),
    }
}

/// The local proxy link a player falls back to when no helper process can
/// be started.
pub open spec fn fallback_proxy_url_spec(url: Seq<char>, headers: Option<Seq<char>>) -> Seq<char> {
    "http://127.0.0.1:3000/api/proxy?url="@ + url_encoded(url) + headers_param_spec(headers)
}

pub fn fallback_proxy_url(url: &str, headers: Option<&str>) -> (r: String)
    ensures
        r@ == fallback_proxy_url_spec(url@, opt_str_view(headers)),
{
    let mut v = to_chars("http://127.0.0.1:3000/api/proxy?url=");
    let e = url_encode(url);
    push_all(&mut v, &to_chars(e.as_str()));
    let hp = headers_query_param(headers);
    push_all(&mut v, &to_chars(hp.as_str()));
    string_from_chars(&v)
}

// ------------------------------------------------------------------ files

/// A job id that may name a file: ASCII letters, digits, `_` and `-` only.
pub open spec fn download_id_char(c: char) -> bool {
    ('a' <= c && c <= 'z') || ('A' <= c && c <= 'Z') || ('0' <= c && c <= '9') || c == '_' || c == '-'
}

pub fn is_valid_download_id(id: &str) -> (r: bool)
    ensures
        r == (forall|i: int| 0 <= i < id@.len() ==> download_id_char(#[trigger] id@[i])),
{
    let c = to_chars(id);
    let mut i: usize = 0;
    while i < c.len()
        invariant
            i <= c.len(),
            c@ == id@,
            forall|j: int| 0 <= j < i ==> download_id_char(#[trigger] c@[j]),
        decreases c.len() - i,
    {
        let ch = c[i];
        if !(('a' <= ch && ch <= 'z') || ('A' <= ch && ch <= 'Z') || ('0' <= ch && ch <= '9') || ch
            == '_' || ch == '-') {
            assert(!download_id_char(c@[i as int]));
            return false;
        }
        i = i + 1;
    }
    true
}

/// The media type of a saved file by its extension (`mp4` when unknown).
pub open spec fn mime_spec(ext: Seq<char>) -> Seq<char> {
    if ext == "mkv"@ {
        "video/x-matroska"@
    } else if ext == "webm"@ {
        "video/webm"@
    } else if ext == "ts"@ {
        "video/mp2t"@
    } else {
        "video/mp4"@
    }
}

pub fn mime_for_extension(ext: &str) -> (r: &'static str)
    ensures
        r@ == mime_spec(ext@),
{
    let e = to_chars(ext);
    if eq_str(&e, "mkv") {
        "video/x-matroska"
    } else if eq_str(&e, "webm") {
        "video/webm"
    } else if eq_str(&e, "ts") {
        "video/mp2t"
    } else {
        "video/mp4"
    }
}

/// `attachment; filename="<name>"; filename*=UTF-8''<encoded name>`.
pub open spec fn content_disposition_spec(name: Seq<char>) -> Seq<char> {
    "attachment; filename=\""@ + name + "\"; filename*=UTF-8''"@ + url_encoded(name)
}

pub fn content_disposition(name: &str) -> (r: String)
    ensures
        r@ == content_disposition_spec(name@),
{
    let mut v = to_chars("attachment; filename=\"");
    push_all(&mut v, &to_chars(name));
    push_all(&mut v, &to_chars("\"; filename*=UTF-8''"));
    let e = url_encode(name);
    push_all(&mut v, &to_chars(e.as_str()));
    string_from_chars(&v)
}

/// The index of the last `c` in `s`.
pub open spec fn last_index_of(s: Seq<char>, c: char) -> Option<int>
    decreases s.len(),
{
    if s.len() == 0 {
        None
    } else if s.last() == c {
        Some(s.len() - 1)
    } else {
        last_index_of(s.drop_last(), c)
    }
}

fn last_index_exec(s: &[char], c: char) -> (r: Option<usize>)
    ensures
        r matches Some(i) ==> last_index_of(s@, c) == Some(i as int) && i < s.len(),
        r is None ==> last_index_of(s@, c) is None,
{
    let mut b: usize = s.len();
    assert(s@.take(s.len() as int) =~= s@);
    while b > 0
        invariant
            b <= s.len(),
            last_index_of(s@, c) == last_index_of(s@.take(b as int), c),
        decreases b,
    {
        assert(s@.take(b as int).drop_last() =~= s@.take(b - 1));
        assert(s@.take(b as int).last() == s@[b - 1]);
        if s[b - 1] == c {
            return Some(b - 1);
        }
        b = b - 1;
    }
    None
}

/// A file name with the text after its last dot replaced by `ext` (left
/// as it is when it has no dot).
pub open spec fn replace_extension_spec(name: Seq<char>, ext: Seq<char>) -> Seq<char> {
    match last_index_of(name, '.') {
        Some(d) => name.take(d + 1) + ext,
        None => name,
    }
}

pub fn replace_extension(name: &str, ext: &str) -> (r: String)
    ensures
        r@ == replace_extension_spec(name@, ext@),
{
    let n = to_chars(name);
    match last_index_exec(&n, '.') {
        Some(d) => {
            let mut v = slice_chars(&n, 0, d + 1);
            push_all(&mut v, &to_chars(ext));
            assert(n@.subrange(0, d + 1) =~= n@.take(d + 1));
            string_from_chars(&v)
        },
        None => string_from_chars(&n),
    }
}

/// The name a direct download is saved under once its response is in: when
/// the response gives a length or a content type, the extension they imply
/// with the final URL replaces the guessed one; otherwise the name stays.
pub open spec fn refreshed_filename_spec(
    filename: Seq<char>,
    final_url: Seq<char>,
    content_type: Seq<char>,
    has_total: bool,
) -> Seq<char> {
    if has_total || content_type.len() != 0 {
        replace_extension_spec(filename, download_extension(final_url, Some(content_type)))
    } else {
        filename
    }
}

pub fn refreshed_filename(filename: &str, final_url: &str, content_type: &str, total: Option<u64>) -> (r:
    String)
    ensures
        r@ == refreshed_filename_spec(filename@, final_url@, content_type@, total is Some),
{
    if total.is_some() || !content_type.is_empty() {
        let ext = infer_download_extension(final_url, Some(content_type));
        replace_extension(filename, ext)
    } else {
        String::from_str(filename)
    }
}

/// The name a segment download keeps when it cannot be remuxed: the name
/// up to its last dot (all of it without one), then `.ts`.
pub open spec fn ts_fallback_name_spec(name: Seq<char>) -> Seq<char> {
    match last_index_of(name, '.') {
        Some(d) => name.take(d) + ".ts"@,
        None => name + ".ts"@,
    }
}

pub fn ts_fallback_name(name: &str) -> (r: String)
    ensures
        r@ == ts_fallback_name_spec(name@),
{
    let n = to_chars(name);
    let mut v = match last_index_exec(&n, '.') {
        Some(d) => {
            assert(n@.subrange(0, d as int) =~= n@.take(d as int));
            slice_chars(&n, 0, d)
        },
        None => n,
    };
    push_all(&mut v, &to_chars(".ts"));
    string_from_chars(&v)
}

// ------------------------------------------------------------------ ranges

/// The byte range a saved file is served with.
#[derive(Clone, Copy, Debug, PartialEq, Eq, Structural)]
pub enum ByteRange {
    /// The whole file, status 200.
    Whole { start: u64, end: u64 },
    /// The requested part, status 206 with a `Content-Range`.
    Partial { start: u64, end: u64 },
    /// Status 416.
    Unsatisfiable,
}

/// The last byte index, `0` for an empty file.
pub open spec fn last_byte(len: int) -> int {
    if len == 0 {
        0
    } else {
        len - 1
    }
}

/// The text after `bytes=` in a trimmed `Range` value (empty without it),
/// trimmed.
pub open spec fn range_spec_text(h: Seq<char>) -> Seq<char> {
    let t = trim(h);
    trim(
        if has_prefix(t, "bytes="@) {
            t.skip(6)
        } else {
            Seq::empty()
        },
    )
}

/// The index of the first `-`.
pub open spec fn first_dash(s: Seq<char>) -> Option<int>
    decreases s.len(),
{
    if s.len() == 0 {
        None
    } else {
        match first_dash(s.drop_last()) {
            Some(i) => Some(i),
            None => if s.last() == '-' {
                Some(s.len() - 1)
            } else {
                None
            },
        }
    }
}

pub open spec fn u64_max() -> int {
    0xffff_ffff_ffff_ffff
}

/// `Range: bytes=<s>-<e>` against a file of `len` bytes: a start that does
/// not parse counts as 0, an end that is missing or does not parse as the
/// last byte, and the end is capped at the last byte. No header serves the
/// whole file.
pub open spec fn byte_range_spec(range: Option<Seq<char>>, len: int) -> ByteRange {
    let last = last_byte(len);
    match range {
        None => ByteRange::Whole { start: 0, end: last as u64 },
        Some(h) => {
            let sp = range_spec_text(h);
            let a = match first_dash(sp) {
                Some(i) => sp.take(i),
                None => sp,
            };
            let b = match first_dash(sp) {
                Some(i) => sp.skip(i + 1),
                None => Seq::<char>::empty(),
            };
            let s = match parse_unsigned(a, u64_max()) {
                Some(v) => v,
                None => 0,
            };
            let e0 = if b.len() == 0 {
                last
            } else {
                match parse_unsigned(b, u64_max()) {
                    Some(v) => v,
                    None => last,
                }
            };
            let e = if e0 < last {
                e0
            } else {
                last
            };
            if s > e || s >= len {
                ByteRange::Unsatisfiable
            } else {
                ByteRange::Partial { start: s as u64, end: e as u64 }
            }
        },
    }
}

fn first_dash_exec(s: &[char]) -> (r: Option<usize>)
    ensures
        r matches Some(i) ==> first_dash(s@) == Some(i as int) && i < s.len(),
        r is None ==> first_dash(s@) is None,
{
    let mut i: usize = 0;
    while i < s.len()
        invariant
            i <= s.len(),
            first_dash(s@.take(i as int)) is None,
        decreases s.len() - i,
    {
        assert(s@.take(i + 1).drop_last() =~= s@.take(i as int));
        if s[i] == '-' {
            proof {
                lemma_first_dash_prefix(s@, i as int + 1);
            }
            return Some(i);
        }
        i = i + 1;
    }
    assert(s@.take(s.len() as int) =~= s@);
    None
}

/// A dash found in a prefix is the first dash of the whole text.
proof fn lemma_first_dash_prefix(s: Seq<char>, n: int)
    requires
        0 <= n <= s.len(),
        first_dash(s.take(n)) is Some,
    ensures
        first_dash(s) == first_dash(s.take(n)),
    decreases s.len() - n,
{
    if n < s.len() {
        assert(s.take(n + 1).drop_last() =~= s.take(n));
        lemma_first_dash_prefix(s, n + 1);
    } else {
        assert(s.take(n) =~= s);
    }
}

/// The range to serve of a file of `len` bytes for the request's `Range`
/// header (`None` when absent or not text).
pub fn resolve_byte_range(range: Option<&str>, len: u64) -> (r: ByteRange)
    ensures
        r == byte_range_spec(opt_str_view(range), len as int),
{
    let last: u64 = if len == 0 {
        0
    } else {
        len - 1
    };
    match range {
        None => ByteRange::Whole { start: 0, end: last },
        Some(h) => {
            let t = trim_ws(&to_chars(h));
            let rest: Vec<char> = if starts_with_str(&t, "bytes=") {
                proof {
                    reveal_strlit("bytes=");
                }
                slice_chars(&t, 6, t.len())
            } else {
                Vec::new()
            };
            proof {
                reveal_strlit("bytes=");
                if has_prefix(t@, "bytes="@) {
                    assert(t@.subrange(6, t@.len() as int) =~= t@.skip(6));
                } else {
                    assert(rest@ =~= Seq::<char>::empty());
                }
            }
            let sp = trim_ws(&rest);
            let (a, b) = match first_dash_exec(&sp) {
                Some(i) => {
                    let a = slice_chars(&sp, 0, i);
                    let b = slice_chars(&sp, i + 1, sp.len());
                    assert(sp@.subrange(0, i as int) =~= sp@.take(i as int));
                    assert(sp@.subrange(i + 1, sp@.len() as int) =~= sp@.skip(i + 1));
                    (a, b)
                },
                None => (sp, Vec::new()),
            };
            let s: u64 = match parse_unsigned_exec(&a, 0xffff_ffff_ffff_ffff) {
                Some(v) => v,
                None => 0,
            };
            let e0: u64 = if b.len() == 0 {
                last
            } else {
                match parse_unsigned_exec(&b, 0xffff_ffff_ffff_ffff) {
                    Some(v) => v,
                    None => last,
                }
            };
            let e = if e0 < last {
                e0
            } else {
                last
            };
            if s > e || s >= len {
                ByteRange::Unsatisfiable
            } else {
                ByteRange::Partial { start: s, end: e }
            }
        },
    }
}

/// A range served from a non-empty file lies within it: the start is not
/// after the end, and the end is at most the last byte.
pub proof fn lemma_range_within_file(range: Option<Seq<char>>, len: int)
    requires
        0 < len <= u64_max(),
    ensures
        match byte_range_spec(range, len) {
            ByteRange::Whole { start, end } => start == 0 && end == len - 1,
            ByteRange::Partial { start, end } => start <= end < len,
            ByteRange::Unsatisfiable => true,
        },
{
    if let Some(h) = range {
        let sp = range_spec_text(h);
        let a = match first_dash(sp) {
            Some(i) => sp.take(i),
            None => sp,
        };
        let b = match first_dash(sp) {
            Some(i) => sp.skip(i + 1),
            None => Seq::<char>::empty(),
        };
        if parse_unsigned(a, u64_max()) is Some {
            lemma_digits_value_nonneg(unsigned_digits(a));
        }
        if parse_unsigned(b, u64_max()) is Some {
            lemma_digits_value_nonneg(unsigned_digits(b));
        }
    }
}

/// `bytes <start>-<end>/<len>`.
pub open spec fn content_range_spec(start: nat, end: nat, len: nat) -> Seq<char> {
    "bytes "@ + dec(start) + "-"@ + dec(end) + "/"@ + dec(len)
}

pub fn content_range_value(start: u64, end: u64, len: u64) -> (r: String)
    ensures
        r@ == content_range_spec(start as nat, end as nat, len as nat),
{
    let mut v = to_chars("bytes ");
    push_all(&mut v, &dec_chars(start as u128));
    push_all(&mut v, &to_chars("-"));
    push_all(&mut v, &dec_chars(end as u128));
    push_all(&mut v, &to_chars("/"));
    push_all(&mut v, &dec_chars(len as u128));
    string_from_chars(&v)
}


// ------------------------------------------------------------------ streams

/// A playlist larger than this is refused (10 MiB).
pub const MAX_MANIFEST_BYTES: u64 = 10485760;

/// Whether a manifest of the given length (declared or read) may be
/// processed; an unknown length passes until the body is read.
pub fn manifest_length_ok(len: Option<u64>) -> (r: bool)
    ensures
        r == (match len {
            Some(l) => l <= MAX_MANIFEST_BYTES,
            None => true,
        }),
{
    match len {
        Some(l) => l <= MAX_MANIFEST_BYTES,
        None => true,
    }
}

/// The engine a `Content-Type` calls for: an HLS playlist (`mpegurl`), a
/// DASH manifest (`dash+xml`), or neither (case is ignored).
pub open spec fn sniffed_kind_spec(content_type: Seq<char>) -> Option<JobKind> {
    let l = lower(content_type);
    if contains_seq(l, "mpegurl"@) {
        Some(JobKind::Hls)
    } else if contains_seq(l, "dash+xml"@) {
        Some(JobKind::Dash)
    } else {
        None
    }
}

pub fn sniff_stream_kind(content_type: &str) -> (r: Option<JobKind>)
    ensures
        r == sniffed_kind_spec(content_type@),
{
    let l = to_lower(&to_chars(content_type));
    if contains_str(&l, "mpegurl") {
        Some(JobKind::Hls)
    } else if contains_str(&l, "dash+xml") {
        Some(JobKind::Dash)
    } else {
        None
    }
}

/// A response that is a stream manifest rather than a file: by its content
/// type, or by the URL it came from.
pub open spec fn is_stream_response_spec(content_type: Seq<char>, final_url: Seq<char>) -> bool {
    sniffed_kind_spec(content_type) is Some || is_hls_or_dash_spec(final_url)
}

pub fn is_stream_response(content_type: &str, final_url: &str) -> (r: bool)
    ensures
        r == is_stream_response_spec(content_type@, final_url@),
{
    sniff_stream_kind(content_type).is_some() || is_hls_or_dash_url(final_url)
}

/// A direct download is complete when it received the announced length
/// (any length when none was announced).
pub fn direct_download_complete(downloaded: u64, total: Option<u64>) -> (r: bool)
    ensures
        r == (match total {
            Some(t) => downloaded == t,
            None => true,
        }),
{
    match total {
        Some(t) => downloaded == t,
        None => true,
    }
}

/// Tries per HLS segment.
pub const SEG_ATTEMPTS: u32 = 4;

/// Seconds to wait before try `attempt` (counted from zero) of a segment:
/// none before the first, then 1, 2, 4, and 8 at most.
pub open spec fn backoff_spec(attempt: nat) -> nat {
    if attempt == 0 {
        0
    } else {
        vstd::arithmetic::power2::pow2(if attempt - 1 < 3 {
            (attempt - 1) as nat
        } else {
            3
        })
    }
}

pub fn segment_backoff_secs(attempt: u32) -> (r: u64)
    ensures
        r == backoff_spec(attempt as nat),
{
    proof {
        vstd::arithmetic::power2::lemma2_to64();
    }
    if attempt == 0 {
        0
    } else if attempt == 1 {
        1
    } else if attempt == 2 {
        2
    } else if attempt == 3 {
        4
    } else {
        8
    }
}

/// The message of a segment that failed every try (`index` counts from
/// zero; the message counts from one).
pub open spec fn segment_failure_spec(index: nat, last_err: Seq<char>) -> Seq<char> {
    "segment "@ + dec(index + 1) + " failed after 4 tries ("@ + last_err
        + ") — retry the download to resume"@
}

/// What an HLS worker does next.
pub enum SegmentStep {
    /// Fetch segment `index` after waiting `wait_secs` seconds.
    Fetch { index: usize, wait_secs: u64 },
    /// Give up with this message.
    Failed(String),
    /// Every segment is in.
    Finished,
}

/// How far the fetching of a playlist's segments has come: the segment at
/// hand, the tries it has had, and the error of the last one.
pub struct SegmentFetch {
    total: usize,
    index: usize,
    attempt: u32,
    last_err: String,
}

impl View for SegmentFetch {
    type V = (nat, nat, nat, Seq<char>);

    closed spec fn view(&self) -> (nat, nat, nat, Seq<char>) {
        (self.total as nat, self.index as nat, self.attempt as nat, self.last_err@)
    }
}

impl SegmentFetch {
    /// No try exceeds the allowance, and no segment lies past the end.
    pub closed spec fn wf(&self) -> bool {
        self.index <= self.total && self.attempt <= SEG_ATTEMPTS
    }

    /// Fetching `total` segments, starting with the first.
    pub fn new(total: usize) -> (f: Self)
        ensures
            f.wf(),
            f@ == (total as nat, 0nat, 0nat, Seq::<char>::empty()),
    {
        SegmentFetch { total, index: 0, attempt: 0, last_err: String::new() }
    }

    /// The next step: done once every segment is in; the failure message
    /// once the segment at hand has had all its tries; else another try,
    /// after the backoff that its number calls for.
    pub fn next(&self) -> (r: SegmentStep)
        requires
            self.wf(),
        ensures
            self@.1 >= self@.0 ==> r is Finished,
            self@.1 < self@.0 && self@.2 >= SEG_ATTEMPTS ==> (r matches SegmentStep::Failed(m) && m@
                == segment_failure_spec(self@.1, self@.3)),
            self@.1 < self@.0 && self@.2 < SEG_ATTEMPTS ==> (r matches SegmentStep::Fetch { index, wait_secs }
                && index == self@.1 && wait_secs == backoff_spec(self@.2)),
    {
        if self.index >= self.total {
            SegmentStep::Finished
        } else if self.attempt >= SEG_ATTEMPTS {
            let mut m = to_chars("segment ");
            push_all(&mut m, &dec_chars(self.index as u128 + 1));
            push_all(&mut m, &to_chars(" failed after 4 tries ("));
            push_all(&mut m, &to_chars(self.last_err.as_str()));
            push_all(&mut m, &to_chars(") — retry the download to resume"));
            SegmentStep::Failed(string_from_chars(&m))
        } else {
            SegmentStep::Fetch { index: self.index, wait_secs: segment_backoff_secs(self.attempt) }
        }
    }

    /// The segment at hand came in: on to the next one, with fresh tries.
    pub fn succeeded(&mut self)
        requires
            old(self).wf(),
            old(self)@.1 < old(self)@.0,
        ensures
            final(self).wf(),
            final(self)@ == (old(self)@.0, old(self)@.1 + 1, 0nat, Seq::<char>::empty()),
    {
        self.index = self.index + 1;
        self.attempt = 0;
        self.last_err = String::new();
    }

    /// A try of the segment at hand failed with `err`.
    pub fn failed(&mut self, err: String)
        requires
            old(self).wf(),
            old(self)@.1 < old(self)@.0,
            old(self)@.2 < SEG_ATTEMPTS,
        ensures
            final(self).wf(),
            final(self)@ == (old(self)@.0, old(self)@.1, old(self)@.2 + 1, err@),
    {
        self.attempt = self.attempt + 1;
        self.last_err = err;
    }
}

// ------------------------------------------------------------------ yt-dlp

/// The arguments that pass the stream headers to yt-dlp, in order: a
/// `User-Agent` header (any case) as `--user-agent <value>`, every other as
/// `--add-header "<name>: <value>"`.
pub open spec fn ytdlp_header_args_spec(hs: Seq<(Seq<char>, Seq<char>)>) -> Seq<Seq<char>>
    decreases hs.len(),
{
    if hs.len() == 0 {
        Seq::empty()
    } else {
        let prev = ytdlp_header_args_spec(hs.drop_last());
        let k = hs.last().0;
        let v = hs.last().1;
        if eq_ignore_ascii_case(k, "user-agent"@) {
            prev + seq!["--user-agent"@, v]
        } else {
            prev + seq!["--add-header"@, k + ": "@ + v]
        }
    }
}

pub fn ytdlp_header_args(hs: &Vec<(String, String)>) -> (r: Vec<String>)
    ensures
        strings_view(r@) == ytdlp_header_args_spec(headers_view(hs@)),
{
    let ghost hv = headers_view(hs@);
    let mut r: Vec<String> = Vec::new();
    let mut i: usize = 0;
    assert(hv.take(0) =~= Seq::<(Seq<char>, Seq<char>)>::empty());
    while i < hs.len()
        invariant
            i <= hs.len(),
            hv == headers_view(hs@),
            strings_view(r@) == ytdlp_header_args_spec(hv.take(i as int)),
        decreases hs.len() - i,
    {
        assert(hv.take(i + 1).drop_last() =~= hv.take(i as int));
        assert(hv[i as int] == (hs@[i as int].0@, hs@[i as int].1@));
        let k = to_chars(hs[i].0.as_str());
        let ghost before = strings_view(r@);
        if eq_ignore_case_exec(&k, "user-agent") {
            r.push(String::from_str("--user-agent"));
            r.push(hs[i].1.clone());
            assert(strings_view(r@) =~= before + seq!["--user-agent"@, hv[i as int].1]);
        } else {
            let mut a = k;
            push_all(&mut a, &to_chars(": "));
            push_all(&mut a, &to_chars(hs[i].1.as_str()));
            r.push(String::from_str("--add-header"));
            r.push(string_from_chars(&a));
            assert(strings_view(r@) =~= before + seq!["--add-header"@, hv[i as int].0 + ": "@ + hv[i as int].1]);
        }
        i = i + 1;
    }
    assert(hv.take(hs.len() as int) =~= hv);
    r
}

/// The yt-dlp format selector: the best video no taller than the chosen
/// height (any height without one) with the best audio, else the best
/// single file.
pub open spec fn ytdlp_format_spec(quality: Option<u16>) -> Seq<char> {
    match quality {
        Some(q) => "bestvideo[height<="@ + dec(q as nat) + "]+bestaudio/best"@,
        None => "bestvideo+bestaudio/best"@,
    }
}

pub fn ytdlp_format(quality: Option<u16>) -> (r: String)
    ensures
        r@ == ytdlp_format_spec(quality),
{
    match quality {
        Some(q) => {
            let mut v = to_chars("bestvideo[height<=");
            push_all(&mut v, &dec_chars(q as u128));
            push_all(&mut v, &to_chars("]+bestaudio/best"));
            string_from_chars(&v)
        },
        None => String::from_str("bestvideo+bestaudio/best"),
    }
}

/// The whole yt-dlp command line after the program name: the header
/// arguments, then the format, progress on new lines, an mp4 merge, a
/// `.part` file while working, the output path, overwriting, and the URL.
pub open spec fn ytdlp_args_spec(
    hs: Seq<(Seq<char>, Seq<char>)>,
    quality: Option<u16>,
    dest: Seq<char>,
    url: Seq<char>,
) -> Seq<Seq<char>> {
    ytdlp_header_args_spec(hs) + seq![
        "-f"@,
        ytdlp_format_spec(quality),
        "--newline"@,
        "--merge-output-format"@,
        "mp4"@,
        "--part"@,
        "-o"@,
        dest,
        "--force-overwrites"@,
        url,
    ]
}

pub fn ytdlp_args(hs: &Vec<(String, String)>, quality: Option<u16>, dest: &str, url: &str) -> (r: Vec<String>)
    ensures
        strings_view(r@) == ytdlp_args_spec(headers_view(hs@), quality, dest@, url@),
{
    let mut r = ytdlp_header_args(hs);
    let ghost start = strings_view(r@);
    r.push(String::from_str("-f"));
    r.push(ytdlp_format(quality));
    r.push(String::from_str("--newline"));
    r.push(String::from_str("--merge-output-format"));
    r.push(String::from_str("mp4"));
    r.push(String::from_str("--part"));
    r.push(String::from_str("-o"));
    r.push(String::from_str(dest));
    r.push(String::from_str("--force-overwrites"));
    r.push(String::from_str(url));
    assert(strings_view(r@) =~= ytdlp_args_spec(headers_view(hs@), quality, dest@, url@));
    r
}

/// ffmpeg's arguments for copying the streams of a `.ts` file into an mp4
/// container (fixing the AAC bitstream), overwriting the output.
pub open spec fn remux_args_spec(ts: Seq<char>, mp4: Seq<char>) -> Seq<Seq<char>> {
    seq!["-y"@, "-i"@, ts, "-c"@, "copy"@, "-bsf:a"@, "aac_adtstoasc"@, mp4]
}

pub fn ffmpeg_remux_args(ts: &str, mp4: &str) -> (r: Vec<String>)
    ensures
        strings_view(r@) == remux_args_spec(ts@, mp4@),
{
    let mut r: Vec<String> = Vec::new();
    r.push(String::from_str("-y"));
    r.push(String::from_str("-i"));
    r.push(String::from_str(ts));
    r.push(String::from_str("-c"));
    r.push(String::from_str("copy"));
    r.push(String::from_str("-bsf:a"));
    r.push(String::from_str("aac_adtstoasc"));
    r.push(String::from_str(mp4));
    assert(strings_view(r@) =~= remux_args_spec(ts@, mp4@));
    r
}

/// A file next to the wanted output that yt-dlp may have written instead:
/// its name starts with the wanted name's stem (the name up to its last
/// dot, or all of it) and is not the wanted name itself.
pub open spec fn sibling_output_spec(name: Seq<char>, wanted: Seq<char>) -> bool {
    let stem = match last_index_of(wanted, '.') {
        Some(d) => wanted.take(d),
        None => wanted,
    };
    has_prefix(name, stem) && name != wanted
}

pub fn is_sibling_output(name: &str, wanted: &str) -> (r: bool)
    ensures
        r == sibling_output_spec(name@, wanted@),
{
    let w = to_chars(wanted);
    let stem = match last_index_exec(&w, '.') {
        Some(d) => {
            assert(w@.subrange(0, d as int) =~= w@.take(d as int));
            slice_chars(&w, 0, d)
        },
        None => copy_chars(&w),
    };
    let n = to_chars(name);
    crate::text::starts_with(&n, &stem) && !chars_eq(&n, &w)
}

// ------------------------------------------------------------------ suggestions

/// Suggestions and results shown for a query, each.
pub const SUGGEST_LIMIT: usize = 8;

/// The query to look up: trimmed, and only from two characters on.
pub open spec fn suggest_query_spec(q: Seq<char>) -> Option<Seq<char>> {
    if trim(q).len() >= 2 {
        Some(trim(q))
    } else {
        None
    }
}

pub fn suggest_query(q: &str) -> (r: Option<String>)
    ensures
        r matches Some(t) ==> suggest_query_spec(q@) == Some(t@),
        r is None ==> suggest_query_spec(q@) is None,
{
    let t = trim_ws(&to_chars(q));
    if t.len() >= 2 {
        Some(string_from_chars(&t))
    } else {
        None
    }
}

/// The results kept among the first `n`: each id at its first occurrence.
pub open spec fn first_of_each(ids: Seq<Seq<char>>, n: int) -> Seq<int>
    decreases n,
{
    if n <= 0 {
        Seq::empty()
    } else if ids.take(n - 1).contains(ids[n - 1]) {
        first_of_each(ids, n - 1)
    } else {
        first_of_each(ids, n - 1).push(n - 1)
    }
}

/// The search results shown under the suggestions: among the first eight,
/// the first of each id, in order.
pub fn suggest_result_indices(ids: &Vec<String>) -> (r: Vec<usize>)
    ensures
        r@.map_values(|i: usize| i as int) == first_of_each(strings_view(ids@), if ids.len() < 8 {
            ids.len() as int
        } else {
            8
        }),
{
    let ghost iv = strings_view(ids@);
    let n: usize = if ids.len() < SUGGEST_LIMIT {
        ids.len()
    } else {
        SUGGEST_LIMIT
    };
    let mut r: Vec<usize> = Vec::new();
    let mut i: usize = 0;
    while i < n
        invariant
            i <= n <= ids.len(),
            iv == strings_view(ids@),
            r@.map_values(|x: usize| x as int) == first_of_each(iv, i as int),
        decreases n - i,
    {
        let k = to_chars(ids[i].as_str());
        let mut dup = false;
        let mut j: usize = 0;
        while j < i
            invariant
                j <= i < ids.len(),
                iv == strings_view(ids@),
                k@ == iv[i as int],
                dup == iv.take(j as int).contains(iv[i as int]),
            decreases i - j,
        {
            assert(iv.take(j + 1) =~= iv.take(j as int).push(iv[j as int]));
            proof {
                vstd::seq_lib::lemma_seq_contains_after_push(iv.take(j as int), iv[j as int], iv[i as int]);
            }
            if chars_eq(&to_chars(ids[j].as_str()), &k) {
                dup = true;
            }
            j = j + 1;
        }
        assert(iv.take(i as int) =~= iv.take(i + 1 - 1));
        if !dup {
            let ghost before = r@.map_values(|x: usize| x as int);
            r.push(i);
            assert(r@.map_values(|x: usize| x as int) =~= before.push(i as int));
        }
        i = i + 1;
    }
    r
}


/// How long a suggestion answer is reused, in milliseconds.
pub const SUGGEST_FRESH_MS: u64 = 3000;

/// The cache is emptied when it would hold more queries than this.
pub const SUGGEST_CACHE_MAX: usize = 200;

/// An answer stored at `at` is reused at `now` (milliseconds on one
/// monotonic clock) while less than three seconds have passed.
pub open spec fn fresh(at: u64, now: u64) -> bool {
    now - at < SUGGEST_FRESH_MS
}

/// Recent suggestion answers by query.
pub struct SuggestCache<T> {
    map: StrMap<(u64, T)>,
}

impl<T> View for SuggestCache<T> {
    type V = Map<Seq<char>, (u64, T)>;

    closed spec fn view(&self) -> Map<Seq<char>, (u64, T)> {
        self.map@
    }
}

impl<T> SuggestCache<T> {
    /// No more queries than the cap.
    pub closed spec fn wf(&self) -> bool {
        &&& self.map.wf()
        &&& self.map@.dom().finite()
        &&& self.map@.dom().len() <= SUGGEST_CACHE_MAX
    }

    pub fn new() -> (c: Self)
        ensures
            c.wf(),
            c@ == Map::<Seq<char>, (u64, T)>::empty(),
    {
        SuggestCache { map: StrMap::new() }
    }

    /// The answer stored for `q`, while it is fresh at `now`.
    pub fn get(&self, q: &str, now: u64) -> (r: Option<&T>)
        requires
            self.wf(),
        ensures
            r matches Some(v) ==> self@.contains_key(q@) && fresh(self@[q@].0, now) && *v == self@[q@].1,
            r is None ==> !(self@.contains_key(q@) && fresh(self@[q@].0, now)),
    {
        match self.map.get(q) {
            Some(e) => {
                if now < e.0 || now - e.0 < SUGGEST_FRESH_MS {
                    Some(&e.1)
                } else {
                    None
                }
            },
            None => None,
        }
    }

    /// Stores the answer for `q` at `now`, replacing an older one; when
    /// that makes more than 200 queries, the cache is emptied.
    pub fn put(&mut self, q: String, now: u64, v: T)
        requires
            old(self).wf(),
        ensures
            final(self).wf(),
            final(self)@ == after_put(old(self)@, q@, now, v),
    {
        self.map.insert(q, (now, v));
        if self.map.len() > SUGGEST_CACHE_MAX {
            self.map.clear();
            assert(self.map@.dom() =~= Set::<Seq<char>>::empty());
        }
    }
}

/// What the cache holds after storing `v` for `q` at `now`: the answer
/// added, or nothing when that would make more than 200 queries.
pub open spec fn after_put<T>(m: Map<Seq<char>, (u64, T)>, q: Seq<char>, now: u64, v: T) -> Map<Seq<char>, (u64, T)> {
    let m1 = m.insert(q, (now, v));
    if m1.dom().len() > SUGGEST_CACHE_MAX {
        Map::empty()
    } else {
        m1
    }
}

/// Storing an answer keeps it for its query, unless the cache was full and
/// did not hold the query yet, in which case the cache is emptied.
pub proof fn lemma_put_keeps_answer<T>(m: Map<Seq<char>, (u64, T)>, q: Seq<char>, now: u64, v: T)
    requires
        m.dom().finite(),
        m.dom().len() <= SUGGEST_CACHE_MAX,
    ensures
        (m.contains_key(q) || m.dom().len() < SUGGEST_CACHE_MAX) ==> after_put(m, q, now, v).contains_key(q)
            && after_put(m, q, now, v)[q] == (now, v),
        !(m.contains_key(q) || m.dom().len() < SUGGEST_CACHE_MAX) ==> after_put(m, q, now, v)
            == Map::<Seq<char>, (u64, T)>::empty(),
{
    let m1 = m.insert(q, (now, v));
    if m.contains_key(q) {
        assert(m1.dom() =~= m.dom());
    } else {
        assert(m1.dom() =~= m.dom().insert(q));
    }
}


// ------------------------------------------------------------------ verdicts

/// How the server answers a request to save a finished download.
#[derive(Clone, Copy, Debug, PartialEq, Eq, Structural)]
pub enum SaveVerdict {
    /// 400: the id may not name a file.
    InvalidId,
    /// 404: no such job.
    NotFound,
    /// 409: the job has not completed.
    NotReady,
    /// The file is served.
    Serve,
}

/// The checks before a saved file is served, in order: the id must be
/// plain, the job must exist, and it must have completed.
pub open spec fn save_verdict_spec(id: Seq<char>, status: Option<JobStatus>) -> SaveVerdict {
    if !(forall|i: int| 0 <= i < id.len() ==> download_id_char(#[trigger] id[i])) {
        SaveVerdict::InvalidId
    } else {
        match status {
            None => SaveVerdict::NotFound,
            Some(s) => if s != JobStatus::Completed {
                SaveVerdict::NotReady
            } else {
                SaveVerdict::Serve
            },
        }
    }
}

/// Decides a save request from the id asked for and the status of the job
/// stored under it (`None` when there is none).
pub fn save_verdict(id: &str, status: Option<JobStatus>) -> (r: SaveVerdict)
    ensures
        r == save_verdict_spec(id@, status),
{
    if !is_valid_download_id(id) {
        return SaveVerdict::InvalidId;
    }
    match status {
        None => SaveVerdict::NotFound,
        Some(s) => match s {
            JobStatus::Completed => SaveVerdict::Serve,
            _ => SaveVerdict::NotReady,
        },
    }
}

/// What a direct download makes of the upstream reply: refused when the
/// final host is blocked, refused as a stream by its content type or final
/// URL, else saved with the extension they imply.
pub open spec fn direct_reply_spec(final_host: Option<Seq<char>>, content_type: Seq<char>, final_url: Seq<char>) -> Result<
    Seq<char>,
    (u16, Seq<char>),
> {
    if final_host matches Some(h) && is_blocked_host_spec(h) {
        Err((403u16, "blocked destination"@))
    } else if is_stream_response_spec(content_type, final_url) {
        Err((422u16, "HLS/DASH stream cannot be downloaded directly"@))
    } else {
        Ok(download_extension(final_url, Some(content_type)))
    }
}

/// Decides a direct download from where the request ended (its host, if
/// any, and URL) and the reply's content type (lower case, empty when
/// absent).
pub fn direct_reply_verdict(final_host: Option<&str>, content_type: &str, final_url: &str) -> (r: Result<
    &'static str,
    (u16, String),
>)
    ensures
        r matches Ok(ext) ==> direct_reply_spec(opt_str_view(final_host), content_type@, final_url@)
            == Ok::<Seq<char>, (u16, Seq<char>)>(ext@),
        r matches Err((c, m)) ==> direct_reply_spec(opt_str_view(final_host), content_type@, final_url@)
            == Err::<Seq<char>, (u16, Seq<char>)>((c, m@)),
{
    if let Some(h) = final_host {
        if is_blocked_host(h) {
            return Err((403, String::from_str("blocked destination")));
        }
    }
    if is_stream_response(content_type, final_url) {
        return Err((422, String::from_str("HLS/DASH stream cannot be downloaded directly")));
    }
    Ok(infer_download_extension(final_url, Some(content_type)))
}

/// What a background file download does with the reply it got: stops when
/// the final host is blocked, hands the job over to the stream engine its
/// content type names, stops on a status other than success, else saves.
pub enum DirectStep {
    Blocked,
    Handover(JobKind),
    Refused,
    Save,
}

pub open spec fn direct_step_spec(final_host: Option<Seq<char>>, content_type: Seq<char>, success: bool) -> DirectStep {
    if final_host matches Some(h) && is_blocked_host_spec(h) {
        DirectStep::Blocked
    } else if sniffed_kind_spec(content_type) is Some {
        DirectStep::Handover(sniffed_kind_spec(content_type)->Some_0)
    } else if !success {
        DirectStep::Refused
    } else {
        DirectStep::Save
    }
}

/// Decides the next step of a background file download from the final
/// host, the content type and whether the status is a success.
pub fn direct_step(final_host: Option<&str>, content_type: &str, success: bool) -> (r: DirectStep)
    ensures
        r == direct_step_spec(opt_str_view(final_host), content_type@, success),
{
    if let Some(h) = final_host {
        if is_blocked_host(h) {
            return DirectStep::Blocked;
        }
    }
    match sniff_stream_kind(content_type) {
        Some(k) => DirectStep::Handover(k),
        None => if !success {
            DirectStep::Refused
        } else {
            DirectStep::Save
        },
    }
}
} // verus!
