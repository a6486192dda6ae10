//! URLs as this library sees them: the parts of a `url::Url` that its logic
//! reads, parsing and joining through the `url` crate, percent-encoding
//! through `urlencoding`, and the classification of stream URLs.

use vstd::prelude::*;
use vstd::utf8::encode_utf8;
use crate::text::{
    lower, to_lower, to_chars, slice_chars, eq_str, lead_len, trail_len, lemma_lead_len,
    lemma_trail_len, has_suffix, contains_seq, ends_with_str, contains_str, upper, occurs_at,
    lemma_lower_upper,
};

verus! {

#[verifier::external_type_specification]
#[verifier::external_body]
pub struct ExUrl(url::Url);

/// The parts of a parsed URL that the logic reads: serialization, scheme,
/// username, whether a password is present, and the host.
pub type UrlFields = (Seq<char>, Seq<char>, Seq<char>, bool, Option<Seq<char>>);

/// The result of `url::Url::parse` on a text, by the parts it exposes.
pub uninterp spec fn url_parse_result(input: Seq<char>) -> Option<UrlFields>;

/// The result of `url::Url::join` of a reference onto the base URL whose
/// serialization is given, by the parts it exposes.
pub uninterp spec fn url_join_result(base: Seq<char>, reference: Seq<char>) -> Option<UrlFields>;

/// A URL accepted by the `url` crate, with the parts that the logic reads.
pub struct ParsedUrl {
    inner: url::Url,
    href: String,
    scheme: String,
    username: String,
    has_password: bool,
    host: Option<String>,
}

pub open spec fn opt_view(o: Option<String>) -> Option<Seq<char>> {
    match o {
        Some(s) => Some(s@),
        None => None,
    }
}

impl View for ParsedUrl {
    type V = UrlFields;

    closed spec fn view(&self) -> UrlFields {
        (self.href@, self.scheme@, self.username@, self.has_password, opt_view(self.host))
    }
}

impl ParsedUrl {
    /// The `url::Url` this value was made from: the one the `url` crate
    /// returned when it parsed or joined the text whose parts the view holds.
    pub closed spec fn source_url(&self) -> url::Url {
        self.inner
    }

    /// The underlying `url::Url`, for handing to an HTTP client.
    pub fn url(&self) -> (r: &url::Url)
        ensures
            *r == self.source_url(),
    {
        &self.inner
    }

    /// The serialization of the URL (`Url::as_str`).
    pub fn as_str(&self) -> (r: &str)
        ensures
            r@ == self@.0,
    {
        self.href.as_str()
    }

    /// The scheme, lower-cased (`Url::scheme`).
    pub fn scheme(&self) -> (r: &str)
        ensures
            r@ == self@.1,
    {
        self.scheme.as_str()
    }

    /// The username (`Url::username`).
    pub fn username(&self) -> (r: &str)
        ensures
            r@ == self@.2,
    {
        self.username.as_str()
    }

    /// Whether a password is present (`Url::password().is_some()`).
    pub fn has_password(&self) -> (r: bool)
        ensures
            r == self@.3,
    {
        self.has_password
    }

    /// The host (`Url::host_str`).
    pub fn host(&self) -> (r: Option<&str>)
        ensures
            r matches Some(h) ==> self@.4 == Some(h@),
            r is None ==> self@.4 is None,
    {
        match &self.host {
            Some(h) => Some(h.as_str()),
            None => None,
        }
    }
}

/// `url::Url::parse`: the URL that the `url` crate reads from `input`, if any.
/// The contract says only that the parts come from the crate's own parse of
/// `input`; what that parse accepts is the crate's business.
#[verifier::external_body]
pub(crate) fn url_parse(input: &str) -> (r: Option<ParsedUrl>)
    ensures
        r matches Some(u) ==> url_parse_result(input@) == Some(u@),
        r is None ==> url_parse_result(input@) is None,
{
    match url::Url::parse(input) {
        Ok(u) => Some(ParsedUrl {
            href: u.as_str().to_string(),
            scheme: u.scheme().to_string(),
            username: u.username().to_string(),
            has_password: u.password().is_some(),
            host: u.host_str().map(|h| h.to_string()),
            inner: u,
        }),
        Err(_) => None,
    }
}

/// `url::Url::join`: `reference` resolved against `base`, if the `url` crate
/// accepts it. The contract ties the result to the base's serialization and
/// the reference; how relative references resolve is the crate's business.
#[verifier::external_body]
pub(crate) fn url_join(base: &ParsedUrl, reference: &str) -> (r: Option<ParsedUrl>)
    ensures
        r matches Some(u) ==> url_join_result(base@.0, reference@) == Some(u@),
        r is None ==> url_join_result(base@.0, reference@) is None,
{
    match base.inner.join(reference) {
        Ok(u) => Some(ParsedUrl {
            href: u.as_str().to_string(),
            scheme: u.scheme().to_string(),
            username: u.username().to_string(),
            has_password: u.password().is_some(),
            host: u.host_str().map(|h| h.to_string()),
            inner: u,
        }),
        Err(_) => None,
    }
}

// ------------------------------------------------------------------ percent-encoding

/// Bytes that `urlencoding::encode` leaves as they are.
pub open spec fn url_safe_byte(b: u8) -> bool {
    (48 <= b && b <= 57) || (65 <= b && b <= 90) || (97 <= b && b <= 122) || b == 45 || b == 46
        || b == 95 || b == 126
}

/// An upper-case hexadecimal digit for `d < 16`.
pub open spec fn hex_upper(d: int) -> char {
    if d < 10 {
        ((d + 48) as u32) as char
    } else {
        ((d + 55) as u32) as char
    }
}

/// The encoding of one byte: itself when safe, else `%` and two hex digits.
pub open spec fn encode_byte(b: u8) -> Seq<char> {
    if url_safe_byte(b) {
        seq![(b as u32) as char]
    } else {
        seq!['%', hex_upper((b / 16) as int), hex_upper((b % 16) as int)]
    }
}

pub open spec fn percent_encode_bytes(bs: Seq<u8>) -> Seq<char>
    decreases bs.len(),
{
    if bs.len() == 0 {
        Seq::empty()
    } else {
        encode_byte(bs[0]) + percent_encode_bytes(bs.drop_first())
    }
}

/// `urlencoding::encode`: every UTF-8 byte percent-encoded except ASCII
/// alphanumerics and `-`, `.`, `_`, `~`.
pub open spec fn url_encoded(s: Seq<char>) -> Seq<char> {
    percent_encode_bytes(encode_utf8(s))
}

/// `urlencoding::encode`. Its contract states the whole encoding: each UTF-8
/// byte of `s` stays when it is an ASCII alphanumeric or one of `-._~`, and
/// becomes `%XX` with upper-case hex digits otherwise.
#[verifier::external_body]
pub(crate) fn url_encode(s: &str) -> (r: String)
    ensures
        r@ == url_encoded(s@),
{
    urlencoding::encode(s).into_owned()
}

// ------------------------------------------------------------------ stream URLs

/// The characters `?` and `#`, which end the path part of a URL text.
pub open spec fn query_marks() -> Seq<char> {
    seq!['?', '#']
}

/// The text before the first `?` or `#` (`s.split(['?', '#']).next()`).
pub open spec fn path_part(s: Seq<char>) -> Seq<char> {
    s.take(lead_len(s, |c: char| !query_marks().contains(c)) as int)
}

pub fn path_part_exec(s: &[char]) -> (r: Vec<char>)
    ensures
        r@ == path_part(s@),
{
    let ghost p = |c: char| !query_marks().contains(c);
    let mut a: usize = 0;
    while a < s.len() && s[a] != '?' && s[a] != '#'
        invariant
            a <= s.len(),
            p == (|c: char| !query_marks().contains(c)),
            forall|k: int| 0 <= k < a ==> p(s@[k]),
        decreases s.len() - a,
    {
        assert(!query_marks().contains(s@[a as int])) by {
            if query_marks().contains(s@[a as int]) {
                let k = choose|k: int| 0 <= k < 2 && query_marks()[k] == s@[a as int];
                assert(k == 0 || k == 1);
            }
        }
        a = a + 1;
    }
    proof {
        if a < s.len() {
            assert(query_marks()[0] == '?');
            assert(query_marks()[1] == '#');
            assert(query_marks().contains(s@[a as int]));
        }
        lemma_lead_len(s@, p, a as int);
    }
    slice_chars(s, 0, a)
}

/// `is_hls_or_dash_url`: the path ends in `.m3u8` or `.mpd`, or the URL
/// mentions `/dash/` (all compared in ASCII lower case).
pub open spec fn is_hls_or_dash_spec(u: Seq<char>) -> bool {
    let l = lower(u);
    let p = path_part(l);
    has_suffix(p, ".m3u8"@) || has_suffix(p, ".mpd"@) || contains_seq(l, "/dash/"@)
}

/// Whether a stream URL is an HLS playlist or a DASH manifest.
pub fn is_hls_or_dash_url(u: &str) -> (r: bool)
    ensures
        r == is_hls_or_dash_spec(u@),
{
    let l = to_lower(&to_chars(u));
    let p = path_part_exec(&l);
    ends_with_str(&p, ".m3u8") || ends_with_str(&p, ".mpd") || contains_str(&l, "/dash/")
}

/// Whether a URL names a stream ignores ASCII case, and the query part
/// after a `?` does not change it unless the query itself mentions
/// `/dash/`.
pub proof fn lemma_stream_url_ignores_case_and_query(u: Seq<char>, q: Seq<char>)
    requires
        !u.contains('?'),
        !u.contains('#'),
        !contains_seq(lower(q), "/dash/"@),
    ensures
        is_hls_or_dash_spec(upper(u)) == is_hls_or_dash_spec(u),
        is_hls_or_dash_spec(u + seq!['?'] + q) == is_hls_or_dash_spec(u),
{
    lemma_lower_upper(u);
    let lu = lower(u);
    let l = lower(u + seq!['?'] + q);
    assert(l =~= lu + seq!['?'] + lower(q));
    let p = |c: char| !query_marks().contains(c);
    assert forall|k: int| 0 <= k < lu.len() implies p(#[trigger] lu[k]) by {
        assert(u[k] != '?' && u[k] != '#');
        if query_marks().contains(lu[k]) {
            let j = choose|j: int| 0 <= j < 2 && query_marks()[j] == lu[k];
            assert(j == 0 || j == 1);
        }
    }
    assert forall|k: int| 0 <= k < lu.len() implies p(#[trigger] l[k]) by {
        assert(l[k] == lu[k]);
    }
    assert(l[lu.len() as int] == '?');
    assert(query_marks()[0] == '?');
    lemma_lead_len(l, p, lu.len() as int);
    lemma_lead_len(lu, p, lu.len() as int);
    assert(path_part(l) =~= lu);
    assert(path_part(lu) =~= lu);
    reveal_strlit("/dash/");
    let d = "/dash/"@;
    if contains_seq(lu, d) {
        let i = choose|i: int| occurs_at(lu, d, i);
        assert(l.subrange(i, i + d.len()) =~= lu.subrange(i, i + d.len()));
        assert(occurs_at(l, d, i));
    }
    if contains_seq(l, d) {
        let i = choose|i: int| occurs_at(l, d, i);
        if i + d.len() <= lu.len() {
            assert(l.subrange(i, i + d.len()) =~= lu.subrange(i, i + d.len()));
            assert(occurs_at(lu, d, i));
        } else if i > lu.len() {
            let j = i - lu.len() - 1;
            assert(l.subrange(i, i + d.len()) =~= lower(q).subrange(j, j + d.len()));
            assert(occurs_at(lower(q), d, j));
        } else {
            assert(l.subrange(i, i + d.len())[lu.len() - i] == l[lu.len() as int]);
            assert(d[lu.len() - i] != '?');
        }
    }
}

/// The text after the last `.` (`s.rsplit('.').next()`), or all of `s`.
pub open spec fn after_last_dot(s: Seq<char>) -> Seq<char> {
    s.skip(s.len() - trail_len(s, |c: char| c != '.'))
}

pub fn after_last_dot_exec(s: &[char]) -> (r: Vec<char>)
    ensures
        r@ == after_last_dot(s@),
{
    let ghost p = |c: char| c != '.';
    let mut b: usize = s.len();
    while b > 0 && s[b - 1] != '.'
        invariant
            b <= s.len(),
            p == (|c: char| c != '.'),
            forall|k: int| b <= k < s.len() ==> p(s@[k]),
        decreases b,
    {
        b = b - 1;
    }
    proof {
        lemma_trail_len(s@, p, b as int);
    }
    slice_chars(s, b, s.len())
}

/// The file extension chosen for a direct download: from the content type
/// when it names one of the known containers, else from the URL's path when
/// its last dot-suffix is one of `mp4`, `mkv`, `webm`, `ts`, else `mp4`.
pub open spec fn download_extension(url: Seq<char>, content_type: Option<Seq<char>>) -> Seq<char> {
    let from_ct: Option<Seq<char>> = match content_type {
        Some(ct) => {
            let c = lower(ct);
            if contains_seq(c, "matroska"@) || contains_seq(c, "x-matroska"@) {
                Some("mkv"@)
            } else if contains_seq(c, "webm"@) {
                Some("webm"@)
            } else if contains_seq(c, "mpeg2"@) || contains_seq(c, "mp2t"@) {
                Some("ts"@)
            } else if contains_seq(c, "mp4"@) {
                Some("mp4"@)
            } else {
                None
            }
        },
        None => None,
    };
    match from_ct {
        Some(e) => e,
        None => {
            let e = lower(after_last_dot(path_part(url)));
            if e == "mkv"@ || e == "webm"@ || e == "ts"@ || e == "mp4"@ {
                e
            } else {
                "mp4"@
            }
        },
    }
}

/// Without a content type, a URL whose path ends in `.<ext>`, followed by
/// nothing or by a query or fragment, is saved with that extension in lower
/// case whenever it is one of `mp4`, `mkv`, `webm`, `ts`.
pub proof fn lemma_extension_from_path(stem: Seq<char>, e: Seq<char>, rest: Seq<char>)
    requires
        forall|k: int| 0 <= k < stem.len() ==> #[trigger] stem[k] != '?' && stem[k] != '#',
        forall|k: int| 0 <= k < e.len() ==> #[trigger] e[k] != '.' && e[k] != '?' && e[k] != '#',
        lower(e) == "mp4"@ || lower(e) == "mkv"@ || lower(e) == "webm"@ || lower(e) == "ts"@,
        rest.len() == 0 || rest[0] == '?' || rest[0] == '#',
    ensures
        download_extension(stem + "."@ + e + rest, None) == lower(e),
{
    reveal_strlit(".");
    let pth = stem + "."@ + e;
    let url = pth + rest;
    let p = |c: char| !query_marks().contains(c);
    assert forall|k: int| 0 <= k < pth.len() implies p(url[k]) by {
        assert(url[k] == pth[k]);
        if k < stem.len() {
            assert(pth[k] == stem[k]);
        } else if k == stem.len() {
            assert(pth[k] == '.');
        } else {
            assert(pth[k] == e[k - stem.len() - 1]);
        }
        if query_marks().contains(url[k]) {
            let i = choose|i: int| 0 <= i < query_marks().len() && query_marks()[i] == url[k];
            assert(i == 0 || i == 1);
        }
    }
    if rest.len() > 0 {
        assert(url[pth.len() as int] == rest[0]);
        assert(query_marks()[0] == '?' && query_marks()[1] == '#');
        assert(!p(url[pth.len() as int]));
    }
    lemma_lead_len(url, p, pth.len() as int);
    assert(path_part(url) =~= pth);
    let q = |c: char| c != '.';
    assert forall|k: int| stem.len() + 1 <= k < pth.len() implies q(pth[k]) by {
        assert(pth[k] == e[k - stem.len() - 1]);
    }
    assert(pth[stem.len() as int] == '.');
    lemma_trail_len(pth, q, stem.len() + 1int);
    assert(after_last_dot(pth) =~= e);
}

/// A content type that names a container decides the extension, whatever
/// the URL: Matroska gives `mkv`, then WebM `webm`, then MPEG-2 transport
/// `ts`, then MP4 `mp4`; one that names none leaves the choice to the URL.
pub proof fn lemma_extension_from_content_type(url: Seq<char>, ct: Seq<char>)
    ensures
        contains_seq(lower(ct), "matroska"@) ==> download_extension(url, Some(ct)) == "mkv"@,
        !contains_seq(lower(ct), "matroska"@) && contains_seq(lower(ct), "webm"@) ==> download_extension(
            url,
            Some(ct),
        ) == "webm"@,
        !contains_seq(lower(ct), "matroska"@) && !contains_seq(lower(ct), "webm"@) && (contains_seq(
            lower(ct),
            "mpeg2"@,
        ) || contains_seq(lower(ct), "mp2t"@)) ==> download_extension(url, Some(ct)) == "ts"@,
        !contains_seq(lower(ct), "matroska"@) && !contains_seq(lower(ct), "webm"@) && !contains_seq(
            lower(ct),
            "mpeg2"@,
        ) && !contains_seq(lower(ct), "mp2t"@) && contains_seq(lower(ct), "mp4"@) ==> download_extension(
            url,
            Some(ct),
        ) == "mp4"@,
        !contains_seq(lower(ct), "matroska"@) && !contains_seq(lower(ct), "webm"@) && !contains_seq(
            lower(ct),
            "mpeg2"@,
        ) && !contains_seq(lower(ct), "mp2t"@) && !contains_seq(lower(ct), "mp4"@) ==> download_extension(
            url,
            Some(ct),
        ) == download_extension(url, None),
{
    let c = lower(ct);
    if contains_seq(c, "x-matroska"@) {
        reveal_strlit("x-matroska");
        reveal_strlit("matroska");
        let i = choose|i: int| occurs_at(c, "x-matroska"@, i);
        assert(c.subrange(i + 2, i + 10) =~= c.subrange(i, i + 10).subrange(2, 10));
        assert("x-matroska"@.subrange(2, 10) =~= "matroska"@);
        assert(occurs_at(c, "matroska"@, i + 2));
    }
}

/// Guesses the container extension of a direct download.
pub fn infer_download_extension(url: &str, content_type: Option<&str>) -> (r: &'static str)
    ensures
        r@ == download_extension(url@, opt_str_view(content_type)),
        r@ == "mp4"@ || r@ == "mkv"@ || r@ == "webm"@ || r@ == "ts"@,
{
    if let Some(ct) = content_type {
        let c = to_lower(&to_chars(ct));
        if contains_str(&c, "matroska") || contains_str(&c, "x-matroska") {
            return "mkv";
        }
        if contains_str(&c, "webm") {
            return "webm";
        }
        if contains_str(&c, "mpeg2") || contains_str(&c, "mp2t") {
            return "ts";
        }
        if contains_str(&c, "mp4") {
            return "mp4";
        }
    }
    let u = to_chars(url);
    let e = to_lower(&after_last_dot_exec(&path_part_exec(&u)));
    if eq_str(&e, "mkv") {
        "mkv"
    } else if eq_str(&e, "webm") {
        "webm"
    } else if eq_str(&e, "ts") {
        "ts"
    } else {
        "mp4"
    }
}

pub open spec fn opt_str_view(o: Option<&str>) -> Option<Seq<char>> {
    match o {
        Some(s) => Some(s@),
        None => None,
    }
}

/// How a download job fetches its stream.
#[derive(Clone, Copy, Debug, PartialEq, Eq, Structural)]
pub enum JobKind {
    /// A plain media file.
    File,
    /// An HLS playlist, fetched segment by segment.
    Hls,
    /// A DASH manifest, handed to yt-dlp.
    Dash,
}

/// The kind of a new download job, from its (parsed) URL.
pub open spec fn job_kind_of(u: Seq<char>) -> JobKind {
    if is_hls_or_dash_spec(u) {
        if has_suffix(path_part(lower(u)), ".m3u8"@) {
            JobKind::Hls
        } else {
            JobKind::Dash
        }
    } else {
        JobKind::File
    }
}

pub fn job_kind_for_url(u: &str) -> (k: JobKind)
    ensures
        k == job_kind_of(u@),
{
    if is_hls_or_dash_url(u) {
        let l = to_lower(&to_chars(u));
        let p = path_part_exec(&l);
        if ends_with_str(&p, ".m3u8") {
            JobKind::Hls
        } else {
            JobKind::Dash
        }
    } else {
        JobKind::File
    }
}

} // verus!
