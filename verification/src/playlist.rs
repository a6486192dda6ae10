//! HLS playlists as fetched and served: resolving the variant of a master
//! playlist, listing the segments of a media playlist, and rewriting a
//! playlist so that every URI it names goes through the server's proxy.

use vstd::prelude::*;
use crate::text::{
    trim, trim_ws, to_chars, string_from_chars, has_prefix, starts_with_str, contains_seq,
    contains_str, find, find_seq, lines, lines_of, slice_chars, push_all, lower, to_lower,
    occurs_at, lemma_find_seq, lemma_trim_noop, is_ws,
};
use crate::urls::{
    ParsedUrl, UrlFields, url_parse, url_parse_result, url_join, url_join_result, url_encode,
    url_encoded, opt_str_view,
};
use crate::ssrf::{is_blocked_host, is_blocked_host_spec};
use crate::hls::{pick_hls_variant, picked_variant, opt_u16_view};

verus! {

// ------------------------------------------------------------------ variant resolution

/// Whether a fetched playlist is a master playlist (it declares variants).
pub open spec fn is_master_spec(text: Seq<char>) -> bool {
    contains_seq(text, "#EXT-X-STREAM-INF"@)
}

pub fn is_master_playlist(text: &str) -> (r: bool)
    ensures
        r == is_master_spec(text@),
{
    contains_str(&to_chars(text), "#EXT-X-STREAM-INF")
}

/// The URL an HLS job starts from: it must parse and its host must not be
/// blocked.
pub open spec fn hls_base_spec(url: Seq<char>) -> Result<UrlFields, Seq<char>> {
    match url_parse_result(url) {
        None => Err("invalid url"@),
        Some(u) => if is_blocked_host_spec(host_text(u.4)) {
            Err("blocked destination"@)
        } else {
            Ok(u)
        },
    }
}

/// Whether an HLS job may fetch from a URL with this host: the host, or the
/// empty text when there is none, is not blocked.
pub fn host_allowed(host: Option<&str>) -> (r: bool)
    ensures
        r == !is_blocked_host_spec(host_text(opt_str_view(host))),
{
    match host {
        Some(h) => {
            assert(opt_str_view(host) == Some(h@));
            !is_blocked_host(h)
        },
        None => {
            let e = "";
            proof {
                reveal_strlit("");
            }
            assert(e@ =~= host_text(opt_str_view(host)));
            !is_blocked_host(e)
        },
    }
}

/// `host_str().unwrap_or("")`.
pub open spec fn host_text(host: Option<Seq<char>>) -> Seq<char> {
    match host {
        Some(h) => h,
        None => Seq::empty(),
    }
}

pub fn hls_base(url: &str) -> (r: Result<ParsedUrl, String>)
    ensures
        r matches Ok(u) ==> hls_base_spec(url@) == Ok::<UrlFields, Seq<char>>(u@),
        r matches Err(e) ==> hls_base_spec(url@) == Err::<UrlFields, Seq<char>>(e@),
{
    match url_parse(url) {
        None => Err(String::from_str("invalid url")),
        Some(u) => {
            if !host_allowed(u.host()) {
                Err(String::from_str("blocked destination"))
            } else {
                Ok(u)
            }
        },
    }
}

/// Where an HLS job goes after fetching `text` from `base`: nowhere else for
/// a media playlist (`Ok(None)`), else the picked variant resolved against
/// `base`, provided there is one, it resolves, and its host is not blocked.
pub open spec fn variant_target(base: UrlFields, text: Seq<char>, quality: Option<int>) -> Result<
    Option<UrlFields>,
    Seq<char>,
> {
    if !is_master_spec(text) {
        Ok(None)
    } else {
        match picked_variant(text, quality) {
            None => Err("cannot find variant playlist"@),
            Some(rel) => match url_join_result(base.0, rel) {
                None => Err("bad variant url"@),
                Some(v) => if is_blocked_host_spec(host_text(v.4)) {
                    Err("blocked destination after redirect"@)
                } else {
                    Ok(Some(v))
                },
            },
        }
    }
}

pub open spec fn opt_url_view(o: Option<ParsedUrl>) -> Option<UrlFields> {
    match o {
        Some(u) => Some(u@),
        None => None,
    }
}

pub fn hls_variant_url(base: &ParsedUrl, text: &str, quality: Option<u16>) -> (r: Result<
    Option<ParsedUrl>,
    String,
>)
    ensures
        r matches Ok(o) ==> variant_target(base@, text@, opt_u16_view(quality)) == Ok::<
            Option<UrlFields>,
            Seq<char>,
        >(opt_url_view(o)),
        r matches Err(e) ==> variant_target(base@, text@, opt_u16_view(quality)) == Err::<
            Option<UrlFields>,
            Seq<char>,
        >(e@),
{
    if !is_master_playlist(text) {
        return Ok(None);
    }
    let rel = match pick_hls_variant(text, quality) {
        Some(rel) => rel,
        None => {
            return Err(String::from_str("cannot find variant playlist"));
        },
    };
    let v = match url_join(base, rel.as_str()) {
        Some(v) => v,
        None => {
            return Err(String::from_str("bad variant url"));
        },
    };
    if !host_allowed(v.host()) {
        return Err(String::from_str("blocked destination after redirect"));
    }
    Ok(Some(v))
}

// ------------------------------------------------------------------ media playlists

/// A key tag that actually encrypts the segments.
pub open spec fn encrypting_key_line(line: Seq<char>) -> bool {
    let t = trim(line);
    has_prefix(t, "#EXT-X-KEY"@) && !contains_seq(t, "METHOD=NONE"@)
}

/// The line names a segment: not empty and not a tag or comment.
pub open spec fn segment_line(line: Seq<char>) -> bool {
    let t = trim(line);
    t.len() > 0 && t[0] != '#'
}

/// The segment URLs of a media playlist, in order, skipping references that
/// do not resolve; `None` as soon as one resolves to a blocked host.
pub open spec fn segment_scan(ls: Seq<Seq<char>>, base: Seq<char>) -> Option<Seq<UrlFields>>
    decreases ls.len(),
{
    if ls.len() == 0 {
        Some(Seq::empty())
    } else {
        match segment_scan(ls.drop_last(), base) {
            None => None,
            Some(prev) => if !segment_line(ls.last()) {
                Some(prev)
            } else {
                match url_join_result(base, trim(ls.last())) {
                    None => Some(prev),
                    Some(u) => if is_blocked_host_spec(host_text(u.4)) {
                        None
                    } else {
                        Some(prev.push(u))
                    },
                }
            },
        }
    }
}

/// The message for playlists whose segments are encrypted.
pub open spec fn encrypted_message() -> Seq<char> {
    "this HLS stream is encrypted — open it with Play in browser or VLC instead"@
}

/// The segments to download from a media playlist fetched at `base`.
pub open spec fn media_segments_spec(playlist: Seq<char>, base: Seq<char>) -> Result<
    Seq<UrlFields>,
    Seq<char>,
> {
    let ls = lines(playlist);
    if exists|i: int| 0 <= i < ls.len() && encrypting_key_line(#[trigger] ls[i]) {
        Err(encrypted_message())
    } else {
        match segment_scan(ls, base) {
            None => Err("blocked segment host"@),
            Some(segs) => if segs.len() == 0 {
                Err("playlist has no segments"@)
            } else {
                Ok(segs)
            },
        }
    }
}

pub open spec fn urls_view(v: Seq<ParsedUrl>) -> Seq<UrlFields> {
    v.map_values(|u: ParsedUrl| u@)
}

/// Lists the segment URLs of a media playlist, refusing encrypted streams,
/// blocked segment hosts and playlists without segments.
pub fn hls_media_segments(playlist: &str, base: &ParsedUrl) -> (r: Result<Vec<ParsedUrl>, String>)
    ensures
        r matches Ok(v) ==> media_segments_spec(playlist@, base@.0) == Ok::<
            Seq<UrlFields>,
            Seq<char>,
        >(urls_view(v@)),
        r matches Err(e) ==> media_segments_spec(playlist@, base@.0) == Err::<
            Seq<UrlFields>,
            Seq<char>,
        >(e@),
{
    let ls = lines_of(&to_chars(playlist));
    let ghost lsv = lines(playlist@);
    let mut i: usize = 0;
    while i < ls.len()
        invariant
            i <= ls.len(),
            ls@.map_values(|x: Vec<char>| x@) == lsv,
            lsv == lines(playlist@),
            forall|k: int| 0 <= k < i ==> !encrypting_key_line(#[trigger] lsv[k]),
        decreases ls.len() - i,
    {
        assert(ls[i as int]@ == lsv[i as int]);
        let t = trim_ws(&ls[i]);
        if starts_with_str(&t, "#EXT-X-KEY") && !contains_str(&t, "METHOD=NONE") {
            assert(encrypting_key_line(lsv[i as int]));
            return Err(String::from_str(
                "this HLS stream is encrypted — open it with Play in browser or VLC instead",
            ));
        }
        i = i + 1;
    }
    let mut segs: Vec<ParsedUrl> = Vec::new();
    let mut j: usize = 0;
    while j < ls.len()
        invariant
            j <= ls.len(),
            ls@.map_values(|x: Vec<char>| x@) == lsv,
            segment_scan(lsv.take(j as int), base@.0) == Some(urls_view(segs@)),
            !(exists|i: int| 0 <= i < lsv.len() && encrypting_key_line(#[trigger] lsv[i])),
            lsv == lines(playlist@),
        decreases ls.len() - j,
    {
        assert(ls[j as int]@ == lsv[j as int]);
        assert(lsv.take(j + 1).drop_last() =~= lsv.take(j as int));
        let t = trim_ws(&ls[j]);
        if t.len() == 0 || t[0] == '#' {
            j = j + 1;
            continue;
        }
        let ts = string_from_chars(&t);
        match url_join(base, ts.as_str()) {
            Some(abs) => {
                if !host_allowed(abs.host()) {
                    proof {
                        lemma_scan_stays_blocked(lsv, base@.0, j as int + 1);
                    }
                    return Err(String::from_str("blocked segment host"));
                }
                let ghost before = urls_view(segs@);
                let ghost av = abs@;
                segs.push(abs);
                assert(urls_view(segs@) =~= before.push(av));
            },
            None => {},
        }
        j = j + 1;
    }
    assert(lsv.take(ls.len() as int) =~= lsv);
    if segs.len() == 0 {
        return Err(String::from_str("playlist has no segments"));
    }
    Ok(segs)
}

/// Once the scan has hit a blocked segment it stays refused.
pub proof fn lemma_scan_stays_blocked(ls: Seq<Seq<char>>, base: Seq<char>, k: int)
    requires
        0 <= k <= ls.len(),
        segment_scan(ls.take(k), base) is None,
    ensures
        segment_scan(ls, base) is None,
    decreases ls.len() - k,
{
    if k < ls.len() {
        assert(ls.take(k + 1).drop_last() =~= ls.take(k));
        lemma_scan_stays_blocked(ls, base, k + 1);
    } else {
        assert(ls.take(k) =~= ls);
    }
}

// ------------------------------------------------------------------ proxy rewriting

/// `/api/proxy?url=<encoded absolute URL><headers parameter>`.
pub open spec fn proxied(abs: Seq<char>, headers_param: Seq<char>) -> Seq<char> {
    "/api/proxy?url="@ + url_encoded(abs) + headers_param
}

/// One playlist line as served through the proxy: URI lines become proxy
/// URLs, tags carrying `URI="..."` get that URI rewritten, everything else
/// is kept (trimmed).
pub open spec fn proxify_spec(base: Seq<char>, line: Seq<char>, headers_param: Seq<char>) -> Seq<
    char,
> {
    let t = trim(line);
    if t.len() == 0 {
        Seq::empty()
    } else if t[0] == '#' {
        match find_seq(t, "URI=\""@) {
            Some(s) => {
                let rest = t.skip(s + 5);
                match find_seq(rest, seq!['"']) {
                    Some(e) => match url_join_result(base, rest.take(e)) {
                        Some(abs) => t.take(s + 5) + proxied(abs.0, headers_param) + t.skip(
                            s + 5 + e,
                        ),
                        None => t,
                    },
                    None => t,
                }
            },
            None => t,
        }
    } else {
        match url_join_result(base, t) {
            Some(abs) => proxied(abs.0, headers_param),
            None => t,
        }
    }
}

/// The proxy URL for an absolute URL, with the request headers parameter.
pub fn proxied_url(abs: &str, headers_param: &str) -> (r: String)
    ensures
        r@ == proxied(abs@, headers_param@),
{
    let mut r = to_chars("/api/proxy?url=");
    let enc = url_encode(abs);
    push_all(&mut r, &to_chars(enc.as_str()));
    push_all(&mut r, &to_chars(headers_param));
    string_from_chars(&r)
}

/// Whatever the tag, a tag line that carries `URI="u"`, where `u` resolves
/// against the base, comes out with `u` replaced by the proxy URL of the
/// resolved URL and everything else kept.
pub proof fn lemma_tag_uri_proxied(
    base: Seq<char>,
    prefix: Seq<char>,
    u: Seq<char>,
    suffix: Seq<char>,
    headers_param: Seq<char>,
    abs: UrlFields,
)
    requires
        prefix.len() > 0,
        prefix[0] == '#',
        !contains_seq(prefix, "URI=\""@),
        forall|k: int| 0 <= k < u.len() ==> #[trigger] u[k] != '"',
        suffix.len() == 0 || !is_ws(suffix.last()),
        url_join_result(base, u) == Some(abs),
    ensures
        proxify_spec(base, prefix + "URI=\""@ + u + "\""@ + suffix, headers_param) == prefix
            + "URI=\""@ + proxied(abs.0, headers_param) + "\""@ + suffix,
{
    reveal_strlit("URI=\"");
    reveal_strlit("\"");
    let pat = "URI=\""@;
    let qt = "\""@;
    let pl = prefix.len() as int;
    let line = prefix + pat + u + qt + suffix;
    assert(line[0] == '#');
    assert(!is_ws(line.last())) by {
        if suffix.len() == 0 {
            assert(line.last() == '"');
        } else {
            assert(line.last() == suffix.last());
        }
    }
    lemma_trim_noop(line);
    let t = line;
    assert(t.subrange(pl, pl + 5) =~= pat);
    assert forall|j: int| 0 <= j < pl implies !occurs_at(t, pat, j) by {
        if occurs_at(t, pat, j) {
            if j + 5 <= pl {
                assert(prefix.subrange(j, j + 5) =~= t.subrange(j, j + 5));
                assert(occurs_at(prefix, pat, j));
            } else {
                assert(t.subrange(j, j + 5)[4] == t[j + 4]);
                assert(t[j + 4] == pat[j + 4 - pl]);
            }
        }
    }
    lemma_find_seq(t, pat, pl);
    let rest = t.skip(pl + 5);
    assert(rest =~= u + qt + suffix);
    let ul = u.len() as int;
    assert(rest.subrange(ul, ul + 1) =~= seq!['"']);
    assert forall|j: int| 0 <= j < ul implies !occurs_at(rest, seq!['"'], j) by {
        if occurs_at(rest, seq!['"'], j) {
            assert(rest.subrange(j, j + 1)[0] == rest[j]);
            assert(rest[j] == u[j]);
        }
    }
    lemma_find_seq(rest, seq!['"'], ul);
    assert(rest.take(ul) =~= u);
    assert(t.take(pl + 5) =~= prefix + pat);
    assert(t.skip(pl + 5 + ul) =~= qt + suffix);
    assert((prefix + pat) + proxied(abs.0, headers_param) + (qt + suffix) =~= prefix + pat + proxied(
        abs.0,
        headers_param,
    ) + qt + suffix);
}

/// A URI line (trimmed, not a comment) becomes the proxy URL of the URL it
/// resolves to against the base, and stays as it is when it does not
/// resolve.
pub proof fn lemma_uri_line_proxied(base: Seq<char>, line: Seq<char>, headers_param: Seq<char>)
    requires
        line.len() > 0,
        line[0] != '#',
        !is_ws(line[0]),
        !is_ws(line.last()),
    ensures
        url_join_result(base, line) matches Some(abs) ==> proxify_spec(base, line, headers_param)
            == proxied(abs.0, headers_param),
        url_join_result(base, line) is None ==> proxify_spec(base, line, headers_param) == line,
{
    lemma_trim_noop(line);
}

/// Rewrites one playlist line so that the URI it carries goes through the
/// server's proxy with the same request headers.
pub fn proxify_line(base: &ParsedUrl, line: &str, headers_param: &str) -> (r: String)
    ensures
        r@ == proxify_spec(base@.0, line@, headers_param@),
{
    let t = trim_ws(&to_chars(line));
    if t.len() == 0 {
        return String::new();
    }
    if t[0] == '#' {
        assert(t@.len() > 0 && t@[0] == '#');
        let pat = to_chars("URI=\"");
        proof {
            reveal_strlit("URI=\"");
        }
        assert(pat@.len() == 5);
        if let Some(s) = find(&t, &pat) {
            let rest = slice_chars(&t, s + 5, t.len());
            assert(rest@ =~= t@.skip(s + 5));
            let quote: Vec<char> = vec!['"'];
            assert(quote@ =~= seq!['"']);
            if let Some(e) = find(&rest, &quote) {
                let raw = slice_chars(&rest, 0, e);
                assert(raw@ =~= rest@.take(e as int));
                let raw_s = string_from_chars(&raw);
                if let Some(abs) = url_join(base, raw_s.as_str()) {
                    let mut out = slice_chars(&t, 0, s + 5);
                    assert(out@ =~= t@.take(s + 5));
                    push_all(&mut out, &to_chars(proxied_url(abs.as_str(), headers_param).as_str()));
                    let tail = slice_chars(&t, s + 5 + e, t.len());
                    assert(tail@ =~= t@.skip(s + 5 + e));
                    push_all(&mut out, &tail);
                    return string_from_chars(&out);
                }
            }
        }
        return string_from_chars(&t);
    }
    let ts = string_from_chars(&t);
    match url_join(base, ts.as_str()) {
        Some(abs) => proxied_url(abs.as_str(), headers_param),
        None => ts,
    }
}

/// A whole playlist served through the proxy: each line rewritten and
/// followed by a newline.
pub open spec fn rewrite_spec(base: Seq<char>, ls: Seq<Seq<char>>, headers_param: Seq<char>) -> Seq<
    char,
>
    decreases ls.len(),
{
    if ls.len() == 0 {
        Seq::empty()
    } else {
        rewrite_spec(base, ls.drop_last(), headers_param) + proxify_spec(
            base,
            ls.last(),
            headers_param,
        ) + seq!['\n']
    }
}

/// Rewrites every line of a playlist for the proxy.
pub fn rewrite_playlist(base: &ParsedUrl, text: &str, headers_param: &str) -> (r: String)
    ensures
        r@ == rewrite_spec(base@.0, lines(text@), headers_param@),
{
    let ls = lines_of(&to_chars(text));
    let ghost lsv = lines(text@);
    let mut out: Vec<char> = Vec::new();
    let mut i: usize = 0;
    while i < ls.len()
        invariant
            i <= ls.len(),
            ls@.map_values(|x: Vec<char>| x@) == lsv,
            out@ == rewrite_spec(base@.0, lsv.take(i as int), headers_param@),
        decreases ls.len() - i,
    {
        assert(ls[i as int]@ == lsv[i as int]);
        assert(lsv.take(i + 1).drop_last() =~= lsv.take(i as int));
        let line = string_from_chars(&ls[i]);
        let p = proxify_line(base, line.as_str(), headers_param);
        push_all(&mut out, &to_chars(p.as_str()));
        out.push('\n');
        i = i + 1;
    }
    assert(lsv.take(ls.len() as int) =~= lsv);
    string_from_chars(&out)
}

/// Whether an upstream response is an HLS playlist: its final URL mentions
/// `.m3u8`, or its content type (visible ASCII, as header values are)
/// mentions `mpegurl` in any case.
pub open spec fn is_m3u8_response_spec(final_url: Seq<char>, content_type: Option<Seq<char>>) -> bool {
    contains_seq(final_url, ".m3u8"@) || match content_type {
        Some(ct) => contains_seq(lower(ct), "mpegurl"@),
        None => false,
    }
}

pub fn is_m3u8_response(final_url: &str, content_type: Option<&str>) -> (r: bool)
    ensures
        r == is_m3u8_response_spec(final_url@, crate::urls::opt_str_view(content_type)),
{
    if contains_str(&to_chars(final_url), ".m3u8") {
        return true;
    }
    match content_type {
        Some(ct) => contains_str(&to_lower(&to_chars(ct)), "mpegurl"),
        None => false,
    }
}

} // verus!
