//! The guard against server-side request forgery: which hosts the server
//! refuses to fetch from, and which URLs it accepts at all.

use vstd::prelude::*;
use crate::text::{
    lower, trim, trim_set, to_chars, to_lower, trim_ws, trim_chars, eq_str, starts_with_str,
    ends_with_str, has_char, has_prefix, has_suffix, split_char, split_on, lemma_split_char_len,
    parse_unsigned, parse_unsigned_exec, slice_chars, upper, upper_char, is_ws, lemma_lead_len,
    lemma_trail_len, lemma_trim_by_upper, lemma_trim_by_wrapped, lemma_lower_upper,
};
use crate::urls::{ParsedUrl, UrlFields, url_parse, url_parse_result, opt_str_view};

verus! {

/// `[` and `]`, which surround IPv6 hosts.
pub open spec fn brackets() -> Seq<char> {
    seq!['[', ']']
}

/// The host as compared: trimmed, without surrounding brackets, lower case.
pub open spec fn normalized_host(host: Seq<char>) -> Seq<char> {
    lower(trim_set(trim(host), brackets()))
}

/// `172.16.0.0/12`: the first label after `172.` reads as an octet in 16..=31.
pub open spec fn in_172_private(h: Seq<char>) -> bool {
    has_prefix(h, "172."@) && match parse_unsigned(
        split_char(h.skip("172."@.len() as int), '.')[0],
        255,
    ) {
        Some(o) => 16 <= o <= 31,
        None => false,
    }
}

/// The hosts the server never contacts: loopback, link-local and private
/// ranges, cloud metadata endpoints, local-only names and dotless names.
pub open spec fn is_blocked_host_spec(host: Seq<char>) -> bool {
    let h = normalized_host(host);
    ||| h == "localhost"@
    ||| h == "metadata.google.internal"@
    ||| h == "metadata.google"@
    ||| h == "169.254.169.254"@
    ||| h == "::1"@
    ||| h == "::ffff:127.0.0.1"@
    ||| h == "::"@
    ||| h == "127.0.0.1"@
    ||| h == "0.0.0.0"@
    ||| has_prefix(h, "127."@)
    ||| has_prefix(h, "0."@)
    ||| has_prefix(h, "10."@)
    ||| has_prefix(h, "192.168."@)
    ||| in_172_private(h)
    ||| has_prefix(h, "fe80:"@)
    ||| has_prefix(h, "fec0:"@)
    ||| has_prefix(h, "fc"@)
    ||| has_prefix(h, "fd"@)
    ||| has_suffix(h, ".internal"@)
    ||| has_suffix(h, ".local"@)
    ||| has_suffix(h, ".lan"@)
    ||| !h.contains('.')
}

/// The verdict on a host ignores ASCII case.
pub proof fn lemma_blocked_host_ignores_case(host: Seq<char>)
    ensures
        is_blocked_host_spec(upper(host)) == is_blocked_host_spec(host),
{
    let ws = |c: char| is_ws(c);
    let br = |c: char| brackets().contains(c);
    assert forall|c: char| #[trigger] ws(upper_char(c)) == ws(c) by {}
    assert forall|c: char| #[trigger] br(upper_char(c)) == br(c) by {
        if 'a' <= c && c <= 'z' {
            assert(upper_char(c) as u32 == c as u32 - 32);
            assert(!br(upper_char(c)));
        }
    }
    lemma_trim_by_upper(host, ws);
    lemma_trim_by_upper(trim(host), br);
    lemma_lower_upper(trim_set(trim(host), brackets()));
    assert(normalized_host(upper(host)) == normalized_host(host));
}

/// The verdict on a trimmed host is the same with brackets around it, and a
/// host without a dot once its brackets are off is blocked.
pub proof fn lemma_blocked_host_brackets(host: Seq<char>)
    requires
        host == trim(host),
    ensures
        is_blocked_host_spec(seq!['['] + host + seq![']']) == is_blocked_host_spec(host),
        !trim_set(host, brackets()).contains('.') ==> is_blocked_host_spec(host),
{
    let w = seq!['['] + host + seq![']'];
    let ws = |c: char| is_ws(c);
    let br = |c: char| brackets().contains(c);
    assert(!ws(w[0]));
    assert(w[w.len() - 1] == ']');
    assert(!ws(w[w.len() - 1]));
    lemma_lead_len(w, ws, 0);
    lemma_trail_len(w, ws, w.len() as int);
    assert(trim(w) =~= w);
    assert(br('[') && br(']'));
    lemma_trim_by_wrapped(host, br, '[', ']');
    assert(normalized_host(w) == normalized_host(host));
    let t = trim_set(host, brackets());
    if !t.contains('.') {
        assert forall|i: int| 0 <= i < lower(t).len() implies lower(t)[i] != '.' by {
            assert(t[i] != '.');
        }
        assert(!normalized_host(host).contains('.'));
    }
}

fn in_172_private_exec(h: &[char]) -> (r: bool)
    ensures
        r == in_172_private(h@),
{
    if !starts_with_str(h, "172.") {
        return false;
    }
    let p = to_chars("172.");
    let rest = slice_chars(h, p.len(), h.len());
    assert(rest@ == h@.skip("172."@.len() as int));
    let pieces = split_on(&rest, '.');
    proof {
        lemma_split_char_len(rest@, '.');
    }
    assert(pieces[0]@ == split_char(rest@, '.')[0]);
    match parse_unsigned_exec(&pieces[0], 255) {
        Some(o) => 16 <= o && o <= 31,
        None => false,
    }
}

/// Whether the server refuses to contact `host`.
pub fn is_blocked_host(host: &str) -> (r: bool)
    ensures
        r == is_blocked_host_spec(host@),
{
    let set: Vec<char> = vec!['[', ']'];
    assert(set@ =~= brackets());
    let h = to_lower(&trim_chars(&trim_ws(&to_chars(host)), &set));
    assert(h@ == normalized_host(host@));
    if eq_str(&h, "localhost") || eq_str(&h, "metadata.google.internal") || eq_str(
        &h,
        "metadata.google",
    ) || eq_str(&h, "169.254.169.254") || eq_str(&h, "::1") || eq_str(&h, "::ffff:127.0.0.1")
        || eq_str(&h, "::") {
        return true;
    }
    if eq_str(&h, "127.0.0.1") || eq_str(&h, "0.0.0.0") || starts_with_str(&h, "127.")
        || starts_with_str(&h, "0.") {
        return true;
    }
    if starts_with_str(&h, "10.") || starts_with_str(&h, "192.168.") {
        return true;
    }
    if in_172_private_exec(&h) {
        return true;
    }
    if starts_with_str(&h, "fe80:") || starts_with_str(&h, "fec0:") || starts_with_str(&h, "fc")
        || starts_with_str(&h, "fd") {
        return true;
    }
    if ends_with_str(&h, ".internal") || ends_with_str(&h, ".local") || ends_with_str(&h, ".lan")
        || !has_char(&h, '.') {
        return true;
    }
    false
}

/// What the guard makes of the parts of a parsed URL: accepted when the
/// scheme is http or https, there are no credentials and the host is not
/// blocked; else an HTTP status code and a message.
pub open spec fn fields_verdict(
    scheme: Seq<char>,
    username: Seq<char>,
    has_password: bool,
    host: Option<Seq<char>>,
) -> Result<(), (u16, Seq<char>)> {
    if !(scheme == "http"@ || scheme == "https"@) {
        Err((400u16, "only http/https allowed"@))
    } else if username.len() != 0 || has_password {
        Err((400u16, "userinfo not allowed"@))
    } else {
        match host {
            Some(h) => if !is_blocked_host_spec(h) {
                Ok(())
            } else {
                Err((403u16, "blocked destination"@))
            },
            None => Err((403u16, "blocked destination"@)),
        }
    }
}

/// Judges the parts of a parsed URL: the scheme, the username, whether a
/// password is present, and the host.
pub fn url_fields_verdict(scheme: &str, username: &str, has_password: bool, host: Option<&str>) -> (r:
    Result<(), (u16, String)>)
    ensures
        r is Ok ==> fields_verdict(scheme@, username@, has_password, opt_str_view(host)) is Ok,
        r matches Err((code, msg)) ==> fields_verdict(
            scheme@,
            username@,
            has_password,
            opt_str_view(host),
        ) == Err::<(), (u16, Seq<char>)>((code, msg@)),
{
    let sc = to_chars(scheme);
    if !(eq_str(&sc, "http") || eq_str(&sc, "https")) {
        return Err((400, String::from_str("only http/https allowed")));
    }
    if !username.is_empty() || has_password {
        return Err((400, String::from_str("userinfo not allowed")));
    }
    match host {
        Some(h) => {
            if !is_blocked_host(h) {
                Ok(())
            } else {
                Err((403, String::from_str("blocked destination")))
            }
        },
        None => Err((403, String::from_str("blocked destination"))),
    }
}

/// What the server makes of a URL it is asked to fetch: the URL itself, or
/// an HTTP status code and a message.
pub open spec fn ssrf_verdict(raw: Seq<char>) -> Result<UrlFields, (u16, Seq<char>)> {
    match url_parse_result(raw) {
        None => Err((400u16, "invalid url"@)),
        Some(u) => match fields_verdict(u.1, u.2, u.3, u.4) {
            Ok(_) => Ok(u),
            Err(e) => Err(e),
        },
    }
}

/// Parses `raw` and accepts it only as a plain http(s) URL without
/// credentials whose host is not blocked.
pub fn check_ssrf_url(raw: &str) -> (r: Result<ParsedUrl, (u16, String)>)
    ensures
        r matches Ok(u) ==> ssrf_verdict(raw@) == Ok::<UrlFields, (u16, Seq<char>)>(u@),
        r matches Err((code, msg)) ==> ssrf_verdict(raw@) == Err::<UrlFields, (u16, Seq<char>)>(
            (code, msg@),
        ),
{
    let u = match url_parse(raw) {
        Some(u) => u,
        None => {
            return Err((400, String::from_str("invalid url")));
        },
    };
    match url_fields_verdict(u.scheme(), u.username(), u.has_password(), u.host()) {
        Ok(()) => Ok(u),
        Err(e) => Err(e),
    }
}

/// A URL the guard lets through is plain http(s), carries no credentials,
/// and names a host that is not blocked.
pub proof fn lemma_accepted_url_is_public(raw: Seq<char>)
    requires
        ssrf_verdict(raw) is Ok,
    ensures
        ({
            let u = ssrf_verdict(raw)->Ok_0;
            &&& u.1 == "http"@ || u.1 == "https"@
            &&& u.2.len() == 0 && !u.3
            &&& u.4 matches Some(h) && !is_blocked_host_spec(h)
        }),
{
}

/// What the proxy makes of the host of the URL a request ended at: refused
/// when it is blocked.
pub open spec fn upstream_host_verdict_spec(host: Option<Seq<char>>) -> Result<(), (u16, Seq<char>)> {
    match host {
        Some(h) => if is_blocked_host_spec(h) {
            Err((403u16, "blocked destination"@))
        } else {
            Ok(())
        },
        None => Ok(()),
    }
}

/// Judges the host of the URL a proxied request ended at.
pub fn upstream_host_verdict(host: Option<&str>) -> (r: Result<(), (u16, String)>)
    ensures
        r is Ok ==> upstream_host_verdict_spec(opt_str_view(host)) is Ok,
        r matches Err((code, msg)) ==> upstream_host_verdict_spec(opt_str_view(host)) == Err::<
            (),
            (u16, Seq<char>),
        >((code, msg@)),
{
    match host {
        Some(h) => {
            if is_blocked_host(h) {
                Err((403, String::from_str("blocked destination")))
            } else {
                Ok(())
            }
        },
        None => Ok(()),
    }
}

/// What the proxy makes of the URL a request ended at after redirects: the
/// URL, a bad gateway when it does not parse, or refused when its host is
/// blocked.
pub open spec fn upstream_verdict(final_url: Seq<char>) -> Result<UrlFields, (u16, Seq<char>)> {
    match url_parse_result(final_url) {
        None => Err((502u16, "invalid upstream url"@)),
        Some(u) => match upstream_host_verdict_spec(u.4) {
            Ok(_) => Ok(u),
            Err(e) => Err(e),
        },
    }
}

/// Screens the URL a proxied request ended at after redirects.
pub fn check_upstream_url(final_url: &str) -> (r: Result<ParsedUrl, (u16, String)>)
    ensures
        r matches Ok(u) ==> upstream_verdict(final_url@) == Ok::<UrlFields, (u16, Seq<char>)>(u@),
        r matches Err((code, msg)) ==> upstream_verdict(final_url@) == Err::<UrlFields, (u16, Seq<char>)>(
            (code, msg@),
        ),
{
    let u = match url_parse(final_url) {
        Some(u) => u,
        None => {
            return Err((502, String::from_str("invalid upstream url")));
        },
    };
    match upstream_host_verdict(u.host()) {
        Ok(()) => Ok(u),
        Err(e) => Err(e),
    }
}

} // verus!
