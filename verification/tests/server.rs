use moviebox_web::playlist::{
    hls_base, hls_media_segments, hls_variant_url, is_m3u8_response, is_master_playlist,
    proxify_line, rewrite_playlist, proxied_url, host_allowed,
};
use moviebox_web::ssrf::{
    check_ssrf_url, check_upstream_url, is_blocked_host, url_fields_verdict, upstream_host_verdict,
};
use moviebox_web::urls::{infer_download_extension, is_hls_or_dash_url, job_kind_for_url, JobKind};
use moviebox_web::web::{
    content_disposition, content_range_value, direct_download_complete, fallback_proxy_url,
    forward_download_headers, headers_query_param, is_stream_response, is_valid_download_id,
    manifest_length_ok, mime_for_extension, parse_headers, replace_extension, resolve_byte_range,
    segment_backoff_secs, sniff_stream_kind, suggest_query, suggest_result_indices,
    ts_fallback_name, ytdlp_format, ytdlp_header_args, ByteRange, SuggestCache,
    MAX_MANIFEST_BYTES, SEG_ATTEMPTS, ffmpeg_remux_args, is_sibling_output, ytdlp_args,
    SegmentFetch, SegmentStep, save_verdict, SaveVerdict, direct_reply_verdict, direct_step,
    DirectStep, refreshed_filename,
};
use moviebox_web::jobs::JobStatus;
use moviebox_web::strmap::StrMap;

fn pair(a: &str, b: &str) -> (String, String) {
    (a.to_string(), b.to_string())
}

#[test]
fn blocked_hosts() {
    for h in [
        "localhost", "LOCALHOST", "127.0.0.1", "127.8.9.1", "0.0.0.0", "10.1.2.3", "192.168.0.10",
        "172.16.0.1", "172.31.255.255", "169.254.169.254", "[::1]", "::ffff:127.0.0.1", "fe80::1",
        "fd00::1", "metadata.google.internal", "printer.local", "nas.lan", "intranet", " example.internal ",
    ] {
        assert!(is_blocked_host(h), "{h}");
    }
    for h in ["example.com", "172.32.0.1", "172.15.0.1", "8.8.8.8", "cdn.example.org"] {
        assert!(!is_blocked_host(h), "{h}");
    }
}

#[test]
fn ssrf_guard_verdicts() {
    assert_eq!(check_ssrf_url("not a url").err(), Some((400, "invalid url".to_string())));
    assert_eq!(
        check_ssrf_url("ftp://example.com/a").err(),
        Some((400, "only http/https allowed".to_string()))
    );
    assert_eq!(
        check_ssrf_url("http://user:pw@example.com/").err(),
        Some((400, "userinfo not allowed".to_string()))
    );
    assert_eq!(
        check_ssrf_url("http://127.0.0.1:3000/api").err(),
        Some((403, "blocked destination".to_string()))
    );
    let ok = check_ssrf_url("https://Example.com/a.mp4?x=1").ok().unwrap();
    assert_eq!(ok.as_str(), "https://example.com/a.mp4?x=1");
    assert_eq!(ok.host(), Some("example.com"));
    assert_eq!(ok.scheme(), "https");
}

#[test]
fn upstream_url_checks() {
    assert!(check_upstream_url("https://cdn.example.com/x").is_ok());
    assert_eq!(
        check_upstream_url("http://192.168.1.2/x").err(),
        Some((403, "blocked destination".to_string()))
    );
    assert_eq!(
        check_upstream_url("::").err(),
        Some((502, "invalid upstream url".to_string()))
    );
    assert!(check_upstream_url("data:text/plain,hi").is_ok());
}

#[test]
fn stream_urls_and_extensions() {
    assert!(is_hls_or_dash_url("https://a.com/x.M3U8?tok=1"));
    assert!(is_hls_or_dash_url("https://a.com/x.mpd#frag"));
    assert!(is_hls_or_dash_url("https://a.com/DASH/seg"));
    assert!(!is_hls_or_dash_url("https://a.com/x.mp4"));
    assert_eq!(job_kind_for_url("https://a.com/x.m3u8"), JobKind::Hls);
    assert_eq!(job_kind_for_url("https://a.com/dash/x"), JobKind::Dash);
    assert_eq!(job_kind_for_url("https://a.com/x.webm"), JobKind::File);
    assert_eq!(infer_download_extension("https://a.com/x.mkv?y=1", None), "mkv");
    assert_eq!(infer_download_extension("https://a.com/x", Some("video/webm")), "webm");
    assert_eq!(infer_download_extension("https://a.com/x", Some("Video/X-Matroska")), "mkv");
    assert_eq!(infer_download_extension("https://a.com/x", Some("video/MP2T")), "ts");
    assert_eq!(infer_download_extension("https://a.com/x.webm", Some("video/mp4")), "mp4");
    assert_eq!(infer_download_extension("https://a.com/x.TS", None), "ts");
    assert_eq!(infer_download_extension("https://a.com/x.avi", None), "mp4");
}

#[test]
fn playlist_kinds_and_bases() {
    assert!(is_master_playlist("#EXTM3U\n#EXT-X-STREAM-INF:BANDWIDTH=1\na.m3u8\n"));
    assert!(!is_master_playlist("#EXTM3U\nseg.ts\n"));
    assert_eq!(hls_base("http://localhost/x.m3u8").err().as_deref(), Some("blocked destination"));
    assert_eq!(hls_base("::").err().as_deref(), Some("invalid url"));
    assert!(hls_base("https://cdn.example.com/x.m3u8").is_ok());
}

#[test]
fn variant_urls_resolve_against_base() {
    let base = hls_base("https://cdn.example.com/hls/master.m3u8").ok().unwrap();
    let master = "#EXTM3U\n#EXT-X-STREAM-INF:BANDWIDTH=900\nlow/index.m3u8\n#EXT-X-STREAM-INF:BANDWIDTH=5000\nhi/index.m3u8\n";
    let v = hls_variant_url(&base, master, None).ok().unwrap().unwrap();
    assert_eq!(v.as_str(), "https://cdn.example.com/hls/hi/index.m3u8");
    assert!(hls_variant_url(&base, "#EXTM3U\nseg.ts\n", None).ok().unwrap().is_none());
    let none = "#EXT-X-STREAM-INF:RESOLUTION=1x1\na.m3u8\n";
    assert_eq!(
        hls_variant_url(&base, none, None).err().as_deref(),
        Some("cannot find variant playlist")
    );
    let broken = "#EXT-X-STREAM-INF:BANDWIDTH=1\nhttp://[oops/index.m3u8\n";
    assert_eq!(hls_variant_url(&base, broken, None).err().as_deref(), Some("bad variant url"));
    let evil = "#EXT-X-STREAM-INF:BANDWIDTH=1\nhttp://169.254.169.254/latest\n";
    assert_eq!(
        hls_variant_url(&base, evil, None).err().as_deref(),
        Some("blocked destination after redirect")
    );
}

#[test]
fn media_segments_in_order() {
    let base = hls_base("https://cdn.example.com/hls/v/index.m3u8").ok().unwrap();
    let pl = "#EXTM3U\n#EXTINF:10,\nseg1.ts\n\n#EXTINF:10,\n  https://other.example.com/seg2.ts  \n";
    let segs = hls_media_segments(pl, &base).ok().unwrap();
    assert_eq!(segs.len(), 2);
    assert_eq!(segs[0].as_str(), "https://cdn.example.com/hls/v/seg1.ts");
    assert_eq!(segs[1].as_str(), "https://other.example.com/seg2.ts");
}

#[test]
fn media_segments_refusals() {
    let base = hls_base("https://cdn.example.com/hls/index.m3u8").ok().unwrap();
    let enc = "#EXTM3U\n#EXT-X-KEY:METHOD=AES-128,URI=\"k.bin\"\nseg.ts\n";
    assert!(hls_media_segments(enc, &base).err().unwrap().starts_with("this HLS stream is encrypted"));
    let clear = "#EXTM3U\n#EXT-X-KEY:METHOD=NONE\nseg.ts\n";
    assert_eq!(hls_media_segments(clear, &base).ok().unwrap().len(), 1);
    assert_eq!(
        hls_media_segments("#EXTM3U\n#EXT-X-ENDLIST\n", &base).err().as_deref(),
        Some("playlist has no segments")
    );
    assert_eq!(
        hls_media_segments("seg1.ts\nhttp://localhost/seg2.ts\n", &base).err().as_deref(),
        Some("blocked segment host")
    );
}

#[test]
fn proxy_rewrites_playlist_lines() {
    let base = hls_base("https://cdn.example.com/hls/master.m3u8").ok().unwrap();
    assert_eq!(
        proxify_line(&base, "seg1.ts", ""),
        "/api/proxy?url=https%3A%2F%2Fcdn.example.com%2Fhls%2Fseg1.ts"
    );
    assert_eq!(
        proxify_line(&base, "#EXT-X-KEY:METHOD=AES-128,URI=\"key.bin\",IV=0x1", "&headers=h"),
        "#EXT-X-KEY:METHOD=AES-128,URI=\"/api/proxy?url=https%3A%2F%2Fcdn.example.com%2Fhls%2Fkey.bin&headers=h\",IV=0x1"
    );
    assert_eq!(proxify_line(&base, "  #EXTINF:10,  ", ""), "#EXTINF:10,");
    assert_eq!(proxify_line(&base, "   ", ""), "");
    assert_eq!(
        rewrite_playlist(&base, "#EXTM3U\nseg1.ts\n", "&headers=x"),
        "#EXTM3U\n/api/proxy?url=https%3A%2F%2Fcdn.example.com%2Fhls%2Fseg1.ts&headers=x\n"
    );
}

#[test]
fn m3u8_responses() {
    assert!(is_m3u8_response("https://a.com/x.m3u8", None));
    assert!(is_m3u8_response("https://a.com/x", Some("Application/VND.Apple.MPEGURL")));
    assert!(!is_m3u8_response("https://a.com/x", Some("video/mp4")));
    assert!(!is_m3u8_response("https://a.com/x", None));
}

#[test]
fn headers_from_json() {
    assert_eq!(
        parse_headers("[[\"Referer\",\"https://a.com\"],[\"User-Agent\",\"UA\"]]"),
        vec![pair("Referer", "https://a.com"), pair("User-Agent", "UA")]
    );
    assert!(parse_headers("nope").is_empty());
    assert!(parse_headers("{\"a\":1}").is_empty());
    assert!(parse_headers("[]").is_empty());
}

#[test]
fn download_headers_drop_ranges() {
    let hs = vec![pair("Range", "bytes=0-"), pair("Referer", "x"), pair("IF-RANGE", "e")];
    assert_eq!(forward_download_headers(&hs), vec![pair("Referer", "x")]);
}

#[test]
fn proxy_links() {
    assert_eq!(headers_query_param(None), "");
    assert_eq!(headers_query_param(Some("[[\"a\",\"b\"]]")), "&headers=%5B%5B%22a%22%2C%22b%22%5D%5D");
    assert_eq!(
        fallback_proxy_url("https://a.com/x.m3u8", None),
        "http://127.0.0.1:3000/api/proxy?url=https%3A%2F%2Fa.com%2Fx.m3u8"
    );
    assert_eq!(
        fallback_proxy_url("https://a.com/x", Some("[]")),
        "http://127.0.0.1:3000/api/proxy?url=https%3A%2F%2Fa.com%2Fx&headers=%5B%5D"
    );
}

#[test]
fn download_names_and_types() {
    assert!(is_valid_download_id("dl_1700000000000_7"));
    assert!(is_valid_download_id("A-b_9"));
    assert!(!is_valid_download_id("../etc/passwd"));
    assert!(!is_valid_download_id("dl 1"));
    assert_eq!(mime_for_extension("mkv"), "video/x-matroska");
    assert_eq!(mime_for_extension("webm"), "video/webm");
    assert_eq!(mime_for_extension("ts"), "video/mp2t");
    assert_eq!(mime_for_extension("mp4"), "video/mp4");
    assert_eq!(mime_for_extension("avi"), "video/mp4");
    assert_eq!(
        content_disposition("My Film.mp4"),
        "attachment; filename=\"My Film.mp4\"; filename*=UTF-8''My%20Film.mp4"
    );
    assert_eq!(
        content_disposition("Amélie.mkv"),
        "attachment; filename=\"Amélie.mkv\"; filename*=UTF-8''Am%C3%A9lie.mkv"
    );
    assert_eq!(replace_extension("Movie.part.mp4", "mkv"), "Movie.part.mkv");
    assert_eq!(replace_extension("Movie", "mkv"), "Movie");
    assert_eq!(ts_fallback_name("Movie.mp4"), "Movie.ts");
    assert_eq!(ts_fallback_name("Movie"), "Movie.ts");
}

#[test]
fn byte_ranges() {
    assert_eq!(resolve_byte_range(None, 100), ByteRange::Whole { start: 0, end: 99 });
    assert_eq!(resolve_byte_range(None, 0), ByteRange::Whole { start: 0, end: 0 });
    assert_eq!(resolve_byte_range(Some("bytes=10-19"), 100), ByteRange::Partial { start: 10, end: 19 });
    assert_eq!(resolve_byte_range(Some("bytes=90-"), 100), ByteRange::Partial { start: 90, end: 99 });
    assert_eq!(resolve_byte_range(Some("bytes=50-500"), 100), ByteRange::Partial { start: 50, end: 99 });
    assert_eq!(resolve_byte_range(Some("bytes=100-"), 100), ByteRange::Unsatisfiable);
    assert_eq!(resolve_byte_range(Some("bytes=30-20"), 100), ByteRange::Unsatisfiable);
    assert_eq!(resolve_byte_range(Some("bytes=0-"), 0), ByteRange::Unsatisfiable);
    assert_eq!(resolve_byte_range(Some("items=1-2"), 100), ByteRange::Partial { start: 0, end: 99 });
    assert_eq!(resolve_byte_range(Some(" bytes= 5 - 7 "), 100), ByteRange::Partial { start: 0, end: 99 });
    assert_eq!(resolve_byte_range(Some("bytes=-5"), 100), ByteRange::Partial { start: 0, end: 5 });
    assert_eq!(resolve_byte_range(Some("bytes=x-y"), 100), ByteRange::Partial { start: 0, end: 99 });
    assert_eq!(content_range_value(10, 19, 100), "bytes 10-19/100");
}

#[test]
fn stream_sniffing_and_limits() {
    assert_eq!(sniff_stream_kind("application/vnd.apple.mpegurl"), Some(JobKind::Hls));
    assert_eq!(sniff_stream_kind("Application/DASH+XML"), Some(JobKind::Dash));
    assert_eq!(sniff_stream_kind("video/mp4"), None);
    assert!(is_stream_response("video/mp4", "https://a.com/x.mpd"));
    assert!(is_stream_response("audio/x-mpegurl", "https://a.com/x"));
    assert!(!is_stream_response("video/mp4", "https://a.com/x.mp4"));
    assert!(manifest_length_ok(None));
    assert!(manifest_length_ok(Some(MAX_MANIFEST_BYTES)));
    assert!(!manifest_length_ok(Some(MAX_MANIFEST_BYTES + 1)));
    assert_eq!(MAX_MANIFEST_BYTES, 10 * 1024 * 1024);
    assert!(direct_download_complete(5, Some(5)));
    assert!(!direct_download_complete(4, Some(5)));
    assert!(direct_download_complete(4, None));
}

#[test]
fn segment_backoff() {
    assert_eq!(SEG_ATTEMPTS, 4);
    let waits: Vec<u64> = (0..6).map(segment_backoff_secs).collect();
    assert_eq!(waits, vec![0, 1, 2, 4, 8, 8]);
}

#[test]
fn ytdlp_arguments() {
    let hs = vec![pair("User-Agent", "UA/1"), pair("Referer", "https://a.com")];
    assert_eq!(
        ytdlp_header_args(&hs),
        vec!["--user-agent", "UA/1", "--add-header", "Referer: https://a.com"]
    );
    assert_eq!(ytdlp_format(Some(720)), "bestvideo[height<=720]+bestaudio/best");
    assert_eq!(ytdlp_format(None), "bestvideo+bestaudio/best");
}

#[test]
fn suggestion_queries_and_results() {
    assert_eq!(suggest_query("  a "), None);
    assert_eq!(suggest_query("  ab "), Some("ab".to_string()));
    let ids: Vec<String> = ["a", "b", "a", "c", "d", "e", "f", "g", "h"].iter().map(|s| s.to_string()).collect();
    assert_eq!(suggest_result_indices(&ids), vec![0, 1, 3, 4, 5, 6, 7]);
    assert!(suggest_result_indices(&vec![]).is_empty());
}

#[test]
fn suggestion_cache_freshness() {
    let mut c: SuggestCache<u32> = SuggestCache::new();
    c.put("q".to_string(), 1000, 5);
    assert_eq!(c.get("q", 3999), Some(&5));
    assert_eq!(c.get("q", 500), Some(&5));
    assert_eq!(c.get("q", 4000), None);
    assert_eq!(c.get("x", 1000), None);
    c.put("q".to_string(), 5000, 6);
    assert_eq!(c.get("q", 5001), Some(&6));
}

#[test]
fn suggestion_cache_empties_past_cap() {
    let mut c: SuggestCache<usize> = SuggestCache::new();
    for i in 0..200 {
        c.put(format!("k{i}"), 0, i);
    }
    assert_eq!(c.get("k0", 1), Some(&0));
    c.put("k5".to_string(), 0, 55);
    assert_eq!(c.get("k0", 1), Some(&0));
    assert_eq!(c.get("k5", 1), Some(&55));
    c.put("k200".to_string(), 0, 200);
    assert_eq!(c.get("k0", 1), None);
    assert_eq!(c.get("k200", 1), None);
}

#[test]
fn text_map_basics() {
    let mut m: StrMap<u8> = StrMap::new();
    assert_eq!(m.len(), 0);
    m.insert("a".to_string(), 1);
    m.insert("b".to_string(), 2);
    m.insert("a".to_string(), 3);
    assert_eq!(m.len(), 2);
    assert_eq!(m.get("a"), Some(&3));
    assert!(m.contains("b"));
    m.remove("a");
    assert!(!m.contains("a"));
    assert_eq!(m.len(), 1);
    m.clear();
    assert_eq!(m.len(), 0);
}

#[test]
fn helper_program_arguments() {
    assert_eq!(
        ffmpeg_remux_args("/d/x.ts", "/d/x.mp4"),
        vec!["-y", "-i", "/d/x.ts", "-c", "copy", "-bsf:a", "aac_adtstoasc", "/d/x.mp4"]
    );
    let hs = vec![pair("user-agent", "UA")];
    assert_eq!(
        ytdlp_args(&hs, Some(1080), "/d/M.mp4", "https://a.com/m.mpd"),
        vec![
            "--user-agent", "UA", "-f", "bestvideo[height<=1080]+bestaudio/best", "--newline",
            "--merge-output-format", "mp4", "--part", "-o", "/d/M.mp4", "--force-overwrites",
            "https://a.com/m.mpd",
        ]
    );
    assert!(is_sibling_output("Movie.mkv", "Movie.mp4"));
    assert!(is_sibling_output("Movie.f137.mp4", "Movie.mp4"));
    assert!(!is_sibling_output("Movie.mp4", "Movie.mp4"));
    assert!(!is_sibling_output("Other.mkv", "Movie.mp4"));
    assert!(is_sibling_output("Movie2", "Movie"));
}

#[test]
fn segment_fetch_retries_then_fails() {
    let mut f = SegmentFetch::new(2);
    assert!(matches!(f.next(), SegmentStep::Fetch { index: 0, wait_secs: 0 }));
    f.succeeded();
    for (k, w) in [0u64, 1, 2, 4].iter().enumerate() {
        match f.next() {
            SegmentStep::Fetch { index, wait_secs } => {
                assert_eq!(index, 1);
                assert_eq!(wait_secs, *w);
            }
            _ => panic!("expected another try"),
        }
        f.failed(format!("e{k}"));
    }
    match f.next() {
        SegmentStep::Failed(m) => {
            assert_eq!(m, "segment 2 failed after 4 tries (e3) — retry the download to resume")
        }
        _ => panic!("expected the failure"),
    }
}

#[test]
fn segment_fetch_finishes() {
    let mut f = SegmentFetch::new(1);
    assert!(matches!(f.next(), SegmentStep::Fetch { index: 0, wait_secs: 0 }));
    f.failed("stalled".to_string());
    assert!(matches!(f.next(), SegmentStep::Fetch { index: 0, wait_secs: 1 }));
    f.succeeded();
    assert!(matches!(f.next(), SegmentStep::Finished));
    assert!(matches!(SegmentFetch::new(0).next(), SegmentStep::Finished));
}

#[test]
fn blocked_host_ignores_case_and_brackets() {
    for h in ["LocalHost", "FD00::1", "Printer.LOCAL", "[::1]", "[10.0.0.1]", "Intranet"] {
        assert!(is_blocked_host(h), "{h}");
        assert_eq!(is_blocked_host(h), is_blocked_host(&h.to_ascii_lowercase()));
    }
    for h in ["example.com", "cdn.Example.ORG"] {
        assert!(!is_blocked_host(h));
        assert!(!is_blocked_host(&format!("[{h}]")));
        assert!(!is_blocked_host(&h.to_ascii_uppercase()));
    }
}

#[test]
fn stream_urls_ignore_query_and_case() {
    for u in ["https://a.com/x.m3u8", "https://a.com/x.mp4", "https://a.com/dash/x"] {
        let with_q = format!("{u}?name=movie.m3u8&v=1");
        assert_eq!(is_hls_or_dash_url(&with_q), is_hls_or_dash_url(u));
        assert_eq!(is_hls_or_dash_url(&u.to_ascii_uppercase()), is_hls_or_dash_url(u));
    }
}

#[test]
fn save_requests() {
    assert_eq!(save_verdict("../x", Some(JobStatus::Completed)), SaveVerdict::InvalidId);
    assert_eq!(save_verdict("dl_1_1", None), SaveVerdict::NotFound);
    assert_eq!(save_verdict("dl_1_1", Some(JobStatus::Downloading)), SaveVerdict::NotReady);
    assert_eq!(save_verdict("dl_1_1", Some(JobStatus::Failed)), SaveVerdict::NotReady);
    assert_eq!(save_verdict("dl_1_1", Some(JobStatus::Completed)), SaveVerdict::Serve);
}

#[test]
fn direct_download_replies() {
    assert_eq!(
        direct_reply_verdict(Some("10.0.0.1"), "video/mp4", "http://10.0.0.1/x.mp4"),
        Err((403, "blocked destination".to_string()))
    );
    assert_eq!(
        direct_reply_verdict(Some("cdn.example.com"), "application/vnd.apple.mpegurl", "https://cdn.example.com/x"),
        Err((422, "HLS/DASH stream cannot be downloaded directly".to_string()))
    );
    assert_eq!(
        direct_reply_verdict(Some("cdn.example.com"), "", "https://cdn.example.com/x.mpd"),
        Err((422, "HLS/DASH stream cannot be downloaded directly".to_string()))
    );
    assert_eq!(direct_reply_verdict(Some("cdn.example.com"), "video/webm", "https://cdn.example.com/x"), Ok("webm"));
    assert_eq!(direct_reply_verdict(None, "", "data:x.mkv"), Ok("mkv"));
}

#[test]
fn background_download_steps() {
    assert!(matches!(direct_step(Some("localhost"), "", true), DirectStep::Blocked));
    assert!(matches!(direct_step(Some("a.com"), "application/dash+xml", false), DirectStep::Handover(JobKind::Dash)));
    assert!(matches!(direct_step(Some("a.com"), "audio/mpegurl", true), DirectStep::Handover(JobKind::Hls)));
    assert!(matches!(direct_step(Some("a.com"), "video/mp4", false), DirectStep::Refused));
    assert!(matches!(direct_step(None, "video/mp4", true), DirectStep::Save));
}

#[test]
fn url_parts_verdicts() {
    assert_eq!(url_fields_verdict("https", "", false, Some("example.com")), Ok(()));
    assert_eq!(
        url_fields_verdict("ftp", "", false, Some("example.com")),
        Err((400, "only http/https allowed".to_string()))
    );
    assert_eq!(
        url_fields_verdict("http", "user", false, Some("example.com")),
        Err((400, "userinfo not allowed".to_string()))
    );
    assert_eq!(
        url_fields_verdict("http", "", true, Some("example.com")),
        Err((400, "userinfo not allowed".to_string()))
    );
    assert_eq!(
        url_fields_verdict("http", "", false, Some("localhost")),
        Err((403, "blocked destination".to_string()))
    );
    assert_eq!(
        url_fields_verdict("http", "", false, None),
        Err((403, "blocked destination".to_string()))
    );
}

#[test]
fn upstream_host_verdicts() {
    assert_eq!(upstream_host_verdict(Some("cdn.example.com")), Ok(()));
    assert_eq!(upstream_host_verdict(None), Ok(()));
    assert_eq!(
        upstream_host_verdict(Some("10.0.0.1")),
        Err((403, "blocked destination".to_string()))
    );
}

#[test]
fn proxied_url_encodes_target() {
    assert_eq!(
        proxied_url("https://cdn.example.com/a b.ts", "&headers=x"),
        "/api/proxy?url=https%3A%2F%2Fcdn.example.com%2Fa%20b.ts&headers=x"
    );
    assert_eq!(proxied_url("https://c.example/x", ""), "/api/proxy?url=https%3A%2F%2Fc.example%2Fx");
}

#[test]
fn hls_hosts_allowed() {
    assert!(host_allowed(Some("cdn.example.com")));
    assert!(!host_allowed(Some("127.0.0.1")));
    assert!(!host_allowed(Some("media.internal")));
    assert!(!host_allowed(None));
}

#[test]
fn direct_download_name_refresh() {
    assert_eq!(refreshed_filename("movie.mp4", "https://x.example/y.mkv", "", Some(10)), "movie.mkv");
    assert_eq!(refreshed_filename("movie.mp4", "https://x.example/y.mkv", "", None), "movie.mp4");
    assert_eq!(
        refreshed_filename("movie.mp4", "https://x.example/y", "video/webm", None),
        "movie.webm"
    );
    assert_eq!(refreshed_filename("movie", "https://x.example/y.mkv", "video/webm", Some(1)), "movie");
}
