use moviebox_web::hls::pick_hls_variant;
use moviebox_web::jobs::{DlJob, DlStore, JobStatus, MAX_JOBS};
use moviebox_web::progress::{
    eta_total_fits, is_ytdlp_destination, is_ytdlp_merger, parse_eta_secs, split_speed_token,
    ytdlp_line_fields, Speedo,
};
use moviebox_web::urls::JobKind;

#[test]
fn eta_tokens_parse() {
    assert_eq!(parse_eta_secs("04:12"), Some(252));
    assert_eq!(parse_eta_secs("01:02:03"), Some(3723));
    assert_eq!(parse_eta_secs("Unknown"), None);
}

#[test]
fn master_playlist_picks_highest_bandwidth() {
    let master = "#EXTM3U\n#EXT-X-STREAM-INF:BANDWIDTH=800000,RESOLUTION=640x360\nlow.m3u8\n#EXT-X-STREAM-INF:BANDWIDTH=5000000,RESOLUTION=1920x1080\nhi.m3u8\n";
    assert_eq!(pick_hls_variant(master, None).as_deref(), Some("hi.m3u8"));
}

#[test]
fn master_playlist_none_without_variants() {
    let media = "#EXTM3U\n#EXT-X-TARGETDURATION:10\nseg1.ts\nseg2.ts\n";
    assert!(pick_hls_variant(media, None).is_none());
}

#[test]
fn master_playlist_picks_closest_height() {
    let master = "#EXTM3U\n#EXT-X-STREAM-INF:BANDWIDTH=800000,RESOLUTION=640x360\nlow.m3u8\n#EXT-X-STREAM-INF:BANDWIDTH=2500000,RESOLUTION=1280x720\nmid.m3u8\n#EXT-X-STREAM-INF:BANDWIDTH=5000000,RESOLUTION=1920x1080\nhi.m3u8\n";
    assert_eq!(pick_hls_variant(master, Some(700)).as_deref(), Some("mid.m3u8"));
    assert_eq!(pick_hls_variant(master, Some(360)).as_deref(), Some("low.m3u8"));
    assert_eq!(pick_hls_variant(master, Some(2160)).as_deref(), Some("hi.m3u8"));
}

#[test]
fn master_playlist_equal_bandwidth_takes_later() {
    let master = "#EXT-X-STREAM-INF:BANDWIDTH=100\na.m3u8\n#EXT-X-STREAM-INF:BANDWIDTH=100\nb.m3u8\n";
    assert_eq!(pick_hls_variant(master, None).as_deref(), Some("b.m3u8"));
}

#[test]
fn master_playlist_needs_bandwidth() {
    let master = "#EXT-X-STREAM-INF:RESOLUTION=640x360\nlow.m3u8\n";
    assert!(pick_hls_variant(master, None).is_none());
}

#[test]
fn eta_tokens_edge_cases() {
    assert_eq!(parse_eta_secs("(04:12),"), Some(252));
    assert_eq!(parse_eta_secs("unknown"), None);
    assert_eq!(parse_eta_secs(""), None);
    assert_eq!(parse_eta_secs("1:x"), None);
    assert_eq!(parse_eta_secs("+5"), Some(5));
    assert!(eta_total_fits("18446744073709551615"));
    assert!(!eta_total_fits("1:18446744073709551615"));
}

#[test]
fn ytdlp_progress_line_fields() {
    let f = ytdlp_line_fields("[download]  45.2% of 1.20GiB at  3.50MiB/s ETA 04:12").unwrap();
    assert_eq!(f.percent, "45.2");
    assert_eq!(f.speed.as_deref(), Some("3.50MiB/s"));
    assert_eq!(f.eta.as_deref(), Some("04:12"));
    assert_eq!(f.eta_text, "04:12");
}

#[test]
fn ytdlp_destination_and_done_lines() {
    assert!(ytdlp_line_fields("[download] Destination: foo.mp4").is_none());
    let done = ytdlp_line_fields("[download] 100% of 10MiB in 00:02").unwrap();
    assert_eq!(done.percent, "100");
    assert!(done.speed.is_none());
    assert!(done.eta.is_none());
    assert_eq!(done.eta_text, "");
    assert!(ytdlp_line_fields("[info] 50% of something").is_none());
    assert!(ytdlp_line_fields("[download] resuming").is_none());
}

#[test]
fn ytdlp_unknown_eta_has_no_text() {
    let f = ytdlp_line_fields("[download]  3.0% of ~1GiB at Unknown B/s ETA Unknown").unwrap();
    assert_eq!(f.percent, "3.0");
    assert_eq!(f.eta.as_deref(), Some("Unknown"));
    assert_eq!(f.eta_text, "");
}

#[test]
fn ytdlp_line_kinds() {
    assert!(is_ytdlp_destination("[download] Destination: x.f137.mp4"));
    assert!(!is_ytdlp_destination("[download]  5.0% of 1MiB"));
    assert!(is_ytdlp_merger("[Merger] Merging formats into \"x.mp4\""));
    assert!(is_ytdlp_merger("[ffmpeg] Fixing"));
    assert!(!is_ytdlp_merger("[download] 5%"));
}

#[test]
fn speed_token_units() {
    let t = split_speed_token("850KiB/s");
    assert_eq!(t.number, "850");
    assert_eq!(t.multiplier, 1024);
    let t = split_speed_token(" 1.20GiB/s ");
    assert_eq!(t.number, "1.20");
    assert_eq!(t.multiplier, 1073741824);
    let t = split_speed_token("3.5M");
    assert_eq!(t.number, "3.5");
    assert_eq!(t.multiplier, 1000000);
    let t = split_speed_token("nonsense");
    assert_eq!(t.number, "nonsense");
    assert_eq!(t.multiplier, 1);
}

#[test]
fn speedometer_window_and_throttle() {
    let mut s = Speedo::new(0);
    assert!(s.push(100_000_000, 1000).is_none());
    let r = s.push(400_000_000, 5000).unwrap();
    assert_eq!(r.bytes, 4000);
    assert_eq!(r.nanos, 300_000_000);
    assert!(s.push(500_000_000, 6000).is_none());
    let r = s.push(4_000_000_000, 9000).unwrap();
    // The two oldest samples are more than three seconds old and leave.
    assert_eq!(r.bytes, 3000);
    assert_eq!(r.nanos, 3_500_000_000);
}

fn store_with_job(url: &str) -> (DlStore, DlJob) {
    let mut store = DlStore::new("/tmp/downloads".to_string());
    let out = store
        .start(url, vec![("Referer".to_string(), "https://site.example.com/".to_string())], "Movie", None, 1_700_000_000_000, 7)
        .ok()
        .unwrap();
    (store, out.job)
}

#[test]
fn start_registers_a_queued_job() {
    let (store, job) = store_with_job("https://cdn.example.com/video.mkv?token=1");
    assert_eq!(job.id, "dl_1700000000000_7");
    assert_eq!(job.filename, "Movie.mkv");
    assert_eq!(job.kind, JobKind::File);
    assert_eq!(job.status, JobStatus::Queued);
    assert_eq!(job.downloaded, 0);
    assert!(job.total.is_none());
    assert!(!job.cancel_requested);
    assert_eq!(job.headers.len(), 1);
    assert_eq!(store.dir(), "/tmp/downloads");
    let listed = store.list();
    assert_eq!(listed.len(), 1);
    assert_eq!(listed[0].id, job.id);
    assert_eq!(store.get("dl_1700000000000_7").unwrap().filename, "Movie.mkv");
    assert!(store.get("dl_nope").is_none());
}

#[test]
fn start_picks_kind_from_url() {
    let (_, hls) = store_with_job("https://cdn.example.com/live/master.M3U8?x=1");
    assert_eq!(hls.kind, JobKind::Hls);
    assert_eq!(hls.filename, "Movie.mp4");
    let (_, dash) = store_with_job("https://cdn.example.com/v/manifest.mpd");
    assert_eq!(dash.kind, JobKind::Dash);
    assert_eq!(dash.filename, "Movie.mp4");
    let (_, plain) = store_with_job("https://cdn.example.com/v/file");
    assert_eq!(plain.filename, "Movie.mp4");
}

#[test]
fn start_refuses_forged_destinations() {
    let mut store = DlStore::new("/tmp/d".to_string());
    let e = store.start("http://localhost:8080/x.mp4", vec![], "Movie", None, 1, 1).err().unwrap();
    assert_eq!(e, (403, "blocked destination".to_string()));
    let e = store.start("ftp://example.com/x.mp4", vec![], "Movie", None, 1, 1).err().unwrap();
    assert_eq!(e, (400, "only http/https allowed".to_string()));
    let e = store.start("nonsense", vec![], "Movie", None, 1, 1).err().unwrap();
    assert_eq!(e, (400, "invalid url".to_string()));
    assert!(store.list().is_empty());
}

#[test]
fn job_id_wraps_sequence() {
    let mut store = DlStore::new("/tmp/d".to_string());
    let out = store.start("https://cdn.example.com/a.mp4", vec![], "A", None, 5, 123456).ok().unwrap();
    assert_eq!(out.job.id, "dl_5_3456");
}

#[test]
fn cancel_flags_running_job() {
    let (mut store, job) = store_with_job("https://cdn.example.com/a.mp4");
    assert!(store.cancel(&job.id));
    assert!(store.get(&job.id).unwrap().cancel_requested);
    assert!(!store.cancel("dl_missing"));
}

#[test]
fn finish_records_outcomes() {
    let (mut store, job) = store_with_job("https://cdn.example.com/a.m3u8");
    let cleanup = store.finish(&job.id, &Err("network error: reset".to_string()));
    assert!(cleanup);
    let j = store.get(&job.id).unwrap();
    assert_eq!(j.status, JobStatus::Failed);
    assert_eq!(j.error.as_deref(), Some("network error: reset"));

    let (mut store, job) = store_with_job("https://cdn.example.com/a.mp4");
    assert!(!store.finish(&job.id, &Err("cancelled".to_string())));
    let j = store.get(&job.id).unwrap();
    assert_eq!(j.status, JobStatus::Cancelled);
    assert!(j.error.is_none());

    let (mut store, job) = store_with_job("https://cdn.example.com/a.mp4");
    assert!(!store.finish(&job.id, &Ok(())));
    let j = store.get(&job.id).unwrap();
    assert_eq!(j.status, JobStatus::Completed);
    assert_eq!(f64::from_bits(j.progress_bits), 100.0);
    assert!(j.is_terminal());
}

#[test]
fn finish_keeps_a_finished_status() {
    let (mut store, job) = store_with_job("https://cdn.example.com/a.mp4");
    store.finish(&job.id, &Err("cancelled".to_string()));
    store.finish(&job.id, &Ok(()));
    assert_eq!(store.get(&job.id).unwrap().status, JobStatus::Cancelled);
}

#[test]
fn retry_resets_finished_job_and_moves_it_last() {
    let mut store = DlStore::new("/tmp/d".to_string());
    let a = store.start("https://cdn.example.com/a.mp4", vec![], "A", None, 1, 1).ok().unwrap().job;
    let b = store.start("https://cdn.example.com/b.mp4", vec![], "B", None, 1, 2).ok().unwrap().job;
    let (same, restarted) = store.retry(&a.id).unwrap();
    assert!(!restarted);
    assert_eq!(same.status, JobStatus::Queued);
    assert_eq!(store.list()[0].id, a.id);

    store.finish(&a.id, &Err("server replied 500".to_string()));
    let (again, restarted) = store.retry(&a.id).unwrap();
    assert!(restarted);
    assert_eq!(again.status, JobStatus::Queued);
    assert!(again.error.is_none());
    assert_eq!(again.url, "https://cdn.example.com/a.mp4");
    let listed = store.list();
    assert_eq!(listed[0].id, b.id);
    assert_eq!(listed[1].id, a.id);
    assert!(store.retry("dl_missing").is_none());
}

#[test]
fn remove_forgets_job() {
    let (mut store, job) = store_with_job("https://cdn.example.com/a.mp4");
    let removed = store.remove(&job.id).unwrap();
    assert_eq!(removed.id, job.id);
    assert_eq!(removed.filename, "Movie.mp4");
    assert!(store.get(&job.id).is_none());
    assert!(store.list().is_empty());
    assert!(store.remove(&job.id).is_none());
}

#[test]
fn update_changes_only_known_jobs() {
    let (mut store, job) = store_with_job("https://cdn.example.com/a.mp4");
    let mut j = store.get(&job.id).unwrap();
    j.status = JobStatus::Downloading;
    j.downloaded = 42;
    assert!(store.update(j));
    let got = store.get(&job.id).unwrap();
    assert_eq!(got.status, JobStatus::Downloading);
    assert_eq!(got.downloaded, 42);
    let mut other = store.get(&job.id).unwrap();
    other.id = "dl_other".to_string();
    assert!(!store.update(other));
}

#[test]
fn eviction_drops_oldest_finished_job() {
    let mut store = DlStore::new("/tmp/d".to_string());
    let first = store.start("https://cdn.example.com/0.mp4", vec![], "F0", None, 1, 0).ok().unwrap().job;
    store.finish(&first.id, &Ok(()));
    for i in 1..MAX_JOBS as u64 {
        let out = store.start("https://cdn.example.com/x.mp4", vec![], "X", None, 1, i).ok().unwrap();
        assert!(out.evicted.is_empty());
    }
    assert_eq!(store.list().len(), MAX_JOBS);
    let out = store.start("https://cdn.example.com/y.mp4", vec![], "Y", None, 1, 99).ok().unwrap();
    assert_eq!(out.evicted.len(), 1);
    assert_eq!(out.evicted[0].id, first.id);
    assert_eq!(store.list().len(), MAX_JOBS);
    assert!(store.get(&first.id).is_none());
}

#[test]
fn eviction_spares_running_jobs() {
    let mut store = DlStore::new("/tmp/d".to_string());
    for i in 0..(MAX_JOBS as u64 + 3) {
        let out = store.start("https://cdn.example.com/x.mp4", vec![], "X", None, 2, i).ok().unwrap();
        assert!(out.evicted.is_empty());
    }
    assert_eq!(store.list().len(), MAX_JOBS + 3);
}

#[test]
fn downloaded_bytes_only_grow() {
    let (mut store, job) = store_with_job("https://cdn.example.com/a.mpd");
    assert!(store.raise_downloaded(&job.id, 500));
    assert_eq!(store.get(&job.id).unwrap().downloaded, 500);
    assert!(store.raise_downloaded(&job.id, 100));
    assert_eq!(store.get(&job.id).unwrap().downloaded, 500);
    assert!(!store.raise_downloaded("dl_missing", 1));
}

#[test]
fn listing_shows_each_stored_job_once() {
    let mut store = DlStore::new("/tmp/d".to_string());
    let a = store.start("https://cdn.example.com/a.mp4", vec![], "A", None, 1, 1).ok().unwrap().job;
    let b = store.start("https://cdn.example.com/b.mp4", vec![], "B", None, 1, 2).ok().unwrap().job;
    let c = store.start("https://cdn.example.com/c.mp4", vec![], "C", None, 1, 3).ok().unwrap().job;
    store.finish(&b.id, &Ok(()));
    store.retry(&b.id);
    store.remove(&a.id);
    store.cancel(&c.id);
    let ids: Vec<String> = store.list().into_iter().map(|j| j.id).collect();
    assert_eq!(ids, vec![c.id.clone(), b.id.clone()]);
    for id in &ids {
        assert!(store.get(id).is_some());
    }
    assert!(store.get(&a.id).is_none());
}
