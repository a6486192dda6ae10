use moviebox_web::auth::{
    all_session_tokens, app_mode, cookie_session_payload, live_session_payload, callback_verdict, dev_session, google_auth_url, hex,
    issue_session_token, leading_session_tokens, login_required, scoped_file_name, session_cookie,
    session_cookie_value, session_expiry, session_live, session_token, short_hash,
    verify_session_token, AuthConfig, SessionRegistry, SESSION_SECONDS,
};
use moviebox_web::recs::{
    build_rec_affinity, parse_rec_year, rec_id_key, rec_limit, rec_overlap_fifths, rec_title_key,
    rec_pool_key, rec_tokens, rec_type_points, rec_year_gap, select_rec_candidates, top_keyword_indices,
    RecAffinity, RecEntry,
};

const SECRET: &str = "0123456789abcdef0123";

fn entry(title: &str, stype: i64, year: &str) -> RecEntry {
    RecEntry { title: title.to_string(), stype, release_year: year.to_string() }
}

fn sample_affinity() -> RecAffinity {
    let history = vec![entry("Dark Knight", 1, "2008"), entry("Knight Rider", 2, "1982-09-26")];
    let favs = vec![entry("Dark City", 1, "1998")];
    build_rec_affinity(&history, &favs)
}

#[test]
fn hex_and_short_hash() {
    let h: String = hex(&[0, 255, 16]).into_iter().collect();
    assert_eq!(h, "00ff10");
    assert_eq!(short_hash("user@example.com"), "b4c9a289323b21a0");
    assert_eq!(scoped_file_name("history", Some("u")), "history_0bfe935e70c321c7.json");
    assert_eq!(scoped_file_name("favorites", None), "favorites.json");
}

#[test]
fn session_tokens_sign_and_verify() {
    let token = issue_session_token(SECRET, b"{\"sub\":\"u\"}");
    assert_eq!(
        token,
        "eyJzdWIiOiJ1In0.addae4aab171015031e3d67f4a8c89904f05dbf4bcca3b00e9d7b1bb1cbc095a"
    );
    assert_eq!(verify_session_token(SECRET, &token), Some(b"{\"sub\":\"u\"}".to_vec()));
    let mut forged = token.clone();
    forged.pop();
    forged.push('b');
    assert_eq!(verify_session_token(SECRET, &forged), None);
    assert_eq!(verify_session_token("another-secret-value!", &token), None);
    assert_eq!(verify_session_token(SECRET, "no-dot-here"), None);
    assert_eq!(verify_session_token(SECRET, "eyJzdWIiOiJ1In0"), None);
}

#[test]
fn short_secret_uses_fallback_key() {
    assert_eq!(
        session_token("short", "abc"),
        "abc.b79ad50ed75f9166f32a67bea4570735f5df918236db84d7e3d3ab91fb8faee4"
    );
    assert_eq!(
        session_token("", "abc"),
        "abc.b79ad50ed75f9166f32a67bea4570735f5df918236db84d7e3d3ab91fb8faee4"
    );
}

#[test]
fn undecodable_payload_is_refused() {
    let token = session_token(SECRET, "***");
    assert_eq!(verify_session_token(SECRET, &token), None);
}

#[test]
fn cookie_parsing() {
    assert_eq!(session_cookie_value("a=1; mb_session=tok; b=2").as_deref(), Some("tok"));
    assert_eq!(session_cookie_value("a=1; b=2"), None);
    let c = "mb_session=t1; mb_session=t2; x=1; mb_session=t3";
    assert_eq!(leading_session_tokens(c), vec!["t1", "t2"]);
    assert_eq!(all_session_tokens(c), vec!["t1", "t2", "t3"]);
    assert!(leading_session_tokens("x=1; mb_session=t").is_empty());
    assert_eq!(session_cookie("tok"), "mb_session=tok; HttpOnly; Path=/; SameSite=Lax; Max-Age=2592000");
}

#[test]
fn session_lifetimes() {
    assert_eq!(SESSION_SECONDS, 30 * 24 * 3600);
    assert_eq!(session_expiry(1000), 1000 + 2592000);
    assert!(session_live(5, 5));
    assert!(!session_live(4, 5));
}

#[test]
fn auth_configuration() {
    let c = AuthConfig::from_values(None, None, None, None);
    assert_eq!(c.google_redirect_uri, "http://127.0.0.1:3000/api/auth/callback");
    assert!(!c.configured());
    let c = AuthConfig::from_values(Some("cid".into()), Some("sec".into()), Some("https://x/cb".into()), Some("s".into()));
    assert!(c.configured());
    assert_eq!(c.google_redirect_uri, "https://x/cb");
    assert_eq!(c.session_secret, "s");
    let c = AuthConfig::from_values(Some("cid".into()), Some(String::new()), None, None);
    assert!(!c.configured());
}

#[test]
fn google_login_url() {
    assert_eq!(
        google_auth_url("cid", "http://127.0.0.1:3000/api/auth/callback"),
        "https://accounts.google.com/o/oauth2/v2/auth?client_id=cid&redirect_uri=http%3A%2F%2F127.0.0.1%3A3000%2Fapi%2Fauth%2Fcallback&response_type=code&scope=openid%20email%20profile&access_type=online&prompt=select_account"
    );
}

#[test]
fn oauth_callback_verdicts() {
    assert_eq!(callback_verdict(Some(false), "s", SECRET), Err((403, "email not verified".to_string())));
    assert_eq!(callback_verdict(None, "", SECRET), Err((500, "server session misconfigured".to_string())));
    assert_eq!(callback_verdict(Some(true), "s", "short"), Err((500, "server session misconfigured".to_string())));
    assert_eq!(callback_verdict(Some(true), "s", SECRET), Ok(()));
    assert_eq!(callback_verdict(None, "s", SECRET), Ok(()));
}

#[test]
fn run_modes() {
    assert_eq!(app_mode(Some("PRODUCTION"), Some("dev")), "production");
    assert_eq!(app_mode(None, Some("Prod")), "prod");
    assert_eq!(app_mode(None, None), "development");
    assert!(login_required("production"));
    assert!(login_required("prod"));
    assert!(!login_required("development"));
    assert!(!login_required("Production"));
    let s = dev_session();
    assert_eq!(s.sub, "dev-local");
    assert_eq!(s.name, "Developer");
    assert_eq!(s.email, "");
    assert_eq!(s.exp, u64::MAX);
}

#[test]
fn sign_out_revokes_cookie() {
    let mut reg = SessionRegistry::new();
    reg.register("tok".to_string(), dev_session());
    assert!(reg.is_registered("tok"));
    assert!(reg.admits("mb_session=tok"));
    assert!(reg.admits("mb_session=old; mb_session=tok"));
    assert!(!reg.admits("x=1; mb_session=tok"));
    assert!(!reg.admits(""));
    reg.sign_out("theme=dark; mb_session=tok");
    assert!(!reg.is_registered("tok"));
    assert!(!reg.admits("mb_session=tok"));
}

#[test]
fn title_keywords() {
    assert_eq!(rec_tokens("The Dark Knight: Rises (2012) HD"), vec!["dark", "knight", "rises", "2012"]);
    assert_eq!(rec_tokens("Amélie"), vec!["amélie"]);
    assert_eq!(rec_tokens("Season 2 - Part II"), Vec::<String>::new());
    assert!(rec_tokens("").is_empty());
}

#[test]
fn release_years() {
    assert_eq!(parse_rec_year("2019-05-01"), Some(2019));
    assert_eq!(parse_rec_year("abc2100x"), Some(2100));
    assert_eq!(parse_rec_year("1899-01-01"), None);
    assert_eq!(parse_rec_year("19-5"), None);
    assert_eq!(parse_rec_year(""), None);
}

#[test]
fn affinity_from_history_and_favorites() {
    let aff = sample_affinity();
    let kw: Vec<(&str, u128)> = aff.kw_freq.iter().map(|(k, w)| (k.as_str(), *w)).collect();
    assert_eq!(kw, vec![("dark", 3), ("knight", 2), ("rider", 1), ("city", 2)]);
    assert_eq!(aff.movies, 2);
    assert_eq!(aff.total, 3);
    assert_eq!(aff.median_year, Some(1998));
    assert!(aff.prefers_movies());
    assert_eq!(rec_type_points(&aff, true), 2);
    assert_eq!(rec_type_points(&aff, false), 0);
}

#[test]
fn affinity_windows_and_empty_input() {
    let empty = build_rec_affinity(&[], &[]);
    assert!(empty.kw_freq.is_empty());
    assert_eq!(empty.total, 0);
    assert_eq!(empty.median_year, None);
    assert!(empty.prefers_movies());
    let history: Vec<RecEntry> = (0..120).map(|_| entry("Zorro", 2, "")).collect();
    let aff = build_rec_affinity(&history, &[]);
    assert_eq!(aff.total, 100);
    assert_eq!(aff.movies, 0);
    assert_eq!(aff.kw_freq.len(), 1);
    assert_eq!(aff.kw_freq[0].1, 100);
    assert!(!aff.prefers_movies());
}

#[test]
fn median_of_even_count_takes_upper() {
    let history = vec![entry("a", 1, "2000"), entry("b", 1, "2010"), entry("c", 1, "1990"), entry("d", 1, "2020")];
    let aff = build_rec_affinity(&history, &[]);
    assert_eq!(aff.median_year, Some(2010));
}

#[test]
fn candidate_scoring_parts() {
    let aff = sample_affinity();
    assert_eq!(rec_overlap_fifths(&aff, Some("Action, Dark Fantasy"), "City of Knights"), 26);
    assert_eq!(rec_overlap_fifths(&aff, None, "Nothing Here"), 0);
    assert_eq!(rec_year_gap(Some("2010-01-01"), aff.median_year), Some(12));
    assert_eq!(rec_year_gap(Some("1990"), Some(1998)), Some(8));
    assert_eq!(rec_year_gap(None, Some(1998)), None);
    assert_eq!(rec_year_gap(Some("soon"), Some(1998)), None);
    assert_eq!(rec_year_gap(Some("1990"), None), None);
}

#[test]
fn heaviest_keywords_first() {
    let aff = sample_affinity();
    assert_eq!(top_keyword_indices(&aff.kw_freq, 2), vec![0, 1]);
    assert_eq!(top_keyword_indices(&aff.kw_freq, 10), vec![0, 1, 3, 2]);
    assert!(top_keyword_indices(&aff.kw_freq, 0).is_empty());
}

#[test]
fn recommendation_limits() {
    assert_eq!(rec_limit(None), 24);
    assert_eq!(rec_limit(Some(0)), 1);
    assert_eq!(rec_limit(Some(100)), 60);
    assert_eq!(rec_limit(Some(30)), 30);
}

#[test]
fn candidate_keys_and_selection() {
    assert_eq!(rec_id_key("MovieBox", "123"), "moviebox::123");
    assert_eq!(rec_title_key("  The Matrix ", 1, " 1999 "), "the matrix|1|1999");
    assert_eq!(rec_title_key("X", -3, ""), "x|-3|");
    let seen = vec!["moviebox::1".to_string(), "the matrix|1|1999".to_string()];
    let cands = vec![
        ("moviebox::1".to_string(), "a|1|".to_string()),
        ("moviebox::2".to_string(), "the matrix|1|1999".to_string()),
        ("moviebox::3".to_string(), "b|1|".to_string()),
        ("moviebox::3".to_string(), "c|1|".to_string()),
        ("moviebox::4".to_string(), "d|1|".to_string()),
    ];
    assert_eq!(select_rec_candidates(&seen, &cands), vec![2, 4]);
}

#[test]
fn cookie_payload_reads_first_session() {
    let token = issue_session_token(SECRET, b"{\"exp\":5}");
    let cookie = format!("theme=dark; mb_session={token}; mb_session=junk");
    assert_eq!(cookie_session_payload(SECRET, &cookie), Some(b"{\"exp\":5}".to_vec()));
    let forged = format!("mb_session=junk; mb_session={token}");
    assert_eq!(cookie_session_payload(SECRET, &forged), None);
    assert_eq!(cookie_session_payload(SECRET, "theme=dark"), None);
}

#[test]
fn live_sessions_by_expiry() {
    let token = issue_session_token(SECRET, b"{\"sub\":\"u\",\"exp\":5}");
    let cookie = format!("mb_session={token}");
    assert_eq!(live_session_payload(SECRET, &cookie, 5), Some(b"{\"sub\":\"u\",\"exp\":5}".to_vec()));
    assert_eq!(live_session_payload(SECRET, &cookie, 6), None);
    let no_exp = format!("mb_session={}", issue_session_token(SECRET, b"{\"sub\":\"u\"}"));
    assert_eq!(live_session_payload(SECRET, &no_exp, 0), None);
    let not_json = format!("mb_session={}", issue_session_token(SECRET, b"exp=5"));
    assert_eq!(live_session_payload(SECRET, &not_json, 0), None);
    let negative = format!("mb_session={}", issue_session_token(SECRET, b"{\"exp\":-1}"));
    assert_eq!(live_session_payload(SECRET, &negative, 0), None);
    assert_eq!(live_session_payload("another-secret-value!", &cookie, 0), None);
}

#[test]
fn tokens_refused_under_other_keys() {
    let token = session_token(SECRET, "eyJzdWIiOiJ1In0");
    assert_eq!(verify_session_token("0123456789abcdef0124", &token), None);
    assert_eq!(verify_session_token("short", &token), None);
    assert_eq!(session_token("short", "p"), session_token("other", "p"));
    assert_ne!(session_token(SECRET, "p"), session_token("short", "p"));
    let mut altered: Vec<char> = token.chars().collect();
    let k = altered.len() - 10;
    altered[k] = if altered[k] == '0' { '1' } else { '0' };
    let altered: String = altered.into_iter().collect();
    assert_eq!(verify_session_token(SECRET, &altered), None);
    assert_eq!(verify_session_token(SECRET, &token), Some(b"{\"sub\":\"u\"}".to_vec()));
}

#[test]
fn pool_keys_keep_provider_key() {
    assert_eq!(rec_pool_key("MovieBox", "7"), "MovieBox::7");
    assert_eq!(rec_id_key("MovieBox", "7"), "moviebox::7");
}

#[test]
fn non_json_payload_is_refused() {
    let token = issue_session_token(SECRET, b"exp=5");
    assert_eq!(verify_session_token(SECRET, &token), None);
    let cookie = format!("mb_session={token}");
    assert_eq!(cookie_session_payload(SECRET, &cookie), None);
    let json = issue_session_token(SECRET, b"[1,2]");
    assert_eq!(verify_session_token(SECRET, &json), Some(b"[1,2]".to_vec()));
}

#[test]
fn dotted_payload_is_refused() {
    let token = session_token(SECRET, "e30.e30");
    assert_eq!(verify_session_token(SECRET, &token), None);
    assert_eq!(verify_session_token("short", &token), None);
}
