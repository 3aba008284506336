use anime_tool::api::{
    api_url, bangumi_api_path, check_response, comment_api_path, match_api_path,
    match_request_body, Credentials,
};
use anime_tool::cache::Cache;
use anime_tool::cli::{CacheAction, CliError, CommonArgs, QueryArgs};
use anime_tool::config::Config;
use anime_tool::json::JsonValue;
use anime_tool::media::{
    content_range_total, file_size_from_headers, ftp_file_info, ftp_media_name, http_file_info,
    http_media_name, local_media_name, SizeError,
};
use anime_tool::path::{file_name_of, path_join, stem_of};
use anime_tool::sqlite::{create_table_sql, drop_table_sql, insert_sql, quote_identifier, row_values};

#[test]
fn cache_files_live_under_dandanplay() {
    let cache = Cache::new("/c".to_string());
    assert_eq!(cache.dandanplay_root(), "/c/dandanplay");
    assert_eq!(cache.match_file("abc"), "/c/dandanplay/match/abc.json");
    assert_eq!(cache.danmaku_file(42), "/c/dandanplay/danmaku/42.json");
    assert_eq!(cache.anime_file(-7), "/c/dandanplay/anime/-7.json");
}

#[test]
fn paths_join_like_pathbuf() {
    assert_eq!(path_join("a/", "b"), "a/b");
    assert_eq!(path_join("a", "/b"), "/b");
    assert_eq!(path_join("", "b"), "b");
    assert_eq!(file_name_of("/x/y.tar.gz").unwrap(), "y.tar.gz");
    assert!(file_name_of("/x/..").is_none());
    assert_eq!(stem_of("y.tar.gz"), "y.tar");
    assert_eq!(stem_of(".bashrc"), ".bashrc");
}

#[test]
fn config_path_and_defaults() {
    assert_eq!(Config::default_path(Some("/xdg".to_string()), Some("/p".to_string())), "/xdg/anime-tool/config.json");
    assert_eq!(Config::default_path(None, None), ".config/anime-tool/config.json");
    let args = CommonArgs { cache_dir: None, appid: None, appsecret: None, config: None };
    assert_eq!(args.config_path("/d.json"), "/d.json");
}

#[test]
fn options_win_over_environment_and_config() {
    let config = Config { cache_dir: Some("/cfg".to_string()), appid: Some("cid".to_string()), appsecret: Some("csec".to_string()) };
    let args = CommonArgs { cache_dir: None, appid: Some("aid".to_string()), appsecret: None, config: None };
    assert_eq!(args.cache_dir(Some("/env".to_string()), &config).ok().unwrap(), "/env");
    assert_eq!(args.cache_dir(None, &config).ok().unwrap(), "/cfg");
    assert_eq!(
        args.credentials(None, Some("esec".to_string()), &config).ok().unwrap(),
        ("aid".to_string(), "esec".to_string())
    );
    let blank = CommonArgs { cache_dir: None, appid: Some(" ".to_string()), appsecret: None, config: None };
    assert!(matches!(blank.credentials(None, None, &config), Err(CliError::BlankCredentials)));
    let empty = Config::empty();
    assert!(matches!(blank.cache_dir(None, &empty), Err(CliError::MissingCacheDir)));
    assert!(matches!(args.credentials(None, None, &empty), Err(CliError::MissingAppSecret)));
}

#[test]
fn cache_actions() {
    let plain = QueryArgs { query: false, no_query: false };
    let forced = QueryArgs { query: true, no_query: false };
    let offline = QueryArgs { query: false, no_query: true };
    assert!(matches!(plain.cache_action(true), CacheAction::UseCache));
    assert!(matches!(plain.cache_action(false), CacheAction::Query));
    assert!(matches!(forced.cache_action(true), CacheAction::Query));
    assert!(matches!(offline.cache_action(true), CacheAction::UseCache));
    assert!(matches!(offline.cache_action(false), CacheAction::Refuse));
    assert!(forced.force_query());
    assert!(!offline.allow_network());
}

#[test]
fn api_paths_and_bodies() {
    assert_eq!(match_api_path(), "/api/v2/match");
    assert_eq!(comment_api_path(5), "/api/v2/comment/5");
    assert_eq!(bangumi_api_path(9), "/api/v2/bangumi/9");
    assert_eq!(api_url("/x"), "https://api.dandanplay.net/x");
    assert_eq!(
        match_request_body("ab\"c", 12),
        "{\"fileHash\":\"ab\\\"c\",\"fileSize\":12,\"matchMode\":\"hashOnly\"}"
    );
}

#[test]
fn signature_is_base64_of_sha256() {
    let c = Credentials { appid: "id".to_string(), appsecret: "sec".to_string() };
    let sig = c.signature(100, "/p");
    assert_eq!(sig.len(), 44);
    assert_ne!(sig, c.signature(101, "/p"));
    let headers = c.headers(100, "/p", true);
    assert_eq!(headers.len(), 6);
    assert_eq!(headers[2], ("Content-Type".to_string(), "application/json".to_string()));
    assert_eq!(headers[4], ("X-Timestamp".to_string(), "100".to_string()));
    assert_eq!(headers[5].1, sig);
}

#[test]
fn failed_replies_carry_their_message() {
    assert_eq!(check_response(200, "200 OK", "body".to_string(), None, "/p").ok().unwrap(), "body");
    let parsed = JsonValue::Object(vec![("errorMessage".to_string(), JsonValue::Str("bad".to_string()))]);
    let e = check_response(403, "403 Forbidden", "{}".to_string(), Some(parsed), "/p").err().unwrap();
    assert_eq!(e.message, "bad");
    assert_eq!(e.to_message(), "Dandanplay API 请求失败: 403 Forbidden /p: bad");
    let e = check_response(500, "500", "  ".to_string(), None, "/p").err().unwrap();
    assert_eq!(e.message, "无错误信息");
}

#[test]
fn media_names_and_sizes() {
    assert_eq!(local_media_name("/v/a b.mkv"), "a b");
    assert_eq!(http_media_name("https://h/dir/My%20Show.mp4?x=1"), "My Show.mp4");
    assert_eq!(ftp_media_name("/pub/ep.mkv"), "ep");
    assert_eq!(content_range_total("bytes 0-0/12345"), Some(12345));
    assert_eq!(content_range_total("bytes 0-0/*"), None);
    assert_eq!(file_size_from_headers(Some("bytes 0-0/10".to_string()), Some("1".to_string())).ok().unwrap(), 10);
    assert_eq!(file_size_from_headers(None, Some("77".to_string())).ok().unwrap(), 77);
    assert!(matches!(file_size_from_headers(None, None), Err(SizeError::Missing)));
}

#[test]
fn file_info_carries_the_md5_of_the_head() {
    let info = http_file_info("a.mkv".to_string(), 9, b"abc").unwrap();
    assert_eq!(info.name, "a.mkv");
    assert_eq!(info.size, 9);
    assert_eq!(info.first_16m_md5, "900150983cd24fb0d6963f7d28e17f72");
    assert!(http_file_info("a.mkv".to_string(), 9, b"").is_none());
    let ftp = ftp_file_info("/pub/show.ep1.mkv", 3, b"");
    assert_eq!(ftp.name, "show.ep1");
    assert_eq!(ftp.first_16m_md5, "d41d8cd98f00b204e9800998ecf8427e");
}

#[test]
fn content_length_errors() {
    assert!(matches!(file_size_from_headers(None, Some("".to_string())), Err(SizeError::EmptyContentLength)));
    assert!(matches!(file_size_from_headers(None, Some("12a".to_string())), Err(SizeError::InvalidContentLength)));
    assert!(matches!(
        file_size_from_headers(None, Some("99999999999999999999999".to_string())),
        Err(SizeError::ContentLengthTooLarge)
    ));
    assert!(matches!(file_size_from_headers(Some("bytes */x".to_string()), None), Err(SizeError::InvalidContentRange)));
    assert_eq!(SizeError::Missing.to_message(), "服务器未提供文件大小信息");
}

#[test]
fn sql_text_quotes_identifiers() {
    assert_eq!(quote_identifier("a\"b"), "\"a\"\"b\"");
    assert_eq!(drop_table_sql("t"), "DROP TABLE IF EXISTS \"t\"");
    let cols = vec!["title".to_string(), "k".to_string()];
    assert_eq!(create_table_sql("t", &cols), "CREATE TABLE \"t\" (\"title\" TEXT, \"k\" TEXT)");
    assert_eq!(insert_sql("t", &cols), "INSERT INTO \"t\" (\"title\", \"k\") VALUES (?1, ?2)");
    let mut row = indexmap::IndexMap::new();
    row.insert("k".to_string(), "v".to_string());
    assert_eq!(row_values(&cols, &row), vec!["".to_string(), "v".to_string()]);
}
