use anime_tool::prepare::{
    default_output_dir, manifest_path, safe_file_name, sanitize_name, source_file_name,
    subtitle_tracks, track_name, PrepareError, ProbeStream,
};

#[test]
fn derives_default_directory_from_local_path_and_url() {
    assert_eq!(
        default_output_dir("/video/My Anime.mkv").ok().unwrap(),
        "My Anime - ani"
    );
    assert_eq!(
        default_output_dir("https://example.com/My%20Anime.mp4?token=x").ok().unwrap(),
        "My Anime - ani"
    );
}

#[test]
fn sanitizes_track_name() {
    assert_eq!(sanitize_name("简体/中文: SC"), "简体_中文_ SC");
    assert_eq!(sanitize_name("..."), "subtitle");
}

#[test]
fn source_file_name_of_ftp_url_and_plain_path() {
    assert_eq!(source_file_name("ftp://host/dir/Show%2001.mkv").ok().unwrap(), "Show 01.mkv");
    assert_eq!(source_file_name("relative/dir/ep.mp4").ok().unwrap(), "ep.mp4");
}

#[test]
fn url_without_file_name_is_refused() {
    assert!(matches!(
        source_file_name("https://example.com/"),
        Err(PrepareError::MissingUrlFileName)
    ));
}

#[test]
fn unsafe_file_names_are_refused() {
    assert!(matches!(safe_file_name(".."), Err(PrepareError::InvalidFileName(_))));
    assert!(matches!(safe_file_name("a\\b"), Err(PrepareError::InvalidFileName(_))));
    assert_eq!(safe_file_name("ok.mkv").ok().unwrap(), "ok.mkv");
}

#[test]
fn default_output_dir_keeps_name_without_stem() {
    assert_eq!(default_output_dir("/v/.hidden").ok().unwrap(), ".hidden - ani");
}

fn stream(index: usize, codec: &str, title: Option<&str>, language: Option<&str>) -> ProbeStream {
    ProbeStream {
        index,
        codec_type: codec.to_string(),
        title: title.map(|s| s.to_string()),
        language: language.map(|s| s.to_string()),
    }
}

#[test]
fn track_name_prefers_title_then_language() {
    assert_eq!(track_name(&stream(2, "subtitle", Some("中文"), Some("chi"))), "中文");
    assert_eq!(track_name(&stream(2, "subtitle", Some("  "), Some("chi"))), "chi");
    assert_eq!(track_name(&stream(2, "subtitle", None, None)), "subtitle");
}

#[test]
fn subtitle_tracks_skip_other_streams() {
    let streams = vec![
        stream(0, "video", None, None),
        stream(2, "subtitle", Some("简体/中文"), None),
        stream(3, "audio", None, Some("jpn")),
        stream(4, "subtitle", None, Some("eng")),
    ];
    let tracks = subtitle_tracks("out", &streams);
    assert_eq!(tracks.len(), 2);
    assert_eq!(tracks[0].index, 2);
    assert_eq!(tracks[0].name, "简体/中文");
    assert_eq!(tracks[0].path, "out/2.简体_中文.ass");
    assert_eq!(tracks[1].path, "out/4.eng.ass");
    assert_eq!(manifest_path("out"), "out/ani.json");
}
