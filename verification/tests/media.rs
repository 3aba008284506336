use anime_tool::media::{http_name_from_parts, local_file_info, media_source, MediaSource};
use anime_tool::prepare::{source_name_from_parts, PrepareError};

fn parts(scheme: &str, segments: &[&str]) -> Option<(String, Option<Vec<String>>)> {
    Some((scheme.to_string(), Some(segments.iter().map(|s| s.to_string()).collect())))
}

#[test]
fn media_source_follows_the_scheme() {
    assert_eq!(media_source("https://example.com/a.mkv"), MediaSource::Http);
    assert_eq!(media_source("http://example.com/a.mkv"), MediaSource::Http);
    assert_eq!(media_source("ftp://host/dir/a.mkv"), MediaSource::Ftp);
    assert_eq!(media_source("file:///tmp/a.mkv"), MediaSource::FileUrl);
    assert_eq!(media_source("/tmp/a.mkv"), MediaSource::Local);
    assert_eq!(media_source("relative/a.mkv"), MediaSource::Local);
    assert_eq!(media_source("mailto:someone@example.com"), MediaSource::Local);
}

#[test]
fn http_name_comes_from_the_last_segment() {
    assert_eq!(http_name_from_parts(parts("https", &["dir", "Ep%2001.mkv"])), "Ep 01.mkv");
    assert_eq!(http_name_from_parts(parts("https", &["dir", "plain.mkv"])), "plain.mkv");
    assert_eq!(http_name_from_parts(parts("https", &["dir", ""])), "unknown");
    assert_eq!(http_name_from_parts(parts("https", &[])), "unknown");
    assert_eq!(http_name_from_parts(Some(("data".to_string(), None))), "unknown");
    assert_eq!(http_name_from_parts(None), "unknown");
}

#[test]
fn source_name_comes_from_the_url_or_the_path() {
    assert_eq!(
        source_name_from_parts("https://h/a%20b.mkv", parts("https", &["a%20b.mkv"])).ok().unwrap(),
        "a b.mkv"
    );
    assert_eq!(
        source_name_from_parts("dir/ep.mp4", None).ok().unwrap(),
        "ep.mp4"
    );
    assert_eq!(
        source_name_from_parts("mailto:x", parts("mailto", &["x"])).ok().unwrap(),
        "mailto:x"
    );
    assert!(matches!(
        source_name_from_parts("https://h/", parts("https", &[""])),
        Err(PrepareError::MissingUrlFileName)
    ));
}

#[test]
fn local_file_info_names_the_stem_and_hashes_the_head() {
    let info = local_file_info("/videos/Show 01.mkv", 3, b"abc");
    assert_eq!(info.name, "Show 01");
    assert_eq!(info.size, 3);
    assert_eq!(info.first_16m_md5, "900150983cd24fb0d6963f7d28e17f72");
    let bare = local_file_info("/", 0, b"");
    assert_eq!(bare.name, "video");
    assert_eq!(bare.first_16m_md5, "d41d8cd98f00b204e9800998ecf8427e");
}
