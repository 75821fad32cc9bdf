use download_watcher::parse::{parse_filename, ParsedFilename};
use download_watcher::voe::{is_voe_placeholder, voe_remote_id, voe_title_from_body};

fn parsed(name: &str) -> ParsedFilename {
    parse_filename(name).expect("expected the name to parse")
}

#[test]
fn plain_season_episode() {
    let p = parsed("Show.Name.S01E02.mkv");
    assert_eq!(p.base_name, "show name");
    assert_eq!(p.season, Some(1));
    assert_eq!(p.episode, 2);
    assert_eq!(p.extension, "mkv");
}

#[test]
fn parsing_is_case_insensitive() {
    let a = parsed("SHOW.NAME.s01e02.MKV");
    let b = parsed("show.name.S01E02.mkv");
    assert_eq!(a, b);
    assert_eq!(a.base_name, "show name");
    assert_eq!(a.extension, "mkv");
}

#[test]
fn bracket_tag_is_skipped() {
    let p = parsed("[Group] Show Name S01E05 [1080p].mkv");
    assert_eq!(p.base_name, "show name");
    assert_eq!(p.season, Some(1));
    assert_eq!(p.episode, 5);
}

#[test]
fn year_tag_is_dropped_from_base() {
    let p = parsed("Show Name (2020) s02e03.mp4");
    assert_eq!(p.base_name, "show name");
    assert_eq!(p.season, Some(2));
    assert_eq!(p.episode, 3);
    assert_eq!(p.extension, "mp4");
}

#[test]
fn seasonless_episode() {
    let p = parsed("Show Name e07.mkv");
    assert_eq!(p.base_name, "show name");
    assert_eq!(p.season, None);
    assert_eq!(p.episode, 7);
}

#[test]
fn season_with_space_separator() {
    let p = parsed("show s01 02.avi");
    assert_eq!(p.base_name, "show");
    assert_eq!(p.season, Some(1));
    assert_eq!(p.episode, 2);
    assert_eq!(p.extension, "avi");
}

#[test]
fn season_with_dash_separator() {
    let p = parsed("show-s03-12-extra.mkv");
    assert_eq!(p.base_name, "show");
    assert_eq!(p.season, Some(3));
    assert_eq!(p.episode, 12);
}

#[test]
fn commas_and_dots_normalize_to_single_spaces() {
    let p = parsed("Show,Name, -  S01E02.mkv");
    assert_eq!(p.base_name, "show name");
}

#[test]
fn no_marker_means_unparseable() {
    assert!(parse_filename("Show Name.mkv").is_none());
}

#[test]
fn no_extension_means_unparseable() {
    assert!(parse_filename("Show Name S01E02").is_none());
}

#[test]
fn fused_digit_runs_do_not_match() {
    assert!(parse_filename("show s0102.mkv").is_none());
}

#[test]
fn huge_episode_number_is_rejected() {
    assert!(parse_filename("show e99999999999.mkv").is_none());
}

#[test]
fn trailing_junk_after_episode_is_ignored() {
    let p = parsed("Show.Name.S01E02.1080p.WEB.x264-GRP.mkv");
    assert_eq!(p.base_name, "show name");
    assert_eq!(p.season, Some(1));
    assert_eq!(p.episode, 2);
    assert_eq!(p.extension, "mkv");
}

#[test]
fn voe_placeholder_detection() {
    let name = String::from("voe_abc123.mp4");
    assert!(is_voe_placeholder(&name));
    assert_eq!(voe_remote_id(&name), "abc123");
    assert!(!is_voe_placeholder(&String::from("voe_ab c.mp4")));
    assert!(!is_voe_placeholder(&String::from("voe_a.b.mp4")));
    assert!(!is_voe_placeholder(&String::from("other_abc.mp4")));
    assert!(!is_voe_placeholder(&String::from("voe_abc.mkv")));
}

#[test]
fn voe_title_extraction() {
    let body = String::from(
        "<html>\n<head>\n<title>Watch Show Name S01E02.mp4 - VOE | Content Delivery Network (CDN) & Video Cloud</title>\n</head>\n</html>",
    );
    assert_eq!(
        voe_title_from_body(&body),
        Some(String::from("Show Name S01E02.mp4"))
    );
    let no_title = String::from("<html>\n<body>nothing here</body>\n</html>");
    assert_eq!(voe_title_from_body(&no_title), None);
    let wrong_title = String::from("<title>Some other page</title>");
    assert_eq!(voe_title_from_body(&wrong_title), None);
}
