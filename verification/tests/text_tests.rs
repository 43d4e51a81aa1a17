use watchnext::text::{has_video_extension, place_of, starts_with, strip_scheme, Place};

#[test]
fn place_of_orders_by_first_difference() {
    assert_eq!(place_of("a.mkv", "b.mkv"), Place::Before);
    assert_eq!(place_of("b.mkv", "a.mkv"), Place::After);
    assert_eq!(place_of("/v/ep10.mkv", "/v/ep2.mkv"), Place::Before);
}

#[test]
fn place_of_equal_paths_is_same() {
    assert_eq!(place_of("/v/a.mkv", "/v/a.mkv"), Place::Same);
    assert_eq!(place_of("", ""), Place::Same);
}

#[test]
fn place_of_puts_a_prefix_first() {
    assert_eq!(place_of("/v/a", "/v/a.mkv"), Place::Before);
    assert_eq!(place_of("/v/a.mkv", "/v/a"), Place::After);
    assert_eq!(place_of("", "a"), Place::Before);
}

#[test]
fn place_of_agrees_with_string_order_beyond_ascii() {
    let names = ["z.mkv", "\u{e9}.mkv", "\u{4e2d}.mkv", "\u{1f600}.mkv", "a.mkv", ""];
    for a in names.iter() {
        for b in names.iter() {
            let expected = if a < b {
                Place::Before
            } else if a == b {
                Place::Same
            } else {
                Place::After
            };
            assert_eq!(place_of(a, b), expected);
        }
    }
}

#[test]
fn starts_with_checks_the_prefix() {
    assert!(starts_with("/videos/a.mkv", "/videos"));
    assert!(starts_with("/videos/a.mkv", ""));
    assert!(starts_with("/videos", "/videos"));
    assert!(!starts_with("/video", "/videos"));
    assert!(!starts_with("/music/a.mkv", "/videos"));
}

#[test]
fn strip_scheme_removes_a_leading_file_scheme() {
    assert_eq!(strip_scheme("file:///videos/a.mkv"), "/videos/a.mkv");
    assert_eq!(strip_scheme("file://"), "");
}

#[test]
fn strip_scheme_removes_a_repeated_scheme() {
    assert_eq!(strip_scheme("file://file:///videos/a.mkv"), "/videos/a.mkv");
    assert_eq!(strip_scheme("file://file://"), "");
    assert_eq!(strip_scheme("file:///file://a"), "/file://a");
}

#[test]
fn strip_scheme_leaves_other_keys_alone() {
    assert_eq!(strip_scheme("/videos/a.mkv"), "/videos/a.mkv");
    assert_eq!(strip_scheme("http://host/a.mkv"), "http://host/a.mkv");
    assert_eq!(strip_scheme("file:/a"), "file:/a");
    assert_eq!(strip_scheme(""), "");
}

#[test]
fn strip_scheme_keeps_characters_beyond_ascii() {
    assert_eq!(strip_scheme("file:///v/\u{e9}t\u{e9}.mkv"), "/v/\u{e9}t\u{e9}.mkv");
}

#[test]
fn has_video_extension_wants_a_stem_and_mkv() {
    assert!(has_video_extension("/videos/a.mkv"));
    assert!(has_video_extension("a.mkv"));
    assert!(has_video_extension("/videos/a.b.mkv"));
    assert!(has_video_extension("/videos/..mkv"));
}

#[test]
fn has_video_extension_refuses_other_names() {
    assert!(!has_video_extension("/videos/a.mp4"));
    assert!(!has_video_extension("/videos/.mkv"));
    assert!(!has_video_extension(".mkv"));
    assert!(!has_video_extension("mkv"));
    assert!(!has_video_extension("/videos/amkv"));
    assert!(!has_video_extension("/videos/a.mkv.part"));
    assert!(!has_video_extension("/videos/a.MKV"));
    assert!(!has_video_extension(""));
}
