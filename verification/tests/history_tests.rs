use watchnext::history::{
    fill_video_times_from_vlc, history_in_scope, open_preferences, read_history, recent_media,
    HistoryError,
};
use watchnext::time::Time;
use watchnext::video_times::VideoTimes;

fn integer(n: i64) -> plist::Value {
    plist::Value::Integer(plist::Integer::from(n))
}

fn preferences(entries: Vec<(&str, plist::Value)>) -> plist::Value {
    let mut section = plist::Dictionary::new();
    for (key, value) in entries {
        section.insert(key.to_string(), value);
    }
    let mut top = plist::Dictionary::new();
    top.insert("recentlyPlayedMedia".to_string(), plist::Value::Dictionary(section));
    top.insert("other".to_string(), plist::Value::Boolean(true));
    plist::Value::Dictionary(top)
}

fn pairs(history: &Vec<watchnext::reconcile::HistoryEntry>) -> Vec<(String, Time)> {
    let mut out = Vec::new();
    for e in history.iter() {
        out.push((e.path.clone(), e.position));
    }
    out
}

const XML: &str = "<?xml version=\"1.0\" encoding=\"UTF-8\"?>\n<plist version=\"1.0\"><dict><key>recentlyPlayedMedia</key><dict><key>file:///videos/a.mkv</key><integer>50</integer><key>file:///music/b.mkv</key><integer>7</integer></dict></dict></plist>";

#[test]
fn missing_preference_store_is_an_error_of_its_own() {
    assert_eq!(open_preferences(None), Err(HistoryError::Missing));
}

#[test]
fn missing_store_differs_from_an_empty_history() {
    let missing = open_preferences(None);
    assert!(missing.is_err());
    let empty = preferences(Vec::new());
    let history = read_history(&empty, "/videos");
    assert!(matches!(history, Ok(ref h) if h.is_empty()));
}

#[test]
fn bytes_that_are_no_property_list_are_malformed() {
    assert_eq!(open_preferences(Some(b"this is no plist")), Err(HistoryError::Malformed));
    assert_eq!(open_preferences(Some(b"")), Err(HistoryError::Malformed));
}

#[test]
fn an_xml_store_is_opened_and_read() {
    let prefs = open_preferences(Some(XML.as_bytes())).unwrap();
    let history = read_history(&prefs, "/videos").unwrap();
    assert_eq!(pairs(&history), vec![("/videos/a.mkv".to_string(), Time::Seconds(50))]);
}

#[test]
fn a_store_without_the_section_is_an_error() {
    let mut top = plist::Dictionary::new();
    top.insert("other".to_string(), integer(1));
    let prefs = plist::Value::Dictionary(top);
    assert!(recent_media(&prefs).is_none());
    assert!(matches!(read_history(&prefs, "/videos"), Err(HistoryError::NoRecentMedia)));
}

#[test]
fn a_store_that_is_no_dictionary_is_an_error() {
    let prefs = integer(3);
    assert!(matches!(read_history(&prefs, "/videos"), Err(HistoryError::NoRecentMedia)));
}

#[test]
fn a_section_that_is_no_dictionary_is_an_error() {
    let mut top = plist::Dictionary::new();
    top.insert("recentlyPlayedMedia".to_string(), integer(1));
    let prefs = plist::Value::Dictionary(top);
    assert!(matches!(read_history(&prefs, "/videos"), Err(HistoryError::NoRecentMedia)));
}

#[test]
fn recent_media_hands_out_the_section() {
    let prefs = preferences(vec![("file:///videos/a.mkv", integer(5))]);
    let section = recent_media(&prefs).unwrap();
    assert_eq!(section.len(), 1);
    assert!(section.contains_key("file:///videos/a.mkv"));
}

#[test]
fn entries_outside_the_directory_are_left_out() {
    let prefs = preferences(vec![
        ("file:///videos/a.mkv", integer(50)),
        ("file:///music/b.mkv", integer(7)),
        ("/videos/c.mkv", integer(9)),
    ]);
    let history = read_history(&prefs, "/videos").unwrap();
    assert_eq!(
        pairs(&history),
        vec![
            ("/videos/a.mkv".to_string(), Time::Seconds(50)),
            ("/videos/c.mkv".to_string(), Time::Seconds(9)),
        ]
    );
}

#[test]
fn a_position_that_is_no_number_is_unknown() {
    let prefs = preferences(vec![
        ("file:///videos/a.mkv", plist::Value::String("later".to_string())),
        ("file:///videos/b.mkv", integer(-4)),
        ("file:///videos/c.mkv", plist::Value::Integer(plist::Integer::from(u64::MAX))),
    ]);
    let history = read_history(&prefs, "/videos").unwrap();
    assert_eq!(
        pairs(&history),
        vec![
            ("/videos/a.mkv".to_string(), Time::Unknown),
            ("/videos/b.mkv".to_string(), Time::Unknown),
            ("/videos/c.mkv".to_string(), Time::Unknown),
        ]
    );
}

#[test]
fn history_in_scope_strips_and_filters() {
    let raw = vec![
        ("file:///v/a.mkv".to_string(), Some(3)),
        ("file:///w/a.mkv".to_string(), Some(4)),
        ("file:///v/b.mkv".to_string(), None),
    ];
    let history = history_in_scope(&raw, "/v/");
    assert_eq!(
        pairs(&history),
        vec![("/v/a.mkv".to_string(), Time::Seconds(3)), ("/v/b.mkv".to_string(), Time::Unknown)]
    );
}

#[test]
fn fill_from_player_merges_upwards_only() {
    let mut store = VideoTimes::new();
    store.insert("/videos/a.mkv".to_string(), Time::Seconds(100));
    store.insert("/videos/b.mkv".to_string(), Time::Unknown);
    let prefs = preferences(vec![
        ("file:///videos/a.mkv", integer(50)),
        ("file:///videos/b.mkv", integer(20)),
        ("file:///videos/c.mkv", integer(30)),
    ]);
    assert_eq!(fill_video_times_from_vlc(&mut store, &prefs, "/videos"), Ok(()));
    assert_eq!(store.len(), 2);
    assert_eq!(store.get("/videos/a.mkv"), Some(Time::Seconds(100)));
    assert_eq!(store.get("/videos/b.mkv"), Some(Time::Seconds(20)));
}

#[test]
fn fill_from_player_without_the_section_changes_nothing() {
    let mut store = VideoTimes::new();
    store.insert("/videos/a.mkv".to_string(), Time::Seconds(1));
    let prefs = plist::Value::Dictionary(plist::Dictionary::new());
    assert_eq!(
        fill_video_times_from_vlc(&mut store, &prefs, "/videos"),
        Err(HistoryError::NoRecentMedia)
    );
    assert_eq!(store.get("/videos/a.mkv"), Some(Time::Seconds(1)));
}
