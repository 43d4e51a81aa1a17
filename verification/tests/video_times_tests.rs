use watchnext::time::Time;
use watchnext::video_times::VideoTimes;

#[test]
fn new_mapping_is_empty() {
    let v = VideoTimes::new();
    assert_eq!(v.len(), 0);
    assert!(!v.contains_key("a.mkv"));
    assert_eq!(v.get("a.mkv"), None);
}

#[test]
fn insert_keeps_path_order() {
    let mut v = VideoTimes::new();
    v.insert("c.mkv".to_string(), Time::Seconds(3));
    v.insert("a.mkv".to_string(), Time::Seconds(1));
    v.insert("b.mkv".to_string(), Time::Unknown);
    assert_eq!(v.len(), 3);
    assert_eq!(v.path_at(0), "a.mkv");
    assert_eq!(v.path_at(1), "b.mkv");
    assert_eq!(v.path_at(2), "c.mkv");
    assert_eq!(v.time_at(0), Time::Seconds(1));
    assert_eq!(v.time_at(1), Time::Unknown);
    assert_eq!(v.time_at(2), Time::Seconds(3));
}

#[test]
fn insert_replaces_the_time_of_a_known_path() {
    let mut v = VideoTimes::new();
    v.insert("a.mkv".to_string(), Time::Seconds(10));
    v.insert("a.mkv".to_string(), Time::Seconds(4));
    assert_eq!(v.len(), 1);
    assert_eq!(v.get("a.mkv"), Some(Time::Seconds(4)));
}

#[test]
fn get_and_contains_key_find_what_was_put() {
    let mut v = VideoTimes::new();
    v.insert("b.mkv".to_string(), Time::Seconds(7));
    assert!(v.contains_key("b.mkv"));
    assert!(!v.contains_key("b"));
    assert!(!v.contains_key("b.mkvx"));
    assert_eq!(v.get("b.mkv"), Some(Time::Seconds(7)));
    assert_eq!(v.get("a.mkv"), None);
    assert_eq!(v.get("c.mkv"), None);
}

#[test]
fn discover_adds_unknown_once() {
    let mut v = VideoTimes::new();
    v.discover("a.mkv".to_string());
    v.discover("a.mkv".to_string());
    assert_eq!(v.len(), 1);
    assert_eq!(v.get("a.mkv"), Some(Time::Unknown));
}

#[test]
fn discover_keeps_recorded_progress() {
    let mut v = VideoTimes::new();
    v.insert("a.mkv".to_string(), Time::Seconds(0));
    v.discover("a.mkv".to_string());
    assert_eq!(v.get("a.mkv"), Some(Time::Seconds(0)));
}

#[test]
fn raise_only_goes_up() {
    let mut v = VideoTimes::new();
    v.insert("a.mkv".to_string(), Time::Seconds(100));
    v.raise("a.mkv", Time::Seconds(50));
    assert_eq!(v.get("a.mkv"), Some(Time::Seconds(100)));
    v.raise("a.mkv", Time::Seconds(100));
    assert_eq!(v.get("a.mkv"), Some(Time::Seconds(100)));
    v.raise("a.mkv", Time::Unknown);
    assert_eq!(v.get("a.mkv"), Some(Time::Seconds(100)));
    v.raise("a.mkv", Time::Seconds(101));
    assert_eq!(v.get("a.mkv"), Some(Time::Seconds(101)));
}

#[test]
fn raise_lifts_unknown_to_zero() {
    let mut v = VideoTimes::new();
    v.discover("a.mkv".to_string());
    v.raise("a.mkv", Time::Seconds(0));
    assert_eq!(v.get("a.mkv"), Some(Time::Seconds(0)));
}

#[test]
fn raise_adds_no_record() {
    let mut v = VideoTimes::new();
    v.insert("a.mkv".to_string(), Time::Seconds(1));
    v.raise("b.mkv", Time::Seconds(50));
    assert_eq!(v.len(), 1);
    assert!(!v.contains_key("b.mkv"));
}
