use live_counter::route::{asset_miss_fallback, classify_path, trim_leading_slashes, MissDecision,
    StaticDecision};
use live_counter::stream::{step, StreamAction, StreamEvent};

fn bytes(s: &str) -> Vec<u8> {
    s.as_bytes().to_vec()
}

#[test]
fn step_emits_encoded_value() {
    match step(&StreamEvent::Value(5)) {
        StreamAction::Emit(p) => assert_eq!(p, bytes("5")),
        _ => panic!("a value event must be emitted"),
    }
    match step(&StreamEvent::Value(-3)) {
        StreamAction::Emit(p) => assert_eq!(p, bytes("-3")),
        _ => panic!("a value event must be emitted"),
    }
}

#[test]
fn step_tick_is_keep_alive() {
    assert!(matches!(step(&StreamEvent::Tick), StreamAction::KeepAlive));
}

#[test]
fn step_closed_receiver_closes_the_stream() {
    assert!(matches!(step(&StreamEvent::Closed), StreamAction::Close));
}

#[test]
fn trim_removes_leading_slashes_only() {
    assert_eq!(trim_leading_slashes(&bytes("/a/b")), bytes("a/b"));
    assert_eq!(trim_leading_slashes(&bytes("///x")), bytes("x"));
    assert_eq!(trim_leading_slashes(&bytes("")), bytes(""));
    assert_eq!(trim_leading_slashes(&bytes("a//")), bytes("a//"));
}

#[test]
fn root_and_index_paths_serve_the_index_document() {
    assert_eq!(classify_path(&bytes("/")).0, StaticDecision::Index);
    assert_eq!(classify_path(&bytes("")).0, StaticDecision::Index);
    assert_eq!(classify_path(&bytes("/index.html")).0, StaticDecision::Index);
    assert_eq!(classify_path(&bytes("index.html")).0, StaticDecision::Index);
}

#[test]
fn other_paths_are_looked_up_trimmed() {
    let (d, t) = classify_path(&bytes("/app.js"));
    assert_eq!(d, StaticDecision::Lookup);
    assert_eq!(t, bytes("app.js"));
    let (d, t) = classify_path(&bytes("/about"));
    assert_eq!(d, StaticDecision::Lookup);
    assert_eq!(t, bytes("about"));
    let (d, t) = classify_path(&bytes("/index.htm"));
    assert_eq!(d, StaticDecision::Lookup);
    assert_eq!(t, bytes("index.htm"));
}

#[test]
fn missing_file_like_paths_are_not_found() {
    assert_eq!(asset_miss_fallback(&bytes("app.js")), MissDecision::NotFound);
    assert_eq!(asset_miss_fallback(&bytes("a.b.c")), MissDecision::NotFound);
}

#[test]
fn missing_route_like_paths_fall_back_to_the_index() {
    assert_eq!(asset_miss_fallback(&bytes("about")), MissDecision::Index);
    assert_eq!(asset_miss_fallback(&bytes("")), MissDecision::Index);
}
