//! What the daemon lists, takes and answers.

use bulbbeat::http::Request;
use bulbbeat::playback::PlaybackHandle;
use bulbbeat::web::{
    error_response, is_audio_name, is_plain_name, list_audio, listing_response, play_request,
    play_response, requested_file, resolve_requested, route, stopped_response, Action, FileEntry,
    PlayError, Response, Route, ServerState,
};

fn entry(name: &str, size: u64) -> FileEntry {
    FileEntry { name: Some(name.to_string()), is_file: true, size }
}

fn request(method: &str, path: &str, body: &str) -> Request {
    Request { method: method.to_string(), path: path.to_string(), body: body.as_bytes().to_vec() }
}

fn handle(state: &mut ServerState, asked: &Request) -> Action {
    state.handle(asked, false, "<html>", |name: &str| name == "song.mp3")
}

fn answer(action: Action) -> Response {
    match action {
        Action::Answer(response) => response,
        other => panic!("no answer: {other:?}"),
    }
}

fn error_of(response: &Response) -> String {
    let value: serde_json::Value = serde_json::from_str(&response.body).unwrap();
    value["error"].as_str().unwrap().to_string()
}

#[test]
fn plain_names_lead_nowhere_else() {
    assert!(is_plain_name("song.mp3"));
    assert!(is_plain_name("a b.c.mp3"));
    for bad in ["", ".hidden.mp3", "a/b.mp3", "a\\b.mp3", "a..mp3", "..", "/etc/passwd"] {
        assert!(!is_plain_name(bad), "{bad}");
    }
    assert!(is_plain_name(&"a".repeat(255)));
    assert!(!is_plain_name(&"a".repeat(256)));
    // Counted in bytes.
    assert!(!is_plain_name(&"é".repeat(128)));
    assert!(is_plain_name(&"é".repeat(127)));
}

#[test]
fn audio_files_are_known_by_their_extension() {
    for name in ["a.mp3", "a.FLAC", "a.b.Wav", "x.ogg", "x.m4a", "x.aac"] {
        assert!(is_audio_name(name), "{name}");
    }
    for name in ["mp3", "a.", "a.mp", "a.mp3.txt", "", "a.mp33"] {
        assert!(!is_audio_name(name), "{name}");
    }
}

#[test]
fn audio_files_are_listed_by_name() {
    let entries = vec![
        entry("b.mp3", 1),
        entry("A.MP3", 2),
        entry(".hidden.mp3", 3),
        entry("notes.txt", 4),
        FileEntry { name: None, is_file: true, size: 5 },
        FileEntry { name: Some("dir.mp3".to_string()), is_file: false, size: 6 },
        entry("É.ogg", 7),
        entry("é.aac", 8),
        entry("a.mp3", 9),
    ];
    let listed: Vec<(String, u64)> =
        list_audio(&entries).into_iter().map(|f| (f.name, f.size)).collect();
    let expected = [("A.MP3", 2), ("a.mp3", 9), ("b.mp3", 1), ("é.aac", 8), ("É.ogg", 7)];
    assert_eq!(listed, expected.map(|(n, s)| (n.to_string(), s)).to_vec());
}

#[test]
fn what_is_listed_can_be_played() {
    let entries = vec![entry("b.mp3", 1), entry("a.OGG", 2)];
    for file in list_audio(&entries) {
        assert!(resolve_requested(&file.name, |_: &str| true).is_ok());
    }
}

#[test]
fn anything_but_a_plain_audio_file_is_rejected() {
    assert!(resolve_requested("song.mp3", |name: &str| name == "song.mp3").is_ok());
    assert!(matches!(
        resolve_requested("../song.mp3", |_: &str| true),
        Err(PlayError::InvalidName)
    ));
    let gone = resolve_requested("gone.mp3", |_: &str| false).unwrap_err();
    assert_eq!(gone.message(), "no such audio file: gone.mp3");
    let text = resolve_requested("notes.txt", |_: &str| true).unwrap_err();
    assert_eq!(text.message(), "no such audio file: notes.txt");
}

#[test]
fn the_body_names_the_file() {
    assert_eq!(play_request(b"{\"file\": \"song.mp3\"}").unwrap(), "song.mp3");
    for body in ["{}", "[]", "\"file\"", "{\"file\": 3}", "{\"file\": null}"] {
        let error = play_request(body.as_bytes()).unwrap_err();
        assert_eq!(error.message(), "missing \"file\" field");
    }
    let words = play_request(b"{").unwrap_err().message();
    let cause = serde_json::from_slice::<serde_json::Value>(b"{").unwrap_err();
    assert_eq!(words, format!("invalid JSON body: {cause}"));
}

#[test]
fn the_file_field_of_a_value() {
    let mut members = serde_json::Map::new();
    members.insert("file".to_string(), serde_json::Value::from("x"));
    assert_eq!(requested_file(&serde_json::Value::Object(members)), Some("x".to_string()));
    assert_eq!(requested_file(&serde_json::Value::Null), None);
}

#[test]
fn play_errors_in_words() {
    assert_eq!(PlayError::NoJson("why".to_string()).message(), "invalid JSON body: why");
    assert_eq!(PlayError::NoFileField.message(), "missing \"file\" field");
    assert_eq!(PlayError::InvalidName.message(), "invalid file name");
    assert_eq!(PlayError::NoSuchFile("x".to_string()).message(), "no such audio file: x");
}

#[test]
fn routes() {
    assert_eq!(route("GET", "/"), Route::Page);
    assert_eq!(route("GET", "/api/files"), Route::Files);
    assert_eq!(route("GET", "/api/status"), Route::Status);
    assert_eq!(route("POST", "/api/play"), Route::Play);
    assert_eq!(route("POST", "/api/stop"), Route::Stop);
    assert_eq!(route("POST", "/"), Route::Refused { status: 405 });
    assert_eq!(route("PUT", "/api/status"), Route::Refused { status: 405 });
    assert_eq!(route("GET", "/api/play"), Route::Refused { status: 404 });
    assert_eq!(route("get", "/api/files"), Route::Refused { status: 404 });
}

#[test]
fn the_page_is_answered() {
    let response = answer(handle(&mut ServerState::new(), &request("GET", "/", "")));
    assert_eq!(response.status, 200);
    assert_eq!(response.content_type, "text/html; charset=utf-8");
    assert_eq!(response.body, "<html>");
    assert_eq!(
        response.head(),
        "HTTP/1.1 200 OK\r\nContent-Type: text/html; charset=utf-8\r\nContent-Length: 6\r\n\
         Connection: close\r\n\r\n"
    );
}

#[test]
fn lengths_of_answers_are_counted_in_bytes() {
    let response = error_response(400, "é");
    assert!(response.head().contains("Content-Length: 14\r\n"));
}

#[test]
fn requests_for_nothing_are_refused() {
    let mut state = ServerState::new();
    state.started(PlaybackHandle::new("/m/song.mp3".to_string(), 3000));
    let response = answer(handle(&mut state, &request("PUT", "/x", "")));
    assert_eq!(response.status, 404);
    assert_eq!(response.content_type, "application/json");
    assert_eq!(response.body, "{\"error\":\"no route for PUT /x\"}");
    let response = answer(handle(&mut state, &request("POST", "/", "")));
    assert_eq!(response.status, 405);
    assert!(state.active.is_some());
}

#[test]
fn play_requests() {
    let mut state = ServerState::new();
    let play = |body: &str| request("POST", "/api/play", body);
    match handle(&mut state, &play("{\"file\":\"song.mp3\"}")) {
        Action::Play(name) => assert_eq!(name, "song.mp3"),
        other => panic!("not played: {other:?}"),
    }
    let response = answer(handle(&mut state, &play("{\"file\":\"other.mp3\"}")));
    assert_eq!(response.status, 400);
    assert_eq!(error_of(&response), "no such audio file: other.mp3");
    let response = answer(handle(&mut state, &play("{\"file\":\"../x.mp3\"}")));
    assert_eq!(error_of(&response), "invalid file name");
    let response = answer(handle(&mut state, &play("{}")));
    assert_eq!(response.body, "{\"error\":\"missing \\\"file\\\" field\"}");
}

#[test]
fn listing_and_stopping_are_left_to_the_caller() {
    let mut state = ServerState::new();
    assert!(matches!(handle(&mut state, &request("GET", "/api/files", "")), Action::ListFiles));
    assert!(matches!(handle(&mut state, &request("POST", "/api/stop", "")), Action::Stop));
    let response = stopped_response();
    assert_eq!((response.status, response.body.as_str()), (200, "{\"ok\":true}"));
}

#[test]
fn listings_are_answered() {
    let response = listing_response("/m", Ok(vec![entry("b.mp3", 10), entry("a.mp3", 2)]));
    assert_eq!(response.status, 200);
    assert_eq!(
        response.body,
        "{\"dir\":\"/m\",\"files\":[{\"name\":\"a.mp3\",\"size\":2},{\"name\":\"b.mp3\",\"size\":10}]}"
    );
    let response = listing_response("/m", Err("read_dir /m: gone".to_string()));
    assert_eq!(response.status, 500);
    assert_eq!(error_of(&response), "read_dir /m: gone");
}

#[test]
fn playbacks_are_answered() {
    let response = play_response("song.mp3", Ok(3000));
    assert_eq!(response.status, 200);
    let value: serde_json::Value = serde_json::from_str(&response.body).unwrap();
    assert_eq!(value["ok"], serde_json::Value::from(true));
    assert_eq!(value["file"], serde_json::Value::from("song.mp3"));
    assert_eq!(value["duration_ms"], serde_json::Value::from(3000u64));
    let response = play_response("song.mp3", Err("no audio track".to_string()));
    assert_eq!(response.status, 400);
    assert_eq!(error_of(&response), "no audio track");
}

fn status(state: &mut ServerState, finished: bool) -> serde_json::Value {
    let asked = request("GET", "/api/status", "");
    let response = answer(state.handle(&asked, finished, "", |_: &str| false));
    assert_eq!(response.status, 200);
    serde_json::from_str(&response.body).unwrap()
}

#[test]
fn the_status_of_a_playback() {
    let mut state = ServerState::new();
    let idle = "{\"duration_ms\":0,\"elapsed_ms\":0,\"file\":null,\"playing\":false,\"underruns\":0}";
    assert_eq!(status(&mut state, false).to_string(), idle);

    let mut playback = PlaybackHandle::new("/m/song.mp3".to_string(), 3000);
    playback.observe(false, 1200, 1);
    state.started(playback);
    let value = status(&mut state, false);
    assert_eq!(value["playing"], serde_json::Value::from(true));
    assert_eq!(value["file"], serde_json::Value::from("/m/song.mp3"));
    assert_eq!(value["elapsed_ms"], serde_json::Value::from(1200u64));
    assert_eq!(value["duration_ms"], serde_json::Value::from(3000u64));
    assert_eq!(value["underruns"], serde_json::Value::from(1u64));

    // A finished supervisor is reaped.
    assert_eq!(status(&mut state, true).to_string(), idle);
    assert!(state.active.is_none());
}

#[test]
fn a_started_playback_replaces_another() {
    let mut state = ServerState::new();
    state.started(PlaybackHandle::new("/m/one.mp3".to_string(), 3000));
    state.started(PlaybackHandle::new("/m/two.mp3".to_string(), 3000));
    assert_eq!(state.active.unwrap().file, "/m/two.mp3");
}

#[test]
fn stopping_asks_the_playback_to_stop() {
    let mut state = ServerState::new();
    assert!(state.stop_active().is_none());
    state.started(PlaybackHandle::new("/m/song.mp3".to_string(), 3000));
    let stopped = state.stop_active().unwrap();
    assert!(stopped.is_canceling());
    assert_eq!(stopped.file, "/m/song.mp3");
    assert!(state.active.is_none());
}
