use workout_recovery::codec::{from_json, to_json};
use workout_recovery::session::Session;
use workout_recovery::store::{Storage, StoreError};

fn store_of(entries: &[(&str, &str, u64)]) -> Storage {
    let mut st = Storage::new();
    for (id, desc, ts) in entries {
        st.sessions.push(Session::new((*id).to_string(), (*desc).to_string(), *ts));
    }
    st
}

fn same_sessions(a: &Storage, b: &Storage) -> bool {
    a.sessions.len() == b.sessions.len()
        && a.sessions.iter().zip(b.sessions.iter()).all(|(x, y)| {
            x.identifier == y.identifier && x.description == y.description
                && x.timestamp == y.timestamp
        })
}

#[test]
fn empty_store_text() {
    let st = Storage::new();
    assert_eq!(to_json(&st), "{\"sessions\":[]}");
}

#[test]
fn one_session_text() {
    let st = store_of(&[("ab12", "leg day", 1700000000)]);
    assert_eq!(
        to_json(&st),
        "{\"sessions\":[{\"identifier\":\"ab12\",\"description\":\"leg day\",\"timestamp\":1700000000}]}",
    );
}

#[test]
fn two_session_text() {
    let st = store_of(&[("ab12", "legs", 7), ("cd34", "arms", 42)]);
    assert_eq!(
        to_json(&st),
        "{\"sessions\":[{\"identifier\":\"ab12\",\"description\":\"legs\",\"timestamp\":7},{\"identifier\":\"cd34\",\"description\":\"arms\",\"timestamp\":42}]}",
    );
}

#[test]
fn quotes_and_backslashes_are_escaped() {
    let st = store_of(&[("ab12", "say \"ow\" \\ rest", 1)]);
    assert_eq!(
        to_json(&st),
        "{\"sessions\":[{\"identifier\":\"ab12\",\"description\":\"say \\\"ow\\\" \\\\ rest\",\"timestamp\":1}]}",
    );
}

#[test]
fn round_trip_preserves_everything() {
    let st = store_of(&[
        ("ab12", "leg day", 1700000000),
        ("cd34", "say \"ow\" \\ rest", 0),
        ("ef56", "unicode: héllo wörld ✓", u64::MAX),
    ]);
    let back = from_json(&to_json(&st)).unwrap();
    assert!(same_sessions(&st, &back));
}

#[test]
fn round_trip_of_empty_store() {
    let back = from_json(&to_json(&Storage::new())).unwrap();
    assert_eq!(back.sessions.len(), 0);
}

#[test]
fn parse_reads_sessions_back() {
    let text = "{\"sessions\":[{\"identifier\":\"ab12\",\"description\":\"legs\",\"timestamp\":7}]}";
    let st = from_json(text).unwrap();
    assert_eq!(st.sessions.len(), 1);
    assert_eq!(st.sessions[0].identifier, "ab12");
    assert_eq!(st.sessions[0].description, "legs");
    assert_eq!(st.sessions[0].timestamp, 7);
}

#[test]
fn malformed_texts_are_rejected() {
    for text in [
        "",
        "{}",
        "{\"sessions\":[",
        "{\"sessions\":[]} ",
        "{\"sessions\":[{\"identifier\":\"ab12\"}]}",
        "{\"sessions\":[{\"identifier\":\"ab12\",\"description\":\"x\",\"timestamp\":}]}",
        "{\"sessions\":[{\"identifier\":\"ab12\",\"description\":\"x\",\"timestamp\":7}]",
        "{\"sessions\":[{\"identifier\":\"ab12\",\"description\":\"x\",\"timestamp\":99999999999999999999999}]}",
    ] {
        assert_eq!(from_json(text).unwrap_err(), StoreError::StorageFormat, "text: {}", text);
    }
}

#[test]
fn duplicate_identifiers_are_rejected() {
    let text = "{\"sessions\":[{\"identifier\":\"ab12\",\"description\":\"x\",\"timestamp\":1},{\"identifier\":\"ab12\",\"description\":\"y\",\"timestamp\":2}]}";
    assert_eq!(from_json(text).unwrap_err(), StoreError::StorageFormat);
}

#[test]
fn largest_timestamp_survives() {
    let st = store_of(&[("ab12", "x", 18446744073709551615)]);
    let back = from_json(&to_json(&st)).unwrap();
    assert_eq!(back.sessions[0].timestamp, u64::MAX);
}
