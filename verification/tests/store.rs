use workout_recovery::session::Session;
use workout_recovery::store::{new_id, generate_one_id, Storage, StoreError};

fn store_with_ids(ids: &[&str]) -> Storage {
    let mut st = Storage::new();
    for (k, id) in ids.iter().enumerate() {
        st.sessions.push(Session::new(
            (*id).to_string(),
            format!("workout {}", k),
            1_700_000_000 + k as u64,
        ));
    }
    st
}

#[test]
fn add_to_empty_store() {
    let mut st = Storage::new();
    let id = st.add("leg day".to_string(), 1_700_000_000).unwrap();
    assert_eq!(st.sessions.len(), 1);
    assert_eq!(st.sessions[0].identifier, id);
    assert_eq!(st.sessions[0].description, "leg day");
    assert_eq!(st.sessions[0].timestamp, 1_700_000_000);
    assert_eq!(id.len(), 4);
    assert!(id.chars().all(|c| c.is_ascii_alphanumeric()));
}

#[test]
fn add_appends_at_the_end() {
    let mut st = Storage::new();
    st.add("first".to_string(), 1).unwrap();
    st.add("second".to_string(), 2).unwrap();
    let id = st.add("third".to_string(), 3).unwrap();
    assert_eq!(st.sessions.len(), 3);
    assert_eq!(st.sessions[2].identifier, id);
    assert_eq!(st.sessions[2].description, "third");
}

#[test]
fn added_identifiers_stay_unique() {
    let mut st = Storage::new();
    for k in 0..50 {
        st.add(format!("session {}", k), k).unwrap();
    }
    for i in 0..st.sessions.len() {
        for j in (i + 1)..st.sessions.len() {
            assert_ne!(st.sessions[i].identifier, st.sessions[j].identifier);
        }
    }
    assert!(!st.has_duplicate_ids());
}

#[test]
fn add_succeeds_when_no_identifier_can_collide() {
    // None of these identifiers is a four-character alphanumeric string, so
    // no random draw can collide and add must succeed.
    let mut st = store_with_ids(&["id", "longer-id", "ab1"]);
    let id = st.add("pull day".to_string(), 9).unwrap();
    assert_eq!(st.sessions.len(), 4);
    assert_eq!(st.sessions[3].identifier, id);
    assert_eq!(st.sessions[3].description, "pull day");
}

#[test]
fn remove_existing_identifier() {
    let mut st = store_with_ids(&["ab12", "cd34"]);
    st.remove("cd34").unwrap();
    assert_eq!(st.sessions.len(), 1);
    assert_eq!(st.sessions[0].identifier, "ab12");
}

#[test]
fn remove_missing_identifier_fails_and_keeps_store() {
    let mut st = store_with_ids(&["ab12"]);
    let err = st.remove("zz99").unwrap_err();
    match &err {
        StoreError::NotFound(name) => assert_eq!(name, "zz99"),
        other => panic!("unexpected error {:?}", other),
    }
    assert_eq!(st.sessions.len(), 1);
    assert_eq!(st.sessions[0].identifier, "ab12");
}

#[test]
fn remove_keeps_relative_order() {
    let mut st = store_with_ids(&["aaaa", "bbbb", "cccc", "dddd"]);
    st.remove("bbbb").unwrap();
    let ids: Vec<&str> = st.sessions.iter().map(|s| s.identifier.as_str()).collect();
    assert_eq!(ids, vec!["aaaa", "cccc", "dddd"]);
}

#[test]
fn list_clamps_to_available_sessions() {
    let st = store_with_ids(&["aaaa", "bbbb", "cccc"]);
    assert_eq!(st.list(0).len(), 0);
    assert_eq!(st.list(2).len(), 2);
    assert_eq!(st.list(3).len(), 3);
    assert_eq!(st.list(10).len(), 3);
    let empty = Storage::new();
    assert_eq!(empty.list(10).len(), 0);
}

#[test]
fn list_returns_newest_sessions_oldest_first() {
    let st = store_with_ids(&["aaaa", "bbbb", "cccc"]);
    let two = st.list(2);
    assert_eq!(two[0].identifier, "bbbb");
    assert_eq!(two[1].identifier, "cccc");
    let all = st.list(3);
    assert_eq!(all[0].identifier, "aaaa");
    assert_eq!(all[1].identifier, "bbbb");
    assert_eq!(all[2].identifier, "cccc");
}

#[test]
fn generated_identifiers_are_four_alphanumerics() {
    for _ in 0..20 {
        let id = generate_one_id();
        assert_eq!(id.len(), 4);
        assert!(id.chars().all(|c| c.is_ascii_alphanumeric()));
    }
}

#[test]
fn new_id_avoids_existing_identifiers() {
    let st = store_with_ids(&["ab12", "cd34"]);
    let id = new_id(&st).unwrap();
    assert_eq!(id.len(), 4);
    assert_ne!(id, "ab12");
    assert_ne!(id, "cd34");
    assert!(!st.contains_id(&id));
}

#[test]
fn contains_id_is_exact() {
    let st = store_with_ids(&["ab12"]);
    assert!(st.contains_id("ab12"));
    assert!(!st.contains_id("AB12"));
    assert!(!st.contains_id("ab1"));
    assert!(!st.contains_id(""));
}

#[test]
fn duplicate_identifiers_are_detected() {
    let st = store_with_ids(&["ab12", "cd34", "ab12"]);
    assert!(st.has_duplicate_ids());
    let ok = store_with_ids(&["ab12", "cd34"]);
    assert!(!ok.has_duplicate_ids());
}

#[test]
fn elapsed_parts_breaks_down_seconds() {
    let s = Session::new("ab12".to_string(), "x".to_string(), 1_000);
    // 2 days, 3 hours, 4 minutes and 5 seconds later.
    let now = 1_000 + 2 * 86400 + 3 * 3600 + 4 * 60 + 5;
    assert_eq!(s.elapsed_parts(now), (2, 3, 4));
    // The clock running backwards counts as zero elapsed time.
    assert_eq!(s.elapsed_parts(0), (0, 0, 0));
}
