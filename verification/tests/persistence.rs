use leaderboard::{Leaderboard, LeaderboardError};

#[test]
fn empty_list_encodes_to_the_canonical_shape() {
    let l = Leaderboard::new("Games");
    assert_eq!(
        l.serialize_to_json(),
        "{\"name\":\"Games\",\"entries\":[],\"next_id\":1}"
    );
}

#[test]
fn populated_list_encodes_fields_in_order() {
    let mut l = Leaderboard::new("Games");
    l.new_entry("Hades", 1).unwrap();
    l.new_entry("Risebreak", 2).unwrap();
    assert_eq!(
        l.serialize_to_json(),
        "{\"name\":\"Games\",\"entries\":[\
         {\"name\":\"Hades\",\"rank\":1,\"id\":1},\
         {\"name\":\"Risebreak\",\"rank\":2,\"id\":2}],\"next_id\":3}"
    );
}

#[test]
fn quotes_backslashes_and_controls_are_escaped() {
    let mut l = Leaderboard::new("esc");
    l.new_entry("a\"b\\c\nd", 1).unwrap();
    assert_eq!(
        l.serialize_to_json(),
        "{\"name\":\"esc\",\"entries\":[\
         {\"name\":\"a\\\"b\\\\c\\u000ad\",\"rank\":1,\"id\":1}],\"next_id\":2}"
    );
}

#[test]
fn round_trip_reproduces_the_list() {
    let mut l = Leaderboard::new("Games");
    l.new_entry("Hades", 1).unwrap();
    l.new_entry("Witcher 3", 2).unwrap();
    l.new_entry("Risebreak", 1).unwrap();
    l.remove_node_by_rank(2).unwrap();
    let encoded = l.serialize_to_json();
    let back = Leaderboard::intialize_from_json(&encoded).unwrap();
    assert_eq!(back.serialize_to_json(), encoded);
    assert_eq!(back.name(), l.name());
    assert_eq!(back.len(), l.len());
    assert_eq!(back.write_to_vector(), l.write_to_vector());
}

#[test]
fn round_trip_keeps_awkward_names() {
    let mut l = Leaderboard::new("tricky \"board\"\\");
    l.new_entry("tab\there", 1).unwrap();
    l.new_entry("", 2).unwrap();
    l.new_entry("quote\"backslash\\slash/", 3).unwrap();
    let encoded = l.serialize_to_json();
    let back = Leaderboard::intialize_from_json(&encoded).unwrap();
    assert_eq!(back.serialize_to_json(), encoded);
}

#[test]
fn decoding_accepts_short_escapes_and_u00_escapes() {
    let l = Leaderboard::intialize_from_json(
        "{\"name\":\"x\",\"entries\":[\
         {\"name\":\"a\\nb\\t\\/\\u0041\",\"rank\":1,\"id\":1}],\"next_id\":2}",
    )
    .unwrap();
    assert_eq!(l.write_to_vector(), vec!["1: a\nb\t/A\n".to_string()]);
}

#[test]
fn decoding_rejects_syntactic_garbage() {
    let cases = vec![
        "",
        "{}",
        "{\"name\":\"x\"}",
        "{\"name\":\"x\",\"entries\":[],\"next_id\":}",
        "{\"name\":\"x\",\"entries\":[],\"next_id\":1} ",
        "{\"name\":\"x\",\"entries\":[],\"next_id\":1}x",
        "{ \"name\":\"x\",\"entries\":[],\"next_id\":1}",
        "{\"name\":\"x\",\"entries\":[,],\"next_id\":1}",
        "{\"name\":\"x\",\"entries\":[{\"name\":\"a\",\"rank\":1,\"id\":1}",
        "{\"name\":\"x\",\"entries\":{},\"next_id\":1}",
        "{\"name\":x,\"entries\":[],\"next_id\":1}",
        "{\"name\":\"x\",\"entries\":[],\"next_id\":-1}",
    ];
    for c in cases {
        assert!(
            matches!(
                Leaderboard::intialize_from_json(c),
                Err(LeaderboardError::MalformedState)
            ),
            "input was accepted: {}",
            c
        );
    }
}

#[test]
fn decoding_rejects_states_that_break_the_invariants() {
    let cases = vec![
        // ranks with a gap
        "{\"name\":\"x\",\"entries\":[{\"name\":\"a\",\"rank\":2,\"id\":1}],\"next_id\":2}",
        // ranks out of order
        "{\"name\":\"x\",\"entries\":[{\"name\":\"a\",\"rank\":2,\"id\":1},\
         {\"name\":\"b\",\"rank\":1,\"id\":2}],\"next_id\":3}",
        // duplicate rank
        "{\"name\":\"x\",\"entries\":[{\"name\":\"a\",\"rank\":1,\"id\":1},\
         {\"name\":\"b\",\"rank\":1,\"id\":2}],\"next_id\":3}",
        // id at the counter
        "{\"name\":\"x\",\"entries\":[{\"name\":\"a\",\"rank\":1,\"id\":2}],\"next_id\":2}",
        // counter below one
        "{\"name\":\"x\",\"entries\":[],\"next_id\":0}",
    ];
    for c in cases {
        assert!(
            matches!(
                Leaderboard::intialize_from_json(c),
                Err(LeaderboardError::MalformedState)
            ),
            "input was accepted: {}",
            c
        );
    }
}

#[test]
fn decoding_rejects_numbers_that_do_not_fit() {
    assert!(matches!(
        Leaderboard::intialize_from_json(
            "{\"name\":\"x\",\"entries\":[],\"next_id\":99999999999999999999999999}"
        ),
        Err(LeaderboardError::MalformedState)
    ));
}

#[test]
fn decoding_rejects_escapes_beyond_one_byte() {
    assert!(matches!(
        Leaderboard::intialize_from_json(
            "{\"name\":\"\\u1234\",\"entries\":[],\"next_id\":1}"
        ),
        Err(LeaderboardError::MalformedState)
    ));
}

#[test]
fn round_trip_keeps_wide_characters() {
    let mut l = Leaderboard::new("caf\u{e9}");
    l.new_entry("\u{1F3AE} game", 1).unwrap();
    let encoded = l.serialize_to_json();
    let back = Leaderboard::intialize_from_json(&encoded).unwrap();
    assert_eq!(back.serialize_to_json(), encoded);
    assert_eq!(back.write_to_vector(), l.write_to_vector());
}
