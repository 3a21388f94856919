use leaderboard::{Leaderboard, LeaderboardError};

fn lines(l: &Leaderboard) -> Vec<String> {
    l.write_to_vector()
}

#[test]
fn scenario_three_entries_remove_and_move() {
    let mut l = Leaderboard::new("Games");
    assert!(l.is_empty());

    assert_eq!(l.new_entry("Hades", 1), Ok(1));
    assert_eq!(lines(&l), vec!["1: Hades\n".to_string()]);

    assert_eq!(l.new_entry("Risebreak", 2), Ok(2));
    assert_eq!(
        lines(&l),
        vec!["1: Hades\n".to_string(), "2: Risebreak\n".to_string()]
    );

    assert_eq!(l.new_entry("Witcher 3", 2), Ok(3));
    assert_eq!(
        lines(&l),
        vec![
            "1: Hades\n".to_string(),
            "2: Witcher 3\n".to_string(),
            "3: Risebreak\n".to_string()
        ]
    );

    assert_eq!(l.remove_node_by_rank(1), Ok(("Hades".to_string(), 1)));
    assert_eq!(
        lines(&l),
        vec!["1: Witcher 3\n".to_string(), "2: Risebreak\n".to_string()]
    );

    assert_eq!(l.change_rank(1, 2), Ok(2));
    assert_eq!(
        lines(&l),
        vec!["1: Risebreak\n".to_string(), "2: Witcher 3\n".to_string()]
    );
}

#[test]
fn insert_rank_is_clamped_to_len_plus_one() {
    let mut l = Leaderboard::new("clamp");
    assert_eq!(l.new_entry("first", 100), Ok(1));
    assert_eq!(lines(&l), vec!["1: first\n".to_string()]);
    assert_eq!(l.new_entry("second", 99), Ok(2));
    assert_eq!(
        lines(&l),
        vec!["1: first\n".to_string(), "2: second\n".to_string()]
    );
    assert_eq!(l.len(), 2);
}

#[test]
fn remove_at_zero_and_past_end_fails_and_leaves_list_alone() {
    let mut l = Leaderboard::new("bounds");
    l.new_entry("a", 1).unwrap();
    l.new_entry("b", 2).unwrap();
    let before = l.serialize_to_json();

    assert_eq!(
        l.remove_node_by_rank(0),
        Err(LeaderboardError::RankOutOfBounds)
    );
    assert_eq!(
        l.remove_node_by_rank(3),
        Err(LeaderboardError::RankOutOfBounds)
    );
    assert_eq!(l.serialize_to_json(), before);
}

#[test]
fn insert_at_rank_zero_fails_and_leaves_list_alone() {
    let mut l = Leaderboard::new("zero");
    l.new_entry("a", 1).unwrap();
    let before = l.serialize_to_json();
    assert_eq!(l.new_entry("b", 0), Err(LeaderboardError::InvalidRank));
    assert_eq!(l.serialize_to_json(), before);
}

#[test]
fn insert_then_remove_restores_entries_and_ids() {
    let mut l = Leaderboard::new("identity");
    l.new_entry("a", 1).unwrap();
    l.new_entry("b", 2).unwrap();
    l.new_entry("c", 3).unwrap();
    let before = l.serialize_to_json();
    let before_entries = before.split(",\"next_id\":").next().unwrap().to_string();

    l.new_entry("intruder", 2).unwrap();
    l.remove_node_by_rank(2).unwrap();

    let after = l.serialize_to_json();
    let after_entries = after.split(",\"next_id\":").next().unwrap().to_string();
    // the entries — names, ranks and ids — are exactly as before; only the
    // id counter has moved on
    assert_eq!(before_entries, after_entries);
    assert!(after.ends_with(",\"next_id\":5}"));
}

#[test]
fn move_with_bad_source_fails_and_leaves_list_alone() {
    let mut l = Leaderboard::new("move");
    l.new_entry("a", 1).unwrap();
    let before = l.serialize_to_json();
    assert_eq!(l.change_rank(0, 1), Err(LeaderboardError::RankOutOfBounds));
    assert_eq!(l.change_rank(2, 1), Err(LeaderboardError::RankOutOfBounds));
    assert_eq!(l.serialize_to_json(), before);
}

#[test]
fn move_to_rank_zero_fails_after_removal() {
    let mut l = Leaderboard::new("norollback");
    l.new_entry("a", 1).unwrap();
    l.new_entry("b", 2).unwrap();
    // the removal sub-step succeeds, then the insertion is refused: the
    // entry stays removed and the remaining ranks are still contiguous
    assert_eq!(l.change_rank(1, 0), Err(LeaderboardError::InvalidRank));
    assert_eq!(lines(&l), vec!["1: b\n".to_string()]);
}

#[test]
fn move_target_is_clamped_against_post_removal_length() {
    let mut l = Leaderboard::new("moveclamp");
    l.new_entry("a", 1).unwrap();
    l.new_entry("b", 2).unwrap();
    l.new_entry("c", 3).unwrap();
    assert_eq!(l.change_rank(1, 50), Ok(3));
    assert_eq!(
        lines(&l),
        vec![
            "1: b\n".to_string(),
            "2: c\n".to_string(),
            "3: a\n".to_string()
        ]
    );
}

#[test]
fn move_keeps_the_entry_id() {
    let mut l = Leaderboard::new("moveid");
    l.new_entry("a", 1).unwrap();
    l.new_entry("b", 2).unwrap();
    l.change_rank(1, 2).unwrap();
    assert_eq!(
        l.serialize_to_json(),
        "{\"name\":\"moveid\",\"entries\":[\
         {\"name\":\"b\",\"rank\":1,\"id\":2},\
         {\"name\":\"a\",\"rank\":2,\"id\":1}],\"next_id\":3}"
    );
}

#[test]
fn ids_are_never_reused() {
    let mut l = Leaderboard::new("ids");
    l.new_entry("a", 1).unwrap();
    l.new_entry("b", 2).unwrap();
    l.remove_node_by_rank(1).unwrap();
    assert_eq!(l.new_entry("c", 2), Ok(3));
    assert_eq!(
        l.serialize_to_json(),
        "{\"name\":\"ids\",\"entries\":[\
         {\"name\":\"b\",\"rank\":1,\"id\":2},\
         {\"name\":\"c\",\"rank\":2,\"id\":3}],\"next_id\":4}"
    );
}

#[test]
fn getters_report_name_len_and_emptiness() {
    let mut l = Leaderboard::new("Board");
    assert_eq!(l.name(), "Board".to_string());
    assert_eq!(l.len(), 0);
    assert!(l.is_empty());
    l.new_entry("x", 1).unwrap();
    assert_eq!(l.len(), 1);
    assert!(!l.is_empty());
}

#[test]
fn file_location_is_under_the_leaderboards_folder() {
    assert_eq!(
        Leaderboard::get_leaderboard_file_location("Games"),
        "Leaderboards/Games.json".to_string()
    );
}

#[test]
fn nodes_can_be_placed_directly_at_a_rank() {
    let mut l = Leaderboard::new("direct");
    // the id counter starts at 1, so a hand-made node may carry id 0
    let node = leaderboard::Node {
        name: "x".to_string(),
        rank: 1,
        id: 0,
    };
    let copy = node.duplicate();
    assert_eq!(copy.name, "x".to_string());
    assert_eq!(copy.rank, 1);
    assert_eq!(copy.id, 0);
    assert_eq!(l.insert_node_at_rank(node, 1), Ok(1));
    assert_eq!(lines(&l), vec!["1: x\n".to_string()]);
    let low = leaderboard::Node {
        name: "y".to_string(),
        rank: 0,
        id: 0,
    };
    assert_eq!(
        l.insert_node_at_rank(low, 0),
        Err(LeaderboardError::InvalidRank)
    );
    assert_eq!(lines(&l), vec!["1: x\n".to_string()]);
}
