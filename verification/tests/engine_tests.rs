use containtment_check::analyzer::{analyze_voting_groups, eligible_voters};
use containtment_check::types::{Board, Member};

fn make_board(name: &str, year: &str, member_names: Vec<&str>) -> Board {
    Board {
        name: name.to_string(),
        year: year.to_string(),
        members: member_names
            .into_iter()
            .map(|n| Member {
                position: "Ledamot".to_string(),
                name: n.to_string(),
            })
            .collect(),
    }
}

#[test]
fn quorum_is_integer_ceiling_of_half() {
    for (seats, expected) in [(5usize, 3usize), (4, 2), (1, 1), (0, 0)] {
        let names: Vec<String> = (0..seats).map(|i| format!("M{}", i)).collect();
        let fum = make_board("FUM", "24/25", names.iter().map(|s| s.as_str()).collect());
        let res = analyze_voting_groups(&fum, &Vec::new(), &Vec::new());
        assert_eq!(res.total_seats, seats);
        assert_eq!(res.quorum_limit, expected);
    }
}

#[test]
fn absent_names_outside_roster_are_ignored() {
    let fum = make_board("FUM", "24/25", vec!["A", "B", "C"]);
    let absent = vec!["X".to_string(), "Y".to_string()];
    let res = analyze_voting_groups(&fum, &Vec::new(), &absent);
    assert_eq!(res.total_seats, 3);
    assert_eq!(res.present_count, 3);
}

#[test]
fn present_count_subtracts_absent_roster_members_once() {
    let fum = make_board("FUM", "24/25", vec!["A", "B", "C", "D"]);
    let absent = vec!["B".to_string(), "B".to_string(), "X".to_string()];
    let res = analyze_voting_groups(&fum, &Vec::new(), &absent);
    assert_eq!(res.present_count, 3);
}

#[test]
fn duplicate_roster_entries_count_one_seat() {
    let fum = make_board("FUM", "24/25", vec!["A", "A", "B"]);
    let res = analyze_voting_groups(&fum, &Vec::new(), &Vec::new());
    assert_eq!(res.total_seats, 2);
    assert_eq!(res.quorum_limit, 1);
}

#[test]
fn empty_roster_accepts_every_board() {
    let fum = make_board("FUM", "24/25", vec![]);
    let b1 = make_board("B1", "23/24", vec!["Someone"]);
    let res = analyze_voting_groups(&fum, &vec![b1], &Vec::new());
    assert_eq!(res.total_seats, 0);
    assert_eq!(res.quorum_limit, 0);
    assert_eq!(res.groups.len(), 1);
    assert!(res.impossible.is_empty());
}

#[test]
fn meeting_without_quorum_routes_everything_to_impossible() {
    // Three seats, quorum 2, but two members absent: 1 present < 2.
    let fum = make_board("FUM", "24/25", vec!["A", "B", "C"]);
    let b1 = make_board("B1", "23/24", vec![]);
    let b2 = make_board("B2", "23/24", vec!["A"]);
    let absent = vec!["A".to_string(), "B".to_string()];
    let res = analyze_voting_groups(&fum, &vec![b1, b2], &absent);
    assert_eq!(res.groups.len(), 0);
    assert_eq!(res.impossible.len(), 2);
}

#[test]
fn assembly_board_itself_is_never_audited() {
    let fum = make_board("FUM", "24/25", vec!["A", "B", "C"]);
    let res = analyze_voting_groups(&fum, &vec![fum.clone()], &Vec::new());
    assert!(res.groups.is_empty());
    assert!(res.impossible.is_empty());
}

#[test]
fn identical_inputs_give_identical_results() {
    let fum = make_board("FUM", "24/25", vec!["A", "B", "C", "D", "E"]);
    let b1 = make_board("B1", "23/24", vec!["A", "B"]);
    let b2 = make_board("B2", "23/24", vec!["C"]);
    let all = vec![b1, b2];
    let absent = vec!["D".to_string()];
    let r1 = analyze_voting_groups(&fum, &all, &absent);
    let r2 = analyze_voting_groups(&fum, &all, &absent);
    assert_eq!(r1, r2);
}

#[test]
fn first_fit_keeps_candidate_order() {
    // B1 {A,B} and B2 {C,D} cannot share a group (5 - 4 = 1 < 3), but
    // B3 {A} joins the first group that fits it: B1's.
    let fum = make_board("FUM", "24/25", vec!["A", "B", "C", "D", "E"]);
    let b1 = make_board("B1", "23/24", vec!["A", "B"]);
    let b2 = make_board("B2", "23/24", vec!["C", "D"]);
    let b3 = make_board("B3", "23/24", vec!["A"]);
    let res = analyze_voting_groups(&fum, &vec![b1, b2, b3], &Vec::new());
    assert_eq!(res.groups.len(), 2);
    assert_eq!(res.groups[0].boards.len(), 2);
    assert_eq!(res.groups[0].boards[0].name, "B1");
    assert_eq!(res.groups[0].boards[1].name, "B3");
    assert_eq!(res.groups[1].boards[0].name, "B2");
}

#[test]
fn group_conflicts_accumulate() {
    let fum = make_board("FUM", "24/25", vec!["A", "B", "C", "D", "E"]);
    let b1 = make_board("B1", "23/24", vec!["A"]);
    let b2 = make_board("B2", "23/24", vec!["B"]);
    let res = analyze_voting_groups(&fum, &vec![b1, b2], &Vec::new());
    assert_eq!(res.groups.len(), 1);
    let mut conflicted = res.groups[0].conflicted_members.clone();
    conflicted.sort();
    assert_eq!(conflicted, vec!["A".to_string(), "B".to_string()]);
}

#[test]
fn groups_meet_quorum_and_impossible_boards_fall_short() {
    let fum = make_board("FUM", "24/25", vec!["A", "B", "C", "D", "E", "F"]);
    let b1 = make_board("B1", "23/24", vec!["A", "B"]);
    let b2 = make_board("B2", "23/24", vec!["C", "D", "E"]);
    let b3 = make_board("B3", "23/24", vec!["F"]);
    let absent = vec!["E".to_string()];
    let res = analyze_voting_groups(&fum, &vec![b1, b2, b3], &absent);
    // quorum 3, present 5.  B2 alone: conflicts present {C,D} -> 3 >= 3 fine,
    // so nothing is impossible; every returned group keeps quorum.
    assert_eq!(res.quorum_limit, 3);
    assert_eq!(res.present_count, 5);
    assert!(res.impossible.is_empty());
    for g in &res.groups {
        let eligible = eligible_voters(g, &absent, res.present_count);
        assert!(eligible >= res.quorum_limit);
    }
    // With a second absentee the meeting shrinks to 4 present and B2's own
    // conflicts push it below quorum: it must land in impossible.
    let absent2 = vec!["E".to_string(), "F".to_string()];
    let fum2 = fum.clone();
    let b2_again = make_board("B2", "23/24", vec!["C", "D", "E"]);
    let res2 = analyze_voting_groups(&fum2, &vec![b2_again], &absent2);
    assert_eq!(res2.present_count, 4);
    // conflicts present of B2: {C, D} -> eligible alone 2 < 3.
    assert_eq!(res2.impossible.len(), 1);
    assert_eq!(res2.impossible[0].name, "B2");
}

#[test]
fn eligible_voters_counts_present_non_conflicted() {
    let fum = make_board("FUM", "24/25", vec!["A", "B", "C", "D", "E"]);
    let b1 = make_board("B1", "23/24", vec!["A", "B"]);
    let absent = vec!["B".to_string()];
    let res = analyze_voting_groups(&fum, &vec![b1], &absent);
    assert_eq!(res.present_count, 4);
    assert_eq!(res.groups.len(), 1);
    // conflicted {A, B}; B is absent, so one present conflicted member.
    let n = eligible_voters(&res.groups[0], &absent, res.present_count);
    assert_eq!(n, 3);
}
