use containtment_check::analyzer::analyze_voting_groups;
use containtment_check::types::{Board, Member};

fn make_board(name: &str, year: &str, member_names: Vec<&str>) -> Board {
    Board {
        name: name.to_string(),
        year: year.to_string(),
        members: member_names
            .into_iter()
            .map(|n| Member {
                position: "Ledamot".to_string(),
                name: n.to_string(),
            })
            .collect(),
    }
}

#[test]
fn test_voting_logic_no_absence() {
    // Five seats, quorum 3.  Board A conflicts with P1 and P2, leaving
    // three impartial voters: enough.
    let fum = make_board("FUM", "24/25", vec!["P1", "P2", "P3", "P4", "P5"]);
    let b1 = make_board("StyrelseA", "23/24", vec!["P1", "P2"]);

    let all = vec![fum.clone(), b1];
    let absent: Vec<String> = Vec::new();

    let res = analyze_voting_groups(&fum, &all, &absent);

    assert_eq!(res.total_seats, 5);
    assert_eq!(res.present_count, 5);
    assert_eq!(res.quorum_limit, 3);
    assert_eq!(res.groups.len(), 1);
    assert!(res.impossible.is_empty());
}

#[test]
fn test_voting_logic_absence_causes_failure() {
    // Five seats, quorum 3.  Board A conflicts with P1 and P2, and P3 is
    // absent: only P4 and P5 may vote, 2 < 3, so the board is impossible.
    let fum = make_board("FUM", "24/25", vec!["P1", "P2", "P3", "P4", "P5"]);
    let b1 = make_board("StyrelseA", "23/24", vec!["P1", "P2"]);

    let all = vec![fum.clone(), b1];
    let absent = vec!["P3".to_string()];

    let res = analyze_voting_groups(&fum, &all, &absent);

    assert_eq!(res.present_count, 4);
    assert_eq!(res.groups.len(), 0);
    assert_eq!(res.impossible.len(), 1);
    assert_eq!(res.impossible[0].name, "StyrelseA");
}

#[test]
fn test_voting_logic_conflicted_person_is_absent() {
    // Five seats, quorum 3.  Board A conflicts with P1 and P2, but P1 is
    // absent anyway: P3, P4 and P5 may vote, 3 >= 3, so it works.
    let fum = make_board("FUM", "24/25", vec!["P1", "P2", "P3", "P4", "P5"]);
    let b1 = make_board("StyrelseA", "23/24", vec!["P1", "P2"]);

    let all = vec![fum.clone(), b1];
    let absent = vec!["P1".to_string()];

    let res = analyze_voting_groups(&fum, &all, &absent);

    assert_eq!(res.present_count, 4);
    assert_eq!(res.groups.len(), 1);
    assert!(res.impossible.is_empty());
}

#[test]
fn test_voting_logic_grouping_split_by_absence() {
    // Five seats {A..E}, quorum 3.  B1 conflicts {A}, B2 conflicts {B}.
    // With everyone present the union {A,B} still leaves 3 voters: one
    // group.  With C absent the union leaves only 2: the boards must be
    // decided in two separate groups.
    let fum = make_board("FUM", "24/25", vec!["A", "B", "C", "D", "E"]);
    let b1 = make_board("B1", "23/24", vec!["A"]);
    let b2 = make_board("B2", "23/24", vec!["B"]);
    let all = vec![fum.clone(), b1, b2];

    let res1 = analyze_voting_groups(&fum, &all, &Vec::new());
    assert_eq!(res1.groups.len(), 1);

    let absent = vec!["C".to_string()];
    let res2 = analyze_voting_groups(&fum, &all, &absent);

    assert_eq!(res2.groups.len(), 2);
}
