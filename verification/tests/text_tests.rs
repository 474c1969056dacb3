use containtment_check::config::{
    apply_fuzzy_corrections, eq_ignore_ascii_case, find_voting_board, get_previous_year,
    i32_to_string, parse_i32, process_absences, str_lex_lt,
};
use containtment_check::parser::{add_parsed_board, find_year_span, parse_members_multiline};
use containtment_check::types::{Board, Member};

fn make_board(name: &str, year: &str, member_names: Vec<&str>) -> Board {
    Board {
        name: name.to_string(),
        year: year.to_string(),
        members: member_names
            .into_iter()
            .map(|n| Member {
                position: "Ledamot".to_string(),
                name: n.to_string(),
            })
            .collect(),
    }
}

#[test]
fn members_parse_position_and_name() {
    let text = "Ordförande: Anna Andersson\nLedamot: Bo Berg";
    let ms = parse_members_multiline(text);
    assert_eq!(ms.len(), 2);
    assert_eq!(ms[0].position, "Ordförande");
    assert_eq!(ms[0].name, "Anna Andersson");
    assert_eq!(ms[1].position, "Ledamot");
    assert_eq!(ms[1].name, "Bo Berg");
}

#[test]
fn members_parse_joins_continuation_lines() {
    let text = "Ordförande: Anna\nAndersson\nLedamot: Bo Berg";
    let ms = parse_members_multiline(text);
    assert_eq!(ms.len(), 2);
    assert_eq!(ms[0].name, "Anna Andersson");
}

#[test]
fn members_parse_name_on_next_line() {
    let text = "Ordförande:\nAnna Andersson";
    let ms = parse_members_multiline(text);
    assert_eq!(ms.len(), 1);
    assert_eq!(ms[0].position, "Ordförande");
    assert_eq!(ms[0].name, "Anna Andersson");
}

#[test]
fn members_parse_trims_whitespace() {
    let text = "  Ordförande :  Anna Andersson  \n";
    let ms = parse_members_multiline(text);
    assert_eq!(ms.len(), 1);
    assert_eq!(ms[0].position, "Ordförande");
    assert_eq!(ms[0].name, "Anna Andersson");
}

#[test]
fn members_parse_skips_empty_position_and_blank_lines() {
    let text = "\n: NoPosition\nLedamot: Bo\n\n";
    let ms = parse_members_multiline(text);
    assert_eq!(ms.len(), 1);
    assert_eq!(ms[0].name, "Bo");
}

#[test]
fn members_parse_handles_crlf() {
    let text = "Ledamot: Anna\r\nLedamot: Bo\r\n";
    let ms = parse_members_multiline(text);
    assert_eq!(ms.len(), 2);
    assert_eq!(ms[0].name, "Anna");
    assert_eq!(ms[1].name, "Bo");
}

#[test]
fn parsed_boards_keep_first_per_name_and_year() {
    let mut boards: Vec<Board> = Vec::new();
    add_parsed_board(&mut boards, make_board("Styrelse", "23/24", vec!["A"]));
    add_parsed_board(&mut boards, make_board("Styrelse", "23/24", vec!["B"]));
    add_parsed_board(&mut boards, make_board("Styrelse", "22/23", vec!["C"]));
    add_parsed_board(&mut boards, make_board("Utskott", "23/24", vec![]));
    assert_eq!(boards.len(), 2);
    assert_eq!(boards[0].members[0].name, "A");
    assert_eq!(boards[1].year, "22/23");
}

#[test]
fn year_span_found_in_heading() {
    let text = "Förtroendevalda verksamhetsåret 2024/2025 vid högskolan";
    assert_eq!(find_year_span(text), Some("2024/2025".to_string()));
}

#[test]
fn year_span_takes_first_match() {
    let text = "2023/2024 och 2024/2025";
    assert_eq!(find_year_span(text), Some("2023/2024".to_string()));
}

#[test]
fn year_span_absent() {
    assert_eq!(find_year_span("inga årtal här 2024"), None);
}

#[test]
fn previous_year_of_short_form() {
    assert_eq!(get_previous_year("24/25"), Ok("23/24".to_string()));
}

#[test]
fn previous_year_of_full_form() {
    assert_eq!(get_previous_year("2024/2025"), Ok("2023/2024".to_string()));
}

#[test]
fn previous_year_rejects_bad_format() {
    assert_eq!(
        get_previous_year("2024"),
        Err("Fel format på årtal".to_string())
    );
    assert_eq!(
        get_previous_year("24/25/26"),
        Err("Fel format på årtal".to_string())
    );
}

#[test]
fn previous_year_rejects_bad_numbers() {
    assert_eq!(get_previous_year("abc/25"), Err("Fel startår".to_string()));
    assert_eq!(get_previous_year("24/abc"), Err("Fel slutår".to_string()));
}

#[test]
fn parse_i32_reads_signs_and_rejects_overflow() {
    assert_eq!(parse_i32("42"), Some(42));
    assert_eq!(parse_i32("-7"), Some(-7));
    assert_eq!(parse_i32("+7"), Some(7));
    assert_eq!(parse_i32("007"), Some(7));
    assert_eq!(parse_i32(""), None);
    assert_eq!(parse_i32("4x2"), None);
    assert_eq!(parse_i32("2147483647"), Some(i32::MAX));
    assert_eq!(parse_i32("2147483648"), None);
    assert_eq!(parse_i32("-2147483648"), Some(i32::MIN));
    assert_eq!(parse_i32("-2147483649"), None);
}

#[test]
fn i32_formatting_matches_std() {
    for v in [0, 7, -5, 120, -2043, i32::MAX, i32::MIN] {
        assert_eq!(i32_to_string(v), v.to_string());
    }
}

#[test]
fn lex_order_on_years() {
    assert!(str_lex_lt("23/24", "24/25"));
    assert!(!str_lex_lt("24/25", "24/25"));
    assert!(!str_lex_lt("24/25", "23/24"));
}

#[test]
fn ascii_case_insensitive_equality() {
    assert!(eq_ignore_ascii_case("Anna", "aNNA"));
    assert!(!eq_ignore_ascii_case("Anna", "Annika"));
}

#[test]
fn voting_board_by_requested_year() {
    let boards = vec![
        make_board("FUM", "23/24", vec!["A"]),
        make_board("FUM", "24/25", vec!["B"]),
        make_board("Annan", "24/25", vec!["C"]),
    ];
    let year = "23/24".to_string();
    let found = find_voting_board(&boards, &"FUM".to_string(), Some(&year)).unwrap();
    assert_eq!(found.year, "23/24");
    let missing = find_voting_board(&boards, &"FUM".to_string(), Some(&"19/20".to_string()));
    assert!(missing.is_none());
}

#[test]
fn voting_board_defaults_to_latest_year() {
    let boards = vec![
        make_board("FUM", "23/24", vec!["A"]),
        make_board("FUM", "24/25", vec!["B"]),
        make_board("FUM", "22/23", vec!["C"]),
    ];
    let found = find_voting_board(&boards, &"FUM".to_string(), None).unwrap();
    assert_eq!(found.year, "24/25");
    assert!(find_voting_board(&boards, &"Saknas".to_string(), None).is_none());
}

#[test]
fn absences_resolve_to_roster_spelling() {
    let valid = vec!["Anna Andersson".to_string(), "Bo Berg".to_string()];
    let requested = vec![" anna andersson ".to_string(), "Okänd".to_string()];
    let (resolved, unknown) = process_absences(&valid, &requested);
    assert_eq!(resolved, vec!["Anna Andersson".to_string()]);
    assert_eq!(unknown, vec!["Okänd".to_string()]);
}

#[test]
fn absences_are_not_repeated() {
    let valid = vec!["Anna".to_string()];
    let requested = vec!["anna".to_string(), "ANNA".to_string()];
    let (resolved, unknown) = process_absences(&valid, &requested);
    assert_eq!(resolved, vec!["Anna".to_string()]);
    assert!(unknown.is_empty());
}

#[test]
fn fuzzy_correction_rewrites_close_misspelling() {
    let mut boards = vec![make_board("Styrelse", "23/24", vec!["Anna Andersson"])];
    boards[0].members[0].name = "Anna Anderson".to_string(); // one letter off
    let roster = vec!["Anna Andersson".to_string()];
    let corrections =
        apply_fuzzy_corrections(&mut boards, &roster, &"23/24".to_string(), 3);
    assert_eq!(corrections.len(), 1);
    assert_eq!(corrections[0].found, "Anna Anderson");
    assert_eq!(corrections[0].corrected, "Anna Andersson");
    assert_eq!(corrections[0].distance, 1);
    assert_eq!(boards[0].members[0].name, "Anna Andersson");
}

#[test]
fn fuzzy_correction_compares_lowercased() {
    // Plainly compared, "Annaa Berg" is four edits from "ANNA BERG" and
    // would stay; lowercased it is one edit away and is corrected.
    let mut boards = vec![make_board("Styrelse", "23/24", vec!["Annaa Berg"])];
    let roster = vec!["ANNA BERG".to_string()];
    let corrections =
        apply_fuzzy_corrections(&mut boards, &roster, &"23/24".to_string(), 3);
    assert_eq!(corrections.len(), 1);
    assert_eq!(boards[0].members[0].name, "ANNA BERG");
}

#[test]
fn fuzzy_correction_leaves_case_variants_alone() {
    let mut boards = vec![make_board("Styrelse", "23/24", vec!["anna andersson"])];
    let roster = vec!["Anna Andersson".to_string()];
    let corrections =
        apply_fuzzy_corrections(&mut boards, &roster, &"23/24".to_string(), 3);
    assert!(corrections.is_empty());
    assert_eq!(boards[0].members[0].name, "anna andersson");
}

#[test]
fn fuzzy_correction_respects_threshold_and_year() {
    let mut boards = vec![
        make_board("Styrelse", "23/24", vec!["Xyz Qrs"]),
        make_board("Styrelse", "22/23", vec!["Anna Anderson"]),
    ];
    let roster = vec!["Anna Andersson".to_string()];
    let corrections =
        apply_fuzzy_corrections(&mut boards, &roster, &"23/24".to_string(), 3);
    // "Xyz Qrs" is far beyond the threshold; the other board is from
    // another year and is never touched.
    assert!(corrections.is_empty());
    assert_eq!(boards[0].members[0].name, "Xyz Qrs");
    assert_eq!(boards[1].members[0].name, "Anna Anderson");
}
