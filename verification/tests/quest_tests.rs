use quests::grid::Grid;
use quests::position::Position;
use quests::quest07::Action;
use quests::quest07::Plan;

#[test]
fn grid_get_and_iter() {
    let g = Grid::new(vec![vec!['A', 'B'], vec!['C', 'D']]);
    assert_eq!(g.get(&Position::new(0, 1)), Some(&'B'));
    assert_eq!(g.get(&Position::new(2, 0)), None);
    let cells = g.iter();
    let expected = vec![
        (Position::new(0, 0), 'A'),
        (Position::new(0, 1), 'B'),
        (Position::new(1, 0), 'C'),
        (Position::new(1, 1), 'D'),
    ];
    assert_eq!(cells, expected);
}

#[test]
fn grid_put_in_and_out_of_bounds() {
    let mut g = Grid::new(vec![vec!['A', 'B'], vec!['C', 'D']]);
    assert!(g.put(&Position::new(1, 0), 'X'));
    assert_eq!(g.get(&Position::new(1, 0)), Some(&'X'));
    assert!(!g.put(&Position::new(2, 0), 'Y'));
    assert_eq!(g.get(&Position::new(0, 0)), Some(&'A'));
    assert_eq!(g.get(&Position::new(0, 1)), Some(&'B'));
    assert_eq!(g.get(&Position::new(1, 1)), Some(&'D'));
}

#[test]
fn grid_get_mut_updates_cell() {
    let mut g = Grid::new(vec![vec![1u8, 2], vec![3, 4]]);
    if let Some(cell) = g.get_mut(&Position::new(0, 1)) {
        *cell = 9;
    }
    assert_eq!(g.get(&Position::new(0, 1)), Some(&9));
    assert!(g.get_mut(&Position::new(5, 5)).is_none());
}

#[test]
fn grid_from_text() {
    let g = Grid::from_text(b"AB\nCD").unwrap();
    assert_eq!(g.height(), 2);
    assert_eq!(g.width(), 2);
    assert_eq!(g.get(&Position::new(1, 1)), Some(&b'D'));
    assert!(Grid::from_text(b"").is_none());
}

#[test]
fn creature_scores() {
    let input = b"ABBCCCDxABBCCCDxABBCCCDx";
    assert_eq!(quests::quest01::part1(input), Some(33));
    assert_eq!(quests::quest01::part2(input), Some(66));
    assert_eq!(quests::quest01::part3(input), Some(84));
}

#[test]
fn creature_scores_empty() {
    assert_eq!(quests::quest01::part1(b""), Some(0));
    assert_eq!(quests::quest01::part2(b""), Some(0));
    assert_eq!(quests::quest01::part3(b""), Some(0));
}

#[test]
fn runes_in_last_line() {
    let input = b"WORDS:THE,OWE,MES,ROD,HER\n\nAWAKEN THE POWER ADORNED WITH THE FLAMES BRIGHT IRE";
    assert_eq!(quests::quest02::part1(input), Some(4));
}

#[test]
fn runes_marked_both_ways() {
    let input = b"WORDS:THE,OWE,MES,ROD,HER\n\nTHE FLAME SHIELDED THE HEART OF THE KINGS\nPOWE PO WER P OWE R\nTHERE IS THE END";
    assert_eq!(quests::quest02::part2(input), Some(22));
}

#[test]
fn runes_in_grid() {
    let input = b"WORDS:THE,OWE,MES,ROD,RODEO\n\nHELWORLT\nENIGWDXL\nTRODEOAL";
    assert_eq!(quests::quest02::part3(input), Some(10));
}

#[test]
fn runes_without_words_line() {
    assert_eq!(quests::quest02::part1(b"ABC\nDEF"), None);
    assert_eq!(quests::quest02::part2(b"ABC\nDEF"), None);
    assert_eq!(quests::quest02::part3(b"ABC\nDEF"), None);
}

#[test]
fn terrain_cross_digs_to_35() {
    let input = b"..........\n..###.##..\n...####...\n..######..\n..######..\n...####...\n..........";
    assert_eq!(quests::quest03::part1and2(input), Some(35));
}

#[test]
fn terrain_all_digs_to_29() {
    let input = b"..........\n..###.##..\n...####...\n..######..\n..######..\n...####...\n..........";
    assert_eq!(quests::quest03::part3(input), Some(29));
}

#[test]
fn terrain_refuses_bad_input() {
    assert_eq!(quests::quest03::part1and2(b""), None);
    assert_eq!(quests::quest03::part1and2(b"..#\n.."), None);
    assert_eq!(quests::quest03::part1and2(b"..X"), None);
}

#[test]
fn nails_to_smallest() {
    let input = b"1\n2\n3\n4\n5\n6\n7\n9";
    assert_eq!(quests::quest04::part1and2(input), Some(29));
}

#[test]
fn nails_near_average() {
    let input = b"1\n2\n3\n4\n5\n6\n7\n9";
    assert_eq!(quests::quest04::part3(input), Some(17));
}

#[test]
fn nails_refuse_bad_line() {
    assert_eq!(quests::quest04::part1and2(b"1\nx\n3"), None);
    assert_eq!(quests::quest04::part1and2(b""), None);
}

#[test]
fn clapper_dance_ten_rounds() {
    let input = b"2 3 4 5\n3 4 5 2\n4 5 2 3\n5 2 3 4";
    assert_eq!(quests::quest05::part1(input), Some(String::from("2323")));
}

#[test]
fn clapper_dance_repeated_round() {
    let input = b"2 3 4 5\n3 4 5 2\n4 5 2 3\n5 2 3 4";
    assert_eq!(quests::quest05::part2(input), Some(22579964));
}

#[test]
fn clapper_dance_highest_front() {
    let input = b"2 3 4 5\n3 4 5 2\n4 5 2 3\n5 2 3 4";
    assert_eq!(quests::quest05::part3(input), Some(5332));
}

#[test]
fn clapper_dance_refuses_empty() {
    assert_eq!(quests::quest05::part1(b""), None);
}

#[test]
fn tree_unique_path_full() {
    let input = b"RR:A,B,C\nA:D,E\nB:F,@\nC:G,H\nD:@\nE:@\nF:@\nG:@\nH:@";
    assert_eq!(quests::quest06::part1(input), Some(String::from("RRB@")));
}

#[test]
fn tree_unique_path_short() {
    let input = b"RR:A,B,C\nA:D,E\nB:F,@\nC:G,H\nD:@\nE:@\nF:@\nG:@\nH:@";
    assert_eq!(quests::quest06::part2and3(input), Some(String::from("RB@")));
}

#[test]
fn tree_passes_over_bugs_and_ants() {
    let input = b"RR:A,B,C\nBUG:X,Y\nA:D,E,BUG\nB:F,@,ANT\nC:G,H\nD:@\nE:@\nF:@\nG:@\nH:@";
    assert_eq!(quests::quest06::part1(input), Some(String::from("RRB@")));
}

#[test]
fn tree_refuses_missing_colon() {
    assert_eq!(quests::quest06::part1(b"RR A,B"), None);
}

#[test]
fn plans_ranked_by_worth() {
    let input = b"A:+,-,=,=\nB:+,=,-,+\nC:=,-,+,+\nD:=,=,=,+";
    assert_eq!(quests::quest07::part1(input), Some(String::from("BDCA")));
}

#[test]
fn plans_ranked_on_track() {
    let input = b"A:+,-,=,=\nB:+,=,-,+\nC:=,-,+,+\nD:=,=,=,+";
    let track = b"S+=\n+ -\n==+";
    assert_eq!(
        quests::quest07::part2(input, track),
        Some(String::from("BDAC"))
    );
}

#[test]
fn plan_parse_and_value() {
    let plan = Plan::new(b"A:+,-,=,=").unwrap();
    assert_eq!(plan.id, b'A');
    assert_eq!(
        plan.actions,
        vec![Action::Plus, Action::Minus, Action::Equal, Action::Equal]
    );
    // powers: 11 10 10 10 | 11 10 10 10 | 11 10
    assert_eq!(plan.value(10, 10), Some(103));
    assert!(Plan::new(b"missing colon").is_none());
    assert!(Plan::new(b"A:+,?").is_none());
}

#[test]
fn plan_value_zero_steps() {
    let empty = Plan { actions: vec![], id: b'Z' };
    assert_eq!(empty.value(10, 0), Some(0));
    assert_eq!(empty.value(10, 3), None);
    let plan = Plan::new(b"A:+").unwrap();
    assert_eq!(plan.value(10, 0), Some(0));
}

#[test]
fn plan_empty_on_deferring_track() {
    let empty = Plan { actions: vec![], id: b'Z' };
    let steady = vec![Action::Plus, Action::Minus];
    // powers 11 10 11 10 over two laps
    assert_eq!(empty.value_on_track(10, &steady, 2), Some(42));
    let deferring = vec![Action::Plus, Action::Equal];
    assert_eq!(empty.value_on_track(10, &deferring, 1), None);
}

#[test]
fn terrain_increment_is_gentle() {
    let mut m = quests::quest03::TerrainMap::new(b"#.
.#").unwrap();
    assert_eq!(m.at(0, 0), Some(1));
    m.increment(0, 0);
    assert_eq!(m.at(0, 0), Some(2));
    m.increment(0, 1); // bare soil: unchanged
    assert_eq!(m.at(0, 1), None);
    m.increment(9, 9); // outside: unchanged
    assert_eq!(m.at(0, 0), Some(2));
    assert_eq!(m.at(1, 1), Some(1));
}

#[test]
fn plan_arrangements_are_distinct_and_ordered() {
    let plans = Plan::permutations(1, 1, 0);
    assert_eq!(plans.len(), 2);
    assert_eq!(plans[0].actions, vec![Action::Plus, Action::Minus]);
    assert_eq!(plans[1].actions, vec![Action::Minus, Action::Plus]);
    assert_eq!(plans[0].id, b'A');
    assert_eq!(plans[1].id, b'B');
    let plans221 = Plan::permutations(2, 2, 1);
    // 5! / (2! 2! 1!) distinct arrangements
    assert_eq!(plans221.len(), 30);
    assert_eq!(
        plans221[0].actions,
        vec![Action::Plus, Action::Plus, Action::Minus, Action::Minus, Action::Equal]
    );
}

#[test]
fn track_actions_one_lap() {
    let track = b"S+=\n+ -\n==+";
    let actions = quests::quest07::parse_track_actions(track).unwrap();
    assert_eq!(
        actions,
        vec![
            Action::Plus,
            Action::Equal,
            Action::Minus,
            Action::Plus,
            Action::Equal,
            Action::Equal,
            Action::Plus,
            Action::Equal,
        ]
    );
}

#[test]
fn shrine_first_tier() {
    assert_eq!(quests::quest08::part1(b"13"), Some(21));
}

#[test]
fn shrine_second_tier() {
    assert_eq!(quests::quest08::part2(b"3", 5, 50), Some(27));
}

#[test]
fn shrine_third_tier() {
    assert_eq!(quests::quest08::part3(b"2", 5, 160), Some(2));
}

#[test]
fn shrine_refuses_bad_number() {
    assert_eq!(quests::quest08::part1(b"13\n"), None);
    assert_eq!(quests::quest08::part2(b"x", 5, 50), None);
}

#[test]
fn stamps_greedy() {
    assert_eq!(quests::quest09::part1(b"2 9 11"), Some(7));
    assert_eq!(quests::quest09::part1(b"10\n5\n3\n1\n28"), Some(8));
}

#[test]
fn stamps_greedy_total_of_ten() {
    let input = b"10 10 10 10 10 10 10 10 10 10";
    assert_eq!(quests::quest09::part1(input), Some(10));
}

#[test]
fn stamps_least_total_of_ten() {
    let input = b"30 30 30 30 30 30 30 30 30 30";
    assert_eq!(quests::quest09::part2(input), Some(10));
}

#[test]
fn stamps_least_count_matches_hand_checked() {
    let stamps = vec![1usize, 3, 5, 10, 15, 16, 20, 24, 25, 30];
    assert_eq!(quests::quest09::min_stamps(&stamps, 7), Some(3));
    assert_eq!(quests::quest09::min_stamps(&stamps, 16), Some(1));
    assert_eq!(quests::quest09::min_stamps(&stamps, 37), Some(3));
    assert_eq!(quests::quest09::min_stamps(&stamps, 50), Some(2));
    assert_eq!(quests::quest09::min_stamps(&stamps, 0), Some(0));
}

#[test]
fn stamps_least_count() {
    assert_eq!(quests::quest09::part2(b"33 41 55"), Some(6));
}

#[test]
fn stamps_split_least_count() {
    assert_eq!(quests::quest09::part3(b"156"), Some(3));
}

#[test]
fn stamps_min_never_loses_to_greedy() {
    // 28 = 10 + 10 + 5 + 3: the least count and the greedy count agree here
    let stamps = vec![10usize, 5, 3, 1];
    assert_eq!(quests::quest09::min_stamps(&stamps, 28), Some(4));
    assert_eq!(quests::quest09::part1(b"28"), Some(4));
}

#[test]
fn stamps_no_solution_reported() {
    let stamps = vec![5usize, 10];
    assert_eq!(quests::quest09::min_stamps(&stamps, 7), None);
    assert_eq!(quests::quest09::min_stamps(&stamps, 20), Some(2));
}
