use sqbs::models::{Game, Player, PlayerScore, Team, TeamScore, Tournament};
use sqbs::sqbs_format::{write_sqbs, Setting, SqbsError, SqbsParser};
use sqbs::text::IntErrorKind;

fn round_trip(t: &Tournament) -> Tournament {
    let text = write_sqbs(t);
    SqbsParser::new(text).parse().expect("parse failed")
}

fn parse_text(text: &str) -> Result<Tournament, SqbsError> {
    SqbsParser::new(text.to_string()).parse()
}

fn minimal() -> Tournament {
    let mut t = Tournament::default();
    t.name = "My Tournament".to_string();
    t.reports.base_name = "mytest".to_string();
    t.teams = vec![
        Team { name: "Alpha".to_string(), players: vec![Player { name: "Alice".to_string() }], division: None, exhibition: false, manual_rank: 0 },
        Team { name: "Beta".to_string(), players: vec![Player { name: "Bob".to_string() }], division: None, exhibition: false, manual_rank: 0 },
    ];
    t
}

fn with_game() -> Tournament {
    let mut t = minimal();
    let mut ps_a: Vec<Option<PlayerScore>> = vec![
        Some(PlayerScore { player_index: 0, gp: "1.00".to_string(), q: [1, 0, 2, 0], points: 40 }),
    ];
    let mut ps_b: Vec<Option<PlayerScore>> = vec![
        Some(PlayerScore { player_index: 0, gp: "0.50".to_string(), q: [0, 0, 1, 1], points: 5 }),
    ];
    while ps_a.len() < 8 { ps_a.push(None); }
    while ps_b.len() < 8 { ps_b.push(None); }
    t.games.push(Game {
        game_index: "1".to_string(), round: 3, tossups_heard: 20,
        overtime: true, forfeit: false,
        team_a: TeamScore { team_index: 0, total_points: 100, bonus_heard: 5, bonus_points: 30, bb_heard: 2, bb_points: 15, ot_gets: 1, lightning_points: 0, player_scores: ps_a },
        team_b: TeamScore { team_index: 1, total_points: 55, bonus_heard: 3, bonus_points: 20, bb_heard: 0, bb_points: 0, ot_gets: 0, lightning_points: 0, player_scores: ps_b },
    });
    t
}

#[test]
fn round_trip_team_and_player_names() {
    let t2 = round_trip(&minimal());
    assert_eq!(t2.teams[0].name, "Alpha");
    assert_eq!(t2.teams[1].players[0].name, "Bob");
}

#[test]
fn round_trip_tournament_name_and_base_name() {
    let t2 = round_trip(&minimal());
    assert_eq!(t2.name, "My Tournament");
    assert_eq!(t2.reports.base_name, "mytest");
}

#[test]
fn round_trip_per_report_enables() {
    let mut t = minimal();
    t.reports.include_rounds = false;
    t.reports.include_stat_key = false;
    t.reports.british_style = true;
    let t2 = round_trip(&t);
    assert!(!t2.reports.include_rounds);
    assert!(!t2.reports.include_stat_key);
    assert!(t2.reports.british_style);
    assert!(t2.reports.include_standings);
}

#[test]
fn round_trip_game_scalars() {
    let t2 = round_trip(&with_game());
    let g = &t2.games[0];
    assert_eq!(g.round, 3);
    assert!(g.overtime);
    assert_eq!(g.team_a.total_points, 100);
}

#[test]
fn round_trip_player_scores() {
    let t2 = round_trip(&with_game());
    let ps = t2.games[0].team_a.player_scores[0].as_ref().unwrap();
    assert_eq!(ps.q, [1, 0, 2, 0]);
    assert!(t2.games[0].team_a.player_scores[1].is_none());
}

#[test]
fn round_trip_bounceback_encoding() {
    let t2 = round_trip(&with_game());
    assert_eq!(t2.games[0].team_a.bb_heard, 2);
    assert_eq!(t2.games[0].team_a.bb_points, 15);
}

#[test]
fn round_trip_scoring_settings() {
    let mut t = minimal();
    t.scoring.q_values = [20, 15, 10, -5];
    t.scoring.q_enabled = [true, true, true, true];
    t.scoring.auto_track = 3;
    let t2 = round_trip(&t);
    assert_eq!(t2.scoring.q_values, [20, 15, 10, -5]);
    assert_eq!(t2.scoring.q_enabled, [true, true, true, true]);
    assert!(t2.bouncebacks_enabled());
}

#[test]
fn round_trip_disabled_q_value() {
    let mut t = minimal();
    t.scoring.q_values = [20, 15, 10, -5];
    t.scoring.q_enabled = [true, false, true, true];
    let t2 = round_trip(&t);
    assert!(t2.scoring.q_enabled[0]);
    assert!(!t2.scoring.q_enabled[1]);
}

#[test]
fn round_trip_sort_method_and_warn_flags() {
    let mut t = minimal();
    t.sort_method = 3;
    t.warn_flags = 0b0111_1110;
    let t2 = round_trip(&t);
    assert_eq!(t2.sort_method, 3);
    assert_eq!(t2.warn_flags, 0b0111_1110);
}

#[test]
fn round_trip_packets() {
    let mut t = with_game();
    t.packets.insert(3, "Packet Gamma".to_string());
    let t2 = round_trip(&t);
    assert_eq!(t2.packets.get(&3).map(|s| s.as_str()), Some("Packet Gamma"));
}

#[test]
fn round_trip_divisions() {
    let mut t = minimal();
    t.uses_divisions = true;
    t.divisions = vec!["East".to_string(), "West".to_string()];
    t.teams[0].division = Some("East".to_string());
    t.teams[1].division = Some("West".to_string());
    let t2 = round_trip(&t);
    assert_eq!(t2.teams[0].division.as_deref(), Some("East"));
    assert_eq!(t2.teams[1].division.as_deref(), Some("West"));
}

#[test]
fn round_trip_exhibition() {
    let mut t = minimal();
    t.teams[1].exhibition = true;
    let t2 = round_trip(&t);
    assert!(!t2.teams[0].exhibition);
    assert!(t2.teams[1].exhibition);
}

#[test]
fn round_trip_sort_by_ppg() {
    let mut t = minimal();
    t.scoring.sort_by_ppg = true;
    let t2 = round_trip(&t);
    assert!(t2.scoring.sort_by_ppg);

    let mut t3 = minimal();
    t3.scoring.sort_by_ppg = false;
    let t4 = round_trip(&t3);
    assert!(!t4.scoring.sort_by_ppg);
}

#[test]
fn empty_tournament_round_trips() {
    let t2 = round_trip(&Tournament::default());
    assert_eq!(t2.teams.len(), 0);
    assert_eq!(t2.games.len(), 0);
}

#[test]
fn round_trip_manual_rank_overrides() {
    let mut t = minimal();
    t.teams[1].manual_rank = 1;
    let t2 = round_trip(&t);
    assert_eq!(t2.teams[0].manual_rank, 0);
    assert_eq!(t2.teams[1].manual_rank, 1);
}

#[test]
fn no_manual_ranks_block_when_no_overrides() {
    let text = write_sqbs(&minimal());
    assert!(!text.contains("SQBSMANUALRANKS"));
}

#[test]
fn legacy_file_without_marker_still_parses() {
    let text = write_sqbs(&with_game());
    let t = SqbsParser::new(text).parse().expect("parse failed");
    assert!(t.teams.iter().all(|team| team.manual_rank == 0));
    assert_eq!(t.games.len(), 1);
}

#[test]
fn written_text_of_a_minimal_tournament() {
    let text = write_sqbs(&minimal());
    let lines: Vec<&str> = text.lines().collect();
    assert_eq!(&lines[..7], &["2", "2", "Alpha", "Alice", "2", "Beta", "Bob"]);
    assert_eq!(lines[7], "0");
    assert_eq!(&lines[8..15], &["1", "1", "3", "0", "1", "2", "126"]);
    assert_eq!(lines[25], "My Tournament");
    assert_eq!(&lines[26..29], &["", "", ""]);
    assert_eq!(lines[29], "mytest");
    assert!(text.ends_with("2\n0\n0\n"));
}

#[test]
fn game_gets_129_lines_and_bonus_codes() {
    let with = write_sqbs(&with_game());
    let without = write_sqbs(&minimal());
    assert_eq!(with.lines().count(), without.lines().count() + 129);
    let lines: Vec<&str> = with.lines().collect();
    // teams take 7 lines, then the game count, then the game
    assert_eq!(lines[7], "1");
    assert_eq!(lines[15], "20005");
    assert_eq!(lines[16], "150030");
    assert_eq!(lines[17], "3");
    assert_eq!(lines[18], "20");
}

#[test]
fn parse_reads_a_windows_file_with_crlf() {
    let text = write_sqbs(&minimal()).replace('\n', "\r\n");
    let t = parse_text(&text).expect("parse failed");
    assert_eq!(t.teams[0].name, "Alpha");
    assert_eq!(t.name, "My Tournament");
}

#[test]
fn max_players_grows_with_the_largest_roster() {
    let mut t = minimal();
    t.teams[0].players = (0..9).map(|i| Player { name: format!("P{i}") }).collect();
    let t2 = round_trip(&t);
    assert_eq!(t2.max_players_per_team, 9);
    assert_eq!(round_trip(&minimal()).max_players_per_team, 6);
}

#[test]
fn negative_bonus_codes_split_toward_zero() {
    let mut t = with_game();
    t.games[0].team_b.bonus_heard = -3;
    t.games[0].team_b.bb_heard = -2;
    let t2 = round_trip(&t);
    assert_eq!(t2.games[0].team_b.bonus_heard, -3);
    assert_eq!(t2.games[0].team_b.bb_heard, -2);
}

#[test]
fn unknown_division_names_are_dropped() {
    let mut t = minimal();
    t.uses_divisions = true;
    t.divisions = vec!["East".to_string()];
    t.teams[0].division = Some("North".to_string());
    t.teams[1].division = Some("East".to_string());
    let t2 = round_trip(&t);
    assert_eq!(t2.teams[0].division, None);
    assert_eq!(t2.teams[1].division.as_deref(), Some("East"));
}

#[test]
fn missing_packet_rounds_read_back_as_dashes() {
    let mut t = with_game();
    let mut g = t.games[0].clone();
    g.round = 5;
    t.games.push(g);
    t.packets.insert(3, "Three".to_string());
    let t2 = round_trip(&t);
    assert_eq!(t2.packets.get(&3).map(|s| s.as_str()), Some("Three"));
    assert_eq!(t2.packets.get(&4).map(|s| s.as_str()), Some("-"));
    assert_eq!(t2.packets.get(&5).map(|s| s.as_str()), Some("-"));
    assert_eq!(t2.packets.len(), 3);
}

#[test]
fn error_empty_file_is_eof() {
    let e = parse_text("").unwrap_err();
    assert!(matches!(e, SqbsError::UnexpectedEof));
    assert_eq!(e.message(), "EOF");
}

#[test]
fn error_bad_integer() {
    let e = parse_text("two\n").unwrap_err();
    assert!(matches!(e, SqbsError::InvalidInt(IntErrorKind::InvalidDigit)));
    assert_eq!(e.message(), "invalid digit found in string");
    let e = parse_text("\n").unwrap_err();
    assert!(matches!(e, SqbsError::InvalidInt(IntErrorKind::Empty)));
    assert_eq!(e.message(), "cannot parse integer from empty string");
    let e = parse_text("99999999999999999999\n").unwrap_err();
    assert!(matches!(e, SqbsError::InvalidInt(IntErrorKind::PosOverflow)));
}

#[test]
fn error_team_count_out_of_range() {
    let e = parse_text("101\n").unwrap_err();
    assert!(matches!(e, SqbsError::InvalidTeamCount(101)));
    assert_eq!(e.message(), "invalid team count: 101");
    let e = parse_text(" -1 \n").unwrap_err();
    assert_eq!(e.message(), "invalid team count: -1");
}

#[test]
fn error_member_count_out_of_range() {
    let e = parse_text("1\n0\nAlpha\n").unwrap_err();
    assert!(matches!(e, SqbsError::MemberCountOutOfRange(0)));
    assert_eq!(e.message(), "member count 0 out of range (1\u{2013}100)");
}

#[test]
fn error_game_count_out_of_range() {
    let e = parse_text("0\n10001\n").unwrap_err();
    assert!(matches!(e, SqbsError::GameCountOutOfRange(10001)));
    assert_eq!(e.message(), "game count 10001 out of range (0\u{2013}10000)");
}

#[test]
fn error_negative_team_index() {
    let e = parse_text("0\n1\nG7\n-1\n0\n").unwrap_err();
    assert_eq!(e.message(), "invalid team indices in game 'G7': -1, 0");
}

#[test]
fn error_team_index_past_the_teams() {
    let mut t = with_game();
    t.games[0].team_b.team_index = 5;
    let e = parse_text(&write_sqbs(&t)).unwrap_err();
    assert!(matches!(e, SqbsError::TeamIndexOutOfRange { team_a: 0, team_b: 5, teams: 2, .. }));
    assert_eq!(e.message(), "game '1' references out-of-range team index (a=0, b=5, teams=2)");
}

#[test]
fn error_setting_out_of_range() {
    let text = write_sqbs(&minimal());
    let mut lines: Vec<String> = text.lines().map(|s| s.to_string()).collect();
    lines[9] = "300".to_string();
    let e = parse_text(&(lines.join("\n") + "\n")).unwrap_err();
    assert!(matches!(e, SqbsError::SettingOutOfRange(Setting::AutoTrack)));
    assert_eq!(e.message(), "auto_track: out of range integral type conversion attempted");
}

#[test]
fn error_division_count_out_of_range() {
    let text = write_sqbs(&minimal());
    let mut lines: Vec<String> = text.lines().map(|s| s.to_string()).collect();
    lines[39] = "51".to_string();
    let e = parse_text(&(lines.join("\n") + "\n")).unwrap_err();
    assert!(matches!(e, SqbsError::DivisionCountOutOfRange(51)));
    assert_eq!(e.message(), "division count 51 out of range (0\u{2013}50)");
}

#[test]
fn error_too_many_lines() {
    let text = "0\n".repeat(100_001);
    let e = parse_text(&text).unwrap_err();
    assert!(matches!(e, SqbsError::TooManyLines));
    assert_eq!(e.message(), "file exceeds maximum line limit of 100000");
}

#[test]
fn truncated_file_is_eof() {
    let text = write_sqbs(&minimal());
    let cut: String = text.lines().take(30).map(|l| format!("{l}\n")).collect();
    assert!(matches!(parse_text(&cut).unwrap_err(), SqbsError::UnexpectedEof));
}

#[test]
fn parser_reads_lines_and_integers() {
    let mut p = SqbsParser::new(" 42 \nname\r\nx\n".to_string());
    p.load_lines().expect("load");
    assert_eq!(p.next_int().unwrap(), 42);
    assert_eq!(p.next_line().unwrap(), "name");
    assert!(matches!(p.next_int(), Err(SqbsError::InvalidInt(IntErrorKind::InvalidDigit))));
    assert!(matches!(p.next_line(), Err(SqbsError::UnexpectedEof)));
}
