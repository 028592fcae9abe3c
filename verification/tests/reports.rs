use sqbs::models::{Game, Player, PlayerScore, ReportSettings, Team, TeamScore, Tournament};
use sqbs::reports::{
    aggregate_teams, check_report_name, escape_html, gets_fit_check, gn_counts, group_players,
    player_sums, html_page, neg_slot,
    packet_label, player_records,
    pn_counts, q_cells_bold, q_cells_right, q_headers_right, q_label, q_score_inline,
    stat_key_html, validate_report_name, Nav,
};

fn make_tournament() -> Tournament {
    // Alpha 125, Beta 45 — Round 1, TUH 20
    let mut t = Tournament::default();
    t.name = "Test Tournament".to_string();
    t.scoring.q_values = [20, 15, 10, -5];
    t.track_bonuses = true;
    t.reports.base_name = "test".to_string();

    t.teams = vec![
        Team {
            name: "Alpha".to_string(),
            players: vec![Player { name: "Alice".to_string() }, Player { name: "Bob".to_string() }],
            division: None,
            exhibition: false,
            manual_rank: 0,
        },
        Team {
            name: "Beta".to_string(),
            players: vec![Player { name: "Carol".to_string() }, Player { name: "Dan".to_string() }],
            division: None,
            exhibition: false,
            manual_rank: 0,
        },
    ];

    let mut ps_a: Vec<Option<PlayerScore>> = vec![
        Some(PlayerScore { player_index: 0, gp: "1.0".to_string(), q: [1, 0, 2, 0], points: 40 }),
        Some(PlayerScore { player_index: 1, gp: "1.0".to_string(), q: [0, 0, 3, 1], points: 25 }),
    ];
    let mut ps_b: Vec<Option<PlayerScore>> = vec![
        Some(PlayerScore { player_index: 0, gp: "1.0".to_string(), q: [0, 0, 2, 0], points: 20 }),
        Some(PlayerScore { player_index: 1, gp: "1.0".to_string(), q: [0, 0, 1, 1], points: 5 }),
    ];
    while ps_a.len() < 8 { ps_a.push(None); }
    while ps_b.len() < 8 { ps_b.push(None); }

    t.games.push(Game {
        game_index: "1".to_string(),
        round: 1,
        tossups_heard: 20,
        overtime: false,
        forfeit: false,
        team_a: TeamScore {
            team_index: 0, total_points: 125,
            bonus_heard: 8, bonus_points: 60,
            bb_heard: 0, bb_points: 0,
            ot_gets: 0, lightning_points: 0,
            player_scores: ps_a,
        },
        team_b: TeamScore {
            team_index: 1, total_points: 45,
            bonus_heard: 3, bonus_points: 20,
            bb_heard: 0, bb_points: 0,
            ot_gets: 0, lightning_points: 0,
            player_scores: ps_b,
        },
    });
    t
}

fn make_nav() -> Nav {
    Nav::new("test", &ReportSettings::default())
}

#[test]
fn aggregate_wins_and_losses() {
    let agg = aggregate_teams(&make_tournament());
    assert_eq!(agg[0].wins, 1);
    assert_eq!(agg[0].losses, 0);
    assert_eq!(agg[1].wins, 0);
    assert_eq!(agg[1].losses, 1);
}

#[test]
fn aggregate_points_for_and_against() {
    let agg = aggregate_teams(&make_tournament());
    assert_eq!(agg[0].pf, 125);
    assert_eq!(agg[0].pa, 45);
    assert_eq!(agg[1].pf, 45);
    assert_eq!(agg[1].pa, 125);
}

#[test]
fn aggregate_q_values_summed() {
    let agg = aggregate_teams(&make_tournament());
    assert_eq!(agg[0].q, [1, 0, 5, 1]);
    assert_eq!(agg[1].q, [0, 0, 3, 1]);
}

#[test]
fn forfeit_excluded_from_aggregation() {
    let mut t = make_tournament();
    t.games[0].forfeit = true;
    let agg = aggregate_teams(&t);
    assert!(agg.iter().all(|a| a.games == 0 && a.wins == 0));
}

#[test]
fn aggregate_ties_bonuses_and_bad_indices() {
    let mut t = make_tournament();
    let mut g = t.games[0].clone();
    g.team_b.total_points = 125;
    t.games.push(g.clone());
    g.team_b.team_index = 7;
    t.games.push(g);
    let agg = aggregate_teams(&t);
    assert_eq!(agg[0].games, 2);
    assert_eq!(agg[0].ties, 1);
    assert_eq!(agg[1].ties, 1);
    assert_eq!(agg[0].tuh, 40);
    assert_eq!(agg[0].bh, 16);
    assert_eq!(agg[1].bp, 40);
    for a in &agg {
        assert_eq!(a.games, a.wins + a.losses + a.ties);
    }
    let wins: i32 = agg.iter().map(|a| a.wins).sum();
    let losses: i32 = agg.iter().map(|a| a.losses).sum();
    let pf: i32 = agg.iter().map(|a| a.pf).sum();
    let pa: i32 = agg.iter().map(|a| a.pa).sum();
    assert_eq!(wins, losses);
    assert_eq!(pf, pa);
}

#[test]
fn escape_html_replaces_the_four_characters() {
    assert_eq!(escape_html("A&B <c> \"d\""), "A&amp;B &lt;c&gt; &quot;d&quot;");
    assert_eq!(escape_html("plain"), "plain");
    assert_eq!(escape_html(""), "");
    assert_eq!(escape_html("&lt;"), "&amp;lt;");
}

#[test]
fn nav_links_prefix_the_base_name() {
    let nav = make_nav();
    assert_eq!(nav.standings, "test_standings.html");
    assert_eq!(nav.stat_key, "test_statkey.html");
    assert_eq!(nav.style, "");
    assert_eq!(nav.style_link(), "");
    let mut r = ReportSettings::default();
    r.style = "_style.css".to_string();
    let nav2 = Nav::new("b", &r);
    assert_eq!(nav2.style_link(), "<LINK rel=\"stylesheet\" href=\"b_style.css\">\n");
}

#[test]
fn nav_bar_lists_every_report() {
    let bar = make_nav().bar();
    assert!(bar.starts_with("<table border=0 width=100%>\n<tr>\n  <td><A HREF=test_standings.html>Standings</A></td>\n"));
    assert!(bar.contains("<td><A HREF=test_rounds.html>Round Report</A></td>"));
    assert!(bar.ends_with("<td><A HREF=test_statkey.html>Stat Key</A></td>\n</tr>\n</table>\n"));
}

#[test]
fn html_page_frames_the_body() {
    let nav = make_nav();
    let page = html_page("T", &nav, "BODY\n");
    assert_eq!(page, format!("<HTML>\n<HEAD>\n<TITLE>T</TITLE>\n\n</HEAD>\n<BODY>\n{}BODY\n</BODY>\n</HTML>\n", nav.bar()));
}

#[test]
fn q_columns_show_enabled_categories() {
    let qv = [20, 15, 10, -5];
    let en = [true, false, true, true];
    assert_eq!(q_label(&qv, &en), "20 10 -5");
    assert_eq!(q_score_inline(&[1, 7, 2, 0], &en), "1 2 0");
    assert_eq!(q_headers_right(&qv, &[false, false, true, false]), "  <td ALIGN=RIGHT><B>10</B></td>\n");
    assert_eq!(q_cells_right(&[3, 4, 5, 6], &[true, false, false, true]), "  <td ALIGN=RIGHT>3</td>\n  <td ALIGN=RIGHT>6</td>\n");
    assert_eq!(q_cells_bold(&[3, 4, 5, 6], &[false; 4]), "");
    assert_eq!(q_label(&qv, &[false; 4]), "");
}

#[test]
fn neg_slot_and_ratio_counts() {
    let qv = [20, 15, 10, -5];
    assert_eq!(neg_slot(&qv, &[true, false, true, true]), Some(3));
    assert_eq!(neg_slot(&qv, &[true, true, true, false]), None);
    assert_eq!(neg_slot(&[-10, 15, 10, -5], &[true, false, true, true]), Some(0));
    let q = [1, 0, 5, 1];
    assert_eq!(pn_counts(&q, &qv, &[true, false, true, true]), Some((1, 1)));
    assert_eq!(gn_counts(&q, &qv, &[true, false, true, true]), Some((6, 1)));
    assert_eq!(gn_counts(&q, &qv, &[true, true, true, false]), None);
}

#[test]
fn packet_labels() {
    let mut t = make_tournament();
    assert_eq!(packet_label(&t, 1), "1");
    t.packets.insert(1, "Packet A".to_string());
    t.packets.insert(2, "-".to_string());
    assert_eq!(packet_label(&t, 1), "Packet A");
    assert_eq!(packet_label(&t, 2), "2");
}

#[test]
fn report_names_must_be_plain() {
    assert!(validate_report_name("test_standings.html").is_ok());
    let e = validate_report_name("../x.html").unwrap_err();
    assert_eq!(e, "report filename '../x.html' must be a plain filename with no path separators");
    assert!(validate_report_name("/tmp/x.html").is_err());
    assert!(check_report_name("a", false, 1).is_ok());
    assert!(check_report_name("a", true, 1).is_err());
    assert!(check_report_name("a", false, 2).is_err());
}

#[test]
fn stat_key_lists_the_abbreviations() {
    let t = make_tournament();
    let html = stat_key_html(&t, &make_nav());
    assert!(html.starts_with("<HTML>\n<HEAD>\n<TITLE>Test Tournament Stat Key </TITLE>\n"));
    assert!(html.contains("<H1>Test Tournament Stat Key </H1><P>\n"));
    assert!(html.contains("<tr>\n<td>20 10 -5 </td>\n<td>Number of toss-ups answered"));
    assert!(html.contains("<td>BHrd</td>"));
    assert!(!html.contains("<td>BBHrd</td>"));
    assert!(html.ends_with("SQBS homepage</A>.</BODY>\n</HTML>\n"));
    let mut t2 = make_tournament();
    t2.scoring.auto_track = 3;
    assert!(stat_key_html(&t2, &make_nav()).contains("<td>BBHrd</td>"));
    t2.track_bonuses = false;
    let no_bonus = stat_key_html(&t2, &make_nav());
    assert!(!no_bonus.contains("<td>BHrd</td>"));
    assert!(!no_bonus.contains("<td>BBHrd</td>"));
}

#[test]
fn rounds_played_are_sorted_and_distinct() {
    let mut t = make_tournament();
    assert_eq!(sqbs::reports::rounds_played(&t), vec![1]);
    for r in [5, 2, 5, 1, 9] {
        let mut g = t.games[0].clone();
        g.round = r;
        t.games.push(g);
    }
    assert_eq!(sqbs::reports::rounds_played(&t), vec![1, 2, 5, 9]);
    assert!(sqbs::reports::rounds_played(&Tournament::default()).is_empty());
}

#[test]
fn round_totals_sum_each_rounds_games() {
    let mut t = make_tournament();
    let mut g = t.games[0].clone();
    g.round = 2;
    g.team_a.total_points = 10;
    t.games.push(g.clone());
    g.forfeit = true;
    g.round = 3;
    t.games.push(g);
    let rows = sqbs::reports::round_totals_checked(&t).expect("no overflow");
    assert_eq!(rows.len(), 2);
    assert_eq!(rows[0].round, 1);
    assert_eq!(rows[0].games, 1);
    assert_eq!(rows[0].points, 170);
    assert_eq!(rows[0].tuh, 20);
    assert_eq!(rows[0].player_points, 90);
    assert_eq!(rows[0].bh, 11);
    assert_eq!(rows[0].bp, 80);
    assert_eq!(rows[1].round, 2);
    assert_eq!(rows[1].points, 55);
}

#[test]
fn overflowing_totals_give_none() {
    let mut t = make_tournament();
    t.games[0].team_a.total_points = i32::MAX;
    assert!(sqbs::reports::round_totals_checked(&t).is_none());
    assert!(sqbs::reports::aggregate_teams_checked(&t).is_some());
    let mut g = t.games[0].clone();
    g.team_b.total_points = 0;
    t.games.push(g);
    assert!(sqbs::reports::aggregate_teams_checked(&t).is_none());
}

#[test]
fn player_records_follow_game_and_side_order() {
    let mut t = make_tournament();
    let mut second = t.games[0].clone();
    second.round = 2;
    // Beta's first slot holds Dan this time.
    second.team_b.player_scores[0] =
        Some(PlayerScore { player_index: 1, gp: "0.5".to_string(), q: [0, 0, 1, 0], points: 10 });
    second.team_b.player_scores[1] = None;
    t.games.push(second);
    let mut forfeited = t.games[0].clone();
    forfeited.forfeit = true;
    t.games.push(forfeited);

    let recs = player_records(&t);
    let keys: Vec<(usize, usize, usize, bool, usize)> = recs
        .iter()
        .map(|r| (r.team_index, r.player_index, r.game, r.side_b, r.slot))
        .collect();
    assert_eq!(
        keys,
        vec![
            (0, 0, 0, false, 0),
            (0, 1, 0, false, 1),
            (1, 0, 0, true, 0),
            (1, 1, 0, true, 1),
            (0, 0, 1, false, 0),
            (0, 1, 1, false, 1),
            (1, 1, 1, true, 0),
        ]
    );
}

#[test]
fn group_players_orders_by_team_then_player() {
    let mut t = make_tournament();
    let mut second = t.games[0].clone();
    second.team_b.player_scores[0] =
        Some(PlayerScore { player_index: 1, gp: "0.5".to_string(), q: [0, 0, 1, 0], points: 10 });
    second.team_b.player_scores[1] = None;
    t.games.push(second);

    let groups = group_players(&t);
    let keys: Vec<(usize, usize, Vec<(usize, usize)>)> = groups
        .iter()
        .map(|g| (g.team_index, g.player_index, g.records.iter().map(|r| (r.game, r.slot)).collect()))
        .collect();
    assert_eq!(
        keys,
        vec![
            (0, 0, vec![(0, 0), (1, 0)]),
            (0, 1, vec![(0, 1), (1, 1)]),
            (1, 0, vec![(0, 0)]),
            (1, 1, vec![(0, 1), (1, 0)]),
        ]
    );
}

#[test]
fn group_players_skips_games_with_unknown_teams() {
    let mut t = make_tournament();
    t.games[0].team_b.team_index = 7;
    assert!(group_players(&t).is_empty());
    assert!(player_records(&t).is_empty());
}

#[test]
fn player_sums_add_each_players_scores() {
    let mut t = make_tournament();
    let mut second = t.games[0].clone();
    second.team_b.player_scores[0] =
        Some(PlayerScore { player_index: 1, gp: "0.5".to_string(), q: [0, 0, 1, 0], points: 10 });
    second.team_b.player_scores[1] = None;
    t.games.push(second);

    let sums: Vec<([i32; 4], i32)> = group_players(&t)
        .iter()
        .map(|g| {
            let s = player_sums(&t, g).unwrap();
            (s.q, s.points)
        })
        .collect();
    assert_eq!(
        sums,
        vec![([2, 0, 4, 0], 80), ([0, 0, 6, 2], 50), ([0, 0, 2, 0], 20), ([0, 0, 2, 1], 15)]
    );
}

#[test]
fn player_sums_report_overflow() {
    let mut t = make_tournament();
    let mut second = t.games[0].clone();
    second.team_a.player_scores[0] =
        Some(PlayerScore { player_index: 0, gp: "1".to_string(), q: [0, 0, 0, 0], points: i32::MAX });
    t.games.push(second);
    let groups = group_players(&t);
    assert!(player_sums(&t, &groups[0]).is_none());
    assert!(player_sums(&t, &groups[1]).is_some());
}

#[test]
fn gets_fit_check_finds_overflowing_gets() {
    let en = [true, true, true, true];
    assert!(gets_fit_check(&[1, 2, 3, 4], &[20, 15, 10, -5], &en));
    assert!(!gets_fit_check(&[i32::MAX, 1, 0, 0], &[20, 15, 10, -5], &en));
    assert!(gets_fit_check(&[i32::MAX, 1, 0, 0], &[20, -15, 10, -5], &en));
    assert!(gets_fit_check(&[i32::MAX, 1, 0, 0], &[20, 15, 10, -5], &[true, false, true, true]));
}
