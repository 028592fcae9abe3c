use sqbs::models::{Game, Player, PlayerScore, Team, TeamScore, Tournament};
use sqbs::sqbs_format::{write_sqbs, SqbsParser};

fn full() -> Tournament {
    let mut t = Tournament::default();
    t.name = "Spring Open".to_string();
    t.reports.base_name = "spring".to_string();
    t.reports.style = "_s.css".to_string();
    t.uses_divisions = true;
    t.divisions = vec!["Gold".to_string(), "Silver".to_string()];
    t.teams = vec![
        Team { name: "A".to_string(), players: vec![Player { name: "a1".to_string() }, Player { name: "a2".to_string() }], division: Some("Silver".to_string()), exhibition: true, manual_rank: 2 },
        Team { name: "B".to_string(), players: vec![], division: None, exhibition: false, manual_rank: 0 },
    ];
    let rec = |i: usize| Some(PlayerScore { player_index: i, gp: "0.75".to_string(), q: [1, 2, 3, -4], points: 7 });
    let mut ps_a = vec![rec(0), None, rec(1)];
    while ps_a.len() < 8 { ps_a.push(None); }
    let ps_b = vec![None; 8];
    t.games.push(Game {
        game_index: "R2-1".to_string(), round: 2, tossups_heard: 21, overtime: false, forfeit: true,
        team_a: TeamScore { team_index: 1, total_points: -15, bonus_heard: 9999, bonus_points: 0, bb_heard: 7, bb_points: 3, ot_gets: 2, lightning_points: 40, player_scores: ps_a },
        team_b: TeamScore { team_index: 0, total_points: 0, bonus_heard: 0, bonus_points: 0, bb_heard: 0, bb_points: 0, ot_gets: 0, lightning_points: 0, player_scores: ps_b },
    });
    t.packets.insert(2, "Two".to_string());
    t.scoring.q_values = [20, 15, 10, -5];
    t.scoring.q_enabled = [true, false, true, true];
    t.max_players_per_team = 6;
    t
}

#[test]
fn a_tournament_the_format_holds_reads_back_unchanged() {
    let t = full();
    let t2 = SqbsParser::new(write_sqbs(&t)).parse().expect("parse failed");
    assert_eq!(t2.name, t.name);
    assert_eq!(t2.reports.base_name, t.reports.base_name);
    assert_eq!(t2.reports.style, t.reports.style);
    assert_eq!(t2.divisions, t.divisions);
    assert_eq!(t2.uses_divisions, t.uses_divisions);
    assert_eq!(t2.teams.len(), 2);
    for (a, b) in t.teams.iter().zip(t2.teams.iter()) {
        assert_eq!(a.name, b.name);
        assert_eq!(a.players.len(), b.players.len());
        assert_eq!(a.division, b.division);
        assert_eq!(a.exhibition, b.exhibition);
        assert_eq!(a.manual_rank, b.manual_rank);
    }
    let (g, g2) = (&t.games[0], &t2.games[0]);
    assert_eq!(g.game_index, g2.game_index);
    assert_eq!(g.forfeit, g2.forfeit);
    assert_eq!(g.team_a.total_points, g2.team_a.total_points);
    assert_eq!(g.team_a.bonus_heard, g2.team_a.bonus_heard);
    assert_eq!(g.team_a.bb_heard, g2.team_a.bb_heard);
    assert_eq!(g.team_a.lightning_points, g2.team_a.lightning_points);
    assert_eq!(g.team_a.player_scores.len(), g2.team_a.player_scores.len());
    let p = g2.team_a.player_scores[2].as_ref().unwrap();
    assert_eq!(p.player_index, 1);
    assert_eq!(p.gp, "0.75");
    assert_eq!(p.q, [1, 2, 3, -4]);
    assert!(g2.team_a.player_scores[1].is_none());
    assert_eq!(t2.packets, t.packets);
    assert_eq!(t2.scoring.q_values, t.scoring.q_values);
    assert_eq!(t2.scoring.q_enabled, t.scoring.q_enabled);
    assert_eq!(t2.max_players_per_team, t.max_players_per_team);
    assert_eq!(write_sqbs(&t2), write_sqbs(&t));
}

#[test]
fn any_tournament_reads_back_in_normal_form() {
    let mut t = full();
    // Fewer than eight slots, an unknown division, unused divisions,
    // a disabled category with another value, an enabled zero category,
    // a packet range with gaps, and a roster larger than six.
    t.games[0].team_a.player_scores.truncate(3);
    t.games[0].team_b.player_scores.clear();
    t.teams[1].division = Some("Bronze".to_string());
    t.scoring.q_values = [20, 30, 0, -5];
    t.scoring.q_enabled = [true, false, true, true];
    t.max_players_per_team = 1;
    t.teams[0].players = (0..7).map(|i| Player { name: format!("p{i}") }).collect();
    let mut g2 = t.games[0].clone();
    g2.round = 5;
    t.games.push(g2);

    let back = SqbsParser::new(write_sqbs(&t)).parse().expect("parse failed");
    assert_eq!(back.games[0].team_a.player_scores.len(), 8);
    assert_eq!(back.games[0].team_b.player_scores.len(), 8);
    assert!(back.games[0].team_b.player_scores.iter().all(|p| p.is_none()));
    assert_eq!(back.teams[0].division, Some("Silver".to_string()));
    assert_eq!(back.teams[1].division, None);
    assert_eq!(back.scoring.q_enabled, [true, false, false, true]);
    assert_eq!(back.scoring.q_values, [20, 15, 10, -5]);
    assert_eq!(back.max_players_per_team, 7);
    let packets: Vec<(u32, String)> = back.packets.into_iter().collect();
    assert_eq!(
        packets,
        vec![
            (2, "Two".to_string()),
            (3, "-".to_string()),
            (4, "-".to_string()),
            (5, "-".to_string()),
        ]
    );

    let mut unused = full();
    unused.uses_divisions = false;
    let back = SqbsParser::new(write_sqbs(&unused)).parse().expect("parse failed");
    assert!(back.divisions.is_empty());
    assert_eq!(back.teams[0].division, None);
}
