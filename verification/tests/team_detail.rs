use sqbs::models::{Game, Player, PlayerScore, Team, TeamScore, Tournament};
use sqbs::team_detail::{team_detail_rows, Outcome};

fn side(team_index: usize, total: i32, scores: Vec<Option<PlayerScore>>) -> TeamScore {
    TeamScore {
        team_index,
        total_points: total,
        bonus_heard: 4,
        bonus_points: 30,
        bb_heard: 1,
        bb_points: 10,
        ot_gets: 0,
        lightning_points: 0,
        player_scores: scores,
    }
}

fn score(player_index: usize, q: [i32; 4], points: i32) -> Option<PlayerScore> {
    Some(PlayerScore { player_index, gp: "1.0".to_string(), q, points })
}

fn game(round: u32, a: TeamScore, b: TeamScore, forfeit: bool) -> Game {
    Game {
        game_index: round.to_string(),
        round,
        tossups_heard: 20,
        overtime: false,
        forfeit,
        team_a: a,
        team_b: b,
    }
}

fn team(name: &str) -> Team {
    Team {
        name: name.to_string(),
        players: vec![Player { name: "P".to_string() }],
        division: None,
        exhibition: false,
        manual_rank: 0,
    }
}

fn sample() -> Tournament {
    let mut t = Tournament::default();
    t.teams = vec![team("A"), team("B"), team("C")];
    t.games = vec![
        game(1, side(0, 200, vec![score(0, [1, 2, 3, 0], 55), None, score(1, [0, 1, 1, 1], 20)]),
            side(1, 150, vec![score(0, [0, 0, 2, 0], 20)]), false),
        game(2, side(2, 100, vec![]), side(0, 100, vec![score(0, [0, 0, 1, 2], 0)]), false),
        game(3, side(1, 90, vec![]), side(0, 120, vec![]), true),
        game(4, side(0, 80, vec![score(0, [0, 0, 0, 1], -5)]), side(9, 300, vec![]), false),
        game(5, side(1, 10, vec![]), side(2, 20, vec![]), false),
    ];
    t
}

#[test]
fn team_detail_lists_the_teams_games_with_results() {
    let (rows, _) = team_detail_rows(&sample(), 0).unwrap();
    let got: Vec<(usize, bool, Outcome, [i32; 4])> =
        rows.iter().map(|r| (r.game, r.side_b, r.outcome, r.q)).collect();
    assert_eq!(
        got,
        vec![
            (0, false, Outcome::Win, [1, 3, 4, 1]),
            (1, true, Outcome::Tie, [0, 0, 1, 2]),
            (3, false, Outcome::Loss, [0, 0, 0, 1]),
        ]
    );
}

#[test]
fn team_detail_totals_sum_the_listed_games() {
    let (_, tot) = team_detail_rows(&sample(), 0).unwrap();
    assert_eq!((tot.pf, tot.pa), (380, 550));
    assert_eq!(tot.q, [1, 3, 5, 4]);
    assert_eq!(tot.tuh, 60);
    assert_eq!((tot.bh, tot.bp, tot.bbh, tot.bbp), (12, 90, 3, 30));
}

#[test]
fn team_detail_of_a_team_without_games_is_empty() {
    let mut t = sample();
    t.teams.push(team("D"));
    let (rows, tot) = team_detail_rows(&t, 3).unwrap();
    assert!(rows.is_empty());
    assert_eq!((tot.pf, tot.pa, tot.q, tot.tuh), (0, 0, [0, 0, 0, 0], 0));
}

#[test]
fn team_detail_reports_overflow() {
    let mut t = sample();
    t.games[1].team_b.total_points = i32::MAX;
    assert!(team_detail_rows(&t, 0).is_none());
    assert!(team_detail_rows(&t, 1).is_some());
    let mut t = sample();
    t.games[0].team_a.player_scores[2] = score(1, [i32::MAX, 0, 0, 0], 0);
    assert!(team_detail_rows(&t, 0).is_none());
}

#[test]
fn team_detail_totals_match_standings_totals() {
    let mut t = sample();
    t.games.remove(3);
    let standings = sqbs::reports::aggregate_teams(&t);
    for ti in 0..t.teams.len() {
        let (_, tot) = team_detail_rows(&t, ti).unwrap();
        let a = &standings[ti];
        assert_eq!((tot.pf, tot.pa, tot.q, tot.tuh), (a.pf, a.pa, a.q, a.tuh));
        assert_eq!((tot.bh, tot.bp, tot.bbh, tot.bbp), (a.bh, a.bp, a.bbh, a.bbp));
    }
}
