use sqbs::models::{Game, Player, PlayerScore, Team, TeamScore, Tournament};
use sqbs::scoreboard::{game_headline, round_heading, side_line, team_label_html};

fn side(team_index: usize, total: i32, scores: Vec<Option<PlayerScore>>) -> TeamScore {
    TeamScore {
        team_index,
        total_points: total,
        bonus_heard: 0,
        bonus_points: 0,
        bb_heard: 0,
        bb_points: 0,
        ot_gets: 0,
        lightning_points: 0,
        player_scores: scores,
    }
}

fn sample() -> Tournament {
    let mut t = Tournament::default();
    t.teams = vec![
        Team {
            name: "A&M".to_string(),
            players: vec![Player { name: "Al".to_string() }, Player { name: "Bo <b>".to_string() }],
            division: None,
            exhibition: false,
            manual_rank: 0,
        },
        Team {
            name: "Rice".to_string(),
            players: vec![Player { name: "Cy".to_string() }],
            division: None,
            exhibition: false,
            manual_rank: 0,
        },
    ];
    t.scoring.q_values = [15, 10, -5, 0];
    t.scoring.q_enabled = [true, true, true, false];
    t
}

fn game(a: TeamScore, b: TeamScore) -> Game {
    Game {
        game_index: "1".to_string(),
        round: 3,
        tossups_heard: 20,
        overtime: false,
        forfeit: false,
        team_a: a,
        team_b: b,
    }
}

#[test]
fn headline_puts_the_winner_first() {
    let t = sample();
    let g = game(side(0, 120, vec![]), side(1, 250, vec![]));
    assert_eq!(game_headline(&t, &g), "<FONT SIZE=+1>Rice 250, A&amp;M 120</FONT><br>\n");
}

#[test]
fn headline_puts_side_a_first_on_a_tie() {
    let t = sample();
    let g = game(side(0, 100, vec![]), side(1, 100, vec![]));
    assert_eq!(game_headline(&t, &g), "<FONT SIZE=+1>A&amp;M 100, Rice 100</FONT><br>\n");
}

#[test]
fn headline_names_unknown_teams_with_a_question_mark() {
    let t = sample();
    let g = game(side(5, -10, vec![]), side(1, 0, vec![]));
    assert_eq!(game_headline(&t, &g), "<FONT SIZE=+1>Rice 0, ? -10</FONT><br>\n");
    assert_eq!(team_label_html(&t, 5), "?");
}

#[test]
fn side_line_lists_each_player() {
    let t = sample();
    let ts = side(
        0,
        45,
        vec![
            Some(PlayerScore { player_index: 1, gp: "1".to_string(), q: [1, 2, 1, 9], points: 30 }),
            None,
            Some(PlayerScore { player_index: 0, gp: "1".to_string(), q: [0, 0, 0, 0], points: 0 }),
            Some(PlayerScore { player_index: 4, gp: "1".to_string(), q: [1, 0, 0, 0], points: 15 }),
        ],
    );
    assert_eq!(side_line(&t, &ts), "A&amp;M: Bo &lt;b&gt; 1 2 1 30, Al 0 0 0 0, ? 1 0 0 15<br>\n");
}

#[test]
fn side_line_without_players() {
    let t = sample();
    assert_eq!(side_line(&t, &side(1, 0, vec![None, None])), "Rice: <br>\n");
}

#[test]
fn round_heading_names_the_packet_when_it_differs() {
    let mut t = sample();
    assert_eq!(round_heading(&t, 3), "<FONT SIZE=+1 COLOR=red>Round 3</FONT><P>\n");
    t.packets.insert(3, "Finals".to_string());
    assert_eq!(round_heading(&t, 3), "<FONT SIZE=+1 COLOR=red>Round 3 (Packet: Finals)</FONT><P>\n");
    t.packets.insert(4, "4".to_string());
    assert_eq!(round_heading(&t, 4), "<FONT SIZE=+1 COLOR=red>Round 4</FONT><P>\n");
    t.packets.insert(5, "-".to_string());
    assert_eq!(round_heading(&t, 5), "<FONT SIZE=+1 COLOR=red>Round 5</FONT><P>\n");
}
