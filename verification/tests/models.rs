use sqbs::models::{ReportSettings, ScoringSettings, Tournament};

#[test]
fn bouncebacks_disabled_by_default() {
    assert!(!Tournament::default().bouncebacks_enabled());
}

#[test]
fn bouncebacks_enabled_at_threshold_3() {
    let mut t = Tournament::default();
    t.scoring.auto_track = 2;
    assert!(!t.bouncebacks_enabled());
    t.scoring.auto_track = 3;
    assert!(t.bouncebacks_enabled());
    t.scoring.auto_track = 4;
    assert!(t.bouncebacks_enabled());
}

#[test]
fn default_q_values() {
    let s = ScoringSettings::default();
    assert_eq!(s.q_values, [20, 15, 10, -5]);
}

#[test]
fn q_enabled_controls_effective_value() {
    let mut t = Tournament::default();
    t.scoring.q_enabled[1] = false;
    assert_eq!(t.effective_q_value(0), 20);
    assert_eq!(t.effective_q_value(1), 0);
}

#[test]
fn default_report_suffixes_non_empty() {
    let r = ReportSettings::default();
    assert!(!r.standings.is_empty());
    assert!(!r.individuals.is_empty());
    assert!(!r.games.is_empty());
    assert!(!r.team_detail.is_empty());
    assert!(!r.player_detail.is_empty());
}

#[test]
fn default_warn_flags() {
    let t = Tournament::default();
    assert_eq!(t.warn_flags, 0b0111_1110);
}

#[test]
fn effective_q_value_out_of_range_is_zero() {
    let t = Tournament::default();
    assert_eq!(t.effective_q_value(4), 0);
    assert_eq!(t.effective_q_value(100), 0);
}

#[test]
fn default_tournament_values() {
    let t = Tournament::default();
    assert!(t.track_bonuses);
    assert_eq!(t.max_players_per_team, 6);
    assert_eq!(t.sort_method, 1);
    assert!(t.packets.is_empty());
    assert_eq!(t.scoring.q_enabled, [true, false, true, true]);
    assert_eq!(t.reports.standings, "_standings.html");
    assert_eq!(t.reports.stat_key, "_statkey.html");
    assert!(t.reports.style.is_empty());
}

#[test]
fn round_range_of_games() {
    let mut t = Tournament::default();
    assert_eq!(t.min_round(), None);
    assert_eq!(t.max_round(), None);
    let mut g = sqbs::models::Game::default();
    g.round = 4;
    t.games.push(g.clone());
    g.round = 2;
    t.games.push(g.clone());
    g.round = 7;
    t.games.push(g);
    assert_eq!(t.min_round(), Some(2));
    assert_eq!(t.max_round(), Some(7));
}
