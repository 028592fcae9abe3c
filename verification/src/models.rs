//! The tournament data: teams and their rosters, games with per-team and
//! per-player scores, scoring and report settings.

use std::collections::BTreeMap;
use vstd::prelude::*;

verus! {

/// A player on a team roster.
#[derive(Debug, Clone)]
pub struct Player {
    pub name: String,
}

/// A team: its name, its roster, and the per-team flags of the file.
#[derive(Debug, Clone)]
pub struct Team {
    pub name: String,
    pub players: Vec<Player>,
    pub division: Option<String>,
    pub exhibition: bool,
    /// Manual standings rank, 0 when not overridden.
    pub manual_rank: u32,
}

/// One player's line in a game.
///
/// `gp` is the games-played field as it stands in the tournament file: a
/// decimal such as `0.50` or a fraction such as `11/23`.
#[derive(Debug, Clone)]
pub struct PlayerScore {
    pub player_index: usize,
    pub gp: String,
    /// Tossups answered for each point value [power, alt power, normal, neg].
    pub q: [i32; 4],
    pub points: i32,
}

/// One team's side of a game.
#[derive(Debug, Clone)]
pub struct TeamScore {
    pub team_index: usize,
    pub total_points: i32,
    pub bonus_heard: i32,
    pub bonus_points: i32,
    pub bb_heard: i32,
    pub bb_points: i32,
    pub ot_gets: i32,
    pub lightning_points: i32,
    pub player_scores: Vec<Option<PlayerScore>>,
}

/// A game between two teams.
#[derive(Debug, Clone)]
pub struct Game {
    pub game_index: String,
    pub round: u32,
    pub team_a: TeamScore,
    pub team_b: TeamScore,
    pub tossups_heard: u32,
    pub overtime: bool,
    pub forfeit: bool,
}

/// How tossups and bonuses are scored and tracked.
#[derive(Debug, Clone)]
pub struct ScoringSettings {
    /// Point values for each tossup category [power, alt power, normal, neg].
    pub q_values: [i32; 4],
    /// Whether each category is tracked (a disabled one is written as 0).
    pub q_enabled: [bool; 4],
    pub track_power_neg: bool,
    pub track_light_round: bool,
    pub track_tuh: bool,
    pub auto_track: u8,
    /// Sort individual standings by points per tossup heard.
    pub sort_by_ppg: bool,
}

/// File names and switches of the HTML reports.
#[derive(Debug, Clone)]
pub struct ReportSettings {
    pub base_name: String,
    pub rounds: String,
    pub standings: String,
    pub individuals: String,
    pub games: String,
    pub team_detail: String,
    pub player_detail: String,
    pub stat_key: String,
    pub style: String,
    pub include_rounds: bool,
    pub include_standings: bool,
    pub include_individuals: bool,
    pub include_games: bool,
    pub include_team_detail: bool,
    pub include_player_detail: bool,
    pub include_stat_key: bool,
    pub use_style_sheet: bool,
    pub british_style: bool,
}

/// A whole tournament.
#[derive(Debug, Clone)]
pub struct Tournament {
    pub name: String,
    pub teams: Vec<Team>,
    pub games: Vec<Game>,
    pub scoring: ScoringSettings,
    pub reports: ReportSettings,
    pub uses_divisions: bool,
    pub divisions: Vec<String>,
    pub track_bonuses: bool,
    pub max_players_per_team: u32,
    /// Standings sort method: 1=Record/PPG, 2=Record/H2H/PPG,
    /// 3=Record/Strength, 4=Record/PPTH, 5=Record/H2H/PPTH.
    pub sort_method: u8,
    /// Warnings bitmask: bit7=W1 .. bit1=W7.
    pub warn_flags: u8,
    /// Packet names keyed by round number.
    pub packets: BTreeMap<u32, String>,
}

// ── Mathematical models ────────────────────────────────────────────────────

pub struct PlayerScoreView {
    pub player_index: usize,
    pub gp: Seq<char>,
    pub q: Seq<i32>,
    pub points: i32,
}

pub struct TeamScoreView {
    pub team_index: usize,
    pub total_points: i32,
    pub bonus_heard: i32,
    pub bonus_points: i32,
    pub bb_heard: i32,
    pub bb_points: i32,
    pub ot_gets: i32,
    pub lightning_points: i32,
    pub player_scores: Seq<Option<PlayerScoreView>>,
}

pub struct GameView {
    pub game_index: Seq<char>,
    pub round: u32,
    pub team_a: TeamScoreView,
    pub team_b: TeamScoreView,
    pub tossups_heard: u32,
    pub overtime: bool,
    pub forfeit: bool,
}

pub struct TeamView {
    pub name: Seq<char>,
    pub players: Seq<Seq<char>>,
    pub division: Option<Seq<char>>,
    pub exhibition: bool,
    pub manual_rank: u32,
}

pub struct ScoringView {
    pub q_values: Seq<i32>,
    pub q_enabled: Seq<bool>,
    pub track_power_neg: bool,
    pub track_light_round: bool,
    pub track_tuh: bool,
    pub auto_track: u8,
    pub sort_by_ppg: bool,
}

pub struct ReportsView {
    pub base_name: Seq<char>,
    pub rounds: Seq<char>,
    pub standings: Seq<char>,
    pub individuals: Seq<char>,
    pub games: Seq<char>,
    pub team_detail: Seq<char>,
    pub player_detail: Seq<char>,
    pub stat_key: Seq<char>,
    pub style: Seq<char>,
    pub include_rounds: bool,
    pub include_standings: bool,
    pub include_individuals: bool,
    pub include_games: bool,
    pub include_team_detail: bool,
    pub include_player_detail: bool,
    pub include_stat_key: bool,
    pub use_style_sheet: bool,
    pub british_style: bool,
}

pub struct TournamentView {
    pub name: Seq<char>,
    pub teams: Seq<TeamView>,
    pub games: Seq<GameView>,
    pub scoring: ScoringView,
    pub reports: ReportsView,
    pub uses_divisions: bool,
    pub divisions: Seq<Seq<char>>,
    pub track_bonuses: bool,
    pub max_players_per_team: u32,
    pub sort_method: u8,
    pub warn_flags: u8,
    pub packets: Map<u32, Seq<char>>,
}

pub open spec fn opt_view(s: Option<String>) -> Option<Seq<char>> {
    match s {
        Some(x) => Some(x@),
        None => None,
    }
}

pub open spec fn player_names(s: Seq<Player>) -> Seq<Seq<char>> {
    s.map_values(|p: Player| p.name@)
}

pub open spec fn score_views(s: Seq<Option<PlayerScore>>) -> Seq<Option<PlayerScoreView>> {
    s.map_values(|p: Option<PlayerScore>| opt_score_view(p))
}

pub open spec fn team_views(s: Seq<Team>) -> Seq<TeamView> {
    s.map_values(|t: Team| t@)
}

pub open spec fn game_views(s: Seq<Game>) -> Seq<GameView> {
    s.map_values(|g: Game| g@)
}

pub open spec fn string_views(s: Seq<String>) -> Seq<Seq<char>> {
    s.map_values(|x: String| x@)
}

pub open spec fn packet_views(m: Map<u32, String>) -> Map<u32, Seq<char>> {
    m.map_values(|x: String| x@)
}

impl View for PlayerScore {
    type V = PlayerScoreView;

    open spec fn view(&self) -> PlayerScoreView {
        PlayerScoreView { player_index: self.player_index, gp: self.gp@, q: self.q@, points: self.points }
    }
}

pub open spec fn opt_score_view(s: Option<PlayerScore>) -> Option<PlayerScoreView> {
    match s {
        Some(x) => Some(x@),
        None => None,
    }
}

impl View for TeamScore {
    type V = TeamScoreView;

    open spec fn view(&self) -> TeamScoreView {
        TeamScoreView {
            team_index: self.team_index,
            total_points: self.total_points,
            bonus_heard: self.bonus_heard,
            bonus_points: self.bonus_points,
            bb_heard: self.bb_heard,
            bb_points: self.bb_points,
            ot_gets: self.ot_gets,
            lightning_points: self.lightning_points,
            player_scores: score_views(self.player_scores@),
        }
    }
}

impl View for Game {
    type V = GameView;

    open spec fn view(&self) -> GameView {
        GameView {
            game_index: self.game_index@,
            round: self.round,
            team_a: self.team_a@,
            team_b: self.team_b@,
            tossups_heard: self.tossups_heard,
            overtime: self.overtime,
            forfeit: self.forfeit,
        }
    }
}

impl View for Team {
    type V = TeamView;

    open spec fn view(&self) -> TeamView {
        TeamView {
            name: self.name@,
            players: player_names(self.players@),
            division: opt_view(self.division),
            exhibition: self.exhibition,
            manual_rank: self.manual_rank,
        }
    }
}

impl View for ScoringSettings {
    type V = ScoringView;

    open spec fn view(&self) -> ScoringView {
        ScoringView {
            q_values: self.q_values@,
            q_enabled: self.q_enabled@,
            track_power_neg: self.track_power_neg,
            track_light_round: self.track_light_round,
            track_tuh: self.track_tuh,
            auto_track: self.auto_track,
            sort_by_ppg: self.sort_by_ppg,
        }
    }
}

impl View for ReportSettings {
    type V = ReportsView;

    open spec fn view(&self) -> ReportsView {
        ReportsView {
            base_name: self.base_name@,
            rounds: self.rounds@,
            standings: self.standings@,
            individuals: self.individuals@,
            games: self.games@,
            team_detail: self.team_detail@,
            player_detail: self.player_detail@,
            stat_key: self.stat_key@,
            style: self.style@,
            include_rounds: self.include_rounds,
            include_standings: self.include_standings,
            include_individuals: self.include_individuals,
            include_games: self.include_games,
            include_team_detail: self.include_team_detail,
            include_player_detail: self.include_player_detail,
            include_stat_key: self.include_stat_key,
            use_style_sheet: self.use_style_sheet,
            british_style: self.british_style,
        }
    }
}

impl View for Tournament {
    type V = TournamentView;

    open spec fn view(&self) -> TournamentView {
        TournamentView {
            name: self.name@,
            teams: team_views(self.teams@),
            games: game_views(self.games@),
            scoring: self.scoring@,
            reports: self.reports@,
            uses_divisions: self.uses_divisions,
            divisions: string_views(self.divisions@),
            track_bonuses: self.track_bonuses,
            max_players_per_team: self.max_players_per_team,
            sort_method: self.sort_method,
            warn_flags: self.warn_flags,
            packets: packet_views(self.packets@),
        }
    }
}

// ── Defaults ───────────────────────────────────────────────────────────────

/// The default point values [power, alt power, normal, neg].
pub open spec fn default_q_values() -> Seq<i32> {
    seq![20i32, 15i32, 10i32, -5i32]
}

/// The default scoring settings.
pub open spec fn default_scoring() -> ScoringView {
    ScoringView {
        q_values: default_q_values(),
        q_enabled: seq![true, false, true, true],
        track_power_neg: true,
        track_light_round: false,
        track_tuh: true,
        auto_track: 1,
        sort_by_ppg: false,
    }
}

impl Default for ScoringSettings {
    fn default() -> (s: Self)
        ensures
            s@ == default_scoring(),
    {
        let s = ScoringSettings {
            q_values: [20, 15, 10, -5],
            q_enabled: [true, false, true, true],
            track_power_neg: true,
            track_light_round: false,
            track_tuh: true,
            auto_track: 1,
            sort_by_ppg: false,
        };
        assert(s.q_values@ =~= default_q_values());
        assert(s.q_enabled@ =~= seq![true, false, true, true]);
        s
    }
}

/// The default report settings: every report on, the standard suffixes.
pub open spec fn default_reports() -> ReportsView {
    ReportsView {
        base_name: Seq::empty(),
        rounds: "_rounds.html"@,
        standings: "_standings.html"@,
        individuals: "_individuals.html"@,
        games: "_games.html"@,
        team_detail: "_teamdetail.html"@,
        player_detail: "_playerdetail.html"@,
        stat_key: "_statkey.html"@,
        style: Seq::empty(),
        include_rounds: true,
        include_standings: true,
        include_individuals: true,
        include_games: true,
        include_team_detail: true,
        include_player_detail: true,
        include_stat_key: true,
        use_style_sheet: false,
        british_style: false,
    }
}

impl Default for ReportSettings {
    fn default() -> (r: Self)
        ensures
            r@ == default_reports(),
    {
        ReportSettings {
            base_name: String::new(),
            rounds: String::from_str("_rounds.html"),
            standings: String::from_str("_standings.html"),
            individuals: String::from_str("_individuals.html"),
            games: String::from_str("_games.html"),
            team_detail: String::from_str("_teamdetail.html"),
            player_detail: String::from_str("_playerdetail.html"),
            stat_key: String::from_str("_statkey.html"),
            style: String::new(),
            include_rounds: true,
            include_standings: true,
            include_individuals: true,
            include_games: true,
            include_team_detail: true,
            include_player_detail: true,
            include_stat_key: true,
            use_style_sheet: false,
            british_style: false,
        }
    }
}

impl Default for Player {
    fn default() -> (p: Self)
        ensures
            p.name@ == Seq::<char>::empty(),
    {
        Player { name: String::new() }
    }
}

impl Default for Team {
    fn default() -> (t: Self)
        ensures
            t@ == (TeamView {
                name: Seq::empty(),
                players: Seq::empty(),
                division: None,
                exhibition: false,
                manual_rank: 0,
            }),
    {
        let t = Team {
            name: String::new(),
            players: Vec::new(),
            division: None,
            exhibition: false,
            manual_rank: 0,
        };
        assert(t@.players =~= Seq::<Seq<char>>::empty());
        t
    }
}

impl Default for PlayerScore {
    fn default() -> (p: Self)
        ensures
            p@ == (PlayerScoreView {
                player_index: 0,
                gp: Seq::empty(),
                q: seq![0i32, 0i32, 0i32, 0i32],
                points: 0,
            }),
    {
        let p = PlayerScore { player_index: 0, gp: String::new(), q: [0, 0, 0, 0], points: 0 };
        assert(p.q@ =~= seq![0i32, 0i32, 0i32, 0i32]);
        p
    }
}

/// A team's side of a game with nothing scored and no player records.
pub open spec fn empty_score() -> TeamScoreView {
    TeamScoreView {
        team_index: 0,
        total_points: 0,
        bonus_heard: 0,
        bonus_points: 0,
        bb_heard: 0,
        bb_points: 0,
        ot_gets: 0,
        lightning_points: 0,
        player_scores: Seq::empty(),
    }
}

impl Default for TeamScore {
    fn default() -> (s: Self)
        ensures
            s@ == empty_score(),
    {
        let s = TeamScore {
            team_index: 0,
            total_points: 0,
            bonus_heard: 0,
            bonus_points: 0,
            bb_heard: 0,
            bb_points: 0,
            ot_gets: 0,
            lightning_points: 0,
            player_scores: Vec::new(),
        };
        assert(s@.player_scores =~= Seq::<Option<PlayerScoreView>>::empty());
        s
    }
}

impl Default for Game {
    /// Game 1 of round 1, 20 tossups heard, nothing scored.
    fn default() -> (g: Self)
        ensures
            g@ == (GameView {
                game_index: "1"@,
                round: 1,
                team_a: empty_score(),
                team_b: empty_score(),
                tossups_heard: 20,
                overtime: false,
                forfeit: false,
            }),
    {
        Game {
            game_index: String::from_str("1"),
            round: 1,
            team_a: TeamScore::default(),
            team_b: TeamScore::default(),
            tossups_heard: 20,
            overtime: false,
            forfeit: false,
        }
    }
}

/// The default (empty) tournament.
pub open spec fn default_tournament() -> TournamentView {
    TournamentView {
        name: Seq::empty(),
        teams: Seq::empty(),
        games: Seq::empty(),
        scoring: default_scoring(),
        reports: default_reports(),
        uses_divisions: false,
        divisions: Seq::empty(),
        track_bonuses: true,
        max_players_per_team: 6,
        sort_method: 1,
        warn_flags: 0x7e,
        packets: Map::empty(),
    }
}

impl Default for Tournament {
    fn default() -> (t: Self)
        ensures
            t@ == default_tournament(),
    {
        let t = Tournament {
            name: String::new(),
            teams: Vec::new(),
            games: Vec::new(),
            scoring: ScoringSettings::default(),
            reports: ReportSettings::default(),
            uses_divisions: false,
            divisions: Vec::new(),
            track_bonuses: true,
            max_players_per_team: 6,
            sort_method: 1,
            warn_flags: 0x7e,
            packets: BTreeMap::new(),
        };
        assert(t@.teams =~= Seq::<TeamView>::empty());
        assert(t@.games =~= Seq::<GameView>::empty());
        assert(t@.divisions =~= Seq::<Seq<char>>::empty());
        assert(t@.packets =~= Map::<u32, Seq<char>>::empty());
        t
    }
}

// ── Queries ────────────────────────────────────────────────────────────────

/// Bonus bouncebacks are tracked from automatic tracking level 3 on.
pub open spec fn spec_bouncebacks_enabled(t: TournamentView) -> bool {
    t.scoring.auto_track >= 3
}

/// The point value written for category `i`: 0 when it is disabled or
/// `i` is not a category.
pub open spec fn spec_effective_q_value(s: ScoringView, i: int) -> i32 {
    if i < 0 || i >= 4 {
        0
    } else if s.q_enabled[i] {
        s.q_values[i]
    } else {
        0
    }
}

/// The smallest round number among `games`, `None` when there are none.
pub open spec fn spec_min_round(games: Seq<GameView>) -> Option<u32>
    decreases games.len(),
{
    if games.len() == 0 {
        None
    } else {
        match spec_min_round(games.drop_last()) {
            None => Some(games.last().round),
            Some(m) => Some(if games.last().round < m { games.last().round } else { m }),
        }
    }
}

/// The largest round number among `games`, `None` when there are none.
pub open spec fn spec_max_round(games: Seq<GameView>) -> Option<u32>
    decreases games.len(),
{
    if games.len() == 0 {
        None
    } else {
        match spec_max_round(games.drop_last()) {
            None => Some(games.last().round),
            Some(m) => Some(if games.last().round > m { games.last().round } else { m }),
        }
    }
}

impl Tournament {
    pub fn bouncebacks_enabled(&self) -> (b: bool)
        ensures
            b == spec_bouncebacks_enabled(self@),
    {
        self.scoring.auto_track >= 3
    }

    /// Effective point value for file writing: 0 if disabled, the value if enabled.
    pub fn effective_q_value(&self, i: usize) -> (v: i32)
        ensures
            v == spec_effective_q_value(self.scoring@, i as int),
    {
        if i >= 4 {
            return 0;
        }
        if self.scoring.q_enabled[i] {
            self.scoring.q_values[i]
        } else {
            0
        }
    }

    pub fn min_round(&self) -> (r: Option<u32>)
        ensures
            r == spec_min_round(self@.games),
    {
        let mut m: Option<u32> = None;
        let mut i: usize = 0;
        while i < self.games.len()
            invariant
                i <= self.games@.len(),
                m == spec_min_round(self@.games.take(i as int)),
            decreases self.games@.len() - i,
        {
            let r = self.games[i].round;
            assert(self@.games.take(i + 1).drop_last() =~= self@.games.take(i as int));
            m = match m {
                None => Some(r),
                Some(x) => Some(if r < x { r } else { x }),
            };
            i = i + 1;
        }
        assert(self@.games.take(i as int) =~= self@.games);
        m
    }

    pub fn max_round(&self) -> (r: Option<u32>)
        ensures
            r == spec_max_round(self@.games),
    {
        let mut m: Option<u32> = None;
        let mut i: usize = 0;
        while i < self.games.len()
            invariant
                i <= self.games@.len(),
                m == spec_max_round(self@.games.take(i as int)),
            decreases self.games@.len() - i,
        {
            let r = self.games[i].round;
            assert(self@.games.take(i + 1).drop_last() =~= self@.games.take(i as int));
            m = match m {
                None => Some(r),
                Some(x) => Some(if r > x { r } else { x }),
            };
            i = i + 1;
        }
        assert(self@.games.take(i as int) =~= self@.games);
        m
    }
}

/// The smallest round is a round of some game and no game has a smaller one;
/// likewise the largest.
pub proof fn lemma_round_bounds(games: Seq<GameView>)
    ensures
        spec_min_round(games) is None <==> games.len() == 0,
        spec_max_round(games) is None <==> games.len() == 0,
        spec_min_round(games) matches Some(m) ==> (exists|i: int|
            0 <= i < games.len() && #[trigger] games[i].round == m) && (forall|i: int|
            0 <= i < games.len() ==> m <= #[trigger] games[i].round),
        spec_max_round(games) matches Some(m) ==> (exists|i: int|
            0 <= i < games.len() && #[trigger] games[i].round == m) && (forall|i: int|
            0 <= i < games.len() ==> #[trigger] games[i].round <= m),
    decreases games.len(),
{
    if games.len() > 0 {
        let init = games.drop_last();
        lemma_round_bounds(init);
        let n = games.len() - 1;
        assert forall|i: int| 0 <= i < init.len() implies #[trigger] init[i] == games[i] by {}
        assert(games[n] == games.last());
        if let Some(m) = spec_min_round(games) {
            if let Some(m0) = spec_min_round(init) {
                let j = choose|j: int| 0 <= j < init.len() && #[trigger] init[j].round == m0;
                assert(games[j].round == m0);
                assert forall|i: int| 0 <= i < games.len() implies m <= #[trigger] games[i].round by {
                    if i < n {
                        assert(init[i].round == games[i].round);
                    }
                }
            } else {
                assert forall|i: int| 0 <= i < games.len() implies m <= #[trigger] games[i].round by {}
            }
        }
        if let Some(m) = spec_max_round(games) {
            if let Some(m0) = spec_max_round(init) {
                let j = choose|j: int| 0 <= j < init.len() && #[trigger] init[j].round == m0;
                assert(games[j].round == m0);
                assert forall|i: int| 0 <= i < games.len() implies #[trigger] games[i].round <= m by {
                    if i < n {
                        assert(init[i].round == games[i].round);
                    }
                }
            } else {
                assert forall|i: int| 0 <= i < games.len() implies #[trigger] games[i].round <= m by {}
            }
        }
    }
}

} // verus!
