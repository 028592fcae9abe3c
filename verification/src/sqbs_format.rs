//! The SQBS tournament file: a text file of one value per line, read by
//! [`SqbsParser`] and written by [`write_sqbs`].

use crate::models::{
    default_q_values, game_views, packet_views, player_names, score_views, spec_effective_q_value, spec_max_round,
    spec_min_round, string_views, team_views, Game, GameView, Player, PlayerScore,
    opt_score_view, PlayerScoreView, ReportSettings, ReportsView, ScoringSettings, ScoringView, Team, TeamScore, TeamScoreView, TeamView, Tournament, TournamentView,
};
use crate::text::{
    chars_eq, chars_of, fmt_int, int_error_text, int_string, parse_i32, parse_i64, push_char, spec_parse_i32, spec_parse_i64, string_of,
    trim, trim_chars, uint_string, IntErrorKind,
};
use crate::models::lemma_round_bounds;
use std::collections::BTreeMap;
use vstd::prelude::*;

verus! {

/// Maximum players (roster slots) per team, including the team name slot.
pub const MAX_MEMBER_COUNT: i64 = 100;

/// Maximum number of divisions in a tournament.
pub const MAX_DIVISIONS: i64 = 50;

/// Maximum number of teams in a tournament file.
pub const MAX_TEAM_COUNT: i64 = 100;

/// Maximum number of games in a tournament file.
pub const MAX_GAME_COUNT: i64 = 10000;

/// Maximum number of lines of a tournament file.
pub const MAX_LINES: usize = 100000;

/// Bonuses and bouncebacks share one field: `heard + bouncebacks * 10000`.
pub const BB: i64 = 10000;

// ── The lines of a file ────────────────────────────────────────────────────

/// The line holding the integer `n`.
#[verifier::opaque]
pub open spec fn il(n: int) -> Seq<char> {
    fmt_int(n)
}

/// The line holding a flag: `1` or `0`.
pub open spec fn bl(b: bool) -> Seq<char> {
    if b {
        il(1)
    } else {
        il(0)
    }
}

/// The line introducing the trailing manual-rank block.
pub open spec fn marker_line() -> Seq<char> {
    "SQBSMANUALRANKS"@
}

/// The packet name that stands for "no packet".
pub open spec fn dash() -> Seq<char> {
    "-"@
}

/// Text made of `lines`, each ended by a newline (as `writeln!` writes them).
pub open spec fn join_lines(lines: Seq<Seq<char>>) -> Seq<char> {
    lines.flat_map(|l: Seq<char>| l.push('\n'))
}

pub open spec fn lines_view(v: Seq<String>) -> Seq<Seq<char>> {
    v.map_values(|s: String| s@)
}

// ── What is written ────────────────────────────────────────────────────────

pub open spec fn team_lines(t: TeamView) -> Seq<Seq<char>> {
    seq![il(t.players.len() as int + 1), t.name] + t.players
}

pub open spec fn teams_lines(ts: Seq<TeamView>) -> Seq<Seq<char>> {
    ts.flat_map(|t: TeamView| team_lines(t))
}

/// Team count, then per team: member count (roster plus the name), name, players.
pub open spec fn teams_section(ts: Seq<TeamView>) -> Seq<Seq<char>> {
    seq![il(ts.len() as int)] + teams_lines(ts)
}

/// The player record of a slot: index, games played, four tossup counts and
/// points; an empty slot is `-1` and six zeros.
pub open spec fn record_lines(r: Option<PlayerScoreView>) -> Seq<Seq<char>> {
    match r {
        None => seq![il(-1), il(0), il(0), il(0), il(0), il(0), il(0)],
        Some(p) => seq![
            il(p.player_index as int),
            p.gp,
            il(p.q[0] as int),
            il(p.q[1] as int),
            il(p.q[2] as int),
            il(p.q[3] as int),
            il(p.points as int),
        ],
    }
}

/// Slot `i` of a team's player scores, empty past their end.
pub open spec fn slot(ps: Seq<Option<PlayerScoreView>>, i: int) -> Option<PlayerScoreView> {
    if 0 <= i < ps.len() {
        ps[i]
    } else {
        None
    }
}

/// The eight player slots of both teams, interleaved: a0, b0, a1, b1, ...
pub open spec fn slots(a: Seq<Option<PlayerScoreView>>, b: Seq<Option<PlayerScoreView>>) -> Seq<
    Option<PlayerScoreView>,
> {
    Seq::new(16, |k: int| if k % 2 == 0 { slot(a, k / 2) } else { slot(b, k / 2) })
}

pub open spec fn records_lines(rs: Seq<Option<PlayerScoreView>>) -> Seq<Seq<char>> {
    rs.flat_map(|r: Option<PlayerScoreView>| record_lines(r))
}

/// The encoded bonus field.
pub open spec fn bonus_code(heard: i32, bb: i32) -> int {
    heard as int + bb as int * 10000
}

pub open spec fn game_head_lines(g: GameView) -> Seq<Seq<char>> {
    seq![
        g.game_index,
        il(g.team_a.team_index as int),
        il(g.team_b.team_index as int),
        il(g.team_a.total_points as int),
        il(g.team_b.total_points as int),
        il(g.tossups_heard as int),
        il(g.round as int),
        il(bonus_code(g.team_a.bonus_heard, g.team_a.bb_heard)),
        il(bonus_code(g.team_a.bonus_points, g.team_a.bb_points)),
        il(bonus_code(g.team_b.bonus_heard, g.team_b.bb_heard)),
        il(bonus_code(g.team_b.bonus_points, g.team_b.bb_points)),
        bl(g.overtime),
        il(g.team_a.ot_gets as int),
        il(g.team_b.ot_gets as int),
        bl(g.forfeit),
        il(g.team_a.lightning_points as int),
        il(g.team_b.lightning_points as int),
    ]
}

/// A game: 17 lines of scalars, then 16 player records.
pub open spec fn game_lines(g: GameView) -> Seq<Seq<char>> {
    game_head_lines(g) + records_lines(slots(g.team_a.player_scores, g.team_b.player_scores))
}

pub open spec fn games_lines(gs: Seq<GameView>) -> Seq<Seq<char>> {
    gs.flat_map(|g: GameView| game_lines(g))
}

pub open spec fn games_section(gs: Seq<GameView>) -> Seq<Seq<char>> {
    seq![il(gs.len() as int)] + games_lines(gs)
}

/// Settings: flags, tracking levels, warnings and sort method (17 lines).
pub open spec fn flags_section(t: TournamentView) -> Seq<Seq<char>> {
    seq![
        bl(t.track_bonuses),
        il(t.scoring.auto_track as int),
        il(if t.scoring.track_power_neg { 3 } else { 2 }),
        bl(t.scoring.track_light_round),
        bl(t.scoring.track_tuh),
        il(if t.scoring.sort_by_ppg { 3 } else { 2 }),
        il(t.warn_flags as int),
        bl(t.reports.include_rounds),
        bl(t.reports.include_standings),
        bl(t.reports.include_individuals),
        bl(t.reports.include_games),
        bl(t.reports.include_team_detail),
        bl(t.reports.include_player_detail),
        bl(t.reports.include_stat_key),
        bl(t.reports.use_style_sheet),
        bl(t.uses_divisions),
        il(t.sort_method as int),
    ]
}

/// Names: the tournament, three empty lines (host, user, directory), the
/// report base name, the British-style flag, the report file names (14 lines).
pub open spec fn names_section(t: TournamentView) -> Seq<Seq<char>> {
    seq![
        t.name,
        Seq::empty(),
        Seq::empty(),
        Seq::empty(),
        t.reports.base_name,
        il(if t.reports.british_style { 2 } else { 0 }),
        t.reports.rounds,
        t.reports.standings,
        t.reports.individuals,
        t.reports.games,
        t.reports.team_detail,
        t.reports.player_detail,
        t.reports.stat_key,
        t.reports.style,
    ]
}

pub open spec fn settings_section(t: TournamentView) -> Seq<Seq<char>> {
    flags_section(t) + names_section(t)
}

/// Index of the first division called `name`, -1 when there is none.
pub open spec fn first_index_of(divs: Seq<Seq<char>>, name: Seq<char>) -> int
    decreases divs.len(),
{
    if divs.len() == 0 {
        -1
    } else if divs[0] == name {
        0
    } else {
        let r = first_index_of(divs.drop_first(), name);
        if r < 0 {
            -1
        } else {
            r + 1
        }
    }
}

/// The division index written for a team: -1 for none or an unknown name.
pub open spec fn div_index(divs: Seq<Seq<char>>, d: Option<Seq<char>>) -> int {
    match d {
        None => -1,
        Some(name) => first_index_of(divs, name),
    }
}

pub open spec fn div_index_lines(divs: Seq<Seq<char>>, ts: Seq<TeamView>) -> Seq<Seq<char>> {
    ts.map_values(|tm: TeamView| il(div_index(divs, tm.division)))
}

pub open spec fn writes_divisions(t: TournamentView) -> bool {
    t.uses_divisions && t.divisions.len() > 0
}

/// Divisions: their count and names, then each team's division index; or
/// zeros when divisions are not used.
pub open spec fn divisions_section(t: TournamentView) -> Seq<Seq<char>> {
    if writes_divisions(t) {
        seq![il(t.divisions.len() as int)] + t.divisions + seq![il(t.teams.len() as int)]
            + div_index_lines(t.divisions, t.teams)
    } else {
        seq![il(0), il(0)] + Seq::new(t.teams.len(), |i: int| il(0))
    }
}

/// The four point values, 0 for a disabled category.
pub open spec fn q_section(s: ScoringView) -> Seq<Seq<char>> {
    Seq::new(4, |i: int| il(spec_effective_q_value(s, i) as int))
}

/// The packet name of round `r`, `-` when it has none.
pub open spec fn packet_name(m: Map<u32, Seq<char>>, r: int) -> Seq<char> {
    if 0 <= r <= u32::MAX && m.contains_key(r as u32) {
        m[r as u32]
    } else {
        dash()
    }
}

/// Whether the packet section lists names (rather than a lone 0).
pub open spec fn writes_packets(t: TournamentView) -> bool {
    t.games.len() > 0 && !t.packets.is_empty()
}

/// Packets: the number of rounds from the first to the last, then each
/// round's packet name; or 0.
pub open spec fn packets_section(t: TournamentView) -> Seq<Seq<char>> {
    if writes_packets(t) {
        let mn = spec_min_round(t.games).unwrap() as int;
        let mx = spec_max_round(t.games).unwrap() as int;
        seq![il(mx - mn + 1)] + Seq::new((mx - mn + 1) as nat, |k: int| packet_name(t.packets, mn + k))
    } else {
        seq![il(0)]
    }
}

/// Exhibition: team count, then each team's exhibition flag.
pub open spec fn exhibition_section(ts: Seq<TeamView>) -> Seq<Seq<char>> {
    seq![il(ts.len() as int)] + ts.map_values(|tm: TeamView| bl(tm.exhibition))
}

pub open spec fn has_manual_rank(ts: Seq<TeamView>) -> bool {
    exists|i: int| 0 <= i < ts.len() && #[trigger] ts[i].manual_rank > 0
}

/// Manual ranks: present only when a team has one.
pub open spec fn manual_section(ts: Seq<TeamView>) -> Seq<Seq<char>> {
    if has_manual_rank(ts) {
        seq![marker_line(), il(ts.len() as int)] + ts.map_values(
            |tm: TeamView| il(tm.manual_rank as int),
        )
    } else {
        Seq::empty()
    }
}

/// The lines of the file written for `t`.
pub open spec fn file_lines_of(t: TournamentView) -> Seq<Seq<char>> {
    teams_section(t.teams) + games_section(t.games) + settings_section(t) + divisions_section(t)
        + q_section(t.scoring) + packets_section(t) + exhibition_section(t.teams) + manual_section(
        t.teams,
    )
}

/// What the writer needs of a tournament: counts that fit the machine, and a
/// round range whose length fits a `u32` when packets are written.
pub open spec fn writable(t: TournamentView) -> bool {
    &&& forall|i: int| 0 <= i < t.teams.len() ==> #[trigger] t.teams[i].players.len() < usize::MAX
    &&& t.divisions.len() <= i64::MAX
    &&& writes_packets(t) ==> !(spec_min_round(t.games) == Some(0u32) && spec_max_round(t.games)
        == Some(u32::MAX))
}

// ── Writing ────────────────────────────────────────────────────────────────

fn push_line(v: &mut Vec<String>, s: String)
    ensures
        lines_view(final(v)@) == lines_view(old(v)@).push(s@),
{
    v.push(s);
    proof {
        assert(lines_view(v@) =~= lines_view(old(v)@).push(s@));
    }
}

fn push_int(v: &mut Vec<String>, n: i64)
    ensures
        lines_view(final(v)@) == lines_view(old(v)@).push(il(n as int)),
{
    proof {
        reveal(il);
    }
    push_line(v, int_string(n));
}

fn push_uint(v: &mut Vec<String>, n: u64)
    ensures
        lines_view(final(v)@) == lines_view(old(v)@).push(il(n as int)),
{
    proof {
        reveal(il);
    }
    push_line(v, uint_string(n));
}

fn push_bool(v: &mut Vec<String>, b: bool)
    ensures
        lines_view(final(v)@) == lines_view(old(v)@).push(bl(b)),
{
    push_int(v, if b { 1 } else { 0 });
}

fn push_text(v: &mut Vec<String>, s: &String)
    ensures
        lines_view(final(v)@) == lines_view(old(v)@).push(s@),
{
    push_line(v, s.clone());
}

fn push_team(v: &mut Vec<String>, tm: &Team)
    requires
        tm@.players.len() < usize::MAX,
    ensures
        lines_view(final(v)@) == lines_view(old(v)@) + team_lines(tm@),
{
    let ghost v0 = lines_view(v@);
    push_uint(v, (tm.players.len() + 1) as u64);
    push_text(v, &tm.name);
    let mut j: usize = 0;
    while j < tm.players.len()
        invariant
            j <= tm.players@.len(),
            lines_view(v@) == v0 + seq![il(tm@.players.len() as int + 1), tm@.name] + tm@.players.take(
                j as int,
            ),
        decreases tm.players@.len() - j,
    {
        push_text(v, &tm.players[j].name);
        assert(tm@.players.take(j + 1) =~= tm@.players.take(j as int).push(tm@.players[j as int]));
        j = j + 1;
    }
    assert(tm@.players.take(j as int) =~= tm@.players);
}

fn push_teams(v: &mut Vec<String>, teams: &Vec<Team>)
    requires
        forall|i: int|
            0 <= i < teams@.len() ==> #[trigger] team_views(teams@)[i].players.len() < usize::MAX,
    ensures
        lines_view(final(v)@) == lines_view(old(v)@) + teams_section(team_views(teams@)),
{
    let ghost v0 = lines_view(v@);
    let ghost ts = team_views(teams@);
    push_uint(v, teams.len() as u64);
    let mut i: usize = 0;
    while i < teams.len()
        invariant
            i <= teams@.len(),
            ts == team_views(teams@),
            forall|k: int| 0 <= k < teams@.len() ==> #[trigger] ts[k].players.len() < usize::MAX,
            lines_view(v@) == v0 + seq![il(ts.len() as int)] + teams_lines(ts.take(i as int)),
        decreases teams@.len() - i,
    {
        assert(ts[i as int] == teams@[i as int]@);
        push_team(v, &teams[i]);
        proof {
            ts.lemma_flat_map_take_append(|t: TeamView| team_lines(t), i as int);
        }
        i = i + 1;
    }
    assert(ts.take(i as int) =~= ts);
}


fn slot_ref(ps: &Vec<Option<PlayerScore>>, i: usize) -> (r: Option<&PlayerScore>)
    ensures
        match r {
            Some(p) => slot(score_views(ps@), i as int) == Some(p@),
            None => slot(score_views(ps@), i as int) is None,
        },
{
    if i < ps.len() {
        match &ps[i] {
            Some(p) => Some(p),
            None => None,
        }
    } else {
        None
    }
}

fn push_record(v: &mut Vec<String>, r: Option<&PlayerScore>)
    ensures
        lines_view(final(v)@) == lines_view(old(v)@) + record_lines(
            match r {
                Some(p) => Some(p@),
                None => None,
            },
        ),
{
    let ghost v0 = lines_view(v@);
    match r {
        None => {
            push_int(v, -1);
            push_int(v, 0);
            push_int(v, 0);
            push_int(v, 0);
            push_int(v, 0);
            push_int(v, 0);
            push_int(v, 0);
            assert(lines_view(v@) =~= v0 + record_lines(None));
        },
        Some(p) => {
            push_uint(v, p.player_index as u64);
            push_text(v, &p.gp);
            push_int(v, p.q[0] as i64);
            push_int(v, p.q[1] as i64);
            push_int(v, p.q[2] as i64);
            push_int(v, p.q[3] as i64);
            push_int(v, p.points as i64);
            assert(lines_view(v@) =~= v0 + record_lines(Some(p@)));
        },
    }
}

fn push_game(v: &mut Vec<String>, g: &Game)
    ensures
        lines_view(final(v)@) == lines_view(old(v)@) + game_lines(g@),
{
    let ghost v0 = lines_view(v@);
    let a = &g.team_a;
    let b = &g.team_b;
    push_text(v, &g.game_index);
    push_uint(v, a.team_index as u64);
    push_uint(v, b.team_index as u64);
    push_int(v, a.total_points as i64);
    push_int(v, b.total_points as i64);
    push_uint(v, g.tossups_heard as u64);
    push_uint(v, g.round as u64);
    push_int(v, a.bonus_heard as i64 + a.bb_heard as i64 * BB);
    push_int(v, a.bonus_points as i64 + a.bb_points as i64 * BB);
    push_int(v, b.bonus_heard as i64 + b.bb_heard as i64 * BB);
    push_int(v, b.bonus_points as i64 + b.bb_points as i64 * BB);
    push_bool(v, g.overtime);
    push_int(v, a.ot_gets as i64);
    push_int(v, b.ot_gets as i64);
    push_bool(v, g.forfeit);
    push_int(v, a.lightning_points as i64);
    push_int(v, b.lightning_points as i64);
    assert(lines_view(v@) =~= v0 + game_head_lines(g@));
    let ghost v1 = lines_view(v@);
    let ghost rs = slots(g@.team_a.player_scores, g@.team_b.player_scores);
    let mut k: usize = 0;
    while k < 8
        invariant
            k <= 8,
            rs == slots(g@.team_a.player_scores, g@.team_b.player_scores),
            g@.team_a.player_scores == score_views(a.player_scores@),
            g@.team_b.player_scores == score_views(b.player_scores@),
            lines_view(v@) == v1 + records_lines(rs.take(2 * k)),
        decreases 8 - k,
    {
        let ra = slot_ref(&a.player_scores, k);
        proof {
            rs.lemma_flat_map_take_append(|r: Option<PlayerScoreView>| record_lines(r), 2 * k);
        }
        push_record(v, ra);
        let rb = slot_ref(&b.player_scores, k);
        proof {
            rs.lemma_flat_map_take_append(|r: Option<PlayerScoreView>| record_lines(r), 2 * k + 1);
        }
        push_record(v, rb);
        k = k + 1;
    }
    assert(rs.take(16) =~= rs);
}

fn push_games(v: &mut Vec<String>, games: &Vec<Game>)
    ensures
        lines_view(final(v)@) == lines_view(old(v)@) + games_section(game_views(games@)),
{
    let ghost v0 = lines_view(v@);
    let ghost gs = game_views(games@);
    push_uint(v, games.len() as u64);
    let mut i: usize = 0;
    while i < games.len()
        invariant
            i <= games@.len(),
            gs == game_views(games@),
            lines_view(v@) == v0 + seq![il(gs.len() as int)] + games_lines(gs.take(i as int)),
        decreases games@.len() - i,
    {
        assert(gs[i as int] == games@[i as int]@);
        push_game(v, &games[i]);
        proof {
            gs.lemma_flat_map_take_append(|g: GameView| game_lines(g), i as int);
        }
        i = i + 1;
    }
    assert(gs.take(i as int) =~= gs);
}

fn push_tracking(
    v: &mut Vec<String>,
    tb: bool,
    at: u8,
    tpn: bool,
    tlr: bool,
    ttuh: bool,
    sbp: bool,
    wf: u8,
)
    ensures
        lines_view(final(v)@) == lines_view(old(v)@) + seq![
            bl(tb),
            il(at as int),
            il(if tpn { 3 } else { 2 }),
            bl(tlr),
            bl(ttuh),
            il(if sbp { 3 } else { 2 }),
            il(wf as int),
        ],
{
    let ghost v0 = lines_view(v@);
    push_bool(v, tb);
    push_uint(v, at as u64);
    push_int(v, if tpn { 3 } else { 2 });
    push_bool(v, tlr);
    push_bool(v, ttuh);
    push_int(v, if sbp { 3 } else { 2 });
    push_uint(v, wf as u64);
    assert(lines_view(v@) =~= v0 + seq![
        bl(tb),
        il(at as int),
        il(if tpn { 3 } else { 2 }),
        bl(tlr),
        bl(ttuh),
        il(if sbp { 3 } else { 2 }),
        il(wf as int),
    ]);
}

fn push_switches(v: &mut Vec<String>, r: &ReportSettings, ud: bool, sm: u8)
    ensures
        lines_view(final(v)@) == lines_view(old(v)@) + seq![
            bl(r@.include_rounds),
            bl(r@.include_standings),
            bl(r@.include_individuals),
            bl(r@.include_games),
            bl(r@.include_team_detail),
            bl(r@.include_player_detail),
            bl(r@.include_stat_key),
            bl(r@.use_style_sheet),
            bl(ud),
            il(sm as int),
        ],
{
    let ghost v0 = lines_view(v@);
    push_bool(v, r.include_rounds);
    push_bool(v, r.include_standings);
    push_bool(v, r.include_individuals);
    push_bool(v, r.include_games);
    push_bool(v, r.include_team_detail);
    push_bool(v, r.include_player_detail);
    push_bool(v, r.include_stat_key);
    push_bool(v, r.use_style_sheet);
    push_bool(v, ud);
    push_uint(v, sm as u64);
    assert(lines_view(v@) =~= v0 + seq![
        bl(r@.include_rounds),
        bl(r@.include_standings),
        bl(r@.include_individuals),
        bl(r@.include_games),
        bl(r@.include_team_detail),
        bl(r@.include_player_detail),
        bl(r@.include_stat_key),
        bl(r@.use_style_sheet),
        bl(ud),
        il(sm as int),
    ]);
}

fn push_flags(v: &mut Vec<String>, t: &Tournament)
    ensures
        lines_view(final(v)@) == lines_view(old(v)@) + flags_section(t@),
{
    let ghost v0 = lines_view(v@);
    let sc = &t.scoring;
    push_tracking(
        v,
        t.track_bonuses,
        sc.auto_track,
        sc.track_power_neg,
        sc.track_light_round,
        sc.track_tuh,
        sc.sort_by_ppg,
        t.warn_flags,
    );
    let ghost v1 = lines_view(v@);
    push_switches(v, &t.reports, t.uses_divisions, t.sort_method);
    assert(lines_view(v@) =~= v0 + flags_section(t@));
}

fn push_names(v: &mut Vec<String>, t: &Tournament)
    ensures
        lines_view(final(v)@) == lines_view(old(v)@) + names_section(t@),
{
    let ghost v1 = lines_view(v@);
    push_text(v, &t.name);
    push_line(v, String::new());
    push_line(v, String::new());
    push_line(v, String::new());
    push_text(v, &t.reports.base_name);
    push_int(v, if t.reports.british_style { 2 } else { 0 });
    push_text(v, &t.reports.rounds);
    push_text(v, &t.reports.standings);
    push_text(v, &t.reports.individuals);
    push_text(v, &t.reports.games);
    push_text(v, &t.reports.team_detail);
    push_text(v, &t.reports.player_detail);
    push_text(v, &t.reports.stat_key);
    push_text(v, &t.reports.style);
    assert(lines_view(v@) =~= v1 + names_section(t@));
}

proof fn lemma_first_index_of(divs: Seq<Seq<char>>, name: Seq<char>, i: int)
    requires
        0 <= i <= divs.len(),
        forall|j: int| 0 <= j < i ==> #[trigger] divs[j] != name,
    ensures
        i < divs.len() && divs[i] == name ==> first_index_of(divs, name) == i,
        i == divs.len() ==> first_index_of(divs, name) == -1,
    decreases i,
{
    if i > 0 {
        let rest = divs.drop_first();
        assert forall|j: int| 0 <= j < i - 1 implies #[trigger] rest[j] != name by {
            assert(rest[j] == divs[j + 1]);
        }
        lemma_first_index_of(rest, name, i - 1);
        assert(divs[0] != name);
        if i < divs.len() && divs[i] == name {
            assert(rest[i - 1] == divs[i]);
        }
    }
}

/// Index of the first division called `name`, -1 when there is none.
fn division_position(divs: &Vec<String>, name: &String) -> (r: i64)
    requires
        divs@.len() <= i64::MAX,
    ensures
        r == first_index_of(string_views(divs@), name@),
{
    let ghost ds = string_views(divs@);
    let mut i: usize = 0;
    while i < divs.len()
        invariant
            i <= divs@.len() <= i64::MAX,
            ds == string_views(divs@),
            forall|j: int| 0 <= j < i ==> #[trigger] ds[j] != name@,
        decreases divs@.len() - i,
    {
        if divs[i] == *name {
            proof {
                lemma_first_index_of(ds, name@, i as int);
            }
            return i as i64;
        }
        i = i + 1;
    }
    proof {
        lemma_first_index_of(ds, name@, i as int);
    }
    -1
}

fn push_divisions(v: &mut Vec<String>, t: &Tournament)
    requires
        t@.divisions.len() <= i64::MAX,
    ensures
        lines_view(final(v)@) == lines_view(old(v)@) + divisions_section(t@),
{
    let ghost v0 = lines_view(v@);
    let ghost ts = t@.teams;
    let ghost ds = t@.divisions;
    if t.uses_divisions && t.divisions.len() > 0 {
        push_uint(v, t.divisions.len() as u64);
        let mut i: usize = 0;
        while i < t.divisions.len()
            invariant
                i <= t.divisions@.len(),
                ds == string_views(t.divisions@),
                lines_view(v@) == v0 + seq![il(ds.len() as int)] + ds.take(i as int),
            decreases t.divisions@.len() - i,
        {
            push_text(v, &t.divisions[i]);
            assert(ds.take(i + 1) =~= ds.take(i as int).push(ds[i as int]));
            i = i + 1;
        }
        assert(ds.take(i as int) =~= ds);
        push_uint(v, t.teams.len() as u64);
        let ghost v1 = lines_view(v@);
        let mut k: usize = 0;
        while k < t.teams.len()
            invariant
                k <= t.teams@.len(),
                ts == team_views(t.teams@),
                ds == string_views(t.divisions@),
                ds.len() <= i64::MAX,
                lines_view(v@) == v1 + div_index_lines(ds, ts).take(k as int),
            decreases t.teams@.len() - k,
        {
            let idx: i64 = match &t.teams[k].division {
                Some(name) => division_position(&t.divisions, name),
                None => -1,
            };
            assert(ts[k as int] == t.teams@[k as int]@);
            push_int(v, idx);
            assert(div_index_lines(ds, ts).take(k + 1) =~= div_index_lines(ds, ts).take(
                k as int,
            ).push(il(idx as int)));
            k = k + 1;
        }
        assert(div_index_lines(ds, ts).take(k as int) =~= div_index_lines(ds, ts));
    } else {
        push_int(v, 0);
        push_int(v, 0);
        let ghost v1 = lines_view(v@);
        let mut k: usize = 0;
        while k < t.teams.len()
            invariant
                k <= t.teams@.len(),
                ts == team_views(t.teams@),
                lines_view(v@) == v1 + Seq::new(ts.len(), |i: int| il(0)).take(k as int),
            decreases t.teams@.len() - k,
        {
            push_int(v, 0);
            assert(Seq::new(ts.len(), |i: int| il(0)).take(k + 1) =~= Seq::new(
                ts.len(),
                |i: int| il(0),
            ).take(k as int).push(il(0)));
            k = k + 1;
        }
        assert(Seq::new(ts.len(), |i: int| il(0)).take(k as int) =~= Seq::new(
            ts.len(),
            |i: int| il(0),
        ));
        assert(lines_view(v@) =~= v0 + divisions_section(t@));
    }
}

fn push_q_values(v: &mut Vec<String>, t: &Tournament)
    ensures
        lines_view(final(v)@) == lines_view(old(v)@) + q_section(t@.scoring),
{
    let ghost v0 = lines_view(v@);
    let mut i: usize = 0;
    while i < 4
        invariant
            i <= 4,
            lines_view(v@) == v0 + q_section(t@.scoring).take(i as int),
        decreases 4 - i,
    {
        let q = t.effective_q_value(i);
        push_int(v, q as i64);
        assert(q_section(t@.scoring).take(i + 1) =~= q_section(t@.scoring).take(i as int).push(
            il(q as int),
        ));
        i = i + 1;
    }
    assert(q_section(t@.scoring).take(4) =~= q_section(t@.scoring));
}

fn push_packets(v: &mut Vec<String>, t: &Tournament)
    requires
        writable(t@),
    ensures
        lines_view(final(v)@) == lines_view(old(v)@) + packets_section(t@),
{
    let ghost v0 = lines_view(v@);
    proof {
        lemma_round_bounds(t@.games);
    }
    let lo = t.min_round();
    let hi = t.max_round();
    match (lo, hi) {
        (Some(mn), Some(mx)) => {
            if mx >= mn && !t.packets.is_empty() {
                let count: u32 = mx - mn + 1;
                push_uint(v, count as u64);
                let ghost names = Seq::new(
                    count as nat,
                    |k: int| packet_name(t@.packets, mn as int + k),
                );
                let mut k: u32 = 0;
                while k < count
                    invariant
                        k <= count,
                        count == mx - mn + 1,
                        names == Seq::new(count as nat, |j: int| packet_name(t@.packets, mn as int + j)),
                        lines_view(v@) == v0 + seq![il(count as int)] + names.take(k as int),
                    decreases count - k,
                {
                    let r: u32 = mn + k;
                    match t.packets.get(&r) {
                        Some(name) => {
                            push_text(v, name);
                        },
                        None => {
                            push_line(v, String::from_str("-"));
                        },
                    }
                    assert(names.take(k + 1) =~= names.take(k as int).push(names[k as int]));
                    k = k + 1;
                }
                assert(names.take(k as int) =~= names);
            } else {
                push_int(v, 0);
            }
        },
        _ => {
            push_int(v, 0);
        },
    }
}


fn push_exhibition(v: &mut Vec<String>, teams: &Vec<Team>)
    ensures
        lines_view(final(v)@) == lines_view(old(v)@) + exhibition_section(team_views(teams@)),
{
    let ghost v0 = lines_view(v@);
    let ghost ts = team_views(teams@);
    let ghost flags = ts.map_values(|tm: TeamView| bl(tm.exhibition));
    push_uint(v, teams.len() as u64);
    let mut i: usize = 0;
    while i < teams.len()
        invariant
            i <= teams@.len(),
            ts == team_views(teams@),
            flags == ts.map_values(|tm: TeamView| bl(tm.exhibition)),
            lines_view(v@) == v0 + seq![il(ts.len() as int)] + flags.take(i as int),
        decreases teams@.len() - i,
    {
        assert(ts[i as int] == teams@[i as int]@);
        push_bool(v, teams[i].exhibition);
        assert(flags.take(i + 1) =~= flags.take(i as int).push(flags[i as int]));
        i = i + 1;
    }
    assert(flags.take(i as int) =~= flags);
}

fn push_manual_ranks(v: &mut Vec<String>, teams: &Vec<Team>)
    ensures
        lines_view(final(v)@) == lines_view(old(v)@) + manual_section(team_views(teams@)),
{
    let ghost v0 = lines_view(v@);
    let ghost ts = team_views(teams@);
    let mut any = false;
    let mut i: usize = 0;
    while i < teams.len()
        invariant
            i <= teams@.len(),
            ts == team_views(teams@),
            any == exists|j: int| 0 <= j < i && #[trigger] ts[j].manual_rank > 0,
        decreases teams@.len() - i,
    {
        assert(ts[i as int] == teams@[i as int]@);
        if teams[i].manual_rank > 0 {
            any = true;
            assert(ts[i as int].manual_rank > 0);
        } else {
            assert forall|j: int| 0 <= j < i + 1 && #[trigger] ts[j].manual_rank > 0 implies j < i by {}
        }
        i = i + 1;
    }
    if !any {
        assert(!has_manual_rank(ts));
        assert(lines_view(v@) =~= v0 + manual_section(ts));
        return;
    }
    push_line(v, String::from_str("SQBSMANUALRANKS"));
    push_uint(v, teams.len() as u64);
    let ghost ranks = ts.map_values(|tm: TeamView| il(tm.manual_rank as int));
    let mut k: usize = 0;
    while k < teams.len()
        invariant
            k <= teams@.len(),
            ts == team_views(teams@),
            ranks == ts.map_values(|tm: TeamView| il(tm.manual_rank as int)),
            lines_view(v@) == v0 + seq![marker_line(), il(ts.len() as int)] + ranks.take(k as int),
        decreases teams@.len() - k,
    {
        assert(ts[k as int] == teams@[k as int]@);
        push_uint(v, teams[k].manual_rank as u64);
        assert(ranks.take(k + 1) =~= ranks.take(k as int).push(ranks[k as int]));
        k = k + 1;
    }
    assert(ranks.take(k as int) =~= ranks);
}

/// The lines of the file written for `t`, in order.
pub fn sqbs_lines(t: &Tournament) -> (v: Vec<String>)
    requires
        writable(t@),
    ensures
        lines_view(v@) == file_lines_of(t@),
{
    let mut v: Vec<String> = Vec::new();
    assert(lines_view(v@) =~= Seq::<Seq<char>>::empty());
    assert forall|i: int| 0 <= i < t.teams@.len() implies #[trigger] team_views(
        t.teams@,
    )[i].players.len() < usize::MAX by {
        assert(t@.teams[i].players.len() < usize::MAX);
    }
    push_teams(&mut v, &t.teams);
    push_games(&mut v, &t.games);
    push_flags(&mut v, t);
    push_names(&mut v, t);
    push_divisions(&mut v, t);
    push_q_values(&mut v, &t);
    push_packets(&mut v, t);
    push_exhibition(&mut v, &t.teams);
    push_manual_ranks(&mut v, &t.teams);
    assert(lines_view(v@) =~= file_lines_of(t@));
    v
}

pub proof fn lemma_join_push(ls: Seq<Seq<char>>, l: Seq<char>)
    ensures
        join_lines(ls.push(l)) == join_lines(ls) + l.push('\n'),
{
    ls.lemma_flat_map_push(|x: Seq<char>| x.push('\n'), l);
}

/// The text of the tournament file for `t`: its lines, each ended by a
/// newline.
pub fn write_sqbs(t: &Tournament) -> (s: String)
    requires
        writable(t@),
    ensures
        s@ == join_lines(file_lines_of(t@)),
{
    let lines = sqbs_lines(t);
    let ghost ls = lines_view(lines@);
    let mut out = String::new();
    let mut i: usize = 0;
    assert(ls.take(0) =~= Seq::<Seq<char>>::empty());
    while i < lines.len()
        invariant
            i <= lines@.len(),
            ls == lines_view(lines@),
            out@ == join_lines(ls.take(i as int)),
        decreases lines@.len() - i,
    {
        out.append(lines[i].as_str());
        push_char(&mut out, '\n');
        proof {
            assert(ls.take(i + 1) =~= ls.take(i as int).push(ls[i as int]));
            lemma_join_push(ls.take(i as int), ls[i as int]);
        }
        i = i + 1;
    }
    assert(ls.take(i as int) =~= ls);
    assert(ls == file_lines_of(t@));
    out
}


// ── Reading: errors ────────────────────────────────────────────────────────

/// A setting stored in a byte.
#[derive(Debug, Clone, Copy, PartialEq, Eq, Structural)]
pub enum Setting {
    AutoTrack,
    WarnFlags,
    SortMethod,
}

/// Why a tournament file could not be read.
#[derive(Debug, Clone)]
pub enum SqbsError {
    /// More than `MAX_LINES` lines.
    TooManyLines,
    /// The file ended where a value was expected.
    UnexpectedEof,
    /// A line that should hold an integer does not.
    InvalidInt(IntErrorKind),
    /// The team count is outside 0..=100.
    InvalidTeamCount(i64),
    /// A member count is outside 1..=`MAX_MEMBER_COUNT`.
    MemberCountOutOfRange(i64),
    /// The game count is outside 0..=`MAX_GAME_COUNT`.
    GameCountOutOfRange(i64),
    /// A game names a negative team index.
    InvalidTeamIndices { game_index: String, raw_a: i64, raw_b: i64 },
    /// A game names a team index past the team list.
    TeamIndexOutOfRange { game_index: String, team_a: usize, team_b: usize, teams: usize },
    /// A byte-sized setting is outside 0..=255.
    SettingOutOfRange(Setting),
    /// The division count is outside 0..=`MAX_DIVISIONS`.
    DivisionCountOutOfRange(i64),
}

pub enum SqbsErrorView {
    TooManyLines,
    UnexpectedEof,
    InvalidInt(IntErrorKind),
    InvalidTeamCount(i64),
    MemberCountOutOfRange(i64),
    GameCountOutOfRange(i64),
    InvalidTeamIndices { game_index: Seq<char>, raw_a: i64, raw_b: i64 },
    TeamIndexOutOfRange { game_index: Seq<char>, team_a: usize, team_b: usize, teams: usize },
    SettingOutOfRange(Setting),
    DivisionCountOutOfRange(i64),
}

impl View for SqbsError {
    type V = SqbsErrorView;

    open spec fn view(&self) -> SqbsErrorView {
        match self {
            SqbsError::TooManyLines => SqbsErrorView::TooManyLines,
            SqbsError::UnexpectedEof => SqbsErrorView::UnexpectedEof,
            SqbsError::InvalidInt(k) => SqbsErrorView::InvalidInt(*k),
            SqbsError::InvalidTeamCount(n) => SqbsErrorView::InvalidTeamCount(*n),
            SqbsError::MemberCountOutOfRange(n) => SqbsErrorView::MemberCountOutOfRange(*n),
            SqbsError::GameCountOutOfRange(n) => SqbsErrorView::GameCountOutOfRange(*n),
            SqbsError::InvalidTeamIndices { game_index, raw_a, raw_b } =>
                SqbsErrorView::InvalidTeamIndices {
                game_index: game_index@,
                raw_a: *raw_a,
                raw_b: *raw_b,
            },
            SqbsError::TeamIndexOutOfRange { game_index, team_a, team_b, teams } =>
                SqbsErrorView::TeamIndexOutOfRange {
                game_index: game_index@,
                team_a: *team_a,
                team_b: *team_b,
                teams: *teams,
            },
            SqbsError::SettingOutOfRange(w) => SqbsErrorView::SettingOutOfRange(*w),
            SqbsError::DivisionCountOutOfRange(n) => SqbsErrorView::DivisionCountOutOfRange(*n),
        }
    }
}

/// The name of a byte-sized setting, as error messages give it.
pub open spec fn setting_name(w: Setting) -> Seq<char> {
    match w {
        Setting::AutoTrack => "auto_track"@,
        Setting::WarnFlags => "warn_flags"@,
        Setting::SortMethod => "sort_method"@,
    }
}

/// The message of each error.
pub open spec fn error_text(e: SqbsErrorView) -> Seq<char> {
    match e {
        SqbsErrorView::TooManyLines => "file exceeds maximum line limit of 100000"@,
        SqbsErrorView::UnexpectedEof => "EOF"@,
        SqbsErrorView::InvalidInt(k) => int_error_text(k),
        SqbsErrorView::InvalidTeamCount(n) => "invalid team count: "@ + fmt_int(n as int),
        SqbsErrorView::MemberCountOutOfRange(n) => "member count "@ + fmt_int(n as int)
            + " out of range (1\u{2013}100)"@,
        SqbsErrorView::GameCountOutOfRange(n) => "game count "@ + fmt_int(n as int)
            + " out of range (0\u{2013}10000)"@,
        SqbsErrorView::InvalidTeamIndices { game_index, raw_a, raw_b } =>
            "invalid team indices in game '"@ + game_index + "': "@ + fmt_int(raw_a as int)
            + ", "@ + fmt_int(raw_b as int),
        SqbsErrorView::TeamIndexOutOfRange { game_index, team_a, team_b, teams } => "game '"@
            + game_index + "' references out-of-range team index (a="@ + fmt_int(team_a as int)
            + ", b="@ + fmt_int(team_b as int) + ", teams="@ + fmt_int(teams as int) + ")"@,
        SqbsErrorView::SettingOutOfRange(w) => setting_name(w)
            + ": out of range integral type conversion attempted"@,
        SqbsErrorView::DivisionCountOutOfRange(n) => "division count "@ + fmt_int(n as int)
            + " out of range (0\u{2013}50)"@,
    }
}

impl Setting {
    /// The setting's name.
    pub fn name(&self) -> (s: String)
        ensures
            s@ == setting_name(*self),
    {
        match self {
            Setting::AutoTrack => String::from_str("auto_track"),
            Setting::WarnFlags => String::from_str("warn_flags"),
            Setting::SortMethod => String::from_str("sort_method"),
        }
    }
}

impl SqbsError {
    /// The error's message.
    pub fn message(&self) -> (s: String)
        ensures
            s@ == error_text(self@),
    {
        match self {
            SqbsError::TooManyLines => String::from_str("file exceeds maximum line limit of 100000"),
            SqbsError::UnexpectedEof => String::from_str("EOF"),
            SqbsError::InvalidInt(k) => k.message(),
            SqbsError::InvalidTeamCount(n) => {
                let mut s = String::from_str("invalid team count: ");
                s.append(int_string(*n).as_str());
                s
            },
            SqbsError::MemberCountOutOfRange(n) => {
                let mut s = String::from_str("member count ");
                s.append(int_string(*n).as_str());
                s.append(" out of range (1\u{2013}100)");
                s
            },
            SqbsError::GameCountOutOfRange(n) => {
                let mut s = String::from_str("game count ");
                s.append(int_string(*n).as_str());
                s.append(" out of range (0\u{2013}10000)");
                s
            },
            SqbsError::InvalidTeamIndices { game_index, raw_a, raw_b } => {
                let mut s = String::from_str("invalid team indices in game '");
                s.append(game_index.as_str());
                s.append("': ");
                s.append(int_string(*raw_a).as_str());
                s.append(", ");
                s.append(int_string(*raw_b).as_str());
                s
            },
            SqbsError::TeamIndexOutOfRange { game_index, team_a, team_b, teams } => {
                let mut s = String::from_str("game '");
                s.append(game_index.as_str());
                s.append("' references out-of-range team index (a=");
                s.append(uint_string(*team_a as u64).as_str());
                s.append(", b=");
                s.append(uint_string(*team_b as u64).as_str());
                s.append(", teams=");
                s.append(uint_string(*teams as u64).as_str());
                s.append(")");
                s
            },
            SqbsError::SettingOutOfRange(w) => {
                let mut s = w.name();
                s.append(": out of range integral type conversion attempted");
                s
            },
            SqbsError::DivisionCountOutOfRange(n) => {
                let mut s = String::from_str("division count ");
                s.append(int_string(*n).as_str());
                s.append(" out of range (0\u{2013}50)");
                s
            },
        }
    }
}

pub open spec fn err_view<T>(r: Result<T, SqbsError>) -> Result<T, SqbsErrorView> {
    match r {
        Ok(x) => Ok(x),
        Err(e) => Err(e@),
    }
}

// ── Reading: the lines of a file ───────────────────────────────────────────

/// Lines as `read_line` delivers them: split after each newline, the last
/// one kept only if it is not empty. The newline stays out of the line.
pub open spec fn split_acc(s: Seq<char>) -> (Seq<Seq<char>>, Seq<char>)
    decreases s.len(),
{
    if s.len() == 0 {
        (Seq::empty(), Seq::empty())
    } else {
        let (ls, cur) = split_acc(s.drop_last());
        if s.last() == '\n' {
            (ls.push(cur), Seq::empty())
        } else {
            (ls, cur.push(s.last()))
        }
    }
}

pub open spec fn raw_lines(s: Seq<char>) -> Seq<Seq<char>> {
    let (ls, cur) = split_acc(s);
    if cur.len() > 0 {
        ls.push(cur)
    } else {
        ls
    }
}

/// A line without its trailing carriage returns and newlines.
pub open spec fn strip_eol(l: Seq<char>) -> Seq<char>
    decreases l.len(),
{
    if l.len() > 0 && (l.last() == '\r' || l.last() == '\n') {
        strip_eol(l.drop_last())
    } else {
        l
    }
}

pub open spec fn strip_all(ls: Seq<Seq<char>>) -> Seq<Seq<char>> {
    ls.map_values(|l: Seq<char>| strip_eol(l))
}

/// The lines of a file's text.
pub open spec fn file_lines(s: Seq<char>) -> Seq<Seq<char>> {
    strip_all(raw_lines(s))
}

// ── Reading: one value per line ────────────────────────────────────────────

pub open spec fn rd_line(ls: Seq<Seq<char>>, p: int) -> Result<Seq<char>, SqbsErrorView> {
    if 0 <= p < ls.len() {
        Ok(ls[p])
    } else {
        Err(SqbsErrorView::UnexpectedEof)
    }
}

/// The integer on line `p`, surrounding white space ignored.
pub open spec fn rd_int(ls: Seq<Seq<char>>, p: int) -> Result<i64, SqbsErrorView> {
    if 0 <= p < ls.len() {
        match spec_parse_i64(trim(ls[p])) {
            Ok(v) => Ok(v),
            Err(k) => Err(SqbsErrorView::InvalidInt(k)),
        }
    } else {
        Err(SqbsErrorView::UnexpectedEof)
    }
}

/// Where reading goes on after a line is asked for: past it, unless the
/// file has ended.
pub open spec fn adv(ls: Seq<Seq<char>>, p: int) -> int {
    if 0 <= p < ls.len() {
        p + 1
    } else {
        p
    }
}

/// `k` integers from line `p` on.
pub open spec fn sp_ints(ls: Seq<Seq<char>>, p: int, k: nat) -> Result<Seq<i64>, SqbsErrorView>
    decreases k,
{
    if k == 0 {
        Ok(Seq::empty())
    } else {
        match rd_int(ls, p) {
            Err(e) => Err(e),
            Ok(v) => match sp_ints(ls, p + 1, (k - 1) as nat) {
                Err(e) => Err(e),
                Ok(vs) => Ok(seq![v] + vs),
            },
        }
    }
}

// ── Reading: teams ─────────────────────────────────────────────────────────

/// A team at line `p`, and the line after it.
pub open spec fn sp_team(ls: Seq<Seq<char>>, p: int) -> Result<(TeamView, int), SqbsErrorView> {
    match rd_int(ls, p) {
        Err(e) => Err(e),
        Ok(mc) => if !(1 <= mc <= MAX_MEMBER_COUNT) {
            Err(SqbsErrorView::MemberCountOutOfRange(mc))
        } else {
            match rd_line(ls, p + 1) {
                Err(e) => Err(e),
                Ok(name) => if p + 1 + mc <= ls.len() {
                    Ok(
                        (
                            TeamView {
                                name,
                                players: ls.subrange(p + 2, p + 1 + mc),
                                division: None,
                                exhibition: false,
                                manual_rank: 0,
                            },
                            p + 1 + mc,
                        ),
                    )
                } else {
                    Err(SqbsErrorView::UnexpectedEof)
                },
            }
        },
    }
}

pub open spec fn sp_teams(ls: Seq<Seq<char>>, p: int, k: nat) -> Result<
    (Seq<TeamView>, int),
    SqbsErrorView,
>
    decreases k,
{
    if k == 0 {
        Ok((Seq::empty(), p))
    } else {
        match sp_team(ls, p) {
            Err(e) => Err(e),
            Ok((t, p2)) => match sp_teams(ls, p2, (k - 1) as nat) {
                Err(e) => Err(e),
                Ok((ts, p3)) => Ok((seq![t] + ts, p3)),
            },
        }
    }
}

/// The teams read by `sp_teams` are as many as asked for, each with fewer
/// than 100 players.
proof fn lemma_sp_teams_shape(ls: Seq<Seq<char>>, p: int, k: nat)
    ensures
        sp_teams(ls, p, k) matches Ok((ts, _)) ==> ts.len() == k && forall|i: int|
            0 <= i < ts.len() ==> #[trigger] ts[i].players.len() < 100,
    decreases k,
{
    if k > 0 {
        match sp_team(ls, p) {
            Ok((t, p2)) => {
                lemma_sp_teams_shape(ls, p2, (k - 1) as nat);
                match sp_teams(ls, p2, (k - 1) as nat) {
                    Ok((ts, p3)) => {
                        let all = seq![t] + ts;
                        let mc = rd_int(ls, p)->Ok_0;
                        assert(t.players == ls.subrange(p + 2, p + 1 + mc));
                        assert(t.players.len() < 100);
                        assert forall|i: int| 0 <= i < all.len() implies #[trigger] all[i].players.len() < 100 by {
                            if i == 0 {
                                assert(all[0] == t);
                            } else {
                                assert(all[i] == ts[i - 1]);
                                assert(ts[i - 1].players.len() < 100);
                            }
                        }
                        let r = sp_teams(ls, p, k);
                        assert(r == Ok::<(Seq<TeamView>, int), SqbsErrorView>((all, p3)));
                        assert forall|i: int| 0 <= i < r->Ok_0.0.len() implies #[trigger] r->Ok_0.0[i].players.len() < 100 by {
                            assert(all[i].players.len() < 100);
                        }
                    },
                    Err(_) => {},
                }
            },
            Err(_) => {},
        }
    }
}

/// The roster size limit after reading `ts`: 6, raised to the largest roster.
pub open spec fn max_players(ts: Seq<TeamView>) -> u32
    decreases ts.len(),
{
    if ts.len() == 0 {
        6
    } else {
        let m = max_players(ts.drop_last());
        if (m as int) < ts.last().players.len() {
            ts.last().players.len() as u32
        } else {
            m
        }
    }
}

// ── Reading: games ─────────────────────────────────────────────────────────

/// A player record at line `p` (7 lines).
pub open spec fn sp_record(ls: Seq<Seq<char>>, p: int) -> Result<
    Option<PlayerScoreView>,
    SqbsErrorView,
> {
    match rd_int(ls, p) {
        Err(e) => Err(e),
        Ok(idx) => if idx < 0 {
            if p + 7 <= ls.len() {
                Ok(None)
            } else {
                Err(SqbsErrorView::UnexpectedEof)
            }
        } else {
            match rd_line(ls, p + 1) {
                Err(e) => Err(e),
                Ok(gp) => match sp_ints(ls, p + 2, 5) {
                    Err(e) => Err(e),
                    Ok(xs) => Ok(
                        Some(
                            PlayerScoreView {
                                player_index: idx as usize,
                                gp,
                                q: seq![xs[0] as i32, xs[1] as i32, xs[2] as i32, xs[3] as i32],
                                points: xs[4] as i32,
                            },
                        ),
                    ),
                },
            }
        },
    }
}

pub open spec fn sp_records(ls: Seq<Seq<char>>, p: int, k: nat) -> Result<
    Seq<Option<PlayerScoreView>>,
    SqbsErrorView,
>
    decreases k,
{
    if k == 0 {
        Ok(Seq::empty())
    } else {
        match sp_record(ls, p) {
            Err(e) => Err(e),
            Ok(r) => match sp_records(ls, p + 7, (k - 1) as nat) {
                Err(e) => Err(e),
                Ok(rs) => Ok(seq![r] + rs),
            },
        }
    }
}

/// Rust's `/` on integers: the quotient rounded toward zero.
pub open spec fn tdiv(e: int, d: int) -> int {
    if e >= 0 {
        e / d
    } else {
        -((-e) / d)
    }
}

/// Rust's `%` on integers: the remainder with the sign of `e`.
pub open spec fn trem(e: int, d: int) -> int {
    e - tdiv(e, d) * d
}

/// A score line read as an `i32`, 0 when it is not one.
pub open spec fn int_or_zero(l: Seq<char>) -> i32 {
    match spec_parse_i32(trim(l)) {
        Ok(v) => v,
        Err(_) => 0,
    }
}

pub open spec fn evens(rs: Seq<Option<PlayerScoreView>>) -> Seq<Option<PlayerScoreView>> {
    Seq::new(8, |i: int| rs[2 * i])
}

pub open spec fn odds(rs: Seq<Option<PlayerScoreView>>) -> Seq<Option<PlayerScoreView>> {
    Seq::new(8, |i: int| rs[2 * i + 1])
}

/// The game built from the values read: `xs` holds, in order, tossups heard,
/// round, the four bonus codes, overtime, both overtime gets, forfeit and
/// both lightning scores; `rs` the 16 interleaved player records.
pub open spec fn game_of(
    gi: Seq<char>,
    a: i64,
    b: i64,
    a_s: Seq<char>,
    b_s: Seq<char>,
    xs: Seq<i64>,
    rs: Seq<Option<PlayerScoreView>>,
) -> GameView {
    GameView {
        game_index: gi,
        round: xs[1] as u32,
        tossups_heard: xs[0] as u32,
        overtime: xs[6] != 0,
        forfeit: xs[9] != 0,
        team_a: TeamScoreView {
            team_index: a as usize,
            total_points: int_or_zero(a_s),
            bonus_heard: trem(xs[2] as int, BB as int) as i32,
            bb_heard: tdiv(xs[2] as int, BB as int) as i32,
            bonus_points: trem(xs[3] as int, BB as int) as i32,
            bb_points: tdiv(xs[3] as int, BB as int) as i32,
            ot_gets: xs[7] as i32,
            lightning_points: xs[10] as i32,
            player_scores: evens(rs),
        },
        team_b: TeamScoreView {
            team_index: b as usize,
            total_points: int_or_zero(b_s),
            bonus_heard: trem(xs[4] as int, BB as int) as i32,
            bb_heard: tdiv(xs[4] as int, BB as int) as i32,
            bonus_points: trem(xs[5] as int, BB as int) as i32,
            bb_points: tdiv(xs[5] as int, BB as int) as i32,
            ot_gets: xs[8] as i32,
            lightning_points: xs[11] as i32,
            player_scores: odds(rs),
        },
    }
}

/// A game at line `p` (129 lines).
pub open spec fn sp_game(ls: Seq<Seq<char>>, p: int) -> Result<GameView, SqbsErrorView> {
    match rd_line(ls, p) {
        Err(e) => Err(e),
        Ok(gi) => match rd_int(ls, p + 1) {
            Err(e) => Err(e),
            Ok(a) => match rd_int(ls, p + 2) {
                Err(e) => Err(e),
                Ok(b) => if a < 0 || b < 0 {
                    Err(SqbsErrorView::InvalidTeamIndices { game_index: gi, raw_a: a, raw_b: b })
                } else {
                    match rd_line(ls, p + 3) {
                        Err(e) => Err(e),
                        Ok(a_s) => match rd_line(ls, p + 4) {
                            Err(e) => Err(e),
                            Ok(b_s) => match sp_ints(ls, p + 5, 12) {
                                Err(e) => Err(e),
                                Ok(xs) => match sp_records(ls, p + 17, 16) {
                                    Err(e) => Err(e),
                                    Ok(rs) => Ok(game_of(gi, a, b, a_s, b_s, xs, rs)),
                                },
                            },
                        },
                    }
                },
            },
        },
    }
}

pub open spec fn sp_games(ls: Seq<Seq<char>>, p: int, k: nat) -> Result<
    Seq<GameView>,
    SqbsErrorView,
>
    decreases k,
{
    if k == 0 {
        Ok(Seq::empty())
    } else {
        match sp_game(ls, p) {
            Err(e) => Err(e),
            Ok(g) => match sp_games(ls, p + 129, (k - 1) as nat) {
                Err(e) => Err(e),
                Ok(gs) => Ok(seq![g] + gs),
            },
        }
    }
}

/// The first game that names a team index past `n` teams, as an error.
pub open spec fn index_error(gs: Seq<GameView>, n: usize) -> Option<SqbsErrorView>
    decreases gs.len(),
{
    if gs.len() == 0 {
        None
    } else if gs[0].team_a.team_index >= n || gs[0].team_b.team_index >= n {
        Some(
            SqbsErrorView::TeamIndexOutOfRange {
                game_index: gs[0].game_index,
                team_a: gs[0].team_a.team_index,
                team_b: gs[0].team_b.team_index,
                teams: n,
            },
        )
    } else {
        index_error(gs.drop_first(), n)
    }
}

// ── Reading: settings ──────────────────────────────────────────────────────

/// The 17 setting integers at line `p`; the byte-sized ones are checked as
/// soon as they are read.
pub open spec fn sp_flags(ls: Seq<Seq<char>>, p: int) -> Result<Seq<i64>, SqbsErrorView> {
    match sp_ints(ls, p, 2) {
        Err(e) => Err(e),
        Ok(a) => if !(0 <= a[1] <= 255) {
            Err(SqbsErrorView::SettingOutOfRange(Setting::AutoTrack))
        } else {
            match sp_ints(ls, p + 2, 5) {
                Err(e) => Err(e),
                Ok(b) => if !(0 <= b[4] <= 255) {
                    Err(SqbsErrorView::SettingOutOfRange(Setting::WarnFlags))
                } else {
                    match sp_ints(ls, p + 7, 10) {
                        Err(e) => Err(e),
                        Ok(c) => if !(0 <= c[9] <= 255) {
                            Err(SqbsErrorView::SettingOutOfRange(Setting::SortMethod))
                        } else {
                            Ok(a + b + c)
                        },
                    }
                },
            }
        },
    }
}

/// The name block at line `p`: five lines (tournament, host, user,
/// directory, base name), the paths value, eight report file names.
pub open spec fn sp_names(ls: Seq<Seq<char>>, p: int) -> Result<i64, SqbsErrorView> {
    if p + 5 > ls.len() {
        Err(SqbsErrorView::UnexpectedEof)
    } else {
        match rd_int(ls, p + 5) {
            Err(e) => Err(e),
            Ok(paths) => if p + 14 > ls.len() {
                Err(SqbsErrorView::UnexpectedEof)
            } else {
                Ok(paths)
            },
        }
    }
}

/// The division block at line `p`: the count, the names, a team count, then
/// one division index per team.
pub open spec fn sp_divisions(ls: Seq<Seq<char>>, p: int, tc: nat) -> Result<
    (i64, Seq<i64>),
    SqbsErrorView,
> {
    match rd_int(ls, p) {
        Err(e) => Err(e),
        Ok(nd) => if !(0 <= nd <= MAX_DIVISIONS) {
            Err(SqbsErrorView::DivisionCountOutOfRange(nd))
        } else if p + 1 + nd > ls.len() {
            Err(SqbsErrorView::UnexpectedEof)
        } else {
            match rd_int(ls, p + 1 + nd) {
                Err(e) => Err(e),
                Ok(_) => match sp_ints(ls, p + 2 + nd, tc) {
                    Err(e) => Err(e),
                    Ok(ixs) => Ok((nd, ixs)),
                },
            }
        },
    }
}

pub open spec fn div_of(divs: Seq<Seq<char>>, ix: i64) -> Option<Seq<char>> {
    if 0 <= ix < divs.len() {
        Some(divs[ix as int])
    } else {
        None
    }
}

// ── Reading: the optional trailing sections ────────────────────────────────

/// The round range that packet names are numbered from: the games' first
/// and last rounds, or (1, 0) when there are none (or the first is
/// `u32::MAX`).
pub open spec fn round_range(gs: Seq<GameView>) -> (u32, u32) {
    match (spec_min_round(gs), spec_max_round(gs)) {
        (Some(a), Some(b)) => if a == u32::MAX {
            (1, 0)
        } else {
            (a, b)
        },
        _ => (1, 0),
    }
}

/// A `-` packet for every round from `mn` to `mx`.
pub open spec fn dash_packets(mn: u32, mx: u32) -> Map<u32, Seq<char>> {
    Map::new(|r: u32| mn <= r <= mx, |r: u32| dash())
}

/// Reads packet names for offsets `off..n` from line `pos` on; a missing
/// line gives `-`; an offset whose round passes `u32::MAX` is skipped.
pub open spec fn pk_loop(
    ls: Seq<Seq<char>>,
    pos: int,
    mn: u32,
    off: int,
    n: int,
    m: Map<u32, Seq<char>>,
) -> (Map<u32, Seq<char>>, int)
    decreases n - off,
{
    if off >= n {
        (m, pos)
    } else {
        let name = if 0 <= pos < ls.len() { ls[pos] } else { dash() };
        let r = mn as int + (off as u32) as int;
        let m2 = if r <= u32::MAX { m.insert(r as u32, name) } else { m };
        pk_loop(ls, adv(ls, pos), mn, off + 1, n, m2)
    }
}

/// The packet names, and where reading goes on.
pub open spec fn sp_packets(ls: Seq<Seq<char>>, p: int, read: bool, mn: u32, mx: u32) -> (
    Map<u32, Seq<char>>,
    int,
) {
    if read && 0 <= p < ls.len() {
        match spec_parse_i64(trim(ls[p])) {
            Ok(n) => if n >= 0 {
                pk_loop(ls, p + 1, mn, 0, n as int, Map::empty())
            } else {
                (dash_packets(mn, mx), p + 1)
            },
            Err(_) => (dash_packets(mn, mx), p + 1),
        }
    } else {
        (dash_packets(mn, mx), p)
    }
}

/// Reads exhibition flags for teams `i..n` from line `pos` on.
pub open spec fn ex_loop(ls: Seq<Seq<char>>, pos: int, i: int, n: int, flags: Seq<bool>) -> (
    Seq<bool>,
    int,
)
    decreases n - i,
{
    if i >= n {
        (flags, pos)
    } else if 0 <= pos < ls.len() {
        let f2 = match spec_parse_i64(trim(ls[pos])) {
            Ok(v) => if i < flags.len() {
                flags.update(i, v != 0)
            } else {
                flags
            },
            Err(_) => flags,
        };
        ex_loop(ls, pos + 1, i + 1, n, f2)
    } else {
        ex_loop(ls, pos, i + 1, n, flags)
    }
}

/// The exhibition flags of `tc` teams, and where reading goes on.
pub open spec fn sp_exhibition(ls: Seq<Seq<char>>, p: int, read: bool, tc: nat) -> (
    Seq<bool>,
    int,
) {
    let none = Seq::new(tc, |i: int| false);
    if read && 0 <= p < ls.len() {
        match spec_parse_i64(trim(ls[p])) {
            Ok(n) => if n >= 0 {
                ex_loop(ls, p + 1, 0, (n as usize) as int, none)
            } else {
                (none, p + 1)
            },
            Err(_) => (none, p + 1),
        }
    } else {
        (none, p)
    }
}

proof fn lemma_ex_loop_len(ls: Seq<Seq<char>>, pos: int, i: int, n: int, flags: Seq<bool>)
    requires
        0 <= i,
    ensures
        ex_loop(ls, pos, i, n, flags).0.len() == flags.len(),
    decreases n - i,
{
    if i < n {
        if 0 <= pos < ls.len() {
            let f2 = match spec_parse_i64(trim(ls[pos])) {
                Ok(v) => if i < flags.len() {
                    flags.update(i, v != 0)
                } else {
                    flags
                },
                Err(_) => flags,
            };
            lemma_ex_loop_len(ls, pos + 1, i + 1, n, f2);
        } else {
            lemma_ex_loop_len(ls, pos, i + 1, n, flags);
        }
    }
}

proof fn lemma_exhibition_len(ls: Seq<Seq<char>>, p: int, read: bool, tc: nat)
    ensures
        sp_exhibition(ls, p, read, tc).0.len() == tc,
{
    let none = Seq::new(tc, |i: int| false);
    if read && 0 <= p < ls.len() {
        match spec_parse_i64(trim(ls[p])) {
            Ok(n) => if n >= 0 {
                lemma_ex_loop_len(ls, p + 1, 0, (n as usize) as int, none);
            },
            Err(_) => {},
        }
    }
}

/// A manual rank line: a positive value that fits a `u32`, else 0.
pub open spec fn rank_of(l: Seq<char>) -> u32 {
    match spec_parse_i64(trim(l)) {
        Ok(r) => if 0 < r <= u32::MAX {
            r as u32
        } else {
            0
        },
        Err(_) => 0,
    }
}

/// The manual ranks of `tc` teams: read only after the marker line, and only
/// when the count matches and every rank line is there.
pub open spec fn sp_ranks(ls: Seq<Seq<char>>, p: int, tc: nat) -> Seq<u32> {
    let zeros = Seq::new(tc, |i: int| 0u32);
    if 0 <= p && p + 1 < ls.len() && trim(ls[p]) == marker_line() {
        match spec_parse_i64(trim(ls[p + 1])) {
            Ok(c) => if c == tc && p + 2 + tc <= ls.len() {
                Seq::new(tc, |i: int| rank_of(ls[p + 2 + i]))
            } else {
                zeros
            },
            Err(_) => zeros,
        }
    } else {
        zeros
    }
}

// ── Reading: the whole file ────────────────────────────────────────────────

/// The point values read: a nonzero value enables its category, a zero
/// disables it and keeps the default value.
pub open spec fn scoring_of(fl: Seq<i64>, qs: Seq<i64>) -> ScoringView {
    ScoringView {
        q_values: Seq::new(
            4,
            |i: int| if qs[i] as i32 != 0 { qs[i] as i32 } else { default_q_values()[i] },
        ),
        q_enabled: Seq::new(4, |i: int| qs[i] as i32 != 0),
        track_power_neg: (fl[2] & 1) != 0,
        track_light_round: fl[3] != 0,
        track_tuh: fl[4] != 0,
        auto_track: fl[1] as u8,
        sort_by_ppg: (fl[5] & 1) != 0,
    }
}

/// The report settings read: `head` holds the five lines of the name block
/// (base name last), `files` the eight report file names.
pub open spec fn reports_of(
    head: Seq<Seq<char>>,
    files: Seq<Seq<char>>,
    fl: Seq<i64>,
    paths: i64,
) -> ReportsView {
    ReportsView {
        base_name: head[4],
        rounds: files[0],
        standings: files[1],
        individuals: files[2],
        games: files[3],
        team_detail: files[4],
        player_detail: files[5],
        stat_key: files[6],
        style: files[7],
        include_rounds: fl[7] != 0,
        include_standings: fl[8] != 0,
        include_individuals: fl[9] != 0,
        include_games: fl[10] != 0,
        include_team_detail: fl[11] != 0,
        include_player_detail: fl[12] != 0,
        include_stat_key: fl[13] != 0,
        use_style_sheet: fl[14] != 0,
        british_style: (paths & 2) != 0,
    }
}

/// The teams read, each given its division, exhibition flag and manual rank.
pub open spec fn settled_teams(
    teams: Seq<TeamView>,
    divs: Seq<Seq<char>>,
    ixs: Seq<i64>,
    ex: Seq<bool>,
    ranks: Seq<u32>,
) -> Seq<TeamView> {
    Seq::new(
        teams.len(),
        |i: int|
            TeamView {
                name: teams[i].name,
                players: teams[i].players,
                division: div_of(divs, ixs[i]),
                exhibition: ex[i],
                manual_rank: ranks[i],
            },
    )
}

/// The tournament read from `ls`, given the values of its sections.
pub open spec fn tournament_of(
    ls: Seq<Seq<char>>,
    teams: Seq<TeamView>,
    games: Seq<GameView>,
    p_names: int,
    fl: Seq<i64>,
    paths: i64,
    divs: Seq<Seq<char>>,
    ixs: Seq<i64>,
    qs: Seq<i64>,
    p_opt: int,
) -> TournamentView {
    let (mn, mx) = round_range(games);
    let (packets, p_ex) = sp_packets(ls, p_opt, (fl[5] & 2) != 0, mn, mx);
    let (ex, p_rk) = sp_exhibition(ls, p_ex, (fl[2] & 2) != 0, teams.len());
    let ranks = sp_ranks(ls, p_rk, teams.len());
    TournamentView {
        name: ls[p_names],
        teams: settled_teams(teams, divs, ixs, ex, ranks),
        games,
        scoring: scoring_of(fl, qs),
        reports: reports_of(
            ls.subrange(p_names, p_names + 5),
            ls.subrange(p_names + 6, p_names + 14),
            fl,
            paths,
        ),
        uses_divisions: fl[15] != 0,
        divisions: divs,
        track_bonuses: fl[0] != 0,
        max_players_per_team: max_players(teams),
        sort_method: fl[16] as u8,
        warn_flags: fl[6] as u8,
        packets,
    }
}

/// The settings part of a file, from line `p` on, after `teams` and `games`.
pub open spec fn parse_tail(
    ls: Seq<Seq<char>>,
    p: int,
    teams: Seq<TeamView>,
    games: Seq<GameView>,
) -> Result<TournamentView, SqbsErrorView> {
    match sp_flags(ls, p) {
        Err(e) => Err(e),
        Ok(fl) => match sp_names(ls, p + 17) {
            Err(e) => Err(e),
            Ok(paths) => match sp_divisions(ls, p + 31, teams.len()) {
                Err(e) => Err(e),
                Ok((nd, ixs)) => match sp_ints(ls, p + 33 + nd + teams.len(), 4) {
                    Err(e) => Err(e),
                    Ok(qs) => Ok(
                        tournament_of(
                            ls,
                            teams,
                            games,
                            p + 17,
                            fl,
                            paths,
                            ls.subrange(p + 32, p + 32 + nd),
                            ixs,
                            qs,
                            p + 37 + nd + teams.len(),
                        ),
                    ),
                },
            },
        },
    }
}

/// The tournament held by the lines `ls` of a file.
pub open spec fn parse_lines(ls: Seq<Seq<char>>) -> Result<TournamentView, SqbsErrorView> {
    match rd_int(ls, 0) {
        Err(e) => Err(e),
        Ok(tc) => if !(0 <= tc <= MAX_TEAM_COUNT) {
            Err(SqbsErrorView::InvalidTeamCount(tc))
        } else {
            match sp_teams(ls, 1, tc as nat) {
                Err(e) => Err(e),
                Ok((teams, p1)) => match rd_int(ls, p1) {
                    Err(e) => Err(e),
                    Ok(gc) => if !(0 <= gc <= MAX_GAME_COUNT) {
                        Err(SqbsErrorView::GameCountOutOfRange(gc))
                    } else {
                        match sp_games(ls, p1 + 1, gc as nat) {
                            Err(e) => Err(e),
                            Ok(games) => match index_error(games, teams.len() as usize) {
                                Some(e) => Err(e),
                                None => parse_tail(ls, p1 + 1 + 129 * gc, teams, games),
                            },
                        }
                    },
                },
            }
        },
    }
}

/// The tournament held by the text of a file.
pub open spec fn spec_parse(content: Seq<char>) -> Result<TournamentView, SqbsErrorView> {
    let ls = file_lines(content);
    if ls.len() > MAX_LINES {
        Err(SqbsErrorView::TooManyLines)
    } else {
        parse_lines(ls)
    }
}


// ── The reader ─────────────────────────────────────────────────────────────

/// Reads a tournament file, line by line.
pub struct SqbsParser {
    reader: String,
    lines: Vec<String>,
    pos: usize,
}

/// `acc` put in front of the teams a section read gives.
pub open spec fn prepend_teams(acc: Seq<TeamView>, r: Result<(Seq<TeamView>, int), SqbsErrorView>) -> Result<
    (Seq<TeamView>, int),
    SqbsErrorView,
> {
    match r {
        Ok((ts, p)) => Ok((acc + ts, p)),
        Err(e) => Err(e),
    }
}

/// `acc` put in front of the values a section read gives.
pub open spec fn prepend<T>(acc: Seq<T>, r: Result<Seq<T>, SqbsErrorView>) -> Result<
    Seq<T>,
    SqbsErrorView,
> {
    match r {
        Ok(vs) => Ok(acc + vs),
        Err(e) => Err(e),
    }
}

fn strip_eol_chars(v: &Vec<char>) -> (r: Vec<char>)
    ensures
        r@ == strip_eol(v@),
{
    let mut j: usize = v.len();
    assert(v@.take(j as int) =~= v@);
    while j > 0 && (v[j - 1] == '\r' || v[j - 1] == '\n')
        invariant
            j <= v@.len(),
            strip_eol(v@) == strip_eol(v@.take(j as int)),
        decreases j,
    {
        assert(v@.take(j as int).drop_last() =~= v@.take(j - 1));
        j = j - 1;
    }
    let mut r: Vec<char> = Vec::new();
    let mut k: usize = 0;
    while k < j
        invariant
            k <= j <= v@.len(),
            r@ == v@.take(k as int),
        decreases j - k,
    {
        r.push(v[k]);
        k = k + 1;
        assert(r@ =~= v@.take(k as int));
    }
    assert(strip_eol(v@.take(j as int)) == v@.take(j as int));
    r
}

/// `m` with `k` mapped to `v`.
fn packets_insert(m: &mut BTreeMap<u32, String>, k: u32, v: String)
    ensures
        packet_views(final(m)@) == packet_views(old(m)@).insert(k, v@),
{
    broadcast use vstd::laws_cmp::group_laws_cmp;

    let ghost m0 = m@;
    m.insert(k, v);
    assert(packet_views(m@) =~= packet_views(m0).insert(k, v@));
}

/// A `-` packet for every round from `mn` to `mx`.
fn dash_map(mn: u32, mx: u32) -> (m: BTreeMap<u32, String>)
    ensures
        packet_views(m@) == dash_packets(mn, mx),
{
    let mut m: BTreeMap<u32, String> = BTreeMap::new();
    assert(packet_views(m@) =~= Map::<u32, Seq<char>>::empty());
    if mn > mx {
        assert(packet_views(m@) =~= dash_packets(mn, mx));
        return m;
    }
    let mut r: u32 = mn;
    assert(packet_views(m@) =~= Map::new(|k: u32| mn <= k < r, |k: u32| dash()));
    while r < mx
        invariant
            mn <= r <= mx,
            packet_views(m@) == Map::new(|k: u32| mn <= k < r, |k: u32| dash()),
        decreases mx - r,
    {
        packets_insert(&mut m, r, String::from_str("-"));
        r = r + 1;
        assert(packet_views(m@) =~= Map::new(|k: u32| mn <= k < r, |k: u32| dash()));
    }
    packets_insert(&mut m, mx, String::from_str("-"));
    assert(packet_views(m@) =~= dash_packets(mn, mx));
    m
}

/// The round range that packet names are numbered from.
fn round_range_of(games: &Vec<Game>) -> (r: (u32, u32))
    ensures
        r == round_range(game_views(games@)),
{
    let ghost gv = game_views(games@);
    let mut mn: Option<u32> = None;
    let mut mx: Option<u32> = None;
    let mut i: usize = 0;
    while i < games.len()
        invariant
            i <= games@.len(),
            gv == game_views(games@),
            mn == spec_min_round(gv.take(i as int)),
            mx == spec_max_round(gv.take(i as int)),
        decreases games@.len() - i,
    {
        let r = games[i].round;
        assert(gv.take(i + 1).drop_last() =~= gv.take(i as int));
        assert(gv.take(i + 1).last() == games@[i as int]@);
        mn = match mn {
            None => Some(r),
            Some(x) => Some(if r < x { r } else { x }),
        };
        mx = match mx {
            None => Some(r),
            Some(x) => Some(if r > x { r } else { x }),
        };
        i = i + 1;
    }
    assert(gv.take(i as int) =~= gv);
    match (mn, mx) {
        (Some(a), Some(b)) => if a == 4294967295 {
            (1, 0)
        } else {
            (a, b)
        },
        _ => (1, 0),
    }
}

/// The roster size limit after reading `teams`.
fn max_players_of(teams: &Vec<Team>) -> (m: u32)
    requires
        forall|i: int| 0 <= i < teams@.len() ==> #[trigger] teams@[i].players@.len() < 100,
    ensures
        m == max_players(team_views(teams@)),
{
    let ghost tv = team_views(teams@);
    let mut m: u32 = 6;
    let mut i: usize = 0;
    while i < teams.len()
        invariant
            i <= teams@.len(),
            tv == team_views(teams@),
            forall|i: int| 0 <= i < teams@.len() ==> #[trigger] teams@[i].players@.len() < 100,
            m == max_players(tv.take(i as int)),
        decreases teams@.len() - i,
    {
        assert(tv.take(i + 1).drop_last() =~= tv.take(i as int));
        assert(tv.take(i + 1).last() == teams@[i as int]@);
        let n = teams[i].players.len();
        assert(n < 100);
        if (m as usize) < n {
            m = n as u32;
        }
        i = i + 1;
    }
    assert(tv.take(i as int) =~= tv);
    m
}

/// The teams read, each given its division, exhibition flag and manual rank.
fn settle_teams(
    teams: Vec<Team>,
    divs: &Vec<String>,
    ixs: &Vec<i64>,
    ex: &Vec<bool>,
    ranks: &Vec<u32>,
) -> (r: Vec<Team>)
    requires
        ixs@.len() == teams@.len(),
        ex@.len() == teams@.len(),
        ranks@.len() == teams@.len(),
    ensures
        team_views(r@) == settled_teams(
            team_views(teams@),
            string_views(divs@),
            ixs@,
            ex@,
            ranks@,
        ),
{
    let ghost tv = team_views(teams@);
    let ghost want = settled_teams(tv, string_views(divs@), ixs@, ex@, ranks@);
    let tc = teams.len();
    let mut rest = teams;
    let ghost teams0 = rest@;
    let mut out: Vec<Team> = Vec::new();
    let mut i: usize = 0;
    assert(teams0.skip(0) =~= teams0);
    while i < tc
        invariant
            i <= tc,
            tc == teams0.len(),
            tv == team_views(teams0),
            want == settled_teams(tv, string_views(divs@), ixs@, ex@, ranks@),
            rest@ == teams0.skip(i as int),
            out@.len() == i,
            ixs@.len() == tc,
            ex@.len() == tc,
            ranks@.len() == tc,
            forall|j: int| 0 <= j < i ==> #[trigger] out@[j]@ == want[j],
        decreases tc - i,
    {
        assert(rest@[0] == teams0[i as int]);
        let mut t = rest.remove(0);
        assert(rest@ =~= teams0.skip(i + 1));
        let ix = ixs[i];
        t.division = if 0 <= ix && (ix as u64) < (divs.len() as u64) {
            Some(divs[ix as usize].clone())
        } else {
            None
        };
        t.exhibition = ex[i];
        t.manual_rank = ranks[i];
        assert(t@ == want[i as int]);
        out.push(t);
        i = i + 1;
    }
    assert(team_views(out@) =~= want);
    out
}

/// The scoring settings read from the setting integers and point values.
fn scoring_from(fl: &Vec<i64>, qs: &Vec<i64>) -> (s: ScoringSettings)
    requires
        fl@.len() == 17,
        qs@.len() == 4,
    ensures
        s@ == scoring_of(fl@, qs@),
{
    let q0 = qs[0] as i32;
    let q1 = qs[1] as i32;
    let q2 = qs[2] as i32;
    let q3 = qs[3] as i32;
    let s = ScoringSettings {
        q_values: [
            if q0 != 0 { q0 } else { 20 },
            if q1 != 0 { q1 } else { 15 },
            if q2 != 0 { q2 } else { 10 },
            if q3 != 0 { q3 } else { -5 },
        ],
        q_enabled: [q0 != 0, q1 != 0, q2 != 0, q3 != 0],
        track_power_neg: (fl[2] & 1) != 0,
        track_light_round: fl[3] != 0,
        track_tuh: fl[4] != 0,
        auto_track: fl[1] as u8,
        sort_by_ppg: (fl[5] & 1) != 0,
    };
    assert(s@.q_values =~= scoring_of(fl@, qs@).q_values);
    assert(s@.q_enabled =~= scoring_of(fl@, qs@).q_enabled);
    s
}

/// The report settings read from the name block and the setting integers.
fn reports_from(head: &Vec<String>, files: &Vec<String>, fl: &Vec<i64>, paths: i64) -> (r:
    ReportSettings)
    requires
        head@.len() == 5,
        files@.len() == 8,
        fl@.len() == 17,
    ensures
        r@ == reports_of(lines_view(head@), lines_view(files@), fl@, paths),
{
    ReportSettings {
        base_name: head[4].clone(),
        rounds: files[0].clone(),
        standings: files[1].clone(),
        individuals: files[2].clone(),
        games: files[3].clone(),
        team_detail: files[4].clone(),
        player_detail: files[5].clone(),
        stat_key: files[6].clone(),
        style: files[7].clone(),
        include_rounds: fl[7] != 0,
        include_standings: fl[8] != 0,
        include_individuals: fl[9] != 0,
        include_games: fl[10] != 0,
        include_team_detail: fl[11] != 0,
        include_player_detail: fl[12] != 0,
        include_stat_key: fl[13] != 0,
        use_style_sheet: fl[14] != 0,
        british_style: (paths & 2) != 0,
    }
}

/// Fails on the first game that names a team index past `n` teams.
fn check_team_indices(games: &Vec<Game>, n: usize) -> (r: Result<(), SqbsError>)
    ensures
        match r {
            Ok(_) => index_error(game_views(games@), n) is None,
            Err(e) => index_error(game_views(games@), n) == Some(e@),
        },
{
    let ghost gv = game_views(games@);
    let mut i: usize = 0;
    assert(gv.skip(0) =~= gv);
    while i < games.len()
        invariant
            i <= games@.len(),
            gv == game_views(games@),
            index_error(gv, n) == index_error(gv.skip(i as int), n),
        decreases games@.len() - i,
    {
        assert(gv.skip(i as int)[0] == games@[i as int]@);
        assert(gv.skip(i as int).drop_first() =~= gv.skip(i + 1));
        let a = games[i].team_a.team_index;
        let b = games[i].team_b.team_index;
        if a >= n || b >= n {
            return Err(
                SqbsError::TeamIndexOutOfRange {
                    game_index: games[i].game_index.clone(),
                    team_a: a,
                    team_b: b,
                    teams: n,
                },
            );
        }
        i = i + 1;
    }
    assert(gv.skip(i as int).len() == 0);
    Ok(())
}

/// A bonus code split into (bonuses, bouncebacks): the remainder and the
/// quotient of Rust's `%` and `/` by `BB`, each truncated to an `i32`.
fn split_code(e: i64) -> (r: (i32, i32))
    ensures
        r.0 == trem(e as int, BB as int) as i32,
        r.1 == tdiv(e as int, BB as int) as i32,
{
    if e >= 0 {
        let u: u64 = e as u64;
        let q: u64 = u / 10000;
        let m: u64 = u % 10000;
        assert(q * 10000 + m == u) by (nonlinear_arith)
            requires
                q == u / 10000,
                m == u % 10000,
        ;
        (m as i32, q as i32)
    } else {
        let w: i128 = e as i128;
        let u: u64 = (-w) as u64;
        let q: u64 = u / 10000;
        let m: u64 = u % 10000;
        assert(q * 10000 + m == u) by (nonlinear_arith)
            requires
                q == u / 10000,
                m == u % 10000,
        ;
        let qi: i128 = -(q as i128);
        let mi: i128 = -(m as i128);
        (mi as i32, qi as i32)
    }
}

impl SqbsParser {
    /// The text being read.
    pub closed spec fn content(&self) -> Seq<char> {
        self.reader@
    }

    /// The lines loaded from the text.
    pub closed spec fn lines_read(&self) -> Seq<Seq<char>> {
        lines_view(self.lines@)
    }

    /// The number of the next line to read.
    pub closed spec fn position(&self) -> int {
        self.pos as int
    }

    /// The position is never negative.
    pub proof fn lemma_position_nonneg(&self)
        ensures
            self.position() >= 0,
    {
    }

    /// A reader of the file text `reader`.
    pub fn new(reader: String) -> (p: Self)
        ensures
            p.content() == reader@,
            p.lines_read() == Seq::<Seq<char>>::empty(),
            p.position() == 0,
    {
        SqbsParser { reader, lines: Vec::new(), pos: 0 }
    }

    /// Splits the text into lines (a final line without a newline counts;
    /// trailing carriage returns and newlines are dropped); fails when there
    /// are more than `MAX_LINES`.
    pub fn load_lines(&mut self) -> (r: Result<(), SqbsError>)
        ensures
            final(self).content() == old(self).content(),
            final(self).position() == old(self).position(),
            match r {
                Ok(_) => file_lines(old(self).content()).len() <= MAX_LINES && final(self).lines_read()
                    == file_lines(old(self).content()),
                Err(e) => file_lines(old(self).content()).len() > MAX_LINES && e@
                    == SqbsErrorView::TooManyLines && final(self).lines_read() == old(self).lines_read(),
            },
    {
        let chars = chars_of(self.reader.as_str());
        let ghost text = chars@;
        let mut collected: Vec<String> = Vec::new();
        let mut cur: Vec<char> = Vec::new();
        let mut i: usize = 0;
        assert(text.take(0) =~= Seq::<char>::empty());
        assert(lines_view(collected@) =~= strip_all(Seq::<Seq<char>>::empty()));
        while i < chars.len()
            invariant
                i <= chars@.len(),
                text == chars@,
                lines_view(collected@) == strip_all(split_acc(text.take(i as int)).0),
                cur@ == split_acc(text.take(i as int)).1,
            decreases chars@.len() - i,
        {
            let c = chars[i];
            let ghost prev = split_acc(text.take(i as int));
            assert(text.take(i + 1).drop_last() =~= text.take(i as int));
            assert(text.take(i + 1).last() == c);
            if c == '\n' {
                let stripped = strip_eol_chars(&cur);
                let line = string_of(stripped.as_slice());
                let ghost before = collected@;
                collected.push(line);
                assert(collected@ =~= before.push(line));
                assert(lines_view(collected@) =~= lines_view(before).push(line@));
                assert(strip_all(prev.0.push(prev.1)) =~= strip_all(prev.0).push(strip_eol(prev.1)));
                cur = Vec::new();
            } else {
                cur.push(c);
            }
            i = i + 1;
        }
        assert(text.take(i as int) =~= text);
        if cur.len() > 0 {
            let ghost prev = split_acc(text);
            let stripped = strip_eol_chars(&cur);
            let line = string_of(stripped.as_slice());
            let ghost before = collected@;
            collected.push(line);
            assert(collected@ =~= before.push(line));
            assert(lines_view(collected@) =~= lines_view(before).push(line@));
            assert(strip_all(prev.0.push(prev.1)) =~= strip_all(prev.0).push(strip_eol(prev.1)));
        }
        assert(lines_view(collected@) == file_lines(self.reader@));
        if collected.len() > MAX_LINES {
            return Err(SqbsError::TooManyLines);
        }
        self.lines = collected;
        Ok(())
    }

    /// The next line, or `UnexpectedEof` at the end.
    pub fn next_line(&mut self) -> (r: Result<String, SqbsError>)
        ensures
            final(self).content() == old(self).content(),
            final(self).lines_read() == old(self).lines_read(),
            final(self).position() == adv(old(self).lines_read(), old(self).position()),
            match r {
                Ok(s) => rd_line(old(self).lines_read(), old(self).position()) == Ok::<
                    Seq<char>,
                    SqbsErrorView,
                >(s@),
                Err(e) => rd_line(old(self).lines_read(), old(self).position()) == Err::<
                    Seq<char>,
                    SqbsErrorView,
                >(e@),
            },
    {
        if self.pos >= self.lines.len() {
            return Err(SqbsError::UnexpectedEof);
        }
        let s = self.lines[self.pos].clone();
        self.pos = self.pos + 1;
        Ok(s)
    }

    /// The next line read as an integer, white space around it ignored.
    pub fn next_int(&mut self) -> (r: Result<i64, SqbsError>)
        ensures
            final(self).content() == old(self).content(),
            final(self).lines_read() == old(self).lines_read(),
            final(self).position() == adv(old(self).lines_read(), old(self).position()),
            err_view(r) == rd_int(old(self).lines_read(), old(self).position()),
    {
        let line = match self.next_line() {
            Ok(l) => l,
            Err(e) => return Err(e),
        };
        let chars = chars_of(line.as_str());
        let t = trim_chars(chars.as_slice());
        match parse_i64(t.as_slice()) {
            Ok(v) => Ok(v),
            Err(k) => Err(SqbsError::InvalidInt(k)),
        }
    }

    /// `k` integers, one per line.
    fn read_ints(&mut self, k: usize) -> (r: Result<Vec<i64>, SqbsError>)
        ensures
            final(self).content() == old(self).content(),
            final(self).lines_read() == old(self).lines_read(),
            match r {
                Ok(v) => sp_ints(old(self).lines_read(), old(self).position(), k as nat) == Ok::<
                    Seq<i64>,
                    SqbsErrorView,
                >(v@) && v@.len() == k && final(self).pos == old(self).pos + k && (k > 0
                    ==> final(self).pos <= old(self).lines_read().len()),
                Err(e) => sp_ints(old(self).lines_read(), old(self).position(), k as nat) == Err::<
                    Seq<i64>,
                    SqbsErrorView,
                >(e@),
            },
    {
        let ghost ls = self.lines_read();
        let ghost p0 = self.pos as int;
        let mut acc: Vec<i64> = Vec::new();
        let mut i: usize = 0;
        assert(acc@ + Seq::<i64>::empty() =~= acc@);
        while i < k
            invariant
                i <= k,
                self.content() == old(self).content(),
                self.lines_read() == old(self).lines_read(),
                ls == self.lines_read(),
                ls == old(self).lines_read(),
                p0 == old(self).pos,
                self.pos == p0 + i,
                i > 0 ==> self.pos <= ls.len(),
                acc@.len() == i,
                sp_ints(ls, p0, k as nat) == prepend(acc@, sp_ints(ls, self.pos as int, (k - i) as nat)),
            decreases k - i,
        {
            let ghost rest = sp_ints(ls, self.pos as int + 1, (k - i - 1) as nat);
            let ghost here = self.pos as int;
            let v = match self.next_int() {
                Ok(v) => v,
                Err(e) => {
                    assert(sp_ints(ls, here, (k - i) as nat) == Err::<Seq<i64>, SqbsErrorView>(e@));
                    return Err(e);
                },
            };
            proof {
                match rest {
                    Ok(vs) => {
                        assert(acc@ + (seq![v] + vs) =~= acc@.push(v) + vs);
                    },
                    Err(_) => {},
                }
            }
            acc.push(v);
            i = i + 1;
        }
        assert(acc@ + Seq::<i64>::empty() =~= acc@);
        Ok(acc)
    }

    fn parse_team(&mut self) -> (r: Result<Team, SqbsError>)
        ensures
            final(self).content() == old(self).content(),
            final(self).lines_read() == old(self).lines_read(),
            match r {
                Ok(t) => sp_team(old(self).lines_read(), old(self).position()) == Ok::<
                    (TeamView, int),
                    SqbsErrorView,
                >((t@, final(self).pos as int)),
                Err(e) => sp_team(old(self).lines_read(), old(self).position()) == Err::<
                    (TeamView, int),
                    SqbsErrorView,
                >(e@),
            },
    {
        let ghost ls = self.lines_read();
        let ghost p0 = self.pos as int;
        let mc = match self.next_int() {
            Ok(v) => v,
            Err(e) => return Err(e),
        };
        if !(1 <= mc && mc <= MAX_MEMBER_COUNT) {
            return Err(SqbsError::MemberCountOutOfRange(mc));
        }
        let player_count = (mc - 1) as usize;
        let team_name = match self.next_line() {
            Ok(l) => l,
            Err(e) => return Err(e),
        };
        let mut players: Vec<Player> = Vec::new();
        let mut j: usize = 0;
        assert(player_names(players@) =~= ls.subrange(p0 + 2, p0 + 2));
        while j < player_count
            invariant
                j <= player_count,
                player_count == mc - 1,
                1 <= mc <= 100,
                self.content() == old(self).content(),
                self.lines_read() == old(self).lines_read(),
                ls == self.lines_read(),
                ls == old(self).lines_read(),
                p0 == old(self).pos,
                self.pos == p0 + 2 + j,
                self.pos <= ls.len(),
                rd_int(ls, p0) == Ok::<i64, SqbsErrorView>(mc),
                rd_line(ls, p0 + 1) == Ok::<Seq<char>, SqbsErrorView>(team_name@),
                player_names(players@) == ls.subrange(p0 + 2, p0 + 2 + j),
            decreases player_count - j,
        {
            let name = match self.next_line() {
                Ok(l) => l,
                Err(e) => return Err(e),
            };
            let ghost before = players@;
            players.push(Player { name });
            j = j + 1;
            assert(player_names(players@) =~= player_names(before).push(name@));
            assert(player_names(players@) =~= ls.subrange(p0 + 2, p0 + 2 + j));
        }
        let t = Team { name: team_name, players, division: None, exhibition: false, manual_rank: 0 };
        Ok(t)
    }

    fn parse_teams(&mut self, tc: usize) -> (r: Result<Vec<Team>, SqbsError>)
        ensures
            final(self).content() == old(self).content(),
            final(self).lines_read() == old(self).lines_read(),
            match r {
                Ok(ts) => sp_teams(old(self).lines_read(), old(self).position(), tc as nat) == Ok::<
                    (Seq<TeamView>, int),
                    SqbsErrorView,
                >((team_views(ts@), final(self).pos as int)),
                Err(e) => sp_teams(old(self).lines_read(), old(self).position(), tc as nat) == Err::<
                    (Seq<TeamView>, int),
                    SqbsErrorView,
                >(e@),
            },
    {
        let ghost ls = self.lines_read();
        let ghost p0 = self.pos as int;
        let mut acc: Vec<Team> = Vec::new();
        let mut i: usize = 0;
        assert(team_views(acc@) + Seq::<TeamView>::empty() =~= team_views(acc@));
        while i < tc
            invariant
                i <= tc,
                self.content() == old(self).content(),
                self.lines_read() == old(self).lines_read(),
                ls == self.lines_read(),
                ls == old(self).lines_read(),
                p0 == old(self).pos,
                sp_teams(ls, p0, tc as nat) == prepend_teams(
                    team_views(acc@),
                    sp_teams(ls, self.pos as int, (tc - i) as nat),
                ),
            decreases tc - i,
        {
            let ghost here = self.pos as int;
            let t = match self.parse_team() {
                Ok(t) => t,
                Err(e) => {
                    assert(sp_teams(ls, here, (tc - i) as nat) == Err::<
                        (Seq<TeamView>, int),
                        SqbsErrorView,
                    >(e@));
                    return Err(e);
                },
            };
            proof {
                let rest = sp_teams(ls, self.pos as int, (tc - i - 1) as nat);
                match rest {
                    Ok((ts, p3)) => {
                        assert(team_views(acc@) + (seq![t@] + ts) =~= team_views(acc@).push(t@)
                            + ts);
                    },
                    Err(_) => {},
                }
            }
            let ghost before = acc@;
            acc.push(t);
            assert(team_views(acc@) =~= team_views(before).push(t@));
            i = i + 1;
        }
        assert(team_views(acc@) + Seq::<TeamView>::empty() =~= team_views(acc@));
        Ok(acc)
    }

    fn parse_player_record(&mut self) -> (r: Result<Option<PlayerScore>, SqbsError>)
        ensures
            final(self).content() == old(self).content(),
            final(self).lines_read() == old(self).lines_read(),
            match r {
                Ok(x) => sp_record(old(self).lines_read(), old(self).position()) == Ok::<
                    Option<PlayerScoreView>,
                    SqbsErrorView,
                >(opt_score_view(x)) && final(self).pos == old(self).pos + 7,
                Err(e) => sp_record(old(self).lines_read(), old(self).position()) == Err::<
                    Option<PlayerScoreView>,
                    SqbsErrorView,
                >(e@),
            },
    {
        let ghost ls = self.lines_read();
        let ghost p0 = self.pos as int;
        let idx_raw = match self.next_int() {
            Ok(v) => v,
            Err(e) => return Err(e),
        };
        if idx_raw < 0 {
            let mut j: usize = 0;
            while j < 6
                invariant
                    j <= 6,
                    self.content() == old(self).content(),
                    self.lines_read() == old(self).lines_read(),
                    ls == self.lines_read(),
                    ls == old(self).lines_read(),
                    p0 == old(self).pos,
                    self.pos == p0 + 1 + j,
                    self.pos <= ls.len(),
                    rd_int(ls, p0) == Ok::<i64, SqbsErrorView>(idx_raw),
                    idx_raw < 0,
                decreases 6 - j,
            {
                match self.next_line() {
                    Ok(_) => {},
                    Err(e) => return Err(e),
                }
                j = j + 1;
            }
            return Ok(None);
        }
        let gp = match self.next_line() {
            Ok(l) => l,
            Err(e) => return Err(e),
        };
        let xs = match self.read_ints(5) {
            Ok(v) => v,
            Err(e) => return Err(e),
        };
        let ps = PlayerScore {
            player_index: idx_raw as usize,
            gp,
            q: [xs[0] as i32, xs[1] as i32, xs[2] as i32, xs[3] as i32],
            points: xs[4] as i32,
        };
        assert(ps.q@ =~= seq![xs@[0] as i32, xs@[1] as i32, xs@[2] as i32, xs@[3] as i32]);
        Ok(Some(ps))
    }

    /// The 16 player records of a game, alternating between the two teams.
    fn parse_records(&mut self) -> (r: Result<
        (Vec<Option<PlayerScore>>, Vec<Option<PlayerScore>>),
        SqbsError,
    >)
        ensures
            final(self).content() == old(self).content(),
            final(self).lines_read() == old(self).lines_read(),
            match r {
                Ok((a, b)) => sp_records(old(self).lines_read(), old(self).position(), 16) is Ok
                    && evens(sp_records(old(self).lines_read(), old(self).position(), 16)->Ok_0)
                    == score_views(a@) && odds(
                    sp_records(old(self).lines_read(), old(self).position(), 16)->Ok_0,
                ) == score_views(b@) && final(self).pos == old(self).pos + 112,
                Err(e) => sp_records(old(self).lines_read(), old(self).position(), 16) == Err::<
                    Seq<Option<PlayerScoreView>>,
                    SqbsErrorView,
                >(e@),
            },
    {
        let ghost ls = self.lines_read();
        let ghost p0 = self.pos as int;
        let ghost mut seen: Seq<Option<PlayerScoreView>> = Seq::empty();
        let mut a: Vec<Option<PlayerScore>> = Vec::new();
        let mut b: Vec<Option<PlayerScore>> = Vec::new();
        let mut i: usize = 0;
        assert(seen + Seq::<Option<PlayerScoreView>>::empty() =~= seen);
        while i < 8
            invariant
                i <= 8,
                self.content() == old(self).content(),
                self.lines_read() == old(self).lines_read(),
                ls == self.lines_read(),
                ls == old(self).lines_read(),
                p0 == old(self).pos,
                self.pos == p0 + 14 * i,
                a@.len() == i,
                b@.len() == i,
                seen.len() == 2 * i,
                forall|j: int|
                    0 <= j < i ==> opt_score_view(#[trigger] a@[j]) == seen[2 * j]
                        && opt_score_view(b@[j]) == seen[2 * j + 1],
                sp_records(ls, p0, 16) == prepend(seen, sp_records(ls, self.pos as int, (16 - 2 * i) as nat)),
            decreases 8 - i,
        {
            let ghost here = self.pos as int;
            let ghost k = (16 - 2 * i) as nat;
            let x = match self.parse_player_record() {
                Ok(x) => x,
                Err(e) => {
                    assert(sp_records(ls, here, k) == Err::<Seq<Option<PlayerScoreView>>, SqbsErrorView>(e@));
                    return Err(e);
                },
            };
            let y = match self.parse_player_record() {
                Ok(y) => y,
                Err(e) => {
                    assert(sp_records(ls, here + 7, (k - 1) as nat) == Err::<Seq<Option<PlayerScoreView>>, SqbsErrorView>(e@));
                    assert(sp_records(ls, here, k) == Err::<Seq<Option<PlayerScoreView>>, SqbsErrorView>(e@));
                    return Err(e);
                },
            };
            proof {
                let rest = sp_records(ls, here + 14, (k - 2) as nat);
                assert(sp_records(ls, here + 7, (k - 1) as nat) == prepend(seq![opt_score_view(y)], rest));
                assert(sp_records(ls, here, k) == prepend(seq![opt_score_view(x)], prepend(seq![opt_score_view(y)], rest)));
                match rest {
                    Ok(vs) => {
                        assert(seen + (seq![opt_score_view(x)] + (seq![opt_score_view(y)] + vs))
                            =~= seen.push(opt_score_view(x)).push(opt_score_view(y)) + vs);
                    },
                    Err(_) => {},
                }
            }
            let ghost a0 = a@;
            let ghost b0 = b@;
            let ghost s0 = seen;
            a.push(x);
            b.push(y);
            proof {
                seen = seen.push(opt_score_view(x)).push(opt_score_view(y));
                assert forall|j: int| 0 <= j < i + 1 implies opt_score_view(#[trigger] a@[j]) == seen[2 * j]
                    && opt_score_view(b@[j]) == seen[2 * j + 1] by {
                    if j < i {
                        assert(a@[j] == a0[j]);
                        assert(b@[j] == b0[j]);
                        assert(seen[2 * j] == s0[2 * j]);
                        assert(seen[2 * j + 1] == s0[2 * j + 1]);
                    }
                }
            }
            i = i + 1;
        }
        assert(seen + Seq::<Option<PlayerScoreView>>::empty() =~= seen);
        assert(evens(seen) =~= score_views(a@));
        assert forall|j: int| 0 <= j < 8 implies #[trigger] odds(seen)[j] == score_views(b@)[j] by {
            assert(opt_score_view(a@[j]) == seen[2 * j]);
        }
        assert(odds(seen) =~= score_views(b@));
        Ok((a, b))
    }

    /// A game (129 lines).
    fn parse_game(&mut self) -> (r: Result<Game, SqbsError>)
        ensures
            final(self).content() == old(self).content(),
            final(self).lines_read() == old(self).lines_read(),
            match r {
                Ok(g) => sp_game(old(self).lines_read(), old(self).position()) == Ok::<
                    GameView,
                    SqbsErrorView,
                >(g@) && final(self).pos == old(self).pos + 129,
                Err(e) => sp_game(old(self).lines_read(), old(self).position()) == Err::<
                    GameView,
                    SqbsErrorView,
                >(e@),
            },
    {
        let ghost ls = self.lines_read();
        let ghost p0 = self.pos as int;
        let game_index = match self.next_line() {
            Ok(l) => l,
            Err(e) => return Err(e),
        };
        let a_raw = match self.next_int() {
            Ok(v) => v,
            Err(e) => return Err(e),
        };
        let b_raw = match self.next_int() {
            Ok(v) => v,
            Err(e) => return Err(e),
        };
        if a_raw < 0 || b_raw < 0 {
            return Err(SqbsError::InvalidTeamIndices { game_index, raw_a: a_raw, raw_b: b_raw });
        }
        let a_score = match self.next_line() {
            Ok(l) => l,
            Err(e) => return Err(e),
        };
        let b_score = match self.next_line() {
            Ok(l) => l,
            Err(e) => return Err(e),
        };
        let xs = match self.read_ints(12) {
            Ok(v) => v,
            Err(e) => return Err(e),
        };
        let (a_ps, b_ps) = match self.parse_records() {
            Ok(p) => p,
            Err(e) => return Err(e),
        };
        let a_chars = chars_of(a_score.as_str());
        let a_total = match parse_i32(trim_chars(a_chars.as_slice()).as_slice()) {
            Ok(v) => v,
            Err(_) => 0,
        };
        let b_chars = chars_of(b_score.as_str());
        let b_total = match parse_i32(trim_chars(b_chars.as_slice()).as_slice()) {
            Ok(v) => v,
            Err(_) => 0,
        };
        let (a_bh, a_bbh) = split_code(xs[2]);
        let (a_bp, a_bbp) = split_code(xs[3]);
        let (b_bh, b_bbh) = split_code(xs[4]);
        let (b_bp, b_bbp) = split_code(xs[5]);
        let g = Game {
            game_index,
            round: xs[1] as u32,
            tossups_heard: xs[0] as u32,
            overtime: xs[6] != 0,
            forfeit: xs[9] != 0,
            team_a: TeamScore {
                team_index: a_raw as usize,
                total_points: a_total,
                bonus_heard: a_bh,
                bonus_points: a_bp,
                bb_heard: a_bbh,
                bb_points: a_bbp,
                ot_gets: xs[7] as i32,
                lightning_points: xs[10] as i32,
                player_scores: a_ps,
            },
            team_b: TeamScore {
                team_index: b_raw as usize,
                total_points: b_total,
                bonus_heard: b_bh,
                bonus_points: b_bp,
                bb_heard: b_bbh,
                bb_points: b_bbp,
                ot_gets: xs[8] as i32,
                lightning_points: xs[11] as i32,
                player_scores: b_ps,
            },
        };
        Ok(g)
    }

    /// `k` games, one after another.
    fn parse_games(&mut self, k: usize) -> (r: Result<Vec<Game>, SqbsError>)
        ensures
            final(self).content() == old(self).content(),
            final(self).lines_read() == old(self).lines_read(),
            match r {
                Ok(gs) => sp_games(old(self).lines_read(), old(self).position(), k as nat) == Ok::<
                    Seq<GameView>,
                    SqbsErrorView,
                >(game_views(gs@)) && final(self).pos == old(self).pos + 129 * k,
                Err(e) => sp_games(old(self).lines_read(), old(self).position(), k as nat) == Err::<
                    Seq<GameView>,
                    SqbsErrorView,
                >(e@),
            },
    {
        let ghost ls = self.lines_read();
        let ghost p0 = self.pos as int;
        let mut acc: Vec<Game> = Vec::new();
        let mut i: usize = 0;
        assert(game_views(acc@) + Seq::<GameView>::empty() =~= game_views(acc@));
        while i < k
            invariant
                i <= k,
                self.content() == old(self).content(),
                self.lines_read() == old(self).lines_read(),
                ls == self.lines_read(),
                ls == old(self).lines_read(),
                p0 == old(self).pos,
                self.pos == p0 + 129 * i,
                sp_games(ls, p0, k as nat) == prepend(
                    game_views(acc@),
                    sp_games(ls, self.pos as int, (k - i) as nat),
                ),
            decreases k - i,
        {
            let ghost here = self.pos as int;
            let g = match self.parse_game() {
                Ok(g) => g,
                Err(e) => {
                    assert(sp_games(ls, here, (k - i) as nat) == Err::<Seq<GameView>, SqbsErrorView>(e@));
                    return Err(e);
                },
            };
            proof {
                let rest = sp_games(ls, here + 129, (k - i - 1) as nat);
                match rest {
                    Ok(gs) => {
                        assert(game_views(acc@) + (seq![g@] + gs) =~= game_views(acc@).push(g@) + gs);
                    },
                    Err(_) => {},
                }
            }
            let ghost before = acc@;
            acc.push(g);
            assert(game_views(acc@) =~= game_views(before).push(g@));
            i = i + 1;
        }
        assert(game_views(acc@) + Seq::<GameView>::empty() =~= game_views(acc@));
        Ok(acc)
    }

    /// `k` lines.
    fn read_lines(&mut self, k: usize) -> (r: Result<Vec<String>, SqbsError>)
        requires
            old(self).pos <= old(self).lines_read().len(),
        ensures
            final(self).content() == old(self).content(),
            final(self).lines_read() == old(self).lines_read(),
            match r {
                Ok(v) => old(self).pos + k <= old(self).lines_read().len() && lines_view(v@)
                    == old(self).lines_read().subrange(old(self).position(), old(self).pos + k)
                    && final(self).pos == old(self).pos + k,
                Err(e) => old(self).pos + k > old(self).lines_read().len() && e@
                    == SqbsErrorView::UnexpectedEof,
            },
    {
        let ghost ls = self.lines_read();
        let ghost p0 = self.pos as int;
        let mut acc: Vec<String> = Vec::new();
        let mut i: usize = 0;
        assert(lines_view(acc@) =~= ls.subrange(p0, p0));
        while i < k
            invariant
                i <= k,
                self.content() == old(self).content(),
                self.lines_read() == old(self).lines_read(),
                ls == self.lines_read(),
                ls == old(self).lines_read(),
                p0 == old(self).pos,
                self.pos == p0 + i,
                self.pos <= ls.len(),
                lines_view(acc@) == ls.subrange(p0, p0 + i),
            decreases k - i,
        {
            let l = match self.next_line() {
                Ok(l) => l,
                Err(e) => return Err(e),
            };
            let ghost before = acc@;
            acc.push(l);
            i = i + 1;
            assert(lines_view(acc@) =~= lines_view(before).push(l@));
            assert(lines_view(acc@) =~= ls.subrange(p0, p0 + i));
        }
        Ok(acc)
    }

    /// The 17 setting integers.
    fn read_flags(&mut self) -> (r: Result<Vec<i64>, SqbsError>)
        ensures
            final(self).content() == old(self).content(),
            final(self).lines_read() == old(self).lines_read(),
            match r {
                Ok(v) => sp_flags(old(self).lines_read(), old(self).position()) == Ok::<
                    Seq<i64>,
                    SqbsErrorView,
                >(v@) && v@.len() == 17 && final(self).pos == old(self).pos + 17
                    && final(self).pos <= old(self).lines_read().len(),
                Err(e) => sp_flags(old(self).lines_read(), old(self).position()) == Err::<
                    Seq<i64>,
                    SqbsErrorView,
                >(e@),
            },
    {
        let mut a = match self.read_ints(2) {
            Ok(v) => v,
            Err(e) => return Err(e),
        };
        if !(0 <= a[1] && a[1] <= 255) {
            return Err(SqbsError::SettingOutOfRange(Setting::AutoTrack));
        }
        let mut b = match self.read_ints(5) {
            Ok(v) => v,
            Err(e) => return Err(e),
        };
        if !(0 <= b[4] && b[4] <= 255) {
            return Err(SqbsError::SettingOutOfRange(Setting::WarnFlags));
        }
        let mut c = match self.read_ints(10) {
            Ok(v) => v,
            Err(e) => return Err(e),
        };
        if !(0 <= c[9] && c[9] <= 255) {
            return Err(SqbsError::SettingOutOfRange(Setting::SortMethod));
        }
        let ghost (a0, b0, c0) = (a@, b@, c@);
        a.append(&mut b);
        a.append(&mut c);
        assert(a@ =~= a0 + b0 + c0);
        Ok(a)
    }

    /// The name block: the first five lines, the paths value, the eight
    /// report file names.
    fn read_names(&mut self) -> (r: Result<(Vec<String>, i64, Vec<String>), SqbsError>)
        requires
            old(self).pos <= old(self).lines_read().len(),
        ensures
            final(self).content() == old(self).content(),
            final(self).lines_read() == old(self).lines_read(),
            match r {
                Ok((head, paths, files)) => sp_names(old(self).lines_read(), old(self).position()) == Ok::<
                    i64,
                    SqbsErrorView,
                >(paths) && lines_view(head@) == old(self).lines_read().subrange(
                    old(self).position(),
                    old(self).pos + 5,
                ) && lines_view(files@) == old(self).lines_read().subrange(
                    old(self).pos + 6,
                    old(self).pos + 14,
                ) && final(self).pos == old(self).pos + 14,
                Err(e) => sp_names(old(self).lines_read(), old(self).position()) == Err::<
                    i64,
                    SqbsErrorView,
                >(e@),
            },
    {
        let head = match self.read_lines(5) {
            Ok(v) => v,
            Err(e) => return Err(e),
        };
        let paths = match self.next_int() {
            Ok(v) => v,
            Err(e) => return Err(e),
        };
        let files = match self.read_lines(8) {
            Ok(v) => v,
            Err(e) => return Err(e),
        };
        Ok((head, paths, files))
    }

    /// The division block for `tc` teams: the division names and each
    /// team's division index.
    fn read_divisions(&mut self, tc: usize) -> (r: Result<(Vec<String>, Vec<i64>), SqbsError>)
        ensures
            final(self).content() == old(self).content(),
            final(self).lines_read() == old(self).lines_read(),
            match r {
                Ok((divs, ixs)) => sp_divisions(old(self).lines_read(), old(self).position(), tc as nat)
                    == Ok::<(i64, Seq<i64>), SqbsErrorView>((divs@.len() as i64, ixs@))
                    && string_views(divs@) == old(self).lines_read().subrange(
                    old(self).pos + 1,
                    old(self).pos + 1 + divs@.len(),
                ) && divs@.len() <= MAX_DIVISIONS && ixs@.len() == tc && final(self).pos
                    == old(self).pos + 2 + divs@.len() + tc,
                Err(e) => sp_divisions(old(self).lines_read(), old(self).position(), tc as nat) == Err::<
                    (i64, Seq<i64>),
                    SqbsErrorView,
                >(e@),
            },
    {
        let nd = match self.next_int() {
            Ok(v) => v,
            Err(e) => return Err(e),
        };
        if !(0 <= nd && nd <= MAX_DIVISIONS) {
            return Err(SqbsError::DivisionCountOutOfRange(nd));
        }
        let divs = match self.read_lines(nd as usize) {
            Ok(v) => v,
            Err(e) => return Err(e),
        };
        match self.next_int() {
            Ok(_) => {},
            Err(e) => return Err(e),
        }
        let ixs = match self.read_ints(tc) {
            Ok(v) => v,
            Err(e) => return Err(e),
        };
        assert(string_views(divs@) =~= lines_view(divs@));
        Ok((divs, ixs))
    }

    /// The packet names, when `read` says the file has them; else a `-`
    /// for each round from `mn` to `mx`.
    fn read_packets(&mut self, read: bool, mn: u32, mx: u32) -> (m: BTreeMap<u32, String>)
        ensures
            final(self).content() == old(self).content(),
            final(self).lines_read() == old(self).lines_read(),
            (packet_views(m@), final(self).pos as int) == sp_packets(
                old(self).lines_read(),
                old(self).position(),
                read,
                mn,
                mx,
            ),
    {
        let ghost ls = self.lines_read();
        let ghost p0 = self.pos as int;
        let mut m = dash_map(mn, mx);
        if !read {
            return m;
        }
        let n = match self.next_int() {
            Ok(n) => n,
            Err(_) => return m,
        };
        if n < 0 {
            return m;
        }
        m = BTreeMap::new();
        assert(packet_views(m@) =~= Map::<u32, Seq<char>>::empty());
        let mut off: i64 = 0;
        while off < n
            invariant
                0 <= off <= n,
                self.content() == old(self).content(),
                self.lines_read() == old(self).lines_read(),
                ls == self.lines_read(),
                sp_packets(ls, p0, read, mn, mx) == pk_loop(ls, self.pos as int, mn, off as int, n as int, packet_views(m@)),
            decreases n - off,
        {
            let here = self.pos;
            let name = match self.next_line() {
                Ok(l) => l,
                Err(_) => String::from_str("-"),
            };
            let ro: u32 = #[verifier::truncate] (off as u32);
            match mn.checked_add(ro) {
                Some(r) => packets_insert(&mut m, r, name),
                None => {},
            }
            off = off + 1;
        }
        m
    }

    /// The exhibition flags of `tc` teams, when `read` says the file has
    /// them; else all false.
    fn read_exhibition(&mut self, read: bool, tc: usize) -> (flags: Vec<bool>)
        ensures
            final(self).content() == old(self).content(),
            final(self).lines_read() == old(self).lines_read(),
            (flags@, final(self).pos as int) == sp_exhibition(
                old(self).lines_read(),
                old(self).position(),
                read,
                tc as nat,
            ),
    {
        let ghost ls = self.lines_read();
        let ghost p0 = self.pos as int;
        let mut flags: Vec<bool> = Vec::new();
        let mut k: usize = 0;
        while k < tc
            invariant
                k <= tc,
                flags@ == Seq::new(k as nat, |i: int| false),
            decreases tc - k,
        {
            flags.push(false);
            k = k + 1;
            assert(flags@ =~= Seq::new(k as nat, |i: int| false));
        }
        if !read {
            return flags;
        }
        let n = match self.next_int() {
            Ok(n) => n,
            Err(_) => return flags,
        };
        if n < 0 {
            return flags;
        }
        let cnt: usize = n as usize;
        let mut i: usize = 0;
        while i < cnt
            invariant
                i <= cnt,
                self.content() == old(self).content(),
                self.lines_read() == old(self).lines_read(),
                ls == self.lines_read(),
                sp_exhibition(ls, p0, read, tc as nat) == ex_loop(ls, self.pos as int, i as int, cnt as int, flags@),
            decreases cnt - i,
        {
            match self.next_int() {
                Ok(v) => {
                    if i < flags.len() {
                        flags.set(i, v != 0);
                    }
                },
                Err(_) => {},
            }
            i = i + 1;
        }
        flags
    }

    /// The manual ranks of `tc` teams, read after the marker line when the
    /// file has one; else all 0.
    fn read_ranks(&mut self, tc: usize) -> (ranks: Vec<u32>)
        requires
            old(self).lines_read().len() <= MAX_LINES,
        ensures
            ranks@ == sp_ranks(old(self).lines_read(), old(self).position(), tc as nat),
    {
        let ghost ls = self.lines_read();
        let ghost p0 = self.pos as int;
        let mut ranks: Vec<u32> = Vec::new();
        let mut k: usize = 0;
        while k < tc
            invariant
                k <= tc,
                ranks@ == Seq::new(k as nat, |i: int| 0u32),
            decreases tc - k,
        {
            ranks.push(0);
            k = k + 1;
            assert(ranks@ =~= Seq::new(k as nat, |i: int| 0u32));
        }
        if self.pos >= self.lines.len() {
            return ranks;
        }
        let line = chars_of(self.lines[self.pos].as_str());
        let marker = chars_of("SQBSMANUALRANKS");
        if !chars_eq(trim_chars(line.as_slice()).as_slice(), marker.as_slice()) {
            return ranks;
        }
        self.pos = self.pos + 1;
        let c = match self.next_int() {
            Ok(c) => c,
            Err(_) => return ranks,
        };
        if !(c >= 0 && c as u64 == tc as u64 && tc <= self.lines.len() - self.pos) {
            return ranks;
        }
        let mut i: usize = 0;
        while i < tc
            invariant
                i <= tc,
                self.lines_read() == old(self).lines_read(),
                ls == self.lines_read(),
                self.pos == p0 + 2 + i,
                p0 + 2 + tc <= ls.len(),
                ranks@.len() == tc,
                forall|j: int| 0 <= j < i ==> ranks@[j] == rank_of(#[trigger] ls[p0 + 2 + j]),
                forall|j: int| i <= j < tc ==> ranks@[j] == 0u32,
            decreases tc - i,
        {
            let r: u32 = match self.next_int() {
                Ok(v) => if 0 < v && v <= 4294967295 {
                    v as u32
                } else {
                    0
                },
                Err(_) => 0,
            };
            ranks.set(i, r);
            i = i + 1;
        }
        assert(ranks@ =~= Seq::new(tc as nat, |i: int| rank_of(ls[p0 + 2 + i])));
        ranks
    }

    /// The settings part of the file and the optional sections after it,
    /// once `teams` and `games` have been read.
    fn parse_settings(&mut self, teams: Vec<Team>, games: Vec<Game>) -> (r: Result<
        Tournament,
        SqbsError,
    >)
        requires
            old(self).lines_read().len() <= MAX_LINES,
            teams@.len() <= MAX_TEAM_COUNT,
            forall|i: int| 0 <= i < teams@.len() ==> #[trigger] teams@[i].players@.len() < 100,
        ensures
            match r {
                Ok(t) => parse_tail(
                    old(self).lines_read(),
                    old(self).position(),
                    team_views(teams@),
                    game_views(games@),
                ) == Ok::<TournamentView, SqbsErrorView>(t@),
                Err(e) => parse_tail(
                    old(self).lines_read(),
                    old(self).position(),
                    team_views(teams@),
                    game_views(games@),
                ) == Err::<TournamentView, SqbsErrorView>(e@),
            },
    {
        let ghost ls = self.lines_read();
        let ghost p0 = self.pos as int;
        let ghost tv = team_views(teams@);
        let tc = teams.len();
        let fl = match self.read_flags() {
            Ok(v) => v,
            Err(e) => return Err(e),
        };
        let (head, paths, files) = match self.read_names() {
            Ok(v) => v,
            Err(e) => return Err(e),
        };
        let (divs, ixs) = match self.read_divisions(tc) {
            Ok(v) => v,
            Err(e) => return Err(e),
        };
        let qs = match self.read_ints(4) {
            Ok(v) => v,
            Err(e) => return Err(e),
        };
        assert(head@.len() == lines_view(head@).len());
        assert(files@.len() == lines_view(files@).len());
        let (mn, mx) = round_range_of(&games);
        let packets = self.read_packets((fl[5] & 2) != 0, mn, mx);
        let ghost p_ex = self.pos as int;
        let ex = self.read_exhibition((fl[2] & 2) != 0, tc);
        proof {
            lemma_exhibition_len(ls, p_ex, (fl@[2] & 2) != 0, tc as nat);
        }
        let ranks = self.read_ranks(tc);
        let mp = max_players_of(&teams);

        let out = settle_teams(teams, &divs, &ixs, &ex, &ranks);
        let scoring = scoring_from(&fl, &qs);
        let reports = reports_from(&head, &files, &fl, paths);
        let t = Tournament {
            name: head[0].clone(),
            teams: out,
            games,
            scoring,
            reports,
            uses_divisions: fl[15] != 0,
            divisions: divs,
            track_bonuses: fl[0] != 0,
            max_players_per_team: mp,
            sort_method: fl[16] as u8,
            warn_flags: fl[6] as u8,
            packets,
        };
        proof {
            let nd = t@.divisions.len() as int;
            assert(lines_view(head@)[0] == ls[p0 + 17]);
            assert(t@.divisions == ls.subrange(p0 + 32, p0 + 32 + nd));
            let want = tournament_of(
                ls,
                tv,
                game_views(games@),
                p0 + 17,
                fl@,
                paths,
                ls.subrange(p0 + 32, p0 + 32 + nd),
                ixs@,
                qs@,
                p0 + 37 + nd + tc,
            );
            assert(t@ == want);
        }
        Ok(t)
    }

    /// The tournament held by the lines, read from the first.
    fn read_tournament(&mut self) -> (r: Result<Tournament, SqbsError>)
        requires
            old(self).pos == 0,
            old(self).lines_read().len() <= MAX_LINES,
        ensures
            match r {
                Ok(t) => parse_lines(old(self).lines_read()) == Ok::<TournamentView, SqbsErrorView>(t@),
                Err(e) => parse_lines(old(self).lines_read()) == Err::<TournamentView, SqbsErrorView>(e@),
            },
    {
        let ghost ls = self.lines_read();
        let tc = match self.next_int() {
            Ok(v) => v,
            Err(e) => return Err(e),
        };
        if !(0 <= tc && tc <= MAX_TEAM_COUNT) {
            return Err(SqbsError::InvalidTeamCount(tc));
        }
        let teams = match self.parse_teams(tc as usize) {
            Ok(v) => v,
            Err(e) => return Err(e),
        };
        proof {
            lemma_sp_teams_shape(ls, 1, tc as nat);
            assert forall|i: int| 0 <= i < teams@.len() implies #[trigger] teams@[i].players@.len() < 100 by {
                assert(team_views(teams@)[i].players.len() < 100);
            }
        }
        let ghost p1 = self.pos as int;
        let gc = match self.next_int() {
            Ok(v) => v,
            Err(e) => return Err(e),
        };
        if !(0 <= gc && gc <= MAX_GAME_COUNT) {
            return Err(SqbsError::GameCountOutOfRange(gc));
        }
        let games = match self.parse_games(gc as usize) {
            Ok(v) => v,
            Err(e) => return Err(e),
        };
        match check_team_indices(&games, teams.len()) {
            Ok(_) => {},
            Err(e) => return Err(e),
        }
        assert(self.pos == p1 + 1 + 129 * gc);
        self.parse_settings(teams, games)
    }

    /// Reads the whole file: its lines, then the tournament they hold.
    pub fn parse(self) -> (r: Result<Tournament, SqbsError>)
        ensures
            match r {
                Ok(t) => spec_parse(self.content()) == Ok::<TournamentView, SqbsErrorView>(t@),
                Err(e) => spec_parse(self.content()) == Err::<TournamentView, SqbsErrorView>(e@),
            },
    {
        let mut p = self;
        match p.load_lines() {
            Ok(_) => {},
            Err(e) => return Err(e),
        }
        p.pos = 0;
        p.read_tournament()
    }
}

} // verus!
