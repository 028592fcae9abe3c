//! What the writer writes, the reader reads back.

use crate::models::{
    default_q_values, spec_effective_q_value, spec_max_round, spec_min_round, GameView,
    PlayerScoreView, ScoringView, TeamScoreView, TeamView, TournamentView,
};
use crate::sqbs_format::{
    bl, bonus_code, evens, file_lines, game_head_lines, game_lines, games_lines, il, index_error,
    int_or_zero, join_lines, lemma_join_push, odds, raw_lines, rd_int, rd_line, record_lines,
    records_lines, slot, slots, sp_game, sp_games, sp_ints, sp_record, sp_records, sp_team,
    sp_teams, split_acc, strip_all, strip_eol, tdiv, team_lines, teams_lines, trem, SqbsErrorView,
    BB, dash, div_index, div_index_lines, divisions_section, ex_loop, exhibition_section,
    first_index_of, flags_section, manual_section, has_manual_rank, marker_line, names_section,
    packet_name, packets_section, pk_loop, q_section, rank_of, sp_divisions, sp_exhibition,
    sp_flags, sp_names, sp_packets, sp_ranks, writes_divisions, writes_packets, MAX_DIVISIONS,
    round_range, max_players, teams_section, games_section, settings_section, file_lines_of,
    scoring_of, reports_of, settled_teams, tournament_of, parse_tail, parse_lines, spec_parse,
    div_of, writable, MAX_LINES, MAX_TEAM_COUNT, MAX_GAME_COUNT, MAX_MEMBER_COUNT,
};
use crate::text::{spec_parse_i64, trim, trim_end, trim_start, is_ws};
use crate::text::{is_digit, lemma_fmt_int_plain, lemma_parse_fmt_int, lemma_parse_fmt_i32, fmt_int};
use vstd::prelude::*;

verus! {

/// A line that comes back as written: no newline in it and no carriage
/// return at its end.
pub open spec fn one_line(l: Seq<char>) -> bool {
    &&& forall|i: int| 0 <= i < l.len() ==> l[i] != '\n'
    &&& (l.len() > 0 ==> l.last() != '\r')
}

pub open spec fn all_one_line(ls: Seq<Seq<char>>) -> bool {
    forall|i: int| 0 <= i < ls.len() ==> one_line(#[trigger] ls[i])
}

proof fn lemma_split_join(ls: Seq<Seq<char>>, w: Seq<char>)
    requires
        all_one_line(ls),
        forall|i: int| 0 <= i < w.len() ==> w[i] != '\n',
    ensures
        split_acc(join_lines(ls) + w) == (ls, w),
    decreases ls.len(), w.len(),
{
    let s = join_lines(ls) + w;
    if w.len() > 0 {
        assert(s.drop_last() =~= join_lines(ls) + w.drop_last());
        lemma_split_join(ls, w.drop_last());
        assert(s.last() == w.last());
        assert(w.drop_last().push(w.last()) =~= w);
    } else if ls.len() > 0 {
        let ls0 = ls.drop_last();
        let l = ls.last();
        assert(ls0.push(l) =~= ls);
        lemma_join_push(ls0, l);
        assert(all_one_line(ls0)) by {
            assert forall|i: int| 0 <= i < ls0.len() implies one_line(#[trigger] ls0[i]) by {
                assert(ls0[i] == ls[i]);
            }
        }
        assert(one_line(ls[ls.len() - 1]));
        assert(s =~= join_lines(ls0) + l.push('\n'));
        assert(s.drop_last() =~= join_lines(ls0) + l);
        lemma_split_join(ls0, l);
    } else {
        assert(join_lines(ls) =~= Seq::<char>::empty());
        assert(s =~= Seq::<char>::empty());
    }
}

/// Lines joined by newlines split back into the same lines.
pub proof fn lemma_lines_of_text(ls: Seq<Seq<char>>)
    requires
        all_one_line(ls),
    ensures
        file_lines(join_lines(ls)) == ls,
{
    lemma_split_join(ls, Seq::empty());
    assert(join_lines(ls) + Seq::<char>::empty() =~= join_lines(ls));
    assert(raw_lines(join_lines(ls)) == ls);
    assert forall|i: int| 0 <= i < ls.len() implies #[trigger] strip_eol(ls[i]) == ls[i] by {
        assert(one_line(ls[i]));
    }
    assert(strip_all(ls) =~= ls);
}

// ── Positions ──────────────────────────────────────────────────────────────

/// `sec` stands in `ls` from line `p` on.
pub open spec fn at(ls: Seq<Seq<char>>, p: int, sec: Seq<Seq<char>>) -> bool {
    &&& 0 <= p
    &&& p + sec.len() <= ls.len()
    &&& ls.subrange(p, p + sec.len()) == sec
}

proof fn lemma_at_split(ls: Seq<Seq<char>>, p: int, a: Seq<Seq<char>>, b: Seq<Seq<char>>)
    requires
        at(ls, p, a + b),
    ensures
        at(ls, p, a),
        at(ls, p + a.len(), b),
{
    assert(ls.subrange(p, p + a.len()) =~= (a + b).subrange(0, a.len() as int));
    assert((a + b).subrange(0, a.len() as int) =~= a);
    assert(ls.subrange(p + a.len(), p + a.len() + b.len()) =~= (a + b).subrange(
        a.len() as int,
        (a + b).len() as int,
    ));
    assert((a + b).subrange(a.len() as int, (a + b).len() as int) =~= b);
}

proof fn lemma_at_line(ls: Seq<Seq<char>>, p: int, sec: Seq<Seq<char>>, i: int)
    requires
        at(ls, p, sec),
        0 <= i < sec.len(),
    ensures
        ls[p + i] == sec[i],
        0 <= p + i < ls.len(),
{
    assert(ls.subrange(p, p + sec.len())[i] == ls[p + i]);
}

/// `flat_map` takes its first element's image, then the rest.
pub proof fn lemma_flat_map_front<A, B>(s: Seq<A>, f: spec_fn(A) -> Seq<B>)
    requires
        s.len() > 0,
    ensures
        s.flat_map(f) == f(s[0]) + s.drop_first().flat_map(f),
{
    let m = s.map_values(f);
    assert(m.drop_first() =~= s.drop_first().map_values(f));
    assert(m.first() == f(s[0]));
}

// ── Lines that come back as written ────────────────────────────────────────

proof fn lemma_all_one_line_add(a: Seq<Seq<char>>, b: Seq<Seq<char>>)
    requires
        all_one_line(a),
        all_one_line(b),
    ensures
        all_one_line(a + b),
{
    assert forall|i: int| 0 <= i < (a + b).len() implies one_line(#[trigger] (a + b)[i]) by {
        if i < a.len() {
            assert((a + b)[i] == a[i]);
        } else {
            assert((a + b)[i] == b[i - a.len()]);
        }
    }
}

proof fn lemma_il_one_line(n: int)
    ensures
        one_line(il(n)),
{
    reveal(il);
    lemma_fmt_int_plain(n);
    let s = fmt_int(n);
    assert forall|i: int| 0 <= i < s.len() implies s[i] != '\n' by {
        assert(s[i] == '-' || is_digit(s[i]));
    }
    assert(s[s.len() - 1] == '-' || is_digit(s[s.len() - 1]));
}

proof fn lemma_bl_one_line(b: bool)
    ensures
        one_line(bl(b)),
{
    lemma_il_one_line(1);
    lemma_il_one_line(0);
}

// ── Reading integers back ──────────────────────────────────────────────────

proof fn lemma_rd_il(ls: Seq<Seq<char>>, p: int, n: int)
    requires
        0 <= p < ls.len(),
        ls[p] == il(n),
        i64::MIN <= n <= i64::MAX,
    ensures
        rd_int(ls, p) == Ok::<i64, crate::sqbs_format::SqbsErrorView>(n as i64),
{
    reveal(il);
    lemma_parse_fmt_int(n as i64);
}

proof fn lemma_sp_ints(ls: Seq<Seq<char>>, p: int, vs: Seq<i64>)
    requires
        0 <= p,
        p + vs.len() <= ls.len(),
        forall|i: int| 0 <= i < vs.len() ==> #[trigger] ls[p + i] == il(vs[i] as int),
    ensures
        sp_ints(ls, p, vs.len()) == Ok::<Seq<i64>, crate::sqbs_format::SqbsErrorView>(vs),
    decreases vs.len(),
{
    if vs.len() > 0 {
        assert(ls[p + 0] == il(vs[0] as int));
        lemma_rd_il(ls, p, vs[0] as int);
        let rest = vs.drop_first();
        assert forall|i: int| 0 <= i < rest.len() implies #[trigger] ls[(p + 1) + i] == il(rest[i] as int) by {
            assert(ls[p + (i + 1)] == il(vs[i + 1] as int));
        }
        lemma_sp_ints(ls, p + 1, rest);
        assert(rest.len() == (vs.len() - 1) as nat);
        assert(rd_int(ls, p) == Ok::<i64, crate::sqbs_format::SqbsErrorView>(vs[0]));
        assert(seq![vs[0]] + rest =~= vs);
    } else {
        assert(vs =~= Seq::<i64>::empty());
    }
}

// ── Reading teams back ─────────────────────────────────────────────────────

/// A team as the team section reads it: its name and roster; its division,
/// exhibition flag and rank come from later sections.
pub open spec fn read_team(t: TeamView) -> TeamView {
    TeamView {
        name: t.name,
        players: t.players,
        division: None,
        exhibition: false,
        manual_rank: 0,
    }
}

pub open spec fn read_teams(ts: Seq<TeamView>) -> Seq<TeamView> {
    ts.map_values(|t: TeamView| read_team(t))
}

proof fn lemma_teams_lines_front(ts: Seq<TeamView>)
    requires
        ts.len() > 0,
    ensures
        teams_lines(ts) == team_lines(ts[0]) + teams_lines(ts.drop_first()),
{
    lemma_flat_map_front(ts, |t: TeamView| team_lines(t));
}

proof fn lemma_sp_team(ls: Seq<Seq<char>>, p: int, t: TeamView)
    requires
        at(ls, p, team_lines(t)),
        t.players.len() < 100,
    ensures
        sp_team(ls, p) == Ok::<(TeamView, int), SqbsErrorView>(
            (read_team(t), p + team_lines(t).len()),
        ),
{
    let sec = team_lines(t);
    lemma_at_line(ls, p, sec, 0);
    lemma_rd_il(ls, p, t.players.len() as int + 1);
    lemma_at_line(ls, p, sec, 1);
    let n = t.players.len() as int;
    assert forall|i: int| 0 <= i < n implies #[trigger] ls.subrange(p + 2, p + 2 + n)[i]
        == t.players[i] by {
        lemma_at_line(ls, p, sec, i + 2);
    }
    assert(ls.subrange(p + 2, p + 2 + n) =~= t.players);
}

proof fn lemma_sp_teams(ls: Seq<Seq<char>>, p: int, ts: Seq<TeamView>)
    requires
        at(ls, p, teams_lines(ts)),
        forall|i: int| 0 <= i < ts.len() ==> #[trigger] ts[i].players.len() < 100,
    ensures
        sp_teams(ls, p, ts.len()) == Ok::<(Seq<TeamView>, int), SqbsErrorView>(
            (read_teams(ts), p + teams_lines(ts).len()),
        ),
    decreases ts.len(),
{
    if ts.len() > 0 {
        let t0 = ts[0];
        let rest = ts.drop_first();
        lemma_teams_lines_front(ts);
        lemma_at_split(ls, p, team_lines(t0), teams_lines(rest));
        lemma_sp_team(ls, p, t0);
        assert forall|i: int| 0 <= i < rest.len() implies #[trigger] rest[i].players.len() < 100 by {
            assert(rest[i] == ts[i + 1]);
        }
        lemma_sp_teams(ls, p + team_lines(t0).len(), rest);
        assert(rest.len() == (ts.len() - 1) as nat);
        assert(seq![read_team(t0)] + read_teams(rest) =~= read_teams(ts));
    } else {
        assert(read_teams(ts) =~= Seq::<TeamView>::empty());
        assert(teams_lines(ts) =~= Seq::<Seq<char>>::empty());
    }
}

// ── Reading games back ─────────────────────────────────────────────────────

/// A player record that reads back as written.
pub open spec fn record_readable(r: Option<PlayerScoreView>) -> bool {
    r matches Some(ps) ==> ps.player_index <= i64::MAX && ps.q.len() == 4
}

proof fn lemma_sp_record(ls: Seq<Seq<char>>, p: int, r: Option<PlayerScoreView>)
    requires
        at(ls, p, record_lines(r)),
        record_readable(r),
    ensures
        sp_record(ls, p) == Ok::<Option<PlayerScoreView>, SqbsErrorView>(r),
{
    let sec = record_lines(r);
    lemma_at_line(ls, p, sec, 0);
    match r {
        None => {
            lemma_rd_il(ls, p, -1);
        },
        Some(ps) => {
            lemma_rd_il(ls, p, ps.player_index as int);
            lemma_at_line(ls, p, sec, 1);
            let xs = seq![ps.q[0] as i64, ps.q[1] as i64, ps.q[2] as i64, ps.q[3] as i64, ps.points as i64];
            assert forall|i: int| 0 <= i < xs.len() implies #[trigger] ls[(p + 2) + i] == il(xs[i] as int) by {
                lemma_at_line(ls, p, sec, i + 2);
            }
            lemma_sp_ints(ls, p + 2, xs);
            assert(seq![xs[0] as i32, xs[1] as i32, xs[2] as i32, xs[3] as i32] =~= ps.q);
        },
    }
}

proof fn lemma_records_lines_front(rs: Seq<Option<PlayerScoreView>>)
    requires
        rs.len() > 0,
    ensures
        records_lines(rs) == record_lines(rs[0]) + records_lines(rs.drop_first()),
{
    lemma_flat_map_front(rs, |r: Option<PlayerScoreView>| record_lines(r));
}

proof fn lemma_records_len(rs: Seq<Option<PlayerScoreView>>)
    ensures
        records_lines(rs).len() == 7 * rs.len(),
    decreases rs.len(),
{
    if rs.len() > 0 {
        lemma_records_lines_front(rs);
        lemma_records_len(rs.drop_first());
    } else {
        assert(records_lines(rs) =~= Seq::<Seq<char>>::empty());
    }
}

proof fn lemma_sp_records(ls: Seq<Seq<char>>, p: int, rs: Seq<Option<PlayerScoreView>>)
    requires
        at(ls, p, records_lines(rs)),
        forall|i: int| 0 <= i < rs.len() ==> record_readable(#[trigger] rs[i]),
    ensures
        sp_records(ls, p, rs.len()) == Ok::<Seq<Option<PlayerScoreView>>, SqbsErrorView>(rs),
    decreases rs.len(),
{
    if rs.len() > 0 {
        let r0 = rs[0];
        let rest = rs.drop_first();
        lemma_records_lines_front(rs);
        lemma_at_split(ls, p, record_lines(r0), records_lines(rest));
        lemma_sp_record(ls, p, r0);
        assert forall|i: int| 0 <= i < rest.len() implies record_readable(#[trigger] rest[i]) by {
            assert(rest[i] == rs[i + 1]);
        }
        lemma_sp_records(ls, p + 7, rest);
        assert(rest.len() == (rs.len() - 1) as nat);
        assert(seq![r0] + rest =~= rs);
    } else {
        assert(rs =~= Seq::<Option<PlayerScoreView>>::empty());
    }
}

/// A bonus pair that its code gives back.
pub open spec fn splits(heard: i32, bb: i32) -> bool {
    &&& trem(bonus_code(heard, bb), BB as int) == heard
    &&& tdiv(bonus_code(heard, bb), BB as int) == bb
}

/// A team's side of a game that reads back as written: eight player slots.
pub open spec fn score_readable(s: TeamScoreView) -> bool {
    &&& s.player_scores.len() == 8
    &&& forall|i: int| 0 <= i < 8 ==> record_readable(#[trigger] s.player_scores[i])
    &&& s.team_index <= i64::MAX
    &&& splits(s.bonus_heard, s.bb_heard)
    &&& splits(s.bonus_points, s.bb_points)
}

pub open spec fn game_readable(g: GameView) -> bool {
    score_readable(g.team_a) && score_readable(g.team_b)
}

proof fn lemma_game_lines_len(g: GameView)
    ensures
        game_lines(g).len() == 129,
{
    lemma_records_len(slots(g.team_a.player_scores, g.team_b.player_scores));
}

proof fn lemma_sp_game(ls: Seq<Seq<char>>, p: int, g: GameView)
    requires
        at(ls, p, game_lines(g)),
        game_readable(g),
    ensures
        sp_game(ls, p) == Ok::<GameView, SqbsErrorView>(g),
{
    let head = game_head_lines(g);
    let rs = slots(g.team_a.player_scores, g.team_b.player_scores);
    lemma_at_split(ls, p, head, records_lines(rs));
    let a = g.team_a;
    let b = g.team_b;
    lemma_at_line(ls, p, head, 0);
    lemma_at_line(ls, p, head, 1);
    lemma_at_line(ls, p, head, 2);
    lemma_at_line(ls, p, head, 3);
    lemma_at_line(ls, p, head, 4);
    lemma_rd_il(ls, p + 1, a.team_index as int);
    lemma_rd_il(ls, p + 2, b.team_index as int);
    let xs = seq![
        g.tossups_heard as i64,
        g.round as i64,
        bonus_code(a.bonus_heard, a.bb_heard) as i64,
        bonus_code(a.bonus_points, a.bb_points) as i64,
        bonus_code(b.bonus_heard, b.bb_heard) as i64,
        bonus_code(b.bonus_points, b.bb_points) as i64,
        if g.overtime { 1i64 } else { 0i64 },
        a.ot_gets as i64,
        b.ot_gets as i64,
        if g.forfeit { 1i64 } else { 0i64 },
        a.lightning_points as i64,
        b.lightning_points as i64,
    ];
    assert forall|i: int| 0 <= i < xs.len() implies #[trigger] ls[(p + 5) + i] == il(xs[i] as int) by {
        lemma_at_line(ls, p, head, i + 5);
    }
    lemma_sp_ints(ls, p + 5, xs);
    lemma_records_len(rs);
    assert forall|i: int| 0 <= i < rs.len() implies record_readable(#[trigger] rs[i]) by {
        if i % 2 == 0 {
            assert(rs[i] == slot(a.player_scores, i / 2));
        } else {
            assert(rs[i] == slot(b.player_scores, i / 2));
        }
    }
    lemma_sp_records(ls, p + 17, rs);
    reveal(il);
    lemma_parse_fmt_i32(a.total_points);
    lemma_parse_fmt_i32(b.total_points);
    assert(int_or_zero(ls[p + 3]) == a.total_points);
    assert(int_or_zero(ls[p + 4]) == b.total_points);
    assert forall|i: int| 0 <= i < 8 implies #[trigger] evens(rs)[i] == a.player_scores[i] by {
        assert(rs[2 * i] == slot(a.player_scores, i));
    }
    assert forall|i: int| 0 <= i < 8 implies #[trigger] odds(rs)[i] == b.player_scores[i] by {
        assert(rs[2 * i + 1] == slot(b.player_scores, i));
    }
    assert(evens(rs) =~= a.player_scores);
    assert(odds(rs) =~= b.player_scores);
}

proof fn lemma_games_lines_front(gs: Seq<GameView>)
    requires
        gs.len() > 0,
    ensures
        games_lines(gs) == game_lines(gs[0]) + games_lines(gs.drop_first()),
{
    lemma_flat_map_front(gs, |g: GameView| game_lines(g));
}

proof fn lemma_games_len(gs: Seq<GameView>)
    ensures
        games_lines(gs).len() == 129 * gs.len(),
    decreases gs.len(),
{
    if gs.len() > 0 {
        lemma_games_lines_front(gs);
        lemma_game_lines_len(gs[0]);
        lemma_games_len(gs.drop_first());
    } else {
        assert(games_lines(gs) =~= Seq::<Seq<char>>::empty());
    }
}

proof fn lemma_sp_games(ls: Seq<Seq<char>>, p: int, gs: Seq<GameView>)
    requires
        at(ls, p, games_lines(gs)),
        forall|i: int| 0 <= i < gs.len() ==> game_readable(#[trigger] gs[i]),
    ensures
        sp_games(ls, p, gs.len()) == Ok::<Seq<GameView>, SqbsErrorView>(gs),
    decreases gs.len(),
{
    if gs.len() > 0 {
        let g0 = gs[0];
        let rest = gs.drop_first();
        lemma_games_lines_front(gs);
        lemma_game_lines_len(g0);
        lemma_at_split(ls, p, game_lines(g0), games_lines(rest));
        lemma_sp_game(ls, p, g0);
        assert forall|i: int| 0 <= i < rest.len() implies game_readable(#[trigger] rest[i]) by {
            assert(rest[i] == gs[i + 1]);
        }
        lemma_sp_games(ls, p + 129, rest);
        assert(rest.len() == (gs.len() - 1) as nat);
        assert(seq![g0] + rest =~= gs);
    } else {
        assert(gs =~= Seq::<GameView>::empty());
    }
}

proof fn lemma_no_index_error(gs: Seq<GameView>, n: usize)
    requires
        forall|i: int|
            0 <= i < gs.len() ==> (#[trigger] gs[i]).team_a.team_index < n && gs[i].team_b.team_index
                < n,
    ensures
        index_error(gs, n) is None,
    decreases gs.len(),
{
    if gs.len() > 0 {
        let rest = gs.drop_first();
        assert forall|i: int| 0 <= i < rest.len() implies (#[trigger] rest[i]).team_a.team_index < n
            && rest[i].team_b.team_index < n by {
            assert(rest[i] == gs[i + 1]);
        }
        lemma_no_index_error(rest, n);
    }
}

// ── Reading the settings back ──────────────────────────────────────────────

pub open spec fn flag(b: bool) -> i64 {
    if b {
        1
    } else {
        0
    }
}

/// The 17 setting integers written for `t`.
pub open spec fn flag_values(t: TournamentView) -> Seq<i64> {
    seq![
        flag(t.track_bonuses),
        t.scoring.auto_track as i64,
        if t.scoring.track_power_neg { 3i64 } else { 2i64 },
        flag(t.scoring.track_light_round),
        flag(t.scoring.track_tuh),
        if t.scoring.sort_by_ppg { 3i64 } else { 2i64 },
        t.warn_flags as i64,
        flag(t.reports.include_rounds),
        flag(t.reports.include_standings),
        flag(t.reports.include_individuals),
        flag(t.reports.include_games),
        flag(t.reports.include_team_detail),
        flag(t.reports.include_player_detail),
        flag(t.reports.include_stat_key),
        flag(t.reports.use_style_sheet),
        flag(t.uses_divisions),
        t.sort_method as i64,
    ]
}

pub open spec fn int_lines(vs: Seq<i64>) -> Seq<Seq<char>> {
    vs.map_values(|x: i64| il(x as int))
}

proof fn lemma_sp_int_lines(ls: Seq<Seq<char>>, p: int, vs: Seq<i64>)
    requires
        at(ls, p, int_lines(vs)),
    ensures
        sp_ints(ls, p, vs.len()) == Ok::<Seq<i64>, SqbsErrorView>(vs),
{
    assert forall|i: int| 0 <= i < vs.len() implies #[trigger] ls[p + i] == il(vs[i] as int) by {
        lemma_at_line(ls, p, int_lines(vs), i);
    }
    lemma_sp_ints(ls, p, vs);
}

#[verifier::rlimit(100)]
proof fn lemma_flags_int_lines(t: TournamentView)
    ensures
        flags_section(t) == int_lines(flag_values(t)),
{
    let fv = flag_values(t);
    let sec = flags_section(t);
    assert forall|i: int| 0 <= i < 17 implies #[trigger] sec[i] == il(fv[i] as int) by {
        if i == 0 || i == 3 || i == 4 || 7 <= i <= 15 {
            if fv[i] == 1 {
                assert(sec[i] == il(1));
            } else {
                assert(sec[i] == il(0));
            }
        }
    }
    assert(sec =~= int_lines(fv));
}

#[verifier::rlimit(40)]
proof fn lemma_sp_flags(ls: Seq<Seq<char>>, p: int, t: TournamentView)
    requires
        at(ls, p, flags_section(t)),
    ensures
        sp_flags(ls, p) == Ok::<Seq<i64>, SqbsErrorView>(flag_values(t)),
{
    let fv = flag_values(t);
    let a = fv.subrange(0, 2);
    let b = fv.subrange(2, 7);
    let c = fv.subrange(7, 17);
    lemma_flags_int_lines(t);
    assert(int_lines(fv) =~= int_lines(a) + int_lines(b) + int_lines(c));
    lemma_at_split(ls, p, int_lines(a) + int_lines(b), int_lines(c));
    lemma_at_split(ls, p, int_lines(a), int_lines(b));
    lemma_sp_int_lines(ls, p, a);
    lemma_sp_int_lines(ls, p + 2, b);
    lemma_sp_int_lines(ls, p + 7, c);
    assert(a + b + c =~= fv);
}

proof fn lemma_sp_names(ls: Seq<Seq<char>>, p: int, t: TournamentView)
    requires
        at(ls, p, names_section(t)),
    ensures
        sp_names(ls, p) == Ok::<i64, SqbsErrorView>(if t.reports.british_style { 2i64 } else { 0i64 }),
{
    lemma_at_line(ls, p, names_section(t), 5);
    lemma_rd_il(ls, p + 5, if t.reports.british_style { 2 } else { 0 });
}

/// Properties of the first index of a division name.
proof fn lemma_first_index(divs: Seq<Seq<char>>, name: Seq<char>)
    ensures
        -1 <= first_index_of(divs, name) < divs.len(),
        first_index_of(divs, name) >= 0 ==> divs[first_index_of(divs, name)] == name,
        divs.contains(name) ==> first_index_of(divs, name) >= 0,
    decreases divs.len(),
{
    if divs.len() > 0 && divs[0] != name {
        let rest = divs.drop_first();
        lemma_first_index(rest, name);
        let r = first_index_of(rest, name);
        if r >= 0 {
            assert(divs[r + 1] == rest[r]);
        }
        if divs.contains(name) {
            let j = choose|j: int| 0 <= j < divs.len() && divs[j] == name;
            assert(rest[j - 1] == name);
        }
    }
}

/// The division indices written for `t`'s teams.
pub open spec fn div_indices(t: TournamentView) -> Seq<i64> {
    if writes_divisions(t) {
        t.teams.map_values(|tm: TeamView| div_index(t.divisions, tm.division) as i64)
    } else {
        Seq::new(t.teams.len(), |i: int| 0i64)
    }
}

/// The division names written for `t`.
pub open spec fn divs_written(t: TournamentView) -> Seq<Seq<char>> {
    if writes_divisions(t) {
        t.divisions
    } else {
        Seq::empty()
    }
}

proof fn lemma_sp_divisions(ls: Seq<Seq<char>>, p: int, t: TournamentView)
    requires
        at(ls, p, divisions_section(t)),
        t.divisions.len() <= MAX_DIVISIONS,
        t.teams.len() <= i64::MAX,
    ensures
        sp_divisions(ls, p, t.teams.len()) == Ok::<(i64, Seq<i64>), SqbsErrorView>(
            (divs_written(t).len() as i64, div_indices(t)),
        ),
        divisions_section(t).len() == 2 + divs_written(t).len() + t.teams.len(),
        ls.subrange(p + 1, p + 1 + divs_written(t).len()) == divs_written(t),
{
    let sec = divisions_section(t);
    let nd = divs_written(t).len() as int;
    let tc = t.teams.len() as int;
    let ixs = div_indices(t);
    lemma_at_line(ls, p, sec, 0);
    lemma_rd_il(ls, p, nd);
    lemma_at_line(ls, p, sec, 1 + nd);
    lemma_rd_il(ls, p + 1 + nd, if writes_divisions(t) { tc } else { 0 });
    assert forall|i: int| 0 <= i < tc implies #[trigger] ls[(p + 2 + nd) + i] == il(ixs[i] as int) by {
        lemma_at_line(ls, p, sec, 2 + nd + i);
        if writes_divisions(t) {
            let d = t.teams[i].division;
            match d {
                Some(name) => lemma_first_index(t.divisions, name),
                None => {},
            }
            assert(sec[2 + nd + i] == div_index_lines(t.divisions, t.teams)[i]);
        }
    }
    lemma_sp_ints(ls, p + 2 + nd, ixs);
    assert forall|i: int| 0 <= i < nd implies #[trigger] ls.subrange(p + 1, p + 1 + nd)[i]
        == divs_written(t)[i] by {
        lemma_at_line(ls, p, sec, 1 + i);
    }
    assert(ls.subrange(p + 1, p + 1 + nd) =~= divs_written(t));
}

proof fn lemma_q_ints(ls: Seq<Seq<char>>, p: int, s: ScoringView)
    requires
        at(ls, p, q_section(s)),
    ensures
        sp_ints(ls, p, 4) == Ok::<Seq<i64>, SqbsErrorView>(
            Seq::new(4, |i: int| spec_effective_q_value(s, i) as i64),
        ),
{
    let qs = Seq::new(4, |i: int| spec_effective_q_value(s, i) as i64);
    assert forall|i: int| 0 <= i < qs.len() implies #[trigger] ls[p + i] == il(qs[i] as int) by {
        lemma_at_line(ls, p, q_section(s), i);
    }
    lemma_sp_ints(ls, p, qs);
}

/// Reading `n - off` packet names from line `pos` on, for rounds from
/// `mn + off` on, completes the map of the rounds before them.
proof fn lemma_pk_loop(
    ls: Seq<Seq<char>>,
    pos: int,
    mn: u32,
    off: int,
    n: int,
    names: Seq<Seq<char>>,
)
    requires
        0 <= off <= n,
        names.len() == n,
        mn + n <= u32::MAX + 1,
        0 <= pos,
        pos + (n - off) <= ls.len(),
        forall|k: int| off <= k < n ==> #[trigger] ls[pos + (k - off)] == names[k],
    ensures
        pk_loop(
            ls,
            pos,
            mn,
            off,
            n,
            Map::new(|r: u32| mn <= r < mn + off, |r: u32| names[r - mn]),
        ) == (Map::new(|r: u32| mn <= r < mn + n, |r: u32| names[r - mn]), pos + (n - off)),
    decreases n - off,
{
    let m = Map::new(|r: u32| mn <= r < mn + off, |r: u32| names[r - mn]);
    if off < n {
        assert(ls[pos + (off - off)] == names[off]);
        assert((off as u32) as int == off);
        let r = (mn + off) as u32;
        let m2 = m.insert(r, names[off]);
        assert(m2 =~= Map::new(|k: u32| mn <= k < mn + (off + 1), |k: u32| names[k - mn]));
        assert forall|k: int| off + 1 <= k < n implies #[trigger] ls[(pos + 1) + (k - (off + 1))] == names[k] by {
            assert(ls[pos + (k - off)] == names[k]);
        }
        lemma_pk_loop(ls, pos + 1, mn, off + 1, n, names);
    } else {
        assert(m =~= Map::new(|r: u32| mn <= r < mn + n, |r: u32| names[r - mn]));
    }
}

/// Reading exhibition flags from line `pos` on, for teams `i..n`.
proof fn lemma_ex_loop(ls: Seq<Seq<char>>, pos: int, i: int, n: int, flags: Seq<bool>, ex: Seq<bool>)
    requires
        0 <= i <= n,
        flags.len() == n,
        ex.len() == n,
        0 <= pos,
        pos + (n - i) <= ls.len(),
        forall|k: int| i <= k < n ==> #[trigger] ls[pos + (k - i)] == bl(ex[k]),
        forall|k: int| 0 <= k < i ==> #[trigger] flags[k] == ex[k],
    ensures
        ex_loop(ls, pos, i, n, flags) == (ex, pos + (n - i)),
    decreases n - i,
{
    if i < n {
        assert(ls[pos + (i - i)] == bl(ex[i]));
        lemma_rd_il(ls, pos, flag(ex[i]) as int);
        let f2 = flags.update(i, ex[i]);
        assert forall|k: int| i + 1 <= k < n implies #[trigger] ls[(pos + 1) + (k - (i + 1))] == bl(ex[k]) by {
            assert(ls[pos + (k - i)] == bl(ex[k]));
        }
        lemma_ex_loop(ls, pos + 1, i + 1, n, f2, ex);
    } else {
        assert(flags =~= ex);
    }
}

proof fn lemma_trim_marker()
    ensures
        trim(marker_line()) == marker_line(),
{
    reveal_strlit("SQBSMANUALRANKS");
    let s = marker_line();
    assert(s[0] == 'S');
    assert(s.last() == 'S');
    assert(!is_ws(s[0]));
    assert(trim_start(s) == s);
    assert(!is_ws(s.last()));
    assert(trim_end(s) == s);
}

proof fn lemma_rank_of(r: u32)
    ensures
        rank_of(il(r as int)) == r,
{
    reveal(il);
    lemma_parse_fmt_int(r as i64);
}

/// A tournament's packet names, as the file keeps them: named exactly for
/// the rounds from the first game's round to the last when packets are
/// written, none otherwise.
pub open spec fn packets_kept(t: TournamentView) -> bool {
    if writes_packets(t) {
        let mn = spec_min_round(t.games).unwrap();
        let mx = spec_max_round(t.games).unwrap();
        &&& mn < u32::MAX
        &&& forall|r: u32| #[trigger] t.packets.contains_key(r) <==> mn <= r <= mx
    } else {
        t.packets =~= Map::empty()
    }
}

proof fn lemma_sp_packets(ls: Seq<Seq<char>>, p: int, t: TournamentView)
    requires
        at(ls, p, packets_section(t)),
        packets_kept(t),
    ensures
        sp_packets(ls, p, true, round_range(t.games).0, round_range(t.games).1) == (
            t.packets,
            p + packets_section(t).len(),
        ),
{
    let sec = packets_section(t);
    lemma_at_line(ls, p, sec, 0);
    let (mn, mx) = round_range(t.games);
    if writes_packets(t) {
        lemma_round_bounds_some(t.games);
        let mn0 = spec_min_round(t.games).unwrap();
        let mx0 = spec_max_round(t.games).unwrap();
        assert(mn == mn0);
        let count = mx0 - mn0 + 1;
        lemma_rd_il(ls, p, count);
        reveal(il);
        lemma_parse_fmt_int(count as i64);
        let names = Seq::new(count as nat, |k: int| packet_name(t.packets, mn0 + k));
        assert forall|k: int| 0 <= k < count implies #[trigger] ls[(p + 1) + (k - 0)] == names[k] by {
            lemma_at_line(ls, p, sec, 1 + k);
        }
        lemma_pk_loop(ls, p + 1, mn0, 0, count, names);
        assert(Map::new(|r: u32| mn0 <= r < mn0 + 0, |r: u32| names[r - mn0]) =~= Map::<
            u32,
            Seq<char>,
        >::empty());
        assert(Map::new(|r: u32| mn0 <= r < mn0 + count, |r: u32| names[r - mn0]) =~= t.packets);
    } else {
        lemma_rd_il(ls, p, 0);
        reveal(il);
        lemma_parse_fmt_int(0);
        lemma_pk_loop(ls, p + 1, mn, 0, 0, Seq::empty());
        assert(Map::new(|r: u32| mn <= r < mn + 0, |r: u32| Seq::<Seq<char>>::empty()[r - mn]) =~= Map::<
            u32,
            Seq<char>,
        >::empty());
    }
}

/// When there are games, the first and last rounds are those of games.
proof fn lemma_round_bounds_some(gs: Seq<GameView>)
    requires
        gs.len() > 0,
    ensures
        spec_min_round(gs) is Some,
        spec_max_round(gs) is Some,
        spec_min_round(gs).unwrap() <= spec_max_round(gs).unwrap(),
{
    crate::models::lemma_round_bounds(gs);
    let m = spec_min_round(gs).unwrap();
    assert(m <= gs[0].round);
    assert(gs[0].round <= spec_max_round(gs).unwrap());
}

proof fn lemma_sp_exhibition(ls: Seq<Seq<char>>, p: int, ts: Seq<TeamView>)
    requires
        at(ls, p, exhibition_section(ts)),
        ts.len() <= 100,
    ensures
        sp_exhibition(ls, p, true, ts.len()) == (
            ts.map_values(|tm: TeamView| tm.exhibition),
            p + exhibition_section(ts).len(),
        ),
{
    let sec = exhibition_section(ts);
    let n = ts.len() as int;
    lemma_at_line(ls, p, sec, 0);
    reveal(il);
    lemma_parse_fmt_int(n as i64);
    let ex = ts.map_values(|tm: TeamView| tm.exhibition);
    assert forall|k: int| 0 <= k < n implies #[trigger] ls[(p + 1) + (k - 0)] == bl(ex[k]) by {
        lemma_at_line(ls, p, sec, 1 + k);
    }
    lemma_ex_loop(ls, p + 1, 0, n, Seq::new(n as nat, |i: int| false), ex);
}

proof fn lemma_sp_ranks(ls: Seq<Seq<char>>, p: int, ts: Seq<TeamView>)
    requires
        at(ls, p, manual_section(ts)),
        ls.len() == p + manual_section(ts).len(),
        ts.len() <= 100,
    ensures
        sp_ranks(ls, p, ts.len()) == ts.map_values(|tm: TeamView| tm.manual_rank),
{
    let sec = manual_section(ts);
    let n = ts.len() as int;
    if has_manual_rank(ts) {
        lemma_at_line(ls, p, sec, 0);
        lemma_at_line(ls, p, sec, 1);
        lemma_trim_marker();
        reveal(il);
        lemma_parse_fmt_int(n as i64);
        assert forall|i: int| 0 <= i < n implies #[trigger] rank_of(ls[p + 2 + i]) == ts[i].manual_rank by {
            lemma_at_line(ls, p, sec, 2 + i);
            lemma_rank_of(ts[i].manual_rank);
        }
        assert(sp_ranks(ls, p, ts.len()) =~= ts.map_values(|tm: TeamView| tm.manual_rank));
    } else {
        assert forall|i: int| 0 <= i < n implies #[trigger] ts[i].manual_rank == 0 by {
            if ts[i].manual_rank > 0 {
                assert(has_manual_rank(ts));
            }
        }
        assert(sp_ranks(ls, p, ts.len()) =~= ts.map_values(|tm: TeamView| tm.manual_rank));
    }
}

proof fn lemma_max_players_read(ts: Seq<TeamView>)
    ensures
        max_players(read_teams(ts)) == max_players(ts),
    decreases ts.len(),
{
    if ts.len() > 0 {
        assert(read_teams(ts).drop_last() =~= read_teams(ts.drop_last()));
        lemma_max_players_read(ts.drop_last());
    }
}

// ── The written lines are single lines ─────────────────────────────────────

/// A player slot whose games-played text is a single line.
pub open spec fn gp_one_line(r: Option<PlayerScoreView>) -> bool {
    r matches Some(ps) ==> one_line(ps.gp)
}

/// The text fields of a game are single lines.
pub open spec fn game_texts_one_line(g: GameView) -> bool {
    &&& one_line(g.game_index)
    &&& forall|j: int| 0 <= j < g.team_a.player_scores.len() ==> gp_one_line(#[trigger] g.team_a.player_scores[j])
    &&& forall|j: int| 0 <= j < g.team_b.player_scores.len() ==> gp_one_line(#[trigger] g.team_b.player_scores[j])
}

/// Every text field of `t` is a single line.
pub open spec fn texts_one_line(t: TournamentView) -> bool {
    &&& one_line(t.name)
    &&& one_line(t.reports.base_name)
    &&& one_line(t.reports.rounds)
    &&& one_line(t.reports.standings)
    &&& one_line(t.reports.individuals)
    &&& one_line(t.reports.games)
    &&& one_line(t.reports.team_detail)
    &&& one_line(t.reports.player_detail)
    &&& one_line(t.reports.stat_key)
    &&& one_line(t.reports.style)
    &&& forall|i: int| 0 <= i < t.teams.len() ==> one_line(#[trigger] t.teams[i].name) && all_one_line(t.teams[i].players)
    &&& all_one_line(t.divisions)
    &&& forall|i: int| 0 <= i < t.games.len() ==> game_texts_one_line(#[trigger] t.games[i])
    &&& forall|r: u32| #[trigger] t.packets.contains_key(r) ==> one_line(t.packets[r])
}

proof fn lemma_int_lines_one_line(vs: Seq<i64>)
    ensures
        all_one_line(int_lines(vs)),
{
    assert forall|i: int| 0 <= i < int_lines(vs).len() implies one_line(#[trigger] int_lines(vs)[i]) by {
        lemma_il_one_line(vs[i] as int);
    }
}

proof fn lemma_teams_one_line(ts: Seq<TeamView>)
    requires
        forall|i: int| 0 <= i < ts.len() ==> one_line(#[trigger] ts[i].name) && all_one_line(ts[i].players),
    ensures
        all_one_line(teams_lines(ts)),
    decreases ts.len(),
{
    if ts.len() > 0 {
        let t0 = ts[0];
        let rest = ts.drop_first();
        lemma_teams_lines_front(ts);
        assert(one_line(t0.name) && all_one_line(t0.players));
        lemma_il_one_line(t0.players.len() as int + 1);
        let head = seq![il(t0.players.len() as int + 1), t0.name];
        assert(all_one_line(head)) by {
            assert forall|i: int| 0 <= i < 2 implies one_line(#[trigger] head[i]) by {}
        }
        lemma_all_one_line_add(head, t0.players);
        assert forall|i: int| 0 <= i < rest.len() implies one_line(#[trigger] rest[i].name) && all_one_line(rest[i].players) by {
            assert(rest[i] == ts[i + 1]);
        }
        lemma_teams_one_line(rest);
        lemma_all_one_line_add(team_lines(t0), teams_lines(rest));
    } else {
        assert(teams_lines(ts) =~= Seq::<Seq<char>>::empty());
    }
}

proof fn lemma_records_one_line(rs: Seq<Option<PlayerScoreView>>)
    requires
        forall|i: int| 0 <= i < rs.len() ==> gp_one_line(#[trigger] rs[i]),
    ensures
        all_one_line(records_lines(rs)),
    decreases rs.len(),
{
    if rs.len() > 0 {
        let r0 = rs[0];
        let rest = rs.drop_first();
        lemma_records_lines_front(rs);
        let sec = record_lines(r0);
        assert(gp_one_line(r0));
        assert forall|i: int| 0 <= i < sec.len() implies one_line(#[trigger] sec[i]) by {
            match r0 {
                None => {
                    lemma_il_one_line(-1);
                    lemma_il_one_line(0);
                },
                Some(ps) => {
                    lemma_il_one_line(ps.player_index as int);
                    lemma_il_one_line(ps.q[0] as int);
                    lemma_il_one_line(ps.q[1] as int);
                    lemma_il_one_line(ps.q[2] as int);
                    lemma_il_one_line(ps.q[3] as int);
                    lemma_il_one_line(ps.points as int);
                },
            }
        }
        assert forall|i: int| 0 <= i < rest.len() implies gp_one_line(#[trigger] rest[i]) by {
            assert(rest[i] == rs[i + 1]);
        }
        lemma_records_one_line(rest);
        lemma_all_one_line_add(sec, records_lines(rest));
    } else {
        assert(records_lines(rs) =~= Seq::<Seq<char>>::empty());
    }
}

proof fn lemma_game_one_line(g: GameView)
    requires
        game_texts_one_line(g),
    ensures
        all_one_line(game_lines(g)),
{
    let head = game_head_lines(g);
    let a = g.team_a;
    let b = g.team_b;
    assert forall|i: int| 0 <= i < head.len() implies one_line(#[trigger] head[i]) by {
        lemma_il_one_line(a.team_index as int);
        lemma_il_one_line(b.team_index as int);
        lemma_il_one_line(a.total_points as int);
        lemma_il_one_line(b.total_points as int);
        lemma_il_one_line(g.tossups_heard as int);
        lemma_il_one_line(g.round as int);
        lemma_il_one_line(bonus_code(a.bonus_heard, a.bb_heard));
        lemma_il_one_line(bonus_code(a.bonus_points, a.bb_points));
        lemma_il_one_line(bonus_code(b.bonus_heard, b.bb_heard));
        lemma_il_one_line(bonus_code(b.bonus_points, b.bb_points));
        lemma_bl_one_line(g.overtime);
        lemma_il_one_line(a.ot_gets as int);
        lemma_il_one_line(b.ot_gets as int);
        lemma_bl_one_line(g.forfeit);
        lemma_il_one_line(a.lightning_points as int);
        lemma_il_one_line(b.lightning_points as int);
    }
    let rs = slots(a.player_scores, b.player_scores);
    assert forall|i: int| 0 <= i < rs.len() implies gp_one_line(#[trigger] rs[i]) by {
        if i % 2 == 0 {
            if 0 <= i / 2 < a.player_scores.len() {
                assert(gp_one_line(a.player_scores[i / 2]));
            }
        } else {
            if 0 <= i / 2 < b.player_scores.len() {
                assert(gp_one_line(b.player_scores[i / 2]));
            }
        }
    }
    lemma_records_one_line(rs);
    lemma_all_one_line_add(head, records_lines(rs));
}

proof fn lemma_games_one_line(gs: Seq<GameView>)
    requires
        forall|i: int| 0 <= i < gs.len() ==> game_texts_one_line(#[trigger] gs[i]),
    ensures
        all_one_line(games_lines(gs)),
    decreases gs.len(),
{
    if gs.len() > 0 {
        let rest = gs.drop_first();
        lemma_games_lines_front(gs);
        lemma_game_one_line(gs[0]);
        assert forall|i: int| 0 <= i < rest.len() implies game_texts_one_line(#[trigger] rest[i]) by {
            assert(rest[i] == gs[i + 1]);
        }
        lemma_games_one_line(rest);
        lemma_all_one_line_add(game_lines(gs[0]), games_lines(rest));
    } else {
        assert(games_lines(gs) =~= Seq::<Seq<char>>::empty());
    }
}

proof fn lemma_file_one_line(t: TournamentView)
    requires
        texts_one_line(t),
    ensures
        all_one_line(file_lines_of(t)),
{
    let tc = t.teams.len() as int;
    lemma_il_one_line(tc);
    lemma_il_one_line(t.games.len() as int);
    lemma_il_one_line(0);
    let s1 = teams_section(t.teams);
    lemma_teams_one_line(t.teams);
    lemma_all_one_line_add(seq![il(tc)], teams_lines(t.teams));
    let s2 = games_section(t.games);
    lemma_games_one_line(t.games);
    lemma_all_one_line_add(seq![il(t.games.len() as int)], games_lines(t.games));
    lemma_flags_int_lines(t);
    lemma_int_lines_one_line(flag_values(t));
    let nm = names_section(t);
    assert forall|i: int| 0 <= i < nm.len() implies one_line(#[trigger] nm[i]) by {
        lemma_il_one_line(if t.reports.british_style { 2 } else { 0 });
    }
    lemma_all_one_line_add(flags_section(t), nm);
    let s4 = divisions_section(t);
    assert forall|i: int| 0 <= i < s4.len() implies one_line(#[trigger] s4[i]) by {
        lemma_il_one_line(t.divisions.len() as int);
        if writes_divisions(t) {
            let nd = t.divisions.len() as int;
            if 1 <= i < 1 + nd {
                assert(s4[i] == t.divisions[i - 1]);
            } else if i >= 2 + nd {
                let tm = t.teams[i - 2 - nd];
                assert(s4[i] == il(div_index(t.divisions, tm.division)));
                lemma_il_one_line(div_index(t.divisions, tm.division));
            }
        }
    }
    let s5 = q_section(t.scoring);
    assert forall|i: int| 0 <= i < s5.len() implies one_line(#[trigger] s5[i]) by {
        lemma_il_one_line(spec_effective_q_value(t.scoring, i) as int);
    }
    let s6 = packets_section(t);
    assert forall|i: int| 0 <= i < s6.len() implies one_line(#[trigger] s6[i]) by {
        if writes_packets(t) {
            let mn = spec_min_round(t.games).unwrap() as int;
            let mx = spec_max_round(t.games).unwrap() as int;
            lemma_il_one_line(mx - mn + 1);
            if i > 0 {
                let r = mn + i - 1;
                if 0 <= r <= u32::MAX && t.packets.contains_key(r as u32) {
                    assert(one_line(t.packets[r as u32]));
                } else {
                    reveal_strlit("-");
                    assert(dash().len() == 1);
                }
            }
        }
    }
    let s7 = exhibition_section(t.teams);
    assert forall|i: int| 0 <= i < s7.len() implies one_line(#[trigger] s7[i]) by {
        if i > 0 {
            lemma_bl_one_line(t.teams[i - 1].exhibition);
        }
    }
    let s8 = manual_section(t.teams);
    assert forall|i: int| 0 <= i < s8.len() implies one_line(#[trigger] s8[i]) by {
        if i == 0 {
            reveal_strlit("SQBSMANUALRANKS");
            assert(marker_line().len() == 15);
            assert(marker_line()[14] == 'S');
            assert forall|j: int| 0 <= j < 15 implies marker_line()[j] != '\n' by {}
        } else if i > 1 {
            lemma_il_one_line(t.teams[i - 2].manual_rank as int);
        }
    }
    lemma_all_one_line_add(s1, s2);
    lemma_all_one_line_add(s1 + s2, settings_section(t));
    lemma_all_one_line_add(s1 + s2 + settings_section(t), s4);
    lemma_all_one_line_add(s1 + s2 + settings_section(t) + s4, s5);
    lemma_all_one_line_add(s1 + s2 + settings_section(t) + s4 + s5, s6);
    lemma_all_one_line_add(s1 + s2 + settings_section(t) + s4 + s5 + s6, s7);
    lemma_all_one_line_add(s1 + s2 + settings_section(t) + s4 + s5 + s6 + s7, s8);
}

// ── The law ────────────────────────────────────────────────────────────────

/// Scoring settings that the file keeps: a tracked category has a nonzero
/// value, an untracked one the default value.
pub open spec fn scoring_kept(s: ScoringView) -> bool {
    &&& s.q_values.len() == 4
    &&& s.q_enabled.len() == 4
    &&& forall|i: int|
        0 <= i < 4 ==> if #[trigger] s.q_enabled[i] {
            s.q_values[i] != 0
        } else {
            s.q_values[i] == default_q_values()[i]
        }
}

/// Divisions that the file keeps: at most `MAX_DIVISIONS`, written only
/// when used, and every team's division one of them.
pub open spec fn divisions_kept(t: TournamentView) -> bool {
    &&& t.divisions.len() <= MAX_DIVISIONS
    &&& writes_divisions(t) || t.divisions.len() == 0
    &&& forall|i: int|
        0 <= i < t.teams.len() ==> (#[trigger] t.teams[i].division matches Some(d)
            ==> t.divisions.contains(d))
}

/// A tournament that the file format holds exactly: what `write_sqbs`
/// writes for it, `SqbsParser::parse` reads back unchanged.
pub open spec fn round_trips(t: TournamentView) -> bool {
    &&& writable(t)
    &&& texts_one_line(t)
    &&& file_lines_of(t).len() <= MAX_LINES
    &&& t.teams.len() <= MAX_TEAM_COUNT
    &&& forall|i: int| 0 <= i < t.teams.len() ==> #[trigger] t.teams[i].players.len() < MAX_MEMBER_COUNT
    &&& t.max_players_per_team == max_players(t.teams)
    &&& t.games.len() <= MAX_GAME_COUNT
    &&& forall|i: int|
        0 <= i < t.games.len() ==> game_readable(#[trigger] t.games[i])
            && t.games[i].team_a.team_index < t.teams.len() && t.games[i].team_b.team_index
            < t.teams.len()
    &&& scoring_kept(t.scoring)
    &&& divisions_kept(t)
    &&& packets_kept(t)
}

proof fn lemma_scoring_back(t: TournamentView)
    requires
        scoring_kept(t.scoring),
    ensures
        scoring_of(flag_values(t), Seq::new(4, |i: int| spec_effective_q_value(t.scoring, i) as i64))
            == t.scoring,
{
    let s = t.scoring;
    let fv = flag_values(t);
    let qs = Seq::new(4, |i: int| spec_effective_q_value(s, i) as i64);
    let r = scoring_of(fv, qs);
    assert forall|i: int| 0 <= i < 4 implies #[trigger] r.q_values[i] == s.q_values[i] && r.q_enabled[i]
        == s.q_enabled[i] by {
        assert(s.q_enabled[i] ==> s.q_values[i] != 0);
    }
    assert(r.q_values =~= s.q_values);
    assert(r.q_enabled =~= s.q_enabled);
    assert((3i64 & 1i64) != 0i64 && (2i64 & 1i64) == 0i64) by (bit_vector);
}

proof fn lemma_reports_back(ls: Seq<Seq<char>>, p: int, t: TournamentView)
    requires
        at(ls, p, names_section(t)),
    ensures
        reports_of(
            ls.subrange(p, p + 5),
            ls.subrange(p + 6, p + 14),
            flag_values(t),
            if t.reports.british_style { 2i64 } else { 0i64 },
        ) == t.reports,
{
    let sec = names_section(t);
    lemma_at_line(ls, p, sec, 4);
    assert(ls.subrange(p, p + 5)[4] == ls[p + 4]);
    assert forall|k: int| 0 <= k < 8 implies #[trigger] ls.subrange(p + 6, p + 14)[k] == sec[6 + k] by {
        lemma_at_line(ls, p, sec, 6 + k);
    }
    assert((2i64 & 2i64) != 0i64 && (0i64 & 2i64) == 0i64) by (bit_vector);
}

proof fn lemma_teams_back(t: TournamentView, ex: Seq<bool>, ranks: Seq<u32>)
    requires
        divisions_kept(t),
        ex == t.teams.map_values(|tm: TeamView| tm.exhibition),
        ranks == t.teams.map_values(|tm: TeamView| tm.manual_rank),
    ensures
        settled_teams(read_teams(t.teams), divs_written(t), div_indices(t), ex, ranks) == t.teams,
{
    let ts = t.teams;
    let got = settled_teams(read_teams(ts), divs_written(t), div_indices(t), ex, ranks);
    assert forall|i: int| 0 <= i < ts.len() implies #[trigger] got[i] == ts[i] by {
        let d = ts[i].division;
        if writes_divisions(t) {
            match d {
                Some(name) => {
                    lemma_first_index(t.divisions, name);
                },
                None => {},
            }
            assert(div_indices(t)[i] == div_index(t.divisions, d) as i64);
        } else {
            match d {
                Some(name) => {
                    assert(t.divisions.contains(name));
                },
                None => {},
            }
        }
    }
    assert(got =~= ts);
}

/// The sections after the games.
#[verifier::opaque]
pub open spec fn tail_sections(t: TournamentView) -> Seq<Seq<char>> {
    settings_section(t) + divisions_section(t) + q_section(t.scoring) + packets_section(t)
        + exhibition_section(t.teams) + manual_section(t.teams)
}

pub open spec fn paths_value(t: TournamentView) -> i64 {
    if t.reports.british_style {
        2
    } else {
        0
    }
}

pub open spec fn q_values_written(t: TournamentView) -> Seq<i64> {
    Seq::new(4, |i: int| spec_effective_q_value(t.scoring, i) as i64)
}

/// What each reading step gives on the sections after the games.
#[verifier::rlimit(100)]
proof fn lemma_tail_reads(ls: Seq<Seq<char>>, p: int, t: TournamentView)
    requires
        at(ls, p, tail_sections(t)),
        ls.len() == p + tail_sections(t).len(),
        t.teams.len() <= 100,
        t.divisions.len() <= MAX_DIVISIONS,
        packets_kept(t),
    ensures
        ({
            let tc = t.teams.len() as int;
            let nd = divs_written(t).len() as int;
            let p6 = p + 37 + nd + tc;
            let rr = round_range(t.games);
            let pk = sp_packets(ls, p6, true, rr.0, rr.1);
            let exr = sp_exhibition(ls, pk.1, true, t.teams.len());
            &&& sp_flags(ls, p) == Ok::<Seq<i64>, SqbsErrorView>(flag_values(t))
            &&& sp_names(ls, p + 17) == Ok::<i64, SqbsErrorView>(paths_value(t))
            &&& sp_divisions(ls, p + 31, t.teams.len()) == Ok::<(i64, Seq<i64>), SqbsErrorView>(
                (nd as i64, div_indices(t)),
            )
            &&& ls.subrange(p + 32, p + 32 + nd) == divs_written(t)
            &&& sp_ints(ls, p + 33 + nd + tc, 4) == Ok::<Seq<i64>, SqbsErrorView>(q_values_written(t))
            &&& pk.0 == t.packets
            &&& exr.0 == t.teams.map_values(|tm: TeamView| tm.exhibition)
            &&& sp_ranks(ls, exr.1, t.teams.len()) == t.teams.map_values(|tm: TeamView| tm.manual_rank)
            &&& ls[p + 17] == t.name
            &&& reports_of(ls.subrange(p + 17, p + 22), ls.subrange(p + 23, p + 31), flag_values(t), paths_value(t)) == t.reports
        }),
{
    reveal(tail_sections);
    let s3 = settings_section(t);
    let s4 = divisions_section(t);
    let s5 = q_section(t.scoring);
    let s6 = packets_section(t);
    let s7 = exhibition_section(t.teams);
    let s8 = manual_section(t.teams);
    lemma_at_split(ls, p, s3 + s4 + s5 + s6 + s7, s8);
    lemma_at_split(ls, p, s3 + s4 + s5 + s6, s7);
    lemma_at_split(ls, p, s3 + s4 + s5, s6);
    lemma_at_split(ls, p, s3 + s4, s5);
    lemma_at_split(ls, p, s3, s4);
    lemma_at_split(ls, p, flags_section(t), names_section(t));
    lemma_sp_flags(ls, p, t);
    lemma_sp_names(ls, p + 17, t);
    lemma_sp_divisions(ls, p + 31, t);
    let p5 = p + 31 + s4.len();
    lemma_q_ints(ls, p5, t.scoring);
    let p6 = p5 + 4;
    lemma_sp_packets(ls, p6, t);
    let p7 = p6 + s6.len();
    lemma_sp_exhibition(ls, p7, t.teams);
    let p8 = p7 + s7.len();
    lemma_sp_ranks(ls, p8, t.teams);
    lemma_reports_back(ls, p + 17, t);
    lemma_at_line(ls, p + 17, names_section(t), 0);
}

/// Reading the settings part, step by step.
proof fn lemma_parse_tail_steps(
    ls: Seq<Seq<char>>,
    p: int,
    teams: Seq<TeamView>,
    games: Seq<GameView>,
    fl: Seq<i64>,
    paths: i64,
    nd: int,
    ixs: Seq<i64>,
    qs: Seq<i64>,
)
    requires
        sp_flags(ls, p) == Ok::<Seq<i64>, SqbsErrorView>(fl),
        sp_names(ls, p + 17) == Ok::<i64, SqbsErrorView>(paths),
        0 <= nd <= MAX_DIVISIONS,
        sp_divisions(ls, p + 31, teams.len()) == Ok::<(i64, Seq<i64>), SqbsErrorView>(
            (nd as i64, ixs),
        ),
        sp_ints(ls, p + 33 + nd + teams.len(), 4) == Ok::<Seq<i64>, SqbsErrorView>(qs),
    ensures
        parse_tail(ls, p, teams, games) == Ok::<TournamentView, SqbsErrorView>(
            tournament_of(
                ls,
                teams,
                games,
                p + 17,
                fl,
                paths,
                ls.subrange(p + 32, p + 32 + nd),
                ixs,
                qs,
                p + 37 + nd + teams.len(),
            ),
        ),
{
}

/// The tournament assembled from the values read is the one written.
#[verifier::rlimit(100)]
proof fn lemma_tournament_back(ls: Seq<Seq<char>>, p: int, t: TournamentView)
    requires
        at(ls, p, tail_sections(t)),
        ls.len() == p + tail_sections(t).len(),
        t.teams.len() <= 100,
        t.max_players_per_team == max_players(t.teams),
        scoring_kept(t.scoring),
        divisions_kept(t),
        packets_kept(t),
    ensures
        tournament_of(
            ls,
            read_teams(t.teams),
            t.games,
            p + 17,
            flag_values(t),
            paths_value(t),
            ls.subrange(p + 32, p + 32 + divs_written(t).len()),
            div_indices(t),
            q_values_written(t),
            p + 37 + divs_written(t).len() + t.teams.len(),
        ) == t,
{
    lemma_tail_reads(ls, p, t);
    let tc = t.teams.len() as int;
    let nd = divs_written(t).len() as int;
    let fv = flag_values(t);
    assert((3i64 & 2i64) != 0i64 && (2i64 & 2i64) != 0i64) by (bit_vector);
    assert((fv[5] & 2) != 0);
    assert((fv[2] & 2) != 0);
    assert(read_teams(t.teams).len() == t.teams.len());
    lemma_scoring_back(t);
    lemma_teams_back(
        t,
        t.teams.map_values(|tm: TeamView| tm.exhibition),
        t.teams.map_values(|tm: TeamView| tm.manual_rank),
    );
    lemma_max_players_read(t.teams);
    let want = tournament_of(
        ls,
        read_teams(t.teams),
        t.games,
        p + 17,
        fv,
        paths_value(t),
        ls.subrange(p + 32, p + 32 + nd),
        div_indices(t),
        q_values_written(t),
        p + 37 + nd + tc,
    );
    assert(want.teams == t.teams);
    assert(want.divisions == t.divisions) by {
        if !writes_divisions(t) {
            assert(t.divisions =~= Seq::<Seq<char>>::empty());
        }
    }
    assert(want == t);
}

/// The settings part of the written lines reads back as the tournament.
proof fn lemma_parse_tail_back(ls: Seq<Seq<char>>, p: int, t: TournamentView)
    requires
        at(ls, p, tail_sections(t)),
        ls.len() == p + tail_sections(t).len(),
        t.teams.len() <= 100,
        t.max_players_per_team == max_players(t.teams),
        scoring_kept(t.scoring),
        divisions_kept(t),
        packets_kept(t),
    ensures
        parse_tail(ls, p, read_teams(t.teams), t.games) == Ok::<TournamentView, SqbsErrorView>(t),
{
    lemma_tail_reads(ls, p, t);
    assert(read_teams(t.teams).len() == t.teams.len());
    lemma_parse_tail_steps(
        ls,
        p,
        read_teams(t.teams),
        t.games,
        flag_values(t),
        paths_value(t),
        divs_written(t).len() as int,
        div_indices(t),
        q_values_written(t),
    );
    lemma_tournament_back(ls, p, t);
}

/// Reading the teams and games, step by step.
proof fn lemma_parse_lines_steps(
    ls: Seq<Seq<char>>,
    teams: Seq<TeamView>,
    p1: int,
    games: Seq<GameView>,
)
    requires
        teams.len() <= MAX_TEAM_COUNT,
        games.len() <= MAX_GAME_COUNT,
        rd_int(ls, 0) == Ok::<i64, SqbsErrorView>(teams.len() as i64),
        sp_teams(ls, 1, teams.len()) == Ok::<(Seq<TeamView>, int), SqbsErrorView>((teams, p1)),
        rd_int(ls, p1) == Ok::<i64, SqbsErrorView>(games.len() as i64),
        sp_games(ls, p1 + 1, games.len()) == Ok::<Seq<GameView>, SqbsErrorView>(games),
        index_error(games, teams.len() as usize) is None,
    ensures
        parse_lines(ls) == parse_tail(ls, p1 + 1 + 129 * games.len(), teams, games),
{
}

/// The teams and games of the written lines read back.
#[verifier::rlimit(60)]
proof fn lemma_head_reads(ls: Seq<Seq<char>>, t: TournamentView)
    requires
        at(ls, 0, teams_section(t.teams) + games_section(t.games)),
        forall|i: int| 0 <= i < t.teams.len() ==> #[trigger] t.teams[i].players.len() < 100,
        forall|i: int| 0 <= i < t.games.len() ==> game_readable(#[trigger] t.games[i]),
        t.teams.len() <= MAX_TEAM_COUNT,
        t.games.len() <= MAX_GAME_COUNT,
    ensures
        rd_int(ls, 0) == Ok::<i64, SqbsErrorView>(t.teams.len() as i64),
        sp_teams(ls, 1, t.teams.len()) == Ok::<(Seq<TeamView>, int), SqbsErrorView>(
            (read_teams(t.teams), teams_section(t.teams).len() as int),
        ),
        rd_int(ls, teams_section(t.teams).len() as int) == Ok::<i64, SqbsErrorView>(
            t.games.len() as i64,
        ),
        sp_games(ls, teams_section(t.teams).len() as int + 1, t.games.len()) == Ok::<
            Seq<GameView>,
            SqbsErrorView,
        >(t.games),
        games_section(t.games).len() == 1 + 129 * t.games.len(),
{
    let s1 = teams_section(t.teams);
    let s2 = games_section(t.games);
    lemma_at_split(ls, 0, s1, s2);
    lemma_at_split(ls, 0, seq![il(t.teams.len() as int)], teams_lines(t.teams));
    let p2 = s1.len() as int;
    lemma_at_split(ls, p2, seq![il(t.games.len() as int)], games_lines(t.games));
    lemma_at_line(ls, 0, s1, 0);
    lemma_rd_il(ls, 0, t.teams.len() as int);
    lemma_sp_teams(ls, 1, t.teams);
    lemma_at_line(ls, p2, s2, 0);
    lemma_rd_il(ls, p2, t.games.len() as int);
    lemma_sp_games(ls, p2 + 1, t.games);
    lemma_games_len(t.games);
}

/// The written lines: teams, games, then the rest.
proof fn lemma_file_lines_split(t: TournamentView)
    ensures
        file_lines_of(t) == teams_section(t.teams) + games_section(t.games) + tail_sections(t),
{
    reveal(tail_sections);
    assert(file_lines_of(t) =~= teams_section(t.teams) + games_section(t.games) + tail_sections(t));
}

/// The lines written for a tournament that the format holds read back as it.
proof fn lemma_parse_lines_back(ls: Seq<Seq<char>>, t: TournamentView)
    requires
        ls == teams_section(t.teams) + games_section(t.games) + tail_sections(t),
        t.teams.len() <= MAX_TEAM_COUNT,
        forall|i: int| 0 <= i < t.teams.len() ==> #[trigger] t.teams[i].players.len() < 100,
        t.max_players_per_team == max_players(t.teams),
        t.games.len() <= MAX_GAME_COUNT,
        forall|i: int|
            0 <= i < t.games.len() ==> game_readable(#[trigger] t.games[i])
                && t.games[i].team_a.team_index < t.teams.len() && t.games[i].team_b.team_index
                < t.teams.len(),
        scoring_kept(t.scoring),
        divisions_kept(t),
        packets_kept(t),
    ensures
        parse_lines(ls) == Ok::<TournamentView, SqbsErrorView>(t),
{
    let s1 = teams_section(t.teams);
    let s2 = games_section(t.games);
    let rest = tail_sections(t);
    assert(at(ls, 0, s1 + s2 + rest)) by {
        assert(ls.subrange(0, ls.len() as int) =~= ls);
    }
    lemma_at_split(ls, 0, s1 + s2, rest);
    assert forall|i: int| 0 <= i < t.games.len() implies game_readable(#[trigger] t.games[i]) by {}
    lemma_head_reads(ls, t);
    lemma_no_index_error(t.games, t.teams.len() as usize);
    assert(read_teams(t.teams).len() == t.teams.len());
    lemma_parse_lines_steps(ls, read_teams(t.teams), s1.len() as int, t.games);
    lemma_parse_tail_back(ls, s1.len() as int + s2.len() as int, t);
}

/// Writing a tournament that the format holds, then reading the text back,
/// gives the same tournament.
pub proof fn lemma_write_then_read(t: TournamentView)
    requires
        round_trips(t),
    ensures
        spec_parse(join_lines(file_lines_of(t))) == Ok::<TournamentView, SqbsErrorView>(t),
{
    lemma_file_one_line(t);
    lemma_lines_of_text(file_lines_of(t));
    lemma_file_lines_split(t);
    lemma_parse_lines_back(file_lines_of(t), t);
}

// ── What a read gives back of any tournament ──────────────────────────────

/// A team's player slots as the file keeps them: exactly eight, empty past
/// the end of the scores given.
pub open spec fn padded(ps: Seq<Option<PlayerScoreView>>) -> Seq<Option<PlayerScoreView>> {
    Seq::new(8, |i: int| slot(ps, i))
}

pub open spec fn normal_score(s: TeamScoreView) -> TeamScoreView {
    TeamScoreView { player_scores: padded(s.player_scores), ..s }
}

pub open spec fn normal_game(g: GameView) -> GameView {
    GameView { team_a: normal_score(g.team_a), team_b: normal_score(g.team_b), ..g }
}

/// A team's division as the file keeps it: kept when divisions are written
/// and it is one of them, else none.
pub open spec fn normal_division(t: TournamentView, d: Option<Seq<char>>) -> Option<Seq<char>> {
    match d {
        Some(name) => if writes_divisions(t) && t.divisions.contains(name) {
            Some(name)
        } else {
            None
        },
        None => None,
    }
}

pub open spec fn normal_team(t: TournamentView, tm: TeamView) -> TeamView {
    TeamView { division: normal_division(t, tm.division), ..tm }
}

/// Scoring as the file keeps it: a category is tracked when it is enabled
/// with a nonzero value; an untracked one has its default value.
pub open spec fn normal_scoring(s: ScoringView) -> ScoringView {
    ScoringView {
        q_values: Seq::new(
            4,
            |i: int| if s.q_enabled[i] && s.q_values[i] != 0 { s.q_values[i] } else { default_q_values()[i] },
        ),
        q_enabled: Seq::new(4, |i: int| s.q_enabled[i] && s.q_values[i] != 0),
        ..s
    }
}

/// Packet names as the file keeps them: one per round from the first game's
/// round to the last (`-` where none was given) when packets are written,
/// none otherwise.
pub open spec fn normal_packets(t: TournamentView) -> Map<u32, Seq<char>> {
    if writes_packets(t) {
        let mn = spec_min_round(t.games).unwrap();
        let mx = spec_max_round(t.games).unwrap();
        Map::new(|r: u32| mn <= r <= mx, |r: u32| packet_name(t.packets, r as int))
    } else {
        Map::empty()
    }
}

/// The tournament that reading back the file written for `t` gives: player
/// slots padded to eight, divisions and packets as the file keeps them,
/// scoring as the file keeps it, and the largest roster (at least six)
/// as the players per team.
pub open spec fn normal_form(t: TournamentView) -> TournamentView {
    let teams = t.teams.map_values(|tm: TeamView| normal_team(t, tm));
    TournamentView {
        teams,
        games: t.games.map_values(|g: GameView| normal_game(g)),
        scoring: normal_scoring(t.scoring),
        divisions: if writes_divisions(t) {
            t.divisions
        } else {
            Seq::empty()
        },
        max_players_per_team: max_players(teams),
        packets: normal_packets(t),
        ..t
    }
}

/// A side of a game whose numbers the file holds: readable player records
/// in its eight slots, and bonus and bounceback counts that their shared
/// field gives back.
pub open spec fn score_fits(s: TeamScoreView) -> bool {
    &&& forall|i: int| 0 <= i < 8 ==> record_readable(#[trigger] slot(s.player_scores, i))
    &&& splits(s.bonus_heard, s.bb_heard)
    &&& splits(s.bonus_points, s.bb_points)
}

/// A tournament within the file's limits: writable, every text that the
/// file holds a single line, at most `MAX_LINES` lines, the team, roster,
/// game and division counts within their limits, games naming valid teams
/// with numbers the file holds, and a first round below `u32::MAX` when
/// packets are written.
pub open spec fn within_limits(t: TournamentView) -> bool {
    &&& writable(t)
    &&& texts_one_line(normal_form(t))
    &&& file_lines_of(t).len() <= MAX_LINES
    &&& t.teams.len() <= MAX_TEAM_COUNT
    &&& forall|i: int| 0 <= i < t.teams.len() ==> #[trigger] t.teams[i].players.len() < MAX_MEMBER_COUNT
    &&& t.games.len() <= MAX_GAME_COUNT
    &&& forall|i: int|
        0 <= i < t.games.len() ==> score_fits((#[trigger] t.games[i]).team_a) && score_fits(t.games[i].team_b)
            && t.games[i].team_a.team_index < t.teams.len() && t.games[i].team_b.team_index
            < t.teams.len()
    &&& writes_divisions(t) ==> t.divisions.len() <= MAX_DIVISIONS
    &&& writes_packets(t) ==> spec_min_round(t.games).unwrap() < u32::MAX
}

proof fn lemma_normal_rounds(gs: Seq<GameView>)
    ensures
        spec_min_round(gs.map_values(|g: GameView| normal_game(g))) == spec_min_round(gs),
        spec_max_round(gs.map_values(|g: GameView| normal_game(g))) == spec_max_round(gs),
    decreases gs.len(),
{
    if gs.len() > 0 {
        lemma_normal_rounds(gs.drop_last());
        assert(gs.map_values(|g: GameView| normal_game(g)).drop_last() =~= gs.drop_last().map_values(
            |g: GameView| normal_game(g),
        ));
    }
}

proof fn lemma_normal_game_lines(g: GameView)
    ensures
        game_lines(normal_game(g)) == game_lines(g),
{
    assert(slots(padded(g.team_a.player_scores), padded(g.team_b.player_scores)) =~= slots(
        g.team_a.player_scores,
        g.team_b.player_scores,
    ));
}

proof fn lemma_normal_div_index(t: TournamentView, d: Option<Seq<char>>)
    requires
        writes_divisions(t),
    ensures
        div_index(t.divisions, normal_division(t, d)) == div_index(t.divisions, d),
{
    if let Some(name) = d {
        lemma_first_index(t.divisions, name);
        if !t.divisions.contains(name) {
            if first_index_of(t.divisions, name) >= 0 {
                assert(t.divisions[first_index_of(t.divisions, name)] == name);
            }
        }
    }
}

/// The file written for the normal form is the file written for `t`.
proof fn lemma_normal_lines(t: TournamentView)
    ensures
        file_lines_of(normal_form(t)) == file_lines_of(t),
{
    let n = normal_form(t);
    let ng = |g: GameView| normal_game(g);
    // Teams.
    assert(n.teams.map_values(|tm: TeamView| team_lines(tm)) =~= t.teams.map_values(
        |tm: TeamView| team_lines(tm),
    ));
    assert(teams_section(n.teams) == teams_section(t.teams));
    // Games.
    assert forall|i: int| 0 <= i < t.games.len() implies #[trigger] game_lines(n.games[i]) == game_lines(
        t.games[i],
    ) by {
        lemma_normal_game_lines(t.games[i]);
    }
    assert(n.games.map_values(|g: GameView| game_lines(g)) =~= t.games.map_values(
        |g: GameView| game_lines(g),
    ));
    assert(games_section(n.games) == games_section(t.games));
    // Settings.
    assert(flags_section(n) =~= flags_section(t));
    assert(names_section(n) =~= names_section(t));
    // Divisions.
    if writes_divisions(t) {
        assert forall|i: int| 0 <= i < t.teams.len() implies #[trigger] div_index_lines(t.divisions, n.teams)[i]
            == div_index_lines(t.divisions, t.teams)[i] by {
            lemma_normal_div_index(t, t.teams[i].division);
        }
        assert(div_index_lines(n.divisions, n.teams) =~= div_index_lines(t.divisions, t.teams));
    }
    assert(divisions_section(n) =~= divisions_section(t));
    // Point values.
    assert(q_section(n.scoring) =~= q_section(t.scoring));
    // Packets.
    lemma_normal_rounds(t.games);
    if writes_packets(t) {
        let mn = spec_min_round(t.games).unwrap();
        assert(n.packets.dom().contains(mn));
        assert(writes_packets(n));
        let mx = spec_max_round(t.games).unwrap() as int;
        let sn = Seq::new((mx - mn + 1) as nat, |k: int| packet_name(n.packets, mn + k));
        let st = Seq::new((mx - mn + 1) as nat, |k: int| packet_name(t.packets, mn + k));
        assert forall|k: int| 0 <= k < mx - mn + 1 implies #[trigger] sn[k] == st[k] by {
            assert(n.packets.dom().contains((mn + k) as u32));
        }
        assert(sn =~= st);
        assert(packets_section(n) =~= packets_section(t));
    } else {
        assert(n.packets =~= Map::<u32, Seq<char>>::empty());
        assert(!writes_packets(n));
    }
    // Exhibition and ranks.
    assert(exhibition_section(n.teams) =~= exhibition_section(t.teams));
    assert(has_manual_rank(n.teams) == has_manual_rank(t.teams)) by {
        if has_manual_rank(t.teams) {
            let i = choose|i: int| 0 <= i < t.teams.len() && #[trigger] t.teams[i].manual_rank > 0;
            assert(n.teams[i].manual_rank > 0);
        }
        if has_manual_rank(n.teams) {
            let i = choose|i: int| 0 <= i < n.teams.len() && #[trigger] n.teams[i].manual_rank > 0;
            assert(t.teams[i].manual_rank > 0);
        }
    }
    assert(manual_section(n.teams) =~= manual_section(t.teams));
}

/// The normal form of a tournament within the file's limits is one that
/// the file holds exactly.
proof fn lemma_normal_round_trips(t: TournamentView)
    requires
        within_limits(t),
    ensures
        round_trips(normal_form(t)),
{
    let n = normal_form(t);
    lemma_normal_lines(t);
    lemma_normal_rounds(t.games);
    assert(writable(n));
    assert forall|i: int| 0 <= i < n.games.len() implies game_readable(#[trigger] n.games[i])
        && n.games[i].team_a.team_index < n.teams.len() && n.games[i].team_b.team_index < n.teams.len() by {
        let g = t.games[i];
        assert(score_fits(g.team_a) && score_fits(g.team_b));
        assert forall|j: int| 0 <= j < 8 implies record_readable(#[trigger] n.games[i].team_a.player_scores[j]) by {
            assert(n.games[i].team_a.player_scores[j] == slot(g.team_a.player_scores, j));
        }
        assert forall|j: int| 0 <= j < 8 implies record_readable(#[trigger] n.games[i].team_b.player_scores[j]) by {
            assert(n.games[i].team_b.player_scores[j] == slot(g.team_b.player_scores, j));
        }
    }
    assert(scoring_kept(n.scoring));
    assert(divisions_kept(n));
    if writes_packets(t) {
        let mn = spec_min_round(t.games).unwrap();
        assert(n.packets.dom().contains(mn));
        assert(writes_packets(n));
    } else {
        assert(n.packets =~= Map::<u32, Seq<char>>::empty());
    }
    assert(packets_kept(n));
}

/// Writing any tournament within the file's limits, then reading the text
/// back, gives its normal form: player slots padded to eight, the largest
/// roster (at least six) as players per team, divisions and packets as the
/// file keeps them, and untracked categories at their default values.
pub proof fn lemma_write_then_read_normal(t: TournamentView)
    requires
        within_limits(t),
    ensures
        spec_parse(join_lines(file_lines_of(t))) == Ok::<TournamentView, SqbsErrorView>(normal_form(t)),
{
    lemma_normal_lines(t);
    lemma_normal_round_trips(t);
    lemma_write_then_read(normal_form(t));
}

} // verus!
