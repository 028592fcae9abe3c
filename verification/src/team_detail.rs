//! The integer part of the team detail page: the games each team played,
//! their results, the tossups the team's players answered by category, and
//! the team's running totals over those games.

use crate::models::{Game, GameView, TeamScore, TeamScoreView, Tournament, TournamentView};
use crate::reports::{after_sides, agg_game, agg_upto, counted, fits, q_total, AggView};
use vstd::prelude::*;

verus! {

/// The result of a game for one side.
#[derive(Debug, Clone, Copy, PartialEq, Eq, Structural)]
pub enum Outcome {
    Win,
    Loss,
    Tie,
}

/// One game of a team: the game's index, whether the team was side B, the
/// result, and the tossups its players answered by category.
#[derive(Debug, Clone, Copy)]
pub struct DetailRow {
    pub game: usize,
    pub side_b: bool,
    pub outcome: Outcome,
    pub q: [i32; 4],
}

/// A team's totals over its games: points for and against, tossups by
/// category, tossups heard, bonuses heard and scored, bouncebacks heard and
/// scored.
#[derive(Debug, Clone, Copy)]
pub struct DetailTotals {
    pub pf: i32,
    pub pa: i32,
    pub q: [i32; 4],
    pub tuh: i32,
    pub bh: i32,
    pub bp: i32,
    pub bbh: i32,
    pub bbp: i32,
}

pub struct DetailRowView {
    pub game: int,
    pub side_b: bool,
    pub outcome: Outcome,
    pub q: Seq<int>,
}

pub struct TotalsView {
    pub pf: int,
    pub pa: int,
    pub q: Seq<int>,
    pub tuh: int,
    pub bh: int,
    pub bp: int,
    pub bbh: int,
    pub bbp: int,
}

impl View for DetailRow {
    type V = DetailRowView;

    open spec fn view(&self) -> DetailRowView {
        DetailRowView {
            game: self.game as int,
            side_b: self.side_b,
            outcome: self.outcome,
            q: Seq::new(4, |j: int| self.q@[j] as int),
        }
    }
}

impl View for DetailTotals {
    type V = TotalsView;

    open spec fn view(&self) -> TotalsView {
        TotalsView {
            pf: self.pf as int,
            pa: self.pa as int,
            q: Seq::new(4, |j: int| self.q@[j] as int),
            tuh: self.tuh as int,
            bh: self.bh as int,
            bp: self.bp as int,
            bbh: self.bbh as int,
            bbp: self.bbp as int,
        }
    }
}

pub open spec fn row_views(v: Seq<DetailRow>) -> Seq<DetailRowView> {
    v.map_values(|r: DetailRow| r@)
}

/// Whether team `ti` played game `g`: not a forfeit, and on one side.
pub open spec fn plays_in(g: GameView, ti: usize) -> bool {
    !g.forfeit && (g.team_a.team_index == ti || g.team_b.team_index == ti)
}

/// Team `ti`'s side of `g` (side A when it is on both).
pub open spec fn my_side(g: GameView, ti: usize) -> TeamScoreView {
    if g.team_a.team_index == ti {
        g.team_a
    } else {
        g.team_b
    }
}

/// The other side of `g`.
pub open spec fn opp_side(g: GameView, ti: usize) -> TeamScoreView {
    if g.team_a.team_index == ti {
        g.team_b
    } else {
        g.team_a
    }
}

pub open spec fn outcome_of(mine: i32, theirs: i32) -> Outcome {
    if mine > theirs {
        Outcome::Win
    } else if mine < theirs {
        Outcome::Loss
    } else {
        Outcome::Tie
    }
}

/// The tossups of each category answered by the players of `ts`.
pub open spec fn side_q(ts: TeamScoreView) -> Seq<int> {
    Seq::new(4, |j: int| q_total(ts.player_scores, j))
}

/// Every partial count of tossups by category over `ts`'s players fits an `i32`.
pub open spec fn q_fits(ts: TeamScoreView) -> bool {
    forall|k: int, j: int|
        0 <= k <= ts.player_scores.len() && 0 <= j < 4 ==> fits(
            #[trigger] q_total(ts.player_scores.take(k), j),
        )
}

/// The row of game `g`, the `k`-th game of the tournament, for team `ti`.
pub open spec fn detail_row(g: GameView, k: int, ti: usize) -> DetailRowView {
    DetailRowView {
        game: k,
        side_b: g.team_a.team_index != ti,
        outcome: outcome_of(my_side(g, ti).total_points, opp_side(g, ti).total_points),
        q: side_q(my_side(g, ti)),
    }
}

/// The rows of team `ti` over the first `k` games of `gs`.
pub open spec fn detail_rows(gs: Seq<GameView>, ti: usize, k: int) -> Seq<DetailRowView>
    decreases k,
{
    if k <= 0 {
        Seq::empty()
    } else if plays_in(gs[k - 1], ti) {
        detail_rows(gs, ti, k - 1).push(detail_row(gs[k - 1], k - 1, ti))
    } else {
        detail_rows(gs, ti, k - 1)
    }
}

pub open spec fn zero_totals() -> TotalsView {
    TotalsView { pf: 0, pa: 0, q: seq![0int, 0int, 0int, 0int], tuh: 0, bh: 0, bp: 0, bbh: 0, bbp: 0 }
}

/// `s` with one more game of team `ti`.
pub open spec fn totals_added(s: TotalsView, g: GameView, ti: usize) -> TotalsView {
    let my = my_side(g, ti);
    TotalsView {
        pf: s.pf + my.total_points,
        pa: s.pa + opp_side(g, ti).total_points,
        q: Seq::new(4, |j: int| s.q[j] + q_total(my.player_scores, j)),
        tuh: s.tuh + (g.tossups_heard as i32) as int,
        bh: s.bh + my.bonus_heard,
        bp: s.bp + my.bonus_points,
        bbh: s.bbh + my.bb_heard,
        bbp: s.bbp + my.bb_points,
    }
}

/// Team `ti`'s totals over the first `k` games of `gs`.
pub open spec fn detail_totals(gs: Seq<GameView>, ti: usize, k: int) -> TotalsView
    decreases k,
{
    if k <= 0 {
        zero_totals()
    } else if plays_in(gs[k - 1], ti) {
        totals_added(detail_totals(gs, ti, k - 1), gs[k - 1], ti)
    } else {
        detail_totals(gs, ti, k - 1)
    }
}

/// Adding game `g` to `s` overflows nothing: the game's counts by category
/// and every new total fit an `i32`.
pub open spec fn step_fits(s: TotalsView, g: GameView, ti: usize) -> bool {
    plays_in(g, ti) ==> {
        let n = totals_added(s, g, ti);
        &&& q_fits(my_side(g, ti))
        &&& fits(n.pf)
        &&& fits(n.pa)
        &&& forall|j: int| 0 <= j < 4 ==> fits(#[trigger] n.q[j])
        &&& fits(n.tuh)
        &&& fits(n.bh)
        &&& fits(n.bp)
        &&& fits(n.bbh)
        &&& fits(n.bbp)
    }
}

/// Team `ti`'s running totals never overflow an `i32` over `gs`.
pub open spec fn detail_fits(gs: Seq<GameView>, ti: usize) -> bool {
    forall|k: int| 0 <= k < gs.len() ==> step_fits(detail_totals(gs, ti, k), #[trigger] gs[k], ti)
}

/// The tossups of each category answered by the players of `ts`; `None`
/// when a partial count overflows an `i32`.
fn side_q_checked(ts: &TeamScore) -> (r: Option<[i32; 4]>)
    ensures
        r is Some <==> q_fits(ts@),
        r matches Some(q) ==> forall|j: int| 0 <= j < 4 ==> q@[j] as int == #[trigger] side_q(ts@)[j],
{
    let ghost ps = ts@.player_scores;
    let mut q: [i32; 4] = [0, 0, 0, 0];
    let mut k: usize = 0;
    assert forall|j: int| 0 <= j < 4 implies q_total(#[trigger] ps.take(0), j) == 0 by {
        assert(ps.take(0).len() == 0);
    }
    while k < ts.player_scores.len()
        invariant
            k <= ps.len(),
            ps == ts@.player_scores,
            forall|j: int| 0 <= j < 4 ==> q@[j] == q_total(#[trigger] ps.take(k as int), j),
            forall|m: int, j: int| 0 <= m <= k && 0 <= j < 4 ==> fits(#[trigger] q_total(ps.take(m), j)),
        decreases ps.len() - k,
    {
        proof {
            assert(ps.take(k + 1).drop_last() =~= ps.take(k as int));
            assert(ps.take(k + 1).last() == ps[k as int]);
        }
        match &ts.player_scores[k] {
            Some(p) => {
                let mut j: usize = 0;
                while j < 4
                    invariant
                        j <= 4,
                        k < ps.len(),
                        ps == ts@.player_scores,
                        ps[k as int] == Some(p@),
                        forall|m: int| 0 <= m < j ==> q@[m] == q_total(#[trigger] ps.take(k + 1), m),
                        forall|m: int| j <= m < 4 ==> q@[m] == q_total(#[trigger] ps.take(k as int), m),
                        forall|m: int, jj: int|
                            0 <= m <= k && 0 <= jj < 4 ==> fits(#[trigger] q_total(ps.take(m), jj)),
                        forall|jj: int| 0 <= jj < j ==> fits(#[trigger] q_total(ps.take(k + 1), jj)),
                    decreases 4 - j,
                {
                    proof {
                        assert(ps.take(k + 1).drop_last() =~= ps.take(k as int));
                        assert(q_total(ps.take(k + 1), j as int) == q_total(ps.take(k as int), j as int)
                            + p.q@[j as int]);
                    }
                    q[j] = match q[j].checked_add(p.q[j]) {
                        Some(v) => v,
                        None => {
                            assert(!fits(q_total(ps.take(k + 1), j as int)));
                            return None;
                        },
                    };
                    j = j + 1;
                }
            },
            None => {
                assert forall|m: int| 0 <= m < 4 implies q@[m] == q_total(#[trigger] ps.take(k + 1), m) by {
                    assert(ps.take(k + 1).drop_last() =~= ps.take(k as int));
                }
            },
        }
        assert forall|m: int, jj: int| 0 <= m <= k + 1 && 0 <= jj < 4 implies fits(
            #[trigger] q_total(ps.take(m), jj),
        ) by {
            if m == k + 1 {
                assert(q@[jj] == q_total(ps.take(k + 1), jj));
            }
        }
        k = k + 1;
    }
    assert(ps.take(k as int) =~= ps);
    Some(q)
}

fn add_checked(a: i32, b: i32) -> (r: Option<i32>)
    ensures
        r is Some <==> fits(a + b),
        r matches Some(x) ==> x == a + b,
{
    a.checked_add(b)
}

/// `s` with game `g` of team `ti` added, whose counts by category are `q`;
/// `None` when a total overflows an `i32`.
fn add_game_totals(s: DetailTotals, g: &Game, ti: usize, q: [i32; 4]) -> (r: Option<DetailTotals>)
    requires
        plays_in(g@, ti),
        forall|j: int| 0 <= j < 4 ==> q@[j] as int == #[trigger] side_q(my_side(g@, ti))[j],
    ensures
        r is Some <==> ({
            let n = totals_added(s@, g@, ti);
            &&& fits(n.pf)
            &&& fits(n.pa)
            &&& forall|j: int| 0 <= j < 4 ==> fits(#[trigger] n.q[j])
            &&& fits(n.tuh)
            &&& fits(n.bh)
            &&& fits(n.bp)
            &&& fits(n.bbh)
            &&& fits(n.bbp)
        }),
        r matches Some(x) ==> x@ == totals_added(s@, g@, ti),
{
    let ghost n = totals_added(s@, g@, ti);
    let (my, opp) = if g.team_a.team_index == ti {
        (&g.team_a, &g.team_b)
    } else {
        (&g.team_b, &g.team_a)
    };
    let pf = add_checked(s.pf, my.total_points);
    let pa = add_checked(s.pa, opp.total_points);
    let q0 = add_checked(s.q[0], q[0]);
    let q1 = add_checked(s.q[1], q[1]);
    let q2 = add_checked(s.q[2], q[2]);
    let q3 = add_checked(s.q[3], q[3]);
    let tuh = add_checked(s.tuh, #[verifier::truncate] (g.tossups_heard as i32));
    let bh = add_checked(s.bh, my.bonus_heard);
    let bp = add_checked(s.bp, my.bonus_points);
    let bbh = add_checked(s.bbh, my.bb_heard);
    let bbp = add_checked(s.bbp, my.bb_points);
    assert forall|j: int| 0 <= j < 4 implies #[trigger] n.q[j] == s.q@[j] + q@[j] by {
        assert(q@[j] as int == side_q(my_side(g@, ti))[j]);
    }
    assert(n.q[0] == s.q@[0] + q@[0] && n.q[1] == s.q@[1] + q@[1]);
    assert(n.q[2] == s.q@[2] + q@[2] && n.q[3] == s.q@[3] + q@[3]);
    match (pf, pa, q0, q1, q2, q3, tuh, bh, bp, bbh, bbp) {
        (
            Some(pf),
            Some(pa),
            Some(q0),
            Some(q1),
            Some(q2),
            Some(q3),
            Some(tuh),
            Some(bh),
            Some(bp),
            Some(bbh),
            Some(bbp),
        ) => {
            let x = DetailTotals { pf, pa, q: [q0, q1, q2, q3], tuh, bh, bp, bbh, bbp };
            assert(x@.q =~= n.q);
            Some(x)
        },
        _ => {
            assert(!(forall|j: int| 0 <= j < 4 ==> fits(#[trigger] n.q[j])) || !fits(n.pf) || !fits(n.pa)
                || !fits(n.tuh) || !fits(n.bh) || !fits(n.bp) || !fits(n.bbh) || !fits(n.bbp));
            None
        },
    }
}

/// The games team `ti` played, in game order, each with its side, result
/// and tossups by category, and the team's totals over them; `None` when a
/// count overflows an `i32`.
pub fn team_detail_rows(t: &Tournament, ti: usize) -> (r: Option<(Vec<DetailRow>, DetailTotals)>)
    ensures
        r is Some <==> detail_fits(t@.games, ti),
        r matches Some((rows, tot)) ==> row_views(rows@) == detail_rows(t@.games, ti, t@.games.len() as int)
            && tot@ == detail_totals(t@.games, ti, t@.games.len() as int),
{
    let ghost gs = t@.games;
    let mut rows: Vec<DetailRow> = Vec::new();
    let mut tot = DetailTotals { pf: 0, pa: 0, q: [0, 0, 0, 0], tuh: 0, bh: 0, bp: 0, bbh: 0, bbp: 0 };
    assert(tot@.q =~= zero_totals().q);
    let mut k: usize = 0;
    while k < t.games.len()
        invariant
            k <= gs.len(),
            gs == t@.games,
            row_views(rows@) == detail_rows(gs, ti, k as int),
            tot@ == detail_totals(gs, ti, k as int),
            forall|m: int| 0 <= m < k ==> step_fits(detail_totals(gs, ti, m), #[trigger] gs[m], ti),
        decreases gs.len() - k,
    {
        let g = &t.games[k];
        assert(g@ == gs[k as int]);
        if !g.forfeit && (g.team_a.team_index == ti || g.team_b.team_index == ti) {
            let (my, opp) = if g.team_a.team_index == ti {
                (&g.team_a, &g.team_b)
            } else {
                (&g.team_b, &g.team_a)
            };
            let q = match side_q_checked(my) {
                Some(q) => q,
                None => {
                    assert(!step_fits(detail_totals(gs, ti, k as int), gs[k as int], ti));
                    return None;
                },
            };
            let outcome = if my.total_points > opp.total_points {
                Outcome::Win
            } else if my.total_points < opp.total_points {
                Outcome::Loss
            } else {
                Outcome::Tie
            };
            tot = match add_game_totals(tot, g, ti, q) {
                Some(x) => x,
                None => {
                    assert(!step_fits(detail_totals(gs, ti, k as int), gs[k as int], ti));
                    return None;
                },
            };
            let row = DetailRow { game: k, side_b: g.team_a.team_index != ti, outcome, q };
            let ghost before = rows@;
            rows.push(row);
            assert(row@.q =~= side_q(my_side(g@, ti)));
            assert(row@ == detail_row(gs[k as int], k as int, ti));
            assert(row_views(rows@) =~= row_views(before).push(row@));
        }
        k = k + 1;
    }
    Some((rows, tot))
}

// ── What the team detail shares with the standings ────────────────────────

/// Every game is a forfeit or names two different valid teams.
pub open spec fn games_well_formed(t: TournamentView) -> bool {
    forall|m: int|
        0 <= m < t.games.len() ==> (#[trigger] t.games[m]).forfeit || (counted(t.games[m], t.teams.len())
            && t.games[m].team_a.team_index != t.games[m].team_b.team_index)
}

/// The standings totals `a` and the detail totals `d` agree on points for
/// and against, tossups by category, tossups heard and bonuses.
pub open spec fn same_totals(a: AggView, d: TotalsView) -> bool {
    &&& a.pf == d.pf
    &&& a.pa == d.pa
    &&& a.q == d.q
    &&& a.tuh == d.tuh
    &&& a.bh == d.bh
    &&& a.bp == d.bp
    &&& a.bbh == d.bbh
    &&& a.bbp == d.bbp
}

/// When every game is a forfeit or names two different valid teams, the
/// totals that the team detail sums for a team over its games are the ones
/// that the standings sum for it: points for and against, tossups by
/// category, tossups heard, bonuses and bouncebacks.
pub proof fn lemma_detail_matches_standings(t: TournamentView, ti: usize, k: int)
    requires
        0 <= k <= t.games.len(),
        ti < t.teams.len(),
        games_well_formed(t),
    ensures
        same_totals(agg_upto(t, k)[ti as int], detail_totals(t.games, ti, k)),
    decreases k,
{
    if k == 0 {
        assert(agg_upto(t, 0)[ti as int].q =~= zero_totals().q);
    } else {
        lemma_detail_matches_standings(t, ti, k - 1);
        let g = t.games[k - 1];
        let n = t.teams.len();
        let prev = agg_upto(t, k - 1);
        let d = detail_totals(t.games, ti, k - 1);
        assert(agg_upto(t, k) == agg_game(prev, g, n));
        if counted(g, n) {
            assert(prev.len() == n) by {
                lemma_totals_len(t, k - 1);
            }
            if plays_in(g, ti) {
                assert(after_sides(prev, g)[ti as int].q =~= totals_added(d, g, ti).q);
            }
        }
    }
}

/// The standings hold one entry per team after any number of games.
proof fn lemma_totals_len(t: TournamentView, k: int)
    requires
        0 <= k <= t.games.len(),
    ensures
        agg_upto(t, k).len() == t.teams.len(),
    decreases k,
{
    if k > 0 {
        lemma_totals_len(t, k - 1);
    }
}

} // verus!
