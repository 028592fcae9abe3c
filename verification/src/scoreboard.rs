//! The text lines of the scoreboard: each game's result, winner first, and
//! each side's players with their tossups by category and points.

use crate::models::{Game, GameView, PlayerScoreView, TeamScore, TeamScoreView, Tournament, TournamentView};
use crate::reports::{escape_html, escaped, joined, packet_label, packet_label_text, q_score_inline};
use crate::text::{chars_eq, chars_of, fmt_int, int_string, uint_string};
use vstd::prelude::*;

verus! {

/// The name of team `i` as HTML text, `?` when there is no such team.
pub open spec fn team_label(t: TournamentView, i: usize) -> Seq<char> {
    escaped(
        if i < t.teams.len() {
            t.teams[i as int].name
        } else {
            "?"@
        },
    )
}

/// The name of player `pi` of team `ti` as HTML text, `?` when there is no
/// such player.
pub open spec fn player_label(t: TournamentView, ti: usize, pi: usize) -> Seq<char> {
    escaped(
        if ti < t.teams.len() && pi < t.teams[ti as int].players.len() {
            t.teams[ti as int].players[pi as int]
        } else {
            "?"@
        },
    )
}

/// One side's name and score.
pub open spec fn name_score(name: Seq<char>, pts: i32) -> Seq<char> {
    name + " "@ + fmt_int(pts as int)
}

/// The result line of `g`: the winner (side A on a tie) and its score, then
/// the other side.
pub open spec fn headline_text(t: TournamentView, g: GameView) -> Seq<char> {
    let a = name_score(team_label(t, g.team_a.team_index), g.team_a.total_points);
    let b = name_score(team_label(t, g.team_b.team_index), g.team_b.total_points);
    "<FONT SIZE=+1>"@ + (if g.team_a.total_points >= g.team_b.total_points {
        a + ", "@ + b
    } else {
        b + ", "@ + a
    }) + "</FONT><br>\n"@
}

/// A player's entry: name, tossups of the enabled categories, points.
pub open spec fn player_part(t: TournamentView, ti: usize, p: PlayerScoreView, qe: Seq<bool>) -> Seq<char> {
    player_label(t, ti, p.player_index) + " "@ + joined(p.q, qe, 4) + " "@ + fmt_int(p.points as int)
}

/// The entries of the players in the first `m` slots of `ts`.
pub open spec fn player_parts(t: TournamentView, ts: TeamScoreView, qe: Seq<bool>, m: int) -> Seq<
    Seq<char>,
>
    decreases m,
{
    if m <= 0 {
        Seq::empty()
    } else {
        match ts.player_scores[m - 1] {
            Some(p) => player_parts(t, ts, qe, m - 1).push(player_part(t, ts.team_index, p, qe)),
            None => player_parts(t, ts, qe, m - 1),
        }
    }
}

/// `parts` separated by commas.
pub open spec fn comma_joined(parts: Seq<Seq<char>>) -> Seq<char>
    decreases parts.len(),
{
    if parts.len() == 0 {
        Seq::empty()
    } else if parts.len() == 1 {
        parts[0]
    } else {
        comma_joined(parts.drop_last()) + ", "@ + parts.last()
    }
}

/// The line of one side of a game: its name, then its players' entries.
pub open spec fn side_line_text(t: TournamentView, ts: TeamScoreView) -> Seq<char> {
    team_label(t, ts.team_index) + ": "@ + comma_joined(
        player_parts(t, ts, t.scoring.q_enabled, ts.player_scores.len() as int),
    ) + "<br>\n"@
}

/// The name of team `i` as HTML text, `?` when there is no such team.
pub fn team_label_html(t: &Tournament, i: usize) -> (s: String)
    ensures
        s@ == team_label(t@, i),
{
    if i < t.teams.len() {
        escape_html(t.teams[i].name.as_str())
    } else {
        escape_html("?")
    }
}

fn player_label_html(t: &Tournament, ti: usize, pi: usize) -> (s: String)
    ensures
        s@ == player_label(t@, ti, pi),
{
    if ti < t.teams.len() && pi < t.teams[ti].players.len() {
        assert(t@.teams[ti as int].players[pi as int] == t.teams@[ti as int].players@[pi as int].name@);
        escape_html(t.teams[ti].players[pi].name.as_str())
    } else {
        escape_html("?")
    }
}

/// The result line of `g`, winner first (side A on a tie).
pub fn game_headline(t: &Tournament, g: &Game) -> (s: String)
    ensures
        s@ == headline_text(t@, g@),
{
    let a_name = team_label_html(t, g.team_a.team_index);
    let b_name = team_label_html(t, g.team_b.team_index);
    let a_pts = int_string(g.team_a.total_points as i64);
    let b_pts = int_string(g.team_b.total_points as i64);
    let mut s = String::from_str("<FONT SIZE=+1>");
    if g.team_a.total_points >= g.team_b.total_points {
        s.append(a_name.as_str());
        s.append(" ");
        s.append(a_pts.as_str());
        s.append(", ");
        s.append(b_name.as_str());
        s.append(" ");
        s.append(b_pts.as_str());
    } else {
        s.append(b_name.as_str());
        s.append(" ");
        s.append(b_pts.as_str());
        s.append(", ");
        s.append(a_name.as_str());
        s.append(" ");
        s.append(a_pts.as_str());
    }
    s.append("</FONT><br>\n");
    proof {
        let a = name_score(team_label(t@, g@.team_a.team_index), g@.team_a.total_points);
        let b = name_score(team_label(t@, g@.team_b.team_index), g@.team_b.total_points);
        if g.team_a.total_points >= g.team_b.total_points {
            assert(s@ =~= "<FONT SIZE=+1>"@ + (a + ", "@ + b) + "</FONT><br>\n"@);
        } else {
            assert(s@ =~= "<FONT SIZE=+1>"@ + (b + ", "@ + a) + "</FONT><br>\n"@);
        }
    }
    s
}

/// The line of side `ts` of a game: its name, then each player's name,
/// tossups of the enabled categories and points, separated by commas.
pub fn side_line(t: &Tournament, ts: &TeamScore) -> (s: String)
    ensures
        s@ == side_line_text(t@, ts@),
{
    let ghost qe = t@.scoring.q_enabled;
    let ghost ps = ts@.player_scores;
    let mut s = team_label_html(t, ts.team_index);
    s.append(": ");
    let ghost head = s@;
    let mut first = true;
    let mut m: usize = 0;
    assert(comma_joined(player_parts(t@, ts@, qe, 0)) =~= Seq::<char>::empty());
    while m < ts.player_scores.len()
        invariant
            m <= ps.len(),
            ps == ts@.player_scores,
            qe == t@.scoring.q_enabled,
            head == team_label(t@, ts@.team_index) + ": "@,
            s@ == head + comma_joined(player_parts(t@, ts@, qe, m as int)),
            first <==> player_parts(t@, ts@, qe, m as int).len() == 0,
        decreases ps.len() - m,
    {
        match &ts.player_scores[m] {
            Some(p) => {
                let ghost before = player_parts(t@, ts@, qe, m as int);
                let ghost part = player_part(t@, ts@.team_index, p@, qe);
                let ghost s0 = s@;
                if !first {
                    s.append(", ");
                }
                let name = player_label_html(t, ts.team_index, p.player_index);
                let counts = q_score_inline(&p.q, &t.scoring.q_enabled);
                let pts = int_string(p.points as i64);
                s.append(name.as_str());
                s.append(" ");
                s.append(counts.as_str());
                s.append(" ");
                s.append(pts.as_str());
                proof {
                    assert(player_parts(t@, ts@, qe, m + 1) == before.push(part));
                    assert(before.push(part).drop_last() =~= before);
                    if before.len() == 0 {
                        assert(comma_joined(before.push(part)) == part);
                        assert(s@ =~= head + part);
                    } else {
                        assert(comma_joined(before.push(part)) == comma_joined(before) + ", "@ + part);
                        assert(s@ =~= head + (comma_joined(before) + ", "@ + part));
                    }
                }
                first = false;
            },
            None => {},
        }
        m = m + 1;
    }
    s.append("<br>\n");
    s
}

/// The heading of a round: its number, and its packet when the packet's
/// label is not just the number.
pub open spec fn round_heading_text(t: TournamentView, round: u32) -> Seq<char> {
    let pkt = packet_label_text(t, round);
    let num = fmt_int(round as int);
    "<FONT SIZE=+1 COLOR=red>Round "@ + num + (if pkt == num {
        Seq::empty()
    } else {
        " (Packet: "@ + pkt + ")"@
    }) + "</FONT><P>\n"@
}

/// The heading of `round` on the scoreboard.
pub fn round_heading(t: &Tournament, round: u32) -> (s: String)
    ensures
        s@ == round_heading_text(t@, round),
{
    let pkt = packet_label(t, round);
    let num = uint_string(round as u64);
    let pc = chars_of(pkt.as_str());
    let nc = chars_of(num.as_str());
    let same = chars_eq(pc.as_slice(), nc.as_slice());
    let mut s = String::from_str("<FONT SIZE=+1 COLOR=red>Round ");
    s.append(num.as_str());
    if !same {
        s.append(" (Packet: ");
        s.append(pkt.as_str());
        s.append(")");
    }
    s.append("</FONT><P>\n");
    proof {
        if same {
            assert(s@ =~= "<FONT SIZE=+1 COLOR=red>Round "@ + num@ + Seq::<char>::empty() + "</FONT><P>\n"@);
        } else {
            assert(s@ =~= "<FONT SIZE=+1 COLOR=red>Round "@ + num@ + (" (Packet: "@ + pkt@ + ")"@)
                + "</FONT><P>\n"@);
        }
    }
    s
}

} // verus!
