//! The building blocks of the HTML statistics reports: escaping, the page
//! frame with its navigation bar, the point-value columns, packet labels, the
//! stat key page, report file names and the per-team totals.

use crate::models::{
    game_views, Game, GameView, PlayerScore, PlayerScoreView, ReportSettings, ReportsView, TeamScore, TeamScoreView, Tournament,
    TournamentView,
};
use crate::sqbs_format::slot;
use crate::text::{fmt_int, int_string, push_char, uint_string};
use std::collections::BTreeMap;
use vstd::prelude::*;

verus! {

// ── Escaping ───────────────────────────────────────────────────────────────

/// The text standing for `c` in HTML: `&`, `<`, `>` and `"` as entities.
pub open spec fn escape_char(c: char) -> Seq<char> {
    if c == '&' {
        "&amp;"@
    } else if c == '<' {
        "&lt;"@
    } else if c == '>' {
        "&gt;"@
    } else if c == '"' {
        "&quot;"@
    } else {
        seq![c]
    }
}

/// `s` with each character replaced by its HTML text.
pub open spec fn escaped(s: Seq<char>) -> Seq<char> {
    s.flat_map(|c: char| escape_char(c))
}

/// `s` with `&`, `<`, `>` and `"` replaced by their HTML entities.
pub fn escape_html(s: &str) -> (r: String)
    ensures
        r@ == escaped(s@),
{
    let chars = crate::text::chars_of(s);
    let mut out = String::new();
    let mut i: usize = 0;
    assert(chars@.take(0) =~= Seq::<char>::empty());
    assert(escaped(Seq::<char>::empty()) =~= Seq::<char>::empty());
    while i < chars.len()
        invariant
            i <= chars@.len(),
            chars@ == s@,
            out@ == escaped(chars@.take(i as int)),
        decreases chars@.len() - i,
    {
        let c = chars[i];
        proof {
            assert(chars@.take(i + 1) =~= chars@.take(i as int).push(c));
            chars@.take(i as int).lemma_flat_map_push(|c: char| escape_char(c), c);
        }
        if c == '&' {
            out.append("&amp;");
        } else if c == '<' {
            out.append("&lt;");
        } else if c == '>' {
            out.append("&gt;");
        } else if c == '"' {
            out.append("&quot;");
        } else {
            push_char(&mut out, c);
        }
        i = i + 1;
    }
    assert(chars@.take(i as int) =~= s@);
    out
}

// ── The page frame ─────────────────────────────────────────────────────────

/// The file names the reports link to: the base name followed by each
/// report's suffix.
pub struct Nav {
    pub standings: String,
    pub individuals: String,
    pub games: String,
    pub team_detail: String,
    pub player_detail: String,
    pub rounds: String,
    pub stat_key: String,
    /// The style sheet's file name, empty when there is none.
    pub style: String,
}

pub struct NavView {
    pub standings: Seq<char>,
    pub individuals: Seq<char>,
    pub games: Seq<char>,
    pub team_detail: Seq<char>,
    pub player_detail: Seq<char>,
    pub rounds: Seq<char>,
    pub stat_key: Seq<char>,
    pub style: Seq<char>,
}

impl View for Nav {
    type V = NavView;

    open spec fn view(&self) -> NavView {
        NavView {
            standings: self.standings@,
            individuals: self.individuals@,
            games: self.games@,
            team_detail: self.team_detail@,
            player_detail: self.player_detail@,
            rounds: self.rounds@,
            stat_key: self.stat_key@,
            style: self.style@,
        }
    }
}

/// The links for report settings `r` and base name `base`.
pub open spec fn nav_of(base: Seq<char>, r: ReportsView) -> NavView {
    NavView {
        standings: base + r.standings,
        individuals: base + r.individuals,
        games: base + r.games,
        team_detail: base + r.team_detail,
        player_detail: base + r.player_detail,
        rounds: base + r.rounds,
        stat_key: base + r.stat_key,
        style: if r.style.len() == 0 {
            Seq::empty()
        } else {
            base + r.style
        },
    }
}

/// The navigation bar.
pub open spec fn bar_text(n: NavView) -> Seq<char> {
    "<table border=0 width=100%>\n<tr>\n  <td><A HREF="@ + n.standings
        + ">Standings</A></td>\n  <td><A HREF="@ + n.individuals
        + ">Individuals</A></td>\n  <td><A HREF="@ + n.games
        + ">Scoreboard</A></td>\n  <td><A HREF="@ + n.team_detail
        + ">Team Detail</A></td>\n  <td><A HREF="@ + n.player_detail
        + ">Individual Detail</A></td>\n  <td><A HREF="@ + n.rounds
        + ">Round Report</A></td>\n  <td><A HREF="@ + n.stat_key
        + ">Stat Key</A></td>\n</tr>\n</table>\n"@
}

/// The style sheet link, empty when there is no style sheet.
pub open spec fn style_link_text(n: NavView) -> Seq<char> {
    if n.style.len() == 0 {
        Seq::empty()
    } else {
        "<LINK rel=\"stylesheet\" href=\""@ + n.style + "\">\n"@
    }
}

/// A whole report page.
pub open spec fn page_text(title: Seq<char>, n: NavView, body: Seq<char>) -> Seq<char> {
    "<HTML>\n<HEAD>\n<TITLE>"@ + title + "</TITLE>\n"@ + style_link_text(n)
        + "\n</HEAD>\n<BODY>\n"@ + bar_text(n) + body + "</BODY>\n</HTML>\n"@
}

/// `a` followed by `b`.
fn concat(a: &str, b: &str) -> (r: String)
    ensures
        r@ == a@ + b@,
{
    let mut r = String::from_str(a);
    r.append(b);
    r
}

impl Nav {
    /// The links of the reports named by `r`, each prefixed with `base`.
    pub fn new(base: &str, r: &ReportSettings) -> (n: Nav)
        ensures
            n@ == nav_of(base@, r@),
    {
        let style = if r.style.as_str().unicode_len() == 0 {
            String::new()
        } else {
            concat(base, r.style.as_str())
        };
        proof {
            assert(r.style@.len() == 0 ==> style@ =~= Seq::<char>::empty());
        }
        Nav {
            standings: concat(base, r.standings.as_str()),
            individuals: concat(base, r.individuals.as_str()),
            games: concat(base, r.games.as_str()),
            team_detail: concat(base, r.team_detail.as_str()),
            player_detail: concat(base, r.player_detail.as_str()),
            rounds: concat(base, r.rounds.as_str()),
            stat_key: concat(base, r.stat_key.as_str()),
            style,
        }
    }

    /// The navigation bar linking every report.
    pub fn bar(&self) -> (s: String)
        ensures
            s@ == bar_text(self@),
    {
        let mut s = String::from_str("<table border=0 width=100%>\n<tr>\n  <td><A HREF=");
        s.append(self.standings.as_str());
        s.append(">Standings</A></td>\n  <td><A HREF=");
        s.append(self.individuals.as_str());
        s.append(">Individuals</A></td>\n  <td><A HREF=");
        s.append(self.games.as_str());
        s.append(">Scoreboard</A></td>\n  <td><A HREF=");
        s.append(self.team_detail.as_str());
        s.append(">Team Detail</A></td>\n  <td><A HREF=");
        s.append(self.player_detail.as_str());
        s.append(">Individual Detail</A></td>\n  <td><A HREF=");
        s.append(self.rounds.as_str());
        s.append(">Round Report</A></td>\n  <td><A HREF=");
        s.append(self.stat_key.as_str());
        s.append(">Stat Key</A></td>\n</tr>\n</table>\n");
        s
    }

    /// The style sheet link, empty when there is no style sheet.
    pub fn style_link(&self) -> (s: String)
        ensures
            s@ == style_link_text(self@),
    {
        if self.style.as_str().unicode_len() == 0 {
            let s = String::new();
            assert(s@ =~= Seq::<char>::empty());
            s
        } else {
            let mut s = String::from_str("<LINK rel=\"stylesheet\" href=\"");
            s.append(self.style.as_str());
            s.append("\">\n");
            s
        }
    }
}

/// A report page: `title`, the style sheet link, the navigation bar, `body`.
pub fn html_page(title: &str, nav: &Nav, body: &str) -> (s: String)
    ensures
        s@ == page_text(title@, nav@, body@),
{
    let mut s = String::from_str("<HTML>\n<HEAD>\n<TITLE>");
    s.append(title);
    s.append("</TITLE>\n");
    s.append(nav.style_link().as_str());
    s.append("\n</HEAD>\n<BODY>\n");
    s.append(nav.bar().as_str());
    s.append(body);
    s.append("</BODY>\n</HTML>\n");
    s
}

// ── Point-value columns ────────────────────────────────────────────────────

/// For each enabled category below `n`, `pre`, the value, `post`.
pub open spec fn cells(vs: Seq<i32>, en: Seq<bool>, pre: Seq<char>, post: Seq<char>, n: int) -> Seq<
    char,
>
    decreases n,
{
    if n <= 0 {
        Seq::empty()
    } else {
        cells(vs, en, pre, post, n - 1) + if en[n - 1] {
            pre + fmt_int(vs[n - 1] as int) + post
        } else {
            Seq::empty()
        }
    }
}

/// The values of the enabled categories below `n`, separated by spaces.
pub open spec fn joined(vs: Seq<i32>, en: Seq<bool>, n: int) -> Seq<char>
    decreases n,
{
    if n <= 0 {
        Seq::empty()
    } else {
        let a = joined(vs, en, n - 1);
        if !en[n - 1] {
            a
        } else if a.len() == 0 {
            fmt_int(vs[n - 1] as int)
        } else {
            a + " "@ + fmt_int(vs[n - 1] as int)
        }
    }
}

/// One cell per enabled category, each `pre`, the value, `post`.
fn enabled_cells(vs: &[i32; 4], en: &[bool; 4], pre: &str, post: &str) -> (s: String)
    ensures
        s@ == cells(vs@, en@, pre@, post@, 4),
{
    let mut s = String::new();
    let mut i: usize = 0;
    assert(s@ =~= cells(vs@, en@, pre@, post@, 0));
    while i < 4
        invariant
            i <= 4,
            s@ == cells(vs@, en@, pre@, post@, i as int),
        decreases 4 - i,
    {
        if en[i] {
            s.append(pre);
            s.append(int_string(vs[i] as i64).as_str());
            s.append(post);
        } else {
            assert(s@ + Seq::<char>::empty() =~= s@);
        }
        i = i + 1;
    }
    s
}

/// The values of the enabled categories, separated by spaces.
fn enabled_values(vs: &[i32; 4], en: &[bool; 4]) -> (s: String)
    ensures
        s@ == joined(vs@, en@, 4),
{
    let mut s = String::new();
    let mut i: usize = 0;
    assert(s@ =~= joined(vs@, en@, 0));
    while i < 4
        invariant
            i <= 4,
            s@ == joined(vs@, en@, i as int),
        decreases 4 - i,
    {
        if en[i] {
            if s.as_str().unicode_len() > 0 {
                s.append(" ");
            }
            s.append(int_string(vs[i] as i64).as_str());
        }
        i = i + 1;
    }
    s
}

/// Header cells (bold, right-aligned) for the enabled point values.
pub fn q_headers_right(qv: &[i32; 4], enabled: &[bool; 4]) -> (s: String)
    ensures
        s@ == cells(qv@, enabled@, "  <td ALIGN=RIGHT><B>"@, "</B></td>\n"@, 4),
{
    enabled_cells(qv, enabled, "  <td ALIGN=RIGHT><B>", "</B></td>\n")
}

/// Right-aligned cells with the counts of the enabled categories.
pub fn q_cells_right(q: &[i32; 4], enabled: &[bool; 4]) -> (s: String)
    ensures
        s@ == cells(q@, enabled@, "  <td ALIGN=RIGHT>"@, "</td>\n"@, 4),
{
    enabled_cells(q, enabled, "  <td ALIGN=RIGHT>", "</td>\n")
}

/// Bold right-aligned cells with the counts of the enabled categories.
pub fn q_cells_bold(q: &[i32; 4], enabled: &[bool; 4]) -> (s: String)
    ensures
        s@ == cells(q@, enabled@, "  <td ALIGN=RIGHT><B>"@, "</B></td>\n"@, 4),
{
    enabled_cells(q, enabled, "  <td ALIGN=RIGHT><B>", "</B></td>\n")
}

/// The enabled point values, separated by spaces.
pub fn q_label(qv: &[i32; 4], enabled: &[bool; 4]) -> (s: String)
    ensures
        s@ == joined(qv@, enabled@, 4),
{
    enabled_values(qv, enabled)
}

/// The counts of the enabled categories, separated by spaces.
pub fn q_score_inline(q: &[i32; 4], enabled: &[bool; 4]) -> (s: String)
    ensures
        s@ == joined(q@, enabled@, 4),
{
    enabled_values(q, enabled)
}

// ── Powers, gets and negs ──────────────────────────────────────────────────

/// Whether category `i` is an enabled category with a negative value.
pub open spec fn is_neg(qv: Seq<i32>, en: Seq<bool>, i: int) -> bool {
    en[i] && qv[i] < 0
}

/// The first enabled category with a negative value.
pub fn neg_slot(qv: &[i32; 4], enabled: &[bool; 4]) -> (r: Option<usize>)
    ensures
        match r {
            Some(i) => i < 4 && is_neg(qv@, enabled@, i as int) && forall|j: int|
                0 <= j < i ==> !is_neg(qv@, enabled@, j),
            None => forall|j: int| 0 <= j < 4 ==> !is_neg(qv@, enabled@, j),
        },
{
    let mut i: usize = 0;
    while i < 4
        invariant
            i <= 4,
            forall|j: int| 0 <= j < i ==> !is_neg(qv@, enabled@, j),
        decreases 4 - i,
    {
        if enabled[i] && qv[i] < 0 {
            return Some(i);
        }
        i = i + 1;
    }
    None
}

/// The gets: the counts of the enabled categories with a positive value,
/// summed over the categories below `n`.
pub open spec fn gets(q: Seq<i32>, qv: Seq<i32>, en: Seq<bool>, n: int) -> int
    decreases n,
{
    if n <= 0 {
        0
    } else {
        gets(q, qv, en, n - 1) + if en[n - 1] && qv[n - 1] > 0 {
            q[n - 1] as int
        } else {
            0
        }
    }
}

/// Every partial sum of the gets fits an `i32`.
pub open spec fn gets_fit(q: Seq<i32>, qv: Seq<i32>, en: Seq<bool>) -> bool {
    forall|n: int| 0 <= n <= 4 ==> i32::MIN <= #[trigger] gets(q, qv, en, n) <= i32::MAX
}

/// Whether every partial sum of the gets fits an `i32`, as `gn_counts`
/// needs.
pub fn gets_fit_check(q: &[i32; 4], qv: &[i32; 4], enabled: &[bool; 4]) -> (b: bool)
    ensures
        b == gets_fit(q@, qv@, enabled@),
{
    let mut g: i32 = 0;
    let mut i: usize = 0;
    while i < 4
        invariant
            i <= 4,
            g == gets(q@, qv@, enabled@, i as int),
            forall|n: int| 0 <= n <= i ==> i32::MIN <= #[trigger] gets(q@, qv@, enabled@, n) <= i32::MAX,
        decreases 4 - i,
    {
        if enabled[i] && qv[i] > 0 {
            g = match g.checked_add(q[i]) {
                Some(v) => v,
                None => {
                    assert(!(i32::MIN <= gets(q@, qv@, enabled@, i + 1) <= i32::MAX));
                    return false;
                },
            };
        }
        i = i + 1;
    }
    true
}

/// The two counts of the powers-to-negs ratio: the powers (the first
/// category) and the negs (the first enabled negative category); `None`
/// when no category is a neg.
pub fn pn_counts(q: &[i32; 4], qv: &[i32; 4], enabled: &[bool; 4]) -> (r: Option<(i32, i32)>)
    ensures
        match r {
            Some((p, n)) => exists|i: int|
                0 <= i < 4 && is_neg(qv@, enabled@, i) && (forall|j: int|
                    0 <= j < i ==> !is_neg(qv@, enabled@, j)) && p == q@[0] && n == q@[i],
            None => forall|j: int| 0 <= j < 4 ==> !is_neg(qv@, enabled@, j),
        },
{
    match neg_slot(qv, enabled) {
        Some(ni) => Some((q[0], q[ni])),
        None => None,
    }
}

/// The two counts of the gets-to-negs ratio: the gets and the negs (the
/// first enabled negative category); `None` when no category is a neg.
pub fn gn_counts(q: &[i32; 4], qv: &[i32; 4], enabled: &[bool; 4]) -> (r: Option<(i32, i32)>)
    requires
        gets_fit(q@, qv@, enabled@),
    ensures
        match r {
            Some((g, n)) => exists|i: int|
                0 <= i < 4 && is_neg(qv@, enabled@, i) && (forall|j: int|
                    0 <= j < i ==> !is_neg(qv@, enabled@, j)) && g == gets(q@, qv@, enabled@, 4)
                    && n == q@[i],
            None => forall|j: int| 0 <= j < 4 ==> !is_neg(qv@, enabled@, j),
        },
{
    let mut g: i32 = 0;
    let mut i: usize = 0;
    while i < 4
        invariant
            i <= 4,
            gets_fit(q@, qv@, enabled@),
            g == gets(q@, qv@, enabled@, i as int),
        decreases 4 - i,
    {
        assert(i32::MIN <= gets(q@, qv@, enabled@, i + 1) <= i32::MAX);
        if enabled[i] && qv[i] > 0 {
            g = g + q[i];
        }
        i = i + 1;
    }
    match neg_slot(qv, enabled) {
        Some(ni) => Some((g, q[ni])),
        None => None,
    }
}

// ── Packet labels ──────────────────────────────────────────────────────────

/// The label of a round in the reports: its packet name, or the round
/// number when it has none (or only `-`).
pub open spec fn packet_label_text(t: TournamentView, round: u32) -> Seq<char> {
    if t.packets.contains_key(round) && t.packets[round] != "-"@ {
        t.packets[round]
    } else {
        fmt_int(round as int)
    }
}

/// The packet name stored for round `k`.
fn packet_get(m: &BTreeMap<u32, String>, k: u32) -> (r: Option<&String>)
    ensures
        match r {
            Some(v) => m@.contains_key(k) && m@[k] == *v,
            None => !m@.contains_key(k),
        },
{
    broadcast use vstd::laws_cmp::group_laws_cmp, vstd::std_specs::btree::group_btree_axioms;

    m.get(&k)
}

/// The label of `round`: its packet name, or its number when it has none.
pub fn packet_label(t: &Tournament, round: u32) -> (s: String)
    ensures
        s@ == packet_label_text(t@, round),
{
    proof {
        reveal_strlit("-");
    }
    match packet_get(&t.packets, round) {
        Some(name) => {
            let n = name.as_str().unicode_len();
            if !(n == 1 && name.as_str().get_char(0) == '-') {
                assert(name@ != "-"@);
                return name.clone();
            }
            assert(name@ =~= "-"@);
        },
        None => {},
    }
    uint_string(round as u64)
}

// ── Report file names ──────────────────────────────────────────────────────

/// The message for a report file name that is not a plain file name.
pub open spec fn bad_name_text(name: Seq<char>) -> Seq<char> {
    "report filename '"@ + name + "' must be a plain filename with no path separators"@
}

/// Accepts `name` when the path it makes is relative and has exactly one
/// component; else the message.
pub fn check_report_name(name: &str, absolute: bool, components: usize) -> (r: Result<(), String>)
    ensures
        match r {
            Ok(_) => !absolute && components == 1,
            Err(m) => (absolute || components != 1) && m@ == bad_name_text(name@),
        },
{
    if absolute || components != 1 {
        let mut m = String::from_str("report filename '");
        m.append(name);
        m.append("' must be a plain filename with no path separators");
        return Err(m);
    }
    Ok(())
}

/// `Path::is_absolute` on `name`; what it answers depends on the platform.
#[verifier::external_body]
fn path_is_absolute(name: &str) -> bool {
    std::path::Path::new(name).is_absolute()
}

/// The number of components of `Path::components` on `name`; it depends on
/// the platform.
#[verifier::external_body]
fn path_components(name: &str) -> usize {
    std::path::Path::new(name).components().count()
}

/// Accepts a report file name only when it is a plain file name: a relative
/// path of one component, with no directory in it.
pub fn validate_report_name(name: &str) -> (r: Result<(), String>)
    ensures
        match r {
            Ok(_) => true,
            Err(m) => m@ == bad_name_text(name@),
        },
{
    let absolute = path_is_absolute(name);
    let components = path_components(name);
    check_report_name(name, absolute, components)
}

// ── The stat key ───────────────────────────────────────────────────────────

/// A row of the stat key: an abbreviation and what it means.
pub open spec fn row(abbr: Seq<char>, desc: Seq<char>) -> Seq<char> {
    "<tr>\n<td>"@ + abbr + "</td>\n<td>"@ + desc + "</td>\n</tr>\n"@
}

pub open spec fn q_desc() -> Seq<char> {
    "Number of toss-ups answered for the corresponding point value (negative point values are for incorrect interrupts)"@
}

/// The bonus rows of the team tables.
pub open spec fn bonus_rows(tb: bool, bb: bool) -> Seq<char> {
    if tb {
        row("BHrd"@, "Total number of bonus questions heard by the team"@) + row(
            "BPts"@,
            "Total number of points scored by the team on bonus questions"@,
        ) + row("P/B"@, "Average number of points scored by the team on bonus questions"@) + if bb {
            row("BBHrd"@, "Total number of bonus bouncebacks heard by the team"@) + row(
                "BBPts"@,
                "Total number of points scored by the team on bonus bouncebacks"@,
            ) + row("P/BB"@, "Average number of points scored by the team on bonus bouncebacks"@)
        } else {
            Seq::empty()
        }
    } else {
        Seq::empty()
    }
}

/// The rows shared by the two player tables.
pub open spec fn player_rows() -> Seq<char> {
    row("TUH"@, "Total number of toss-ups heard by the player"@) + row(
        "P/TU"@,
        "Average number of points scored by the player per toss-up heard"@,
    ) + row("P/N"@, "Ratio of powers to negs"@) + row(
        "G/N"@,
        "Ratio of gets (correctly answered questions) to negs"@,
    ) + row("Pts"@, "Total number of points scored by the player"@) + row(
        "PPG"@,
        "Average number of points scored by the player per game"@,
    )
}

/// The rows of the team standings table before the bonus rows.
pub open spec fn standings_rows(ql: Seq<char>) -> Seq<char> {
    row("W, L, T"@, "Number of games won (W), lost (L), or tied (T)"@) + row(
        "Pct"@,
        "Fraction of games won"@,
    ) + row("PPG"@, "Average number of points scored by the team in a game"@) + row(
        "PAPG"@,
        "Average number of points scored against the team in a game"@,
    ) + row("Mrg"@, "Team's average margin of victory (if positive) or defeat (if negative)"@)
        + row(ql + " "@, q_desc())
}

/// The tossup rows of a team table, after the point-value row.
pub open spec fn team_tossup_rows(tuh_desc: Seq<char>) -> Seq<char> {
    row("TUH"@, tuh_desc) + row(
        "PPTH"@,
        "Average number of points scored by the team per toss-up heard"@,
    ) + row("P/N"@, "Ratio of powers to negs"@) + row(
        "G/N"@,
        "Ratio of gets (correctly answered questions) to negs"@,
    )
}

pub open spec fn team_standings_key(ql: Seq<char>, tb: bool, bb: bool) -> Seq<char> {
    "<H2><A NAME=TeamStandings>Team Standings</A></H2><br>\n"@ + "<table border=1 width=100%>\n"@
        + standings_rows(ql) + team_tossup_rows("Total number of toss-ups heard by the team"@)
        + bonus_rows(tb, bb) + "</table><P>\n"@
}

pub open spec fn individual_key(ql: Seq<char>, anchor: Seq<char>, title: Seq<char>) -> Seq<char> {
    "<H2><A NAME="@ + anchor + ">"@ + title + "</A></H2><br>\n"@ + "<table border=1 width=100%>\n"@
        + row("GP"@, "Number of games in which the player participated"@) + row(
        ql + " "@,
        q_desc(),
    ) + player_rows() + "</table><P>\n"@
}

pub open spec fn scoreboard_key(tb: bool, bb: bool) -> Seq<char> {
    "<H2><A NAME=Scoreboard>Scoreboard</A></H2><br>\n"@
        + "For each game, the score is listed in large bold print on the first line.  Then each individual who played in the game is listed, by team, along with the number of each type of question answered (in the order that they appear in the other reports (usually decreasing order, such as 15 10 -5).  The last number after each name is the individual's total points for the game.\n"@
        + if tb {
        "The next line of the boxscore gives, for each team, the total number of bonuses heard, the total number of points scored on bonuses, and the average number of points scored per bonus heard."@
            + if bb {
            "The next line of the boxscore gives, for each team, the total number of bonus bouncebacks heard, the total number of points scored on bonus bouncebacks, and the average number of points scored per bonus bounceback heard."@
        } else {
            Seq::empty()
        }
    } else {
        Seq::empty()
    } + "<P><P>\n"@
}

/// The result and points rows of the team detail table.
pub open spec fn detail_rows(ql: Seq<char>) -> Seq<char> {
    row("Result"@, "Whether the team won (W), lost (L), or tied (T) the game"@) + row(
        "PF"@,
        "Total number of points scored by the team"@,
    ) + row("PA"@, "Total number of points scored by the opponent"@) + row(ql + " "@, q_desc())
}

pub open spec fn team_detail_key(ql: Seq<char>, tb: bool, bb: bool) -> Seq<char> {
    "<H2><A NAME=TeamDetail>Team Detail</A></H2><br>\n"@ + "<table border=1 width=100%>\n"@
        + detail_rows(ql) + team_tossup_rows("Total number of toss-ups heard"@) + bonus_rows(tb, bb)
        + "</table><P>\n"@
}

pub open spec fn round_key(tb: bool, bb: bool) -> Seq<char> {
    "<H2><A NAME=RoundReport>Round Report</A></H2><br>\n"@ + "<table border=1 width=100%>\n"@
        + row("PPG/Team"@, "Average number of points scored per team per game"@) + row(
        "TUPts/TUH."@,
        "Average number of points scored on toss-up questions per toss-up heard"@,
    ) + if tb {
        row("BPts/BH"@, "Average number of points scored on bonus questions per bonus heard"@)
            + if bb {
            row(
                "BBPts/BBH"@,
                "Average number of points scored on bonus bouncebacks per bonus bounceback heard"@,
            )
        } else {
            Seq::empty()
        }
    } else {
        Seq::empty()
    } + "</table><P>\n"@
}

/// The body of the stat key page.
pub open spec fn stat_key_body(t: TournamentView) -> Seq<char> {
    let ql = joined(t.scoring.q_values, t.scoring.q_enabled, 4);
    let tb = t.track_bonuses;
    let bb = crate::models::spec_bouncebacks_enabled(t);
    "<H1>"@ + t.name + " Stat Key </H1><P>\n"@ + team_standings_key(ql, tb, bb) + individual_key(
        ql,
        "IndividualStandings"@,
        "Individual Statistics"@,
    ) + scoreboard_key(tb, bb) + team_detail_key(ql, tb, bb) + individual_key(
        ql,
        "IndividualDetail"@,
        "Individual Detail"@,
    ) + round_key(tb, bb)
        + "For information about this statistics program, visit the <A HREF=http://www.stanford.edu/~csewell/sqbs/index.htm>SQBS homepage</A>."@
}

fn push_row(s: &mut String, abbr: &str, desc: &str)
    ensures
        final(s)@ == old(s)@ + row(abbr@, desc@),
{
    s.append("<tr>\n<td>");
    s.append(abbr);
    s.append("</td>\n<td>");
    s.append(desc);
    s.append("</td>\n</tr>\n");
}

fn push_q_row(s: &mut String, ql: &str)
    ensures
        final(s)@ == old(s)@ + row(ql@ + " "@, q_desc()),
{
    let mut label = String::from_str(ql);
    label.append(" ");
    push_row(
        s,
        label.as_str(),
        "Number of toss-ups answered for the corresponding point value (negative point values are for incorrect interrupts)",
    );
}

#[verifier::rlimit(50)]
fn push_bonus_rows(s: &mut String, tb: bool, bb: bool)
    ensures
        final(s)@ == old(s)@ + bonus_rows(tb, bb),
{
    let ghost s0 = s@;
    if tb {
        push_row(s, "BHrd", "Total number of bonus questions heard by the team");
        push_row(s, "BPts", "Total number of points scored by the team on bonus questions");
        push_row(s, "P/B", "Average number of points scored by the team on bonus questions");
        if bb {
            push_row(s, "BBHrd", "Total number of bonus bouncebacks heard by the team");
            push_row(s, "BBPts", "Total number of points scored by the team on bonus bouncebacks");
            push_row(s, "P/BB", "Average number of points scored by the team on bonus bouncebacks");
        }
    }
    assert(s@ =~= s0 + bonus_rows(tb, bb));
}

#[verifier::rlimit(50)]
fn push_player_rows(s: &mut String)
    ensures
        final(s)@ == old(s)@ + player_rows(),
{
    let ghost s0 = s@;
    push_row(s, "TUH", "Total number of toss-ups heard by the player");
    push_row(s, "P/TU", "Average number of points scored by the player per toss-up heard");
    push_row(s, "P/N", "Ratio of powers to negs");
    push_row(s, "G/N", "Ratio of gets (correctly answered questions) to negs");
    push_row(s, "Pts", "Total number of points scored by the player");
    push_row(s, "PPG", "Average number of points scored by the player per game");
    assert(s@ =~= s0 + player_rows());
}

fn push_standings_rows(s: &mut String, ql: &str)
    ensures
        final(s)@ == old(s)@ + standings_rows(ql@),
{
    let ghost s0 = s@;
    push_row(s, "W, L, T", "Number of games won (W), lost (L), or tied (T)");
    push_row(s, "Pct", "Fraction of games won");
    push_row(s, "PPG", "Average number of points scored by the team in a game");
    push_row(s, "PAPG", "Average number of points scored against the team in a game");
    push_row(s, "Mrg", "Team's average margin of victory (if positive) or defeat (if negative)");
    push_q_row(s, ql);
    assert(s@ =~= s0 + standings_rows(ql@));
}

fn push_team_tossup_rows(s: &mut String, tuh_desc: &str)
    ensures
        final(s)@ == old(s)@ + team_tossup_rows(tuh_desc@),
{
    let ghost s0 = s@;
    push_row(s, "TUH", tuh_desc);
    push_row(s, "PPTH", "Average number of points scored by the team per toss-up heard");
    push_row(s, "P/N", "Ratio of powers to negs");
    push_row(s, "G/N", "Ratio of gets (correctly answered questions) to negs");
    assert(s@ =~= s0 + team_tossup_rows(tuh_desc@));
}

fn push_team_standings_key(s: &mut String, ql: &str, tb: bool, bb: bool)
    ensures
        final(s)@ == old(s)@ + team_standings_key(ql@, tb, bb),
{
    let ghost s0 = s@;
    s.append("<H2><A NAME=TeamStandings>Team Standings</A></H2><br>\n");
    s.append("<table border=1 width=100%>\n");
    push_standings_rows(s, ql);
    push_team_tossup_rows(s, "Total number of toss-ups heard by the team");
    push_bonus_rows(s, tb, bb);
    s.append("</table><P>\n");
    assert(s@ =~= s0 + team_standings_key(ql@, tb, bb));
}

#[verifier::rlimit(50)]
fn push_individual_key(s: &mut String, ql: &str, anchor: &str, title: &str)
    ensures
        final(s)@ == old(s)@ + individual_key(ql@, anchor@, title@),
{
    let ghost s0 = s@;
    s.append("<H2><A NAME=");
    s.append(anchor);
    s.append(">");
    s.append(title);
    s.append("</A></H2><br>\n");
    s.append("<table border=1 width=100%>\n");
    push_row(s, "GP", "Number of games in which the player participated");
    push_q_row(s, ql);
    push_player_rows(s);
    s.append("</table><P>\n");
    assert(s@ =~= s0 + individual_key(ql@, anchor@, title@));
}

#[verifier::rlimit(50)]
fn push_scoreboard_key(s: &mut String, tb: bool, bb: bool)
    ensures
        final(s)@ == old(s)@ + scoreboard_key(tb, bb),
{
    let ghost s0 = s@;
    s.append("<H2><A NAME=Scoreboard>Scoreboard</A></H2><br>\n");
    s.append(
        "For each game, the score is listed in large bold print on the first line.  Then each individual who played in the game is listed, by team, along with the number of each type of question answered (in the order that they appear in the other reports (usually decreasing order, such as 15 10 -5).  The last number after each name is the individual's total points for the game.\n",
    );
    if tb {
        s.append(
            "The next line of the boxscore gives, for each team, the total number of bonuses heard, the total number of points scored on bonuses, and the average number of points scored per bonus heard.",
        );
        if bb {
            s.append(
                "The next line of the boxscore gives, for each team, the total number of bonus bouncebacks heard, the total number of points scored on bonus bouncebacks, and the average number of points scored per bonus bounceback heard.",
            );
        }
    }
    s.append("<P><P>\n");
    assert(s@ =~= s0 + scoreboard_key(tb, bb));
}

fn push_detail_rows(s: &mut String, ql: &str)
    ensures
        final(s)@ == old(s)@ + detail_rows(ql@),
{
    let ghost s0 = s@;
    push_row(s, "Result", "Whether the team won (W), lost (L), or tied (T) the game");
    push_row(s, "PF", "Total number of points scored by the team");
    push_row(s, "PA", "Total number of points scored by the opponent");
    push_q_row(s, ql);
    assert(s@ =~= s0 + detail_rows(ql@));
}

fn push_team_detail_key(s: &mut String, ql: &str, tb: bool, bb: bool)
    ensures
        final(s)@ == old(s)@ + team_detail_key(ql@, tb, bb),
{
    let ghost s0 = s@;
    s.append("<H2><A NAME=TeamDetail>Team Detail</A></H2><br>\n");
    s.append("<table border=1 width=100%>\n");
    push_detail_rows(s, ql);
    push_team_tossup_rows(s, "Total number of toss-ups heard");
    push_bonus_rows(s, tb, bb);
    s.append("</table><P>\n");
    assert(s@ =~= s0 + team_detail_key(ql@, tb, bb));
}

#[verifier::rlimit(50)]
fn push_round_key(s: &mut String, tb: bool, bb: bool)
    ensures
        final(s)@ == old(s)@ + round_key(tb, bb),
{
    let ghost s0 = s@;
    s.append("<H2><A NAME=RoundReport>Round Report</A></H2><br>\n");
    s.append("<table border=1 width=100%>\n");
    push_row(s, "PPG/Team", "Average number of points scored per team per game");
    push_row(s, "TUPts/TUH.", "Average number of points scored on toss-up questions per toss-up heard");
    if tb {
        push_row(s, "BPts/BH", "Average number of points scored on bonus questions per bonus heard");
        if bb {
            push_row(
                s,
                "BBPts/BBH",
                "Average number of points scored on bonus bouncebacks per bonus bounceback heard",
            );
        }
    }
    s.append("</table><P>\n");
    assert(s@ =~= s0 + round_key(tb, bb));
}

/// The stat key page: what each abbreviation of the other reports means.
#[verifier::rlimit(50)]
pub fn stat_key_html(t: &Tournament, nav: &Nav) -> (s: String)
    ensures
        s@ == page_text(t@.name + " Stat Key "@, nav@, stat_key_body(t@)),
{
    let ql = q_label(&t.scoring.q_values, &t.scoring.q_enabled);
    let tb = t.track_bonuses;
    let bb = t.bouncebacks_enabled();
    let mut body = String::from_str("<H1>");
    body.append(t.name.as_str());
    body.append(" Stat Key </H1><P>\n");
    push_team_standings_key(&mut body, ql.as_str(), tb, bb);
    push_individual_key(&mut body, ql.as_str(), "IndividualStandings", "Individual Statistics");
    push_scoreboard_key(&mut body, tb, bb);
    push_team_detail_key(&mut body, ql.as_str(), tb, bb);
    push_individual_key(&mut body, ql.as_str(), "IndividualDetail", "Individual Detail");
    push_round_key(&mut body, tb, bb);
    body.append(
        "For information about this statistics program, visit the <A HREF=http://www.stanford.edu/~csewell/sqbs/index.htm>SQBS homepage</A>.",
    );
    assert(body@ =~= stat_key_body(t@));
    let title = concat(t.name.as_str(), " Stat Key ");
    html_page(title.as_str(), nav, body.as_str())
}

// ── Team totals ────────────────────────────────────────────────────────────

/// A team's totals over the games it played (forfeits left out).
#[derive(Clone, Copy)]
pub struct TeamAgg {
    pub team_index: usize,
    pub wins: i32,
    pub losses: i32,
    pub ties: i32,
    /// Points for.
    pub pf: i32,
    /// Points against.
    pub pa: i32,
    pub games: i32,
    /// Tossups answered in each point category.
    pub q: [i32; 4],
    /// Tossups heard.
    pub tuh: i32,
    pub bh: i32,
    pub bp: i32,
    pub bbh: i32,
    pub bbp: i32,
}

pub struct AggView {
    pub team_index: usize,
    pub wins: int,
    pub losses: int,
    pub ties: int,
    pub pf: int,
    pub pa: int,
    pub games: int,
    pub q: Seq<int>,
    pub tuh: int,
    pub bh: int,
    pub bp: int,
    pub bbh: int,
    pub bbp: int,
}

impl View for TeamAgg {
    type V = AggView;

    open spec fn view(&self) -> AggView {
        AggView {
            team_index: self.team_index,
            wins: self.wins as int,
            losses: self.losses as int,
            ties: self.ties as int,
            pf: self.pf as int,
            pa: self.pa as int,
            games: self.games as int,
            q: Seq::new(4, |j: int| self.q@[j] as int),
            tuh: self.tuh as int,
            bh: self.bh as int,
            bp: self.bp as int,
            bbh: self.bbh as int,
            bbp: self.bbp as int,
        }
    }
}

pub open spec fn agg_views(v: Seq<TeamAgg>) -> Seq<AggView> {
    v.map_values(|a: TeamAgg| a@)
}

pub open spec fn fits(x: int) -> bool {
    i32::MIN <= x <= i32::MAX
}

/// Tossups of category `j` answered by the players recorded in `ps`.
pub open spec fn q_total(ps: Seq<Option<PlayerScoreView>>, j: int) -> int
    decreases ps.len(),
{
    if ps.len() == 0 {
        0
    } else {
        q_total(ps.drop_last(), j) + match ps.last() {
            Some(p) => p.q[j] as int,
            None => 0,
        }
    }
}

/// The totals `a` after one more game in which the team scored `ts`, the
/// opponent `opp`, and `tuh` tossups were heard.
pub open spec fn side_added(a: AggView, ts: TeamScoreView, opp: i32, tuh: u32) -> AggView {
    AggView {
        team_index: a.team_index,
        wins: a.wins,
        losses: a.losses,
        ties: a.ties,
        pf: a.pf + ts.total_points,
        pa: a.pa + opp,
        games: a.games + 1,
        q: Seq::new(4, |j: int| a.q[j] + q_total(ts.player_scores, j)),
        tuh: a.tuh + (tuh as i32) as int,
        bh: a.bh + ts.bonus_heard,
        bp: a.bp + ts.bonus_points,
        bbh: a.bbh + ts.bb_heard,
        bbp: a.bbp + ts.bb_points,
    }
}

/// Every running total of one side of a game fits an `i32`.
pub open spec fn side_fits(a: AggView, ts: TeamScoreView, opp: i32, tuh: u32) -> bool {
    let s = side_added(a, ts, opp, tuh);
    &&& fits(s.pf)
    &&& fits(s.pa)
    &&& fits(s.games)
    &&& fits(s.tuh)
    &&& fits(s.bh)
    &&& fits(s.bp)
    &&& fits(s.bbh)
    &&& fits(s.bbp)
    &&& forall|k: int, j: int|
        0 <= k <= ts.player_scores.len() && 0 <= j < 4 ==> fits(
            a.q[j] + #[trigger] q_total(ts.player_scores.take(k), j),
        )
}

pub open spec fn with_win(a: AggView) -> AggView {
    AggView { wins: a.wins + 1, ..a }
}

pub open spec fn with_loss(a: AggView) -> AggView {
    AggView { losses: a.losses + 1, ..a }
}

pub open spec fn with_tie(a: AggView) -> AggView {
    AggView { ties: a.ties + 1, ..a }
}

/// Whether a game counts toward the totals of `n` teams: not a forfeit,
/// both team indices valid.
pub open spec fn counted(g: GameView, n: nat) -> bool {
    !g.forfeit && g.team_a.team_index < n && g.team_b.team_index < n
}

/// The totals after both sides of `g` are added.
pub open spec fn after_sides(aggs: Seq<AggView>, g: GameView) -> Seq<AggView> {
    let ai = g.team_a.team_index as int;
    let bi = g.team_b.team_index as int;
    let s1 = aggs.update(ai, side_added(aggs[ai], g.team_a, g.team_b.total_points, g.tossups_heard));
    s1.update(bi, side_added(s1[bi], g.team_b, g.team_a.total_points, g.tossups_heard))
}

/// The first and second record updates of `g`: the winner's win and the
/// loser's loss, or both teams' ties.
pub open spec fn result_first(s2: Seq<AggView>, g: GameView) -> Seq<AggView> {
    let ai = g.team_a.team_index as int;
    let bi = g.team_b.team_index as int;
    let a = g.team_a.total_points;
    let b = g.team_b.total_points;
    if a > b {
        s2.update(ai, with_win(s2[ai]))
    } else if b > a {
        s2.update(bi, with_win(s2[bi]))
    } else {
        s2.update(ai, with_tie(s2[ai]))
    }
}

pub open spec fn result_second(s3: Seq<AggView>, g: GameView) -> Seq<AggView> {
    let ai = g.team_a.team_index as int;
    let bi = g.team_b.team_index as int;
    let a = g.team_a.total_points;
    let b = g.team_b.total_points;
    if a > b {
        s3.update(bi, with_loss(s3[bi]))
    } else if b > a {
        s3.update(ai, with_loss(s3[ai]))
    } else {
        s3.update(bi, with_tie(s3[bi]))
    }
}

/// The totals after game `g` among `n` teams.
pub open spec fn agg_game(aggs: Seq<AggView>, g: GameView, n: nat) -> Seq<AggView> {
    if counted(g, n) {
        result_second(result_first(after_sides(aggs, g), g), g)
    } else {
        aggs
    }
}

/// Every running total of game `g` fits an `i32`.
pub open spec fn game_fits(aggs: Seq<AggView>, g: GameView, n: nat) -> bool {
    counted(g, n) ==> {
        let ai = g.team_a.team_index as int;
        let bi = g.team_b.team_index as int;
        let s1 = aggs.update(
            ai,
            side_added(aggs[ai], g.team_a, g.team_b.total_points, g.tossups_heard),
        );
        let s2 = after_sides(aggs, g);
        let s3 = result_first(s2, g);
        let s4 = result_second(s3, g);
        &&& side_fits(aggs[ai], g.team_a, g.team_b.total_points, g.tossups_heard)
        &&& side_fits(s1[bi], g.team_b, g.team_a.total_points, g.tossups_heard)
        &&& forall|i: int|
            0 <= i < n ==> fits(#[trigger] s3[i].wins) && fits(s3[i].losses) && fits(s3[i].ties)
                && fits(s4[i].wins) && fits(s4[i].losses) && fits(s4[i].ties)
    }
}

/// Every team with all totals zero.
pub open spec fn agg_init(n: nat) -> Seq<AggView> {
    Seq::new(
        n,
        |i: int|
            AggView {
                team_index: i as usize,
                wins: 0,
                losses: 0,
                ties: 0,
                pf: 0,
                pa: 0,
                games: 0,
                q: seq![0int, 0int, 0int, 0int],
                tuh: 0,
                bh: 0,
                bp: 0,
                bbh: 0,
                bbp: 0,
            },
    )
}

/// The totals after the first `k` games of `t`.
pub open spec fn agg_upto(t: TournamentView, k: int) -> Seq<AggView>
    decreases k,
{
    if k <= 0 {
        agg_init(t.teams.len())
    } else {
        agg_game(agg_upto(t, k - 1), t.games[k - 1], t.teams.len())
    }
}

/// Every team's totals over all games of `t`.
pub open spec fn team_totals(t: TournamentView) -> Seq<AggView> {
    agg_upto(t, t.games.len() as int)
}

/// Every running total fits an `i32` (else the additions overflow).
pub open spec fn totals_fit(t: TournamentView) -> bool {
    forall|k: int|
        0 <= k < t.games.len() ==> game_fits(agg_upto(t, k), #[trigger] t.games[k], t.teams.len())
}

/// `a` with one more game of the team scoring `ts` against `opp`; `None`
/// when a running total would overflow an `i32`.
fn add_side_checked(a: TeamAgg, ts: &TeamScore, opp: i32, tuh: u32) -> (r: Option<TeamAgg>)
    ensures
        r is Some <==> side_fits(a@, ts@, opp, tuh),
        r matches Some(x) ==> x@ == side_added(a@, ts@, opp, tuh),
{
    let ghost ps = ts@.player_scores;
    let ghost want = side_added(a@, ts@, opp, tuh);
    let mut r = a;
    r.games = match r.games.checked_add(1) {
        Some(v) => v,
        None => return None,
    };
    r.pf = match r.pf.checked_add(ts.total_points) {
        Some(v) => v,
        None => return None,
    };
    r.pa = match r.pa.checked_add(opp) {
        Some(v) => v,
        None => return None,
    };
    r.tuh = match r.tuh.checked_add(#[verifier::truncate] (tuh as i32)) {
        Some(v) => v,
        None => return None,
    };
    r.bh = match r.bh.checked_add(ts.bonus_heard) {
        Some(v) => v,
        None => return None,
    };
    r.bp = match r.bp.checked_add(ts.bonus_points) {
        Some(v) => v,
        None => return None,
    };
    r.bbh = match r.bbh.checked_add(ts.bb_heard) {
        Some(v) => v,
        None => return None,
    };
    r.bbp = match r.bbp.checked_add(ts.bb_points) {
        Some(v) => v,
        None => return None,
    };
    let mut k: usize = 0;
    assert forall|j: int| 0 <= j < 4 implies q_total(#[trigger] ps.take(0), j) == 0 by {
        assert(ps.take(0).len() == 0);
    }
    while k < ts.player_scores.len()
        invariant
            k <= ps.len(),
            ps == ts@.player_scores,
            want == side_added(a@, ts@, opp, tuh),
            forall|j: int| 0 <= j < 4 ==> r.q@[j] == a.q@[j] + q_total(#[trigger] ps.take(k as int), j),
            forall|m: int, j: int|
                0 <= m <= k && 0 <= j < 4 ==> fits(a@.q[j] + #[trigger] q_total(ps.take(m), j)),
            r.team_index == a.team_index,
            r.wins == a.wins && r.losses == a.losses && r.ties == a.ties,
            r.pf as int == want.pf && r.pa as int == want.pa && r.games as int == want.games,
            r.tuh as int == want.tuh && r.bh as int == want.bh && r.bp as int == want.bp,
            r.bbh as int == want.bbh && r.bbp as int == want.bbp,
        decreases ps.len() - k,
    {
        proof {
            assert(ps.take(k + 1).drop_last() =~= ps.take(k as int));
            assert(ps.take(k + 1).last() == ps[k as int]);
        }
        match &ts.player_scores[k] {
            Some(p) => {
                let mut j: usize = 0;
                while j < 4
                    invariant
                        j <= 4,
                        k < ps.len(),
                        ps == ts@.player_scores,
                        ps[k as int] == Some(p@),
                        want == side_added(a@, ts@, opp, tuh),
                        forall|m: int|
                            0 <= m < j ==> r.q@[m] == a.q@[m] + q_total(#[trigger] ps.take(k + 1), m),
                        forall|m: int|
                            j <= m < 4 ==> r.q@[m] == a.q@[m] + q_total(#[trigger] ps.take(k as int), m),
                        forall|m: int, jj: int|
                            0 <= m <= k && 0 <= jj < 4 ==> fits(a@.q[jj] + #[trigger] q_total(ps.take(m), jj)),
                        forall|jj: int| 0 <= jj < j ==> fits(a@.q[jj] + #[trigger] q_total(ps.take(k + 1), jj)),
                        r.team_index == a.team_index,
                        r.wins == a.wins && r.losses == a.losses && r.ties == a.ties,
                        r.pf as int == want.pf && r.pa as int == want.pa && r.games as int == want.games,
                        r.tuh as int == want.tuh && r.bh as int == want.bh && r.bp as int == want.bp,
                        r.bbh as int == want.bbh && r.bbp as int == want.bbp,
                    decreases 4 - j,
                {
                    proof {
                        assert(ps.take(k + 1).drop_last() =~= ps.take(k as int));
                        assert(q_total(ps.take(k + 1), j as int) == q_total(ps.take(k as int), j as int) + p.q@[j as int]);
                    }
                    r.q[j] = match r.q[j].checked_add(p.q[j]) {
                        Some(v) => v,
                        None => {
                            assert(!fits(a@.q[j as int] + q_total(ps.take(k + 1), j as int)));
                            return None;
                        },
                    };
                    j = j + 1;
                }
            },
            None => {
                assert forall|m: int| 0 <= m < 4 implies r.q@[m] == a.q@[m] + q_total(
                    #[trigger] ps.take(k + 1),
                    m,
                ) by {
                    assert(ps.take(k + 1).drop_last() =~= ps.take(k as int));
                }
            },
        }
        assert forall|m: int, jj: int|
            0 <= m <= k + 1 && 0 <= jj < 4 implies fits(a@.q[jj] + #[trigger] q_total(ps.take(m), jj)) by {
            if m == k + 1 {
                assert(r.q@[jj] == a.q@[jj] + q_total(ps.take(k + 1), jj));
            }
        }
        k = k + 1;
    }
    assert(ps.take(k as int) =~= ps);
    assert(r@.q =~= want.q);
    Some(r)
}

/// `a` with one more win, loss or tie; `None` when the count would
/// overflow.
fn add_result(a: TeamAgg, win: bool, loss: bool) -> (r: Option<TeamAgg>)
    ensures
        r is Some <==> fits(
            if win {
                a@.wins + 1
            } else if loss {
                a@.losses + 1
            } else {
                a@.ties + 1
            },
        ),
        r matches Some(x) ==> x@ == if win {
            with_win(a@)
        } else if loss {
            with_loss(a@)
        } else {
            with_tie(a@)
        },
{
    let mut r = a;
    if win {
        r.wins = match r.wins.checked_add(1) {
            Some(v) => v,
            None => return None,
        };
    } else if loss {
        r.losses = match r.losses.checked_add(1) {
            Some(v) => v,
            None => return None,
        };
    } else {
        r.ties = match r.ties.checked_add(1) {
            Some(v) => v,
            None => return None,
        };
    }
    assert(r@.q =~= a@.q);
    Some(r)
}

/// Adds game `g` to the totals of `n` teams; false (the totals left half
/// done) when a running total would overflow an `i32`.
fn add_game_checked(agg: &mut Vec<TeamAgg>, game: &Game, n: usize) -> (ok: bool)
    requires
        old(agg)@.len() == n,
    ensures
        ok <==> game_fits(agg_views(old(agg)@), game@, n as nat),
        ok ==> agg_views(final(agg)@) == agg_game(agg_views(old(agg)@), game@, n as nat),
        ok ==> final(agg)@.len() == n,
{
    let ghost aggs = agg_views(agg@);
    let ai = game.team_a.team_index;
    let bi = game.team_b.team_index;
    if game.forfeit || ai >= n || bi >= n {
        return true;
    }
    let a_pts = game.team_a.total_points;
    let b_pts = game.team_b.total_points;
    assert(agg@[ai as int]@ == aggs[ai as int]);
    let x = match add_side_checked(agg[ai], &game.team_a, b_pts, game.tossups_heard) {
        Some(x) => x,
        None => return false,
    };
    agg.set(ai, x);
    let ghost s1 = aggs.update(ai as int, x@);
    assert(agg_views(agg@) =~= s1);
    assert(agg@[bi as int]@ == s1[bi as int]);
    let y = match add_side_checked(agg[bi], &game.team_b, a_pts, game.tossups_heard) {
        Some(y) => y,
        None => return false,
    };
    agg.set(bi, y);
    let ghost s2 = after_sides(aggs, game@);
    assert(agg_views(agg@) =~= s2);
    let (i3, w3, l3) = if a_pts > b_pts {
        (ai, true, false)
    } else if b_pts > a_pts {
        (bi, true, false)
    } else {
        (ai, false, false)
    };
    let (i4, w4, l4) = if a_pts > b_pts {
        (bi, false, true)
    } else if b_pts > a_pts {
        (ai, false, true)
    } else {
        (bi, false, false)
    };
    let ghost s3 = result_first(s2, game@);
    let ghost s4 = result_second(s3, game@);
    let u = match add_result(agg[i3], w3, l3) {
        Some(u) => u,
        None => {
            assert(!fits(s3[i3 as int].wins) || !fits(s3[i3 as int].ties));
            return false;
        },
    };
    agg.set(i3, u);
    assert(agg_views(agg@) =~= s3);
    let v = match add_result(agg[i4], w4, l4) {
        Some(v) => v,
        None => {
            assert(!fits(s4[i4 as int].losses) || !fits(s4[i4 as int].ties));
            return false;
        },
    };
    agg.set(i4, v);
    assert(agg_views(agg@) =~= s4);
    assert forall|i: int| 0 <= i < n implies fits(#[trigger] s3[i].wins) && fits(s3[i].losses)
        && fits(s3[i].ties) && fits(s4[i].wins) && fits(s4[i].losses) && fits(s4[i].ties) by {
        if i != i4 {
            assert(s3[i] == s4[i]);
        } else {
            assert(s3[i] == u@ || i3 != i4);
        }
        assert(s4[i] == agg@[i]@);
    }
    true
}

/// The totals of `aggregate_teams`, or `None` when a running total would
/// overflow an `i32`.
pub fn aggregate_teams_checked(t: &Tournament) -> (r: Option<Vec<TeamAgg>>)
    ensures
        r is Some <==> totals_fit(t@),
        r matches Some(v) ==> agg_views(v@) == team_totals(t@),
{
    let n = t.teams.len();
    let mut agg: Vec<TeamAgg> = Vec::new();
    let mut i: usize = 0;
    while i < n
        invariant
            i <= n,
            n == t@.teams.len(),
            agg_views(agg@) == agg_init(n as nat).take(i as int),
        decreases n - i,
    {
        let a = TeamAgg {
            team_index: i,
            wins: 0,
            losses: 0,
            ties: 0,
            pf: 0,
            pa: 0,
            games: 0,
            q: [0, 0, 0, 0],
            tuh: 0,
            bh: 0,
            bp: 0,
            bbh: 0,
            bbp: 0,
        };
        let ghost before = agg@;
        agg.push(a);
        assert(a@.q =~= seq![0int, 0int, 0int, 0int]);
        assert(a@ == agg_init(n as nat)[i as int]);
        assert(agg_views(agg@) =~= agg_views(before).push(a@));
        assert(agg_init(n as nat).take(i + 1) =~= agg_init(n as nat).take(i as int).push(
            agg_init(n as nat)[i as int],
        ));
        i = i + 1;
    }
    assert(agg_init(n as nat).take(n as int) =~= agg_init(n as nat));
    let mut k: usize = 0;
    while k < t.games.len()
        invariant
            k <= t@.games.len(),
            n == t@.teams.len(),
            agg_views(agg@) == agg_upto(t@, k as int),
            agg@.len() == n,
            forall|m: int|
                0 <= m < k ==> game_fits(agg_upto(t@, m), #[trigger] t@.games[m], n as nat),
        decreases t@.games.len() - k,
    {
        let game = &t.games[k];
        assert(game@ == t@.games[k as int]);
        if !add_game_checked(&mut agg, game, n) {
            assert(!game_fits(agg_upto(t@, k as int), t@.games[k as int], n as nat));
            return None;
        }
        k = k + 1;
    }
    Some(agg)
}

/// Each team's wins, losses, ties, points for and against, games, tossup
/// counts by category, tossups heard and bonus totals, over the games that
/// are not forfeits and name valid teams.
pub fn aggregate_teams(t: &Tournament) -> (r: Vec<TeamAgg>)
    requires
        totals_fit(t@),
    ensures
        agg_views(r@) == team_totals(t@),
{
    match aggregate_teams_checked(t) {
        Some(v) => v,
        None => {
            assert(false);
            Vec::new()
        },
    }
}

// ── What the team totals keep ──────────────────────────────────────────────

/// The sum of `f` over `s`.
pub open spec fn total(s: Seq<AggView>, f: spec_fn(AggView) -> int) -> int
    decreases s.len(),
{
    if s.len() == 0 {
        0
    } else {
        total(s.drop_last(), f) + f(s.last())
    }
}

pub open spec fn wins_of() -> spec_fn(AggView) -> int {
    |a: AggView| a.wins
}

pub open spec fn losses_of() -> spec_fn(AggView) -> int {
    |a: AggView| a.losses
}

pub open spec fn pf_of() -> spec_fn(AggView) -> int {
    |a: AggView| a.pf
}

pub open spec fn pa_of() -> spec_fn(AggView) -> int {
    |a: AggView| a.pa
}

proof fn lemma_total_update(s: Seq<AggView>, i: int, x: AggView, f: spec_fn(AggView) -> int)
    requires
        0 <= i < s.len(),
    ensures
        total(s.update(i, x), f) == total(s, f) - f(s[i]) + f(x),
    decreases s.len(),
{
    if i == s.len() - 1 {
        assert(s.update(i, x).drop_last() =~= s.drop_last());
    } else {
        assert(s.update(i, x).drop_last() =~= s.drop_last().update(i, x));
        lemma_total_update(s.drop_last(), i, x, f);
    }
}

proof fn lemma_total_init(n: nat, f: spec_fn(AggView) -> int)
    requires
        forall|i: int| 0 <= i < n ==> f(#[trigger] agg_init(n)[i]) == 0,
    ensures
        total(agg_init(n), f) == 0,
    decreases n,
{
    if n > 0 {
        assert(agg_init(n).drop_last() =~= agg_init((n - 1) as nat));
        assert forall|i: int| 0 <= i < n - 1 implies f(#[trigger] agg_init((n - 1) as nat)[i]) == 0 by {
            assert(agg_init((n - 1) as nat)[i] == agg_init(n)[i]);
        }
        lemma_total_init((n - 1) as nat, f);
    }
}

/// Each team's totals list one entry per team, the team's own index.
proof fn lemma_agg_len(t: TournamentView, k: int)
    ensures
        agg_upto(t, k).len() == t.teams.len(),
    decreases k,
{
    if k > 0 {
        lemma_agg_len(t, k - 1);
    }
}

/// Every game a team played was a win, a loss or a tie: for each team,
/// games equal wins plus losses plus ties.
pub proof fn lemma_games_are_results(t: TournamentView, k: int)
    requires
        0 <= k <= t.games.len(),
    ensures
        forall|i: int|
            0 <= i < t.teams.len() ==> #[trigger] agg_upto(t, k)[i].games == agg_upto(t, k)[i].wins
                + agg_upto(t, k)[i].losses + agg_upto(t, k)[i].ties,
    decreases k,
{
    lemma_agg_len(t, k);
    if k > 0 {
        lemma_games_are_results(t, k - 1);
        lemma_agg_len(t, k - 1);
    }
}

/// Over all teams, wins equal losses and points for equal points against.
pub proof fn lemma_totals_balance(t: TournamentView, k: int)
    requires
        0 <= k <= t.games.len(),
    ensures
        total(agg_upto(t, k), wins_of()) == total(agg_upto(t, k), losses_of()),
        total(agg_upto(t, k), pf_of()) == total(agg_upto(t, k), pa_of()),
    decreases k,
{
    let n = t.teams.len();
    if k == 0 {
        lemma_total_init(n, wins_of());
        lemma_total_init(n, losses_of());
        lemma_total_init(n, pf_of());
        lemma_total_init(n, pa_of());
    } else {
        lemma_totals_balance(t, k - 1);
        lemma_agg_len(t, k - 1);
        let aggs = agg_upto(t, k - 1);
        let g = t.games[k - 1];
        if counted(g, n) {
            let ai = g.team_a.team_index as int;
            let bi = g.team_b.team_index as int;
            let x = side_added(aggs[ai], g.team_a, g.team_b.total_points, g.tossups_heard);
            let s1 = aggs.update(ai, x);
            let y = side_added(s1[bi], g.team_b, g.team_a.total_points, g.tossups_heard);
            let s2 = s1.update(bi, y);
            assert(s2 == after_sides(aggs, g));
            let s3 = result_first(s2, g);
            let s4 = result_second(s3, g);
            lemma_total_update(aggs, ai, x, wins_of());
            lemma_total_update(aggs, ai, x, losses_of());
            lemma_total_update(aggs, ai, x, pf_of());
            lemma_total_update(aggs, ai, x, pa_of());
            lemma_total_update(s1, bi, y, wins_of());
            lemma_total_update(s1, bi, y, losses_of());
            lemma_total_update(s1, bi, y, pf_of());
            lemma_total_update(s1, bi, y, pa_of());
            let a = g.team_a.total_points;
            let b = g.team_b.total_points;
            let (i3, i4) = if a > b {
                (ai, bi)
            } else if b > a {
                (bi, ai)
            } else {
                (ai, bi)
            };
            lemma_total_update(s2, i3, s3[i3], wins_of());
            lemma_total_update(s2, i3, s3[i3], losses_of());
            lemma_total_update(s2, i3, s3[i3], pf_of());
            lemma_total_update(s2, i3, s3[i3], pa_of());
            assert(s3 == s2.update(i3, s3[i3]));
            lemma_total_update(s3, i4, s4[i4], wins_of());
            lemma_total_update(s3, i4, s4[i4], losses_of());
            lemma_total_update(s3, i4, s4[i4], pf_of());
            lemma_total_update(s3, i4, s4[i4], pa_of());
            assert(s4 == s3.update(i4, s4[i4]));
        }
    }
}

// ── Rounds ─────────────────────────────────────────────────────────────────

/// Whether some game of `gs` (some game that is not a forfeit, when
/// `counted_only`) was played in round `r`.
pub open spec fn has_round(gs: Seq<GameView>, r: u32, counted_only: bool) -> bool {
    exists|i: int| 0 <= i < gs.len() && #[trigger] gs[i].round == r && (!counted_only || !gs[i].forfeit)
}

/// The rounds in which games were played, each once, in increasing order.
pub fn rounds_played(t: &Tournament) -> (v: Vec<u32>)
    ensures
        forall|i: int, j: int| 0 <= i < j < v@.len() ==> v@[i] < v@[j],
        forall|r: u32| v@.contains(r) <==> has_round(t@.games, r, false),
{
    distinct_rounds(&t.games, false)
}

/// The rounds of `games` (leaving out forfeits when `counted_only`), each
/// once, in increasing order.
fn distinct_rounds(games: &Vec<Game>, counted_only: bool) -> (v: Vec<u32>)
    ensures
        forall|i: int, j: int| 0 <= i < j < v@.len() ==> v@[i] < v@[j],
        forall|r: u32| v@.contains(r) <==> has_round(game_views(games@), r, counted_only),
{
    let ghost gs = game_views(games@);
    let mut v: Vec<u32> = Vec::new();
    let mut k: usize = 0;
    while k < games.len()
        invariant
            k <= games@.len(),
            gs == game_views(games@),
            forall|i: int, j: int| 0 <= i < j < v@.len() ==> v@[i] < v@[j],
            forall|r: u32| v@.contains(r) <==> has_round(gs.take(k as int), r, counted_only),
        decreases games@.len() - k,
    {
        assert(gs[k as int] == games@[k as int]@);
        assert(gs.take(k + 1) =~= gs.take(k as int).push(gs[k as int]));
        if counted_only && games[k].forfeit {
            assert forall|x: u32| v@.contains(x) <==> has_round(gs.take(k + 1), x, counted_only) by {
                if has_round(gs.take(k + 1), x, counted_only) {
                    let i = choose|i: int| 0 <= i < k + 1 && #[trigger] gs.take(k + 1)[i].round == x
                        && (!counted_only || !gs.take(k + 1)[i].forfeit);
                    assert(gs.take(k as int)[i].round == x);
                }
                if has_round(gs.take(k as int), x, counted_only) {
                    let i = choose|i: int| 0 <= i < k && #[trigger] gs.take(k as int)[i].round == x
                        && (!counted_only || !gs.take(k as int)[i].forfeit);
                    assert(gs.take(k + 1)[i].round == x);
                }
            }
            k = k + 1;
            continue;
        }
        let r = games[k].round;
        let mut p: usize = 0;
        while p < v.len() && v[p] < r
            invariant
                p <= v@.len(),
                forall|i: int| 0 <= i < p ==> v@[i] < r,
            decreases v@.len() - p,
        {
            p = p + 1;
        }
        let ghost v0 = v@;
        if !(p < v.len() && v[p] == r) {
            v.insert(p, r);
            assert forall|i: int, j: int| 0 <= i < j < v@.len() implies v@[i] < v@[j] by {
                if j < p {
                    assert(v@[i] == v0[i] && v@[j] == v0[j]);
                } else if j == p {
                    assert(v@[i] == v0[i]);
                } else if i < p {
                    assert(v@[i] == v0[i] && v@[j] == v0[j - 1]);
                    assert(v0[j - 1] >= r);
                } else if i == p {
                    assert(v@[j] == v0[j - 1]);
                    assert(v0[p as int] > r);
                    if j - 1 > p {
                        assert(v0[p as int] < v0[j - 1]);
                    }
                } else {
                    assert(v@[i] == v0[i - 1] && v@[j] == v0[j - 1]);
                }
            }
        }
        assert forall|x: u32| v@.contains(x) <==> has_round(gs.take(k + 1), x, counted_only) by {
            if has_round(gs.take(k + 1), x, counted_only) {
                let i = choose|i: int| 0 <= i < k + 1 && #[trigger] gs.take(k + 1)[i].round == x
                    && (!counted_only || !gs.take(k + 1)[i].forfeit);
                if i < k {
                    assert(gs.take(k as int)[i].round == x);
                    assert(v0.contains(x));
                    let j = choose|j: int| 0 <= j < v0.len() && v0[j] == x;
                    if v@.len() != v0.len() {
                        if j < p {
                            assert(v@[j] == x);
                        } else {
                            assert(v@[j + 1] == x);
                        }
                    }
                } else {
                    if v@.len() != v0.len() {
                        assert(v@[p as int] == x);
                    } else {
                        assert(v@[p as int] == x);
                    }
                }
            }
            if v@.contains(x) {
                let j = choose|j: int| 0 <= j < v@.len() && v@[j] == x;
                if x == r {
                    assert(gs.take(k + 1)[k as int].round == x);
                } else {
                    if v@.len() != v0.len() {
                        if j < p {
                            assert(v0[j] == x);
                        } else {
                            assert(v0[j - 1] == x);
                        }
                    } else {
                        assert(v0[j] == x);
                    }
                    assert(v0.contains(x));
                    let i = choose|i: int| 0 <= i < k && #[trigger] gs.take(k as int)[i].round == x
                        && (!counted_only || !gs.take(k as int)[i].forfeit);
                    assert(gs.take(k + 1)[i].round == x);
                }
            }
        }
        k = k + 1;
    }
    assert(gs.take(k as int) =~= gs);
    v
}

// ── Round totals ───────────────────────────────────────────────────────────

/// The totals of one round over its games that are not forfeits.
#[derive(Clone, Copy)]
pub struct RoundTotals {
    pub round: u32,
    pub games: usize,
    /// Both teams' points, summed over the games.
    pub points: i64,
    pub tuh: i64,
    /// Points of the players' records.
    pub player_points: i64,
    pub bh: i64,
    pub bp: i64,
    pub bbh: i64,
    pub bbp: i64,
}

/// Running totals of a round, and whether every one so far fits its type.
pub struct RoundSums {
    pub games: int,
    pub points: int,
    pub tuh: int,
    pub player_points: int,
    pub bh: int,
    pub bp: int,
    pub bbh: int,
    pub bbp: int,
    pub ok: bool,
}

pub open spec fn fits64(x: int) -> bool {
    i64::MIN <= x <= i64::MAX
}

/// `base` plus the points of the records in `ps`, and whether every
/// running sum fits an `i64`.
pub open spec fn points_sum(base: int, ps: Seq<Option<PlayerScoreView>>) -> (int, bool)
    decreases ps.len(),
{
    if ps.len() == 0 {
        (base, true)
    } else {
        let (x, ok) = points_sum(base, ps.drop_last());
        let y = x + match ps.last() {
            Some(p) => p.points as int,
            None => 0,
        };
        (y, ok && fits64(y))
    }
}

/// The round's totals after one side of a game.
pub open spec fn side_sums(s: RoundSums, ts: TeamScoreView) -> RoundSums {
    let (pp, pp_ok) = points_sum(s.player_points, ts.player_scores);
    let bh = s.bh + ts.bonus_heard;
    let bp = s.bp + ts.bonus_points;
    let bbh = s.bbh + ts.bb_heard;
    let bbp = s.bbp + ts.bb_points;
    RoundSums {
        player_points: pp,
        bh,
        bp,
        bbh,
        bbp,
        ok: s.ok && pp_ok && fits64(bh) && fits64(bp) && fits64(bbh) && fits64(bbp),
        ..s
    }
}

/// The round's totals after game `g`; the two teams' points are first
/// added as `i32`s.
pub open spec fn game_sums(s: RoundSums, g: GameView) -> RoundSums {
    let ab = g.team_a.total_points + g.team_b.total_points;
    let s1 = RoundSums {
        games: s.games + 1,
        points: s.points + ab,
        tuh: s.tuh + g.tossups_heard,
        ok: s.ok && fits(ab) && fits64(s.points + ab) && fits64(s.tuh + g.tossups_heard),
        ..s
    };
    side_sums(side_sums(s1, g.team_a), g.team_b)
}

pub open spec fn no_sums() -> RoundSums {
    RoundSums {
        games: 0,
        points: 0,
        tuh: 0,
        player_points: 0,
        bh: 0,
        bp: 0,
        bbh: 0,
        bbp: 0,
        ok: true,
    }
}

/// The totals of round `r` over the first `k` games of `gs`.
pub open spec fn round_sums(gs: Seq<GameView>, r: u32, k: int) -> RoundSums
    decreases k,
{
    if k <= 0 {
        no_sums()
    } else {
        let s = round_sums(gs, r, k - 1);
        if gs[k - 1].round == r && !gs[k - 1].forfeit {
            game_sums(s, gs[k - 1])
        } else {
            s
        }
    }
}

pub open spec fn totals_match(x: RoundTotals, s: RoundSums) -> bool {
    &&& x.games == s.games
    &&& x.points == s.points
    &&& x.tuh == s.tuh
    &&& x.player_points == s.player_points
    &&& x.bh == s.bh
    &&& x.bp == s.bp
    &&& x.bbh == s.bbh
    &&& x.bbp == s.bbp
}

proof fn lemma_points_sum_fails(base: int, ps: Seq<Option<PlayerScoreView>>, m: int)
    requires
        0 <= m <= ps.len(),
        !points_sum(base, ps.take(m)).1,
    ensures
        !points_sum(base, ps).1,
    decreases ps.len() - m,
{
    if m < ps.len() {
        assert(ps.take(m + 1).drop_last() =~= ps.take(m));
        lemma_points_sum_fails(base, ps, m + 1);
    } else {
        assert(ps.take(m) =~= ps);
    }
}

proof fn lemma_round_sums_fail(gs: Seq<GameView>, r: u32, k: int, n: int)
    requires
        0 <= k <= n,
        !round_sums(gs, r, k).ok,
    ensures
        !round_sums(gs, r, n).ok,
    decreases n - k,
{
    if k < n {
        lemma_round_sums_fail(gs, r, k + 1, n);
    }
}

/// Adds one side of a game to the running totals; false when a total
/// would overflow.
fn add_side_sums(x: &mut RoundTotals, ts: &TeamScore, Ghost(s): Ghost<RoundSums>) -> (ok: bool)
    requires
        s.ok,
        totals_match(*old(x), s),
    ensures
        ok == side_sums(s, ts@).ok,
        ok ==> totals_match(*final(x), side_sums(s, ts@)),
        final(x).round == old(x).round,
{
    let ghost ps = ts@.player_scores;
    let ghost base = s.player_points;
    let mut k: usize = 0;
    assert(ps.take(0) =~= Seq::<Option<PlayerScoreView>>::empty());
    while k < ts.player_scores.len()
        invariant
            k <= ps.len(),
            ps == ts@.player_scores,
            base == s.player_points,
            x.player_points == points_sum(base, ps.take(k as int)).0,
            points_sum(base, ps.take(k as int)).1,
            x.round == old(x).round,
            x.games == s.games && x.points == s.points && x.tuh == s.tuh,
            x.bh == s.bh && x.bp == s.bp && x.bbh == s.bbh && x.bbp == s.bbp,
        decreases ps.len() - k,
    {
        assert(ps.take(k + 1).drop_last() =~= ps.take(k as int));
        assert(ps.take(k + 1).last() == ps[k as int]);
        match &ts.player_scores[k] {
            Some(p) => {
                x.player_points = match x.player_points.checked_add(p.points as i64) {
                    Some(v) => v,
                    None => {
                        proof {
                            lemma_points_sum_fails(base, ps, k + 1);
                        }
                        return false;
                    },
                };
            },
            None => {},
        }
        k = k + 1;
    }
    assert(ps.take(k as int) =~= ps);
    x.bh = match x.bh.checked_add(ts.bonus_heard as i64) {
        Some(v) => v,
        None => return false,
    };
    x.bp = match x.bp.checked_add(ts.bonus_points as i64) {
        Some(v) => v,
        None => return false,
    };
    x.bbh = match x.bbh.checked_add(ts.bb_heard as i64) {
        Some(v) => v,
        None => return false,
    };
    x.bbp = match x.bbp.checked_add(ts.bb_points as i64) {
        Some(v) => v,
        None => return false,
    };
    true
}

/// The totals of round `r` over its games that are not forfeits; `None`
/// when a running total would overflow.
fn round_sums_of(t: &Tournament, r: u32) -> (res: Option<RoundTotals>)
    ensures
        res is Some <==> round_sums(t@.games, r, t@.games.len() as int).ok,
        res matches Some(x) ==> x.round == r && totals_match(
            x,
            round_sums(t@.games, r, t@.games.len() as int),
        ),
{
    let ghost gs = t@.games;
    let mut x = RoundTotals {
        round: r,
        games: 0,
        points: 0,
        tuh: 0,
        player_points: 0,
        bh: 0,
        bp: 0,
        bbh: 0,
        bbp: 0,
    };
    let mut k: usize = 0;
    while k < t.games.len()
        invariant
            k <= gs.len(),
            gs == t@.games,
            x.round == r,
            x.games <= k,
            round_sums(gs, r, k as int).ok,
            totals_match(x, round_sums(gs, r, k as int)),
        decreases gs.len() - k,
    {
        let g = &t.games[k];
        assert(g@ == gs[k as int]);
        let ghost s = round_sums(gs, r, k as int);
        if g.round == r && !g.forfeit {
            let ab = match g.team_a.total_points.checked_add(g.team_b.total_points) {
                Some(v) => v,
                None => {
                    proof {
                        lemma_round_sums_fail(gs, r, k + 1, gs.len() as int);
                    }
                    return None;
                },
            };
            let pts = x.points.checked_add(ab as i64);
            let tuh = x.tuh.checked_add(g.tossups_heard as i64);
            if pts.is_none() || tuh.is_none() {
                proof {
                    lemma_round_sums_fail(gs, r, k + 1, gs.len() as int);
                }
                return None;
            }
            x.points = pts.unwrap();
            x.tuh = tuh.unwrap();
            x.games = x.games + 1;
            let ghost s1 = RoundSums {
                games: s.games + 1,
                points: s.points + ab,
                tuh: s.tuh + g.tossups_heard,
                ..s
            };
            if !add_side_sums(&mut x, &g.team_a, Ghost(s1)) {
                proof {
                    lemma_round_sums_fail(gs, r, k + 1, gs.len() as int);
                }
                return None;
            }
            if !add_side_sums(&mut x, &g.team_b, Ghost(side_sums(s1, g@.team_a))) {
                proof {
                    lemma_round_sums_fail(gs, r, k + 1, gs.len() as int);
                }
                return None;
            }
        }
        k = k + 1;
    }
    Some(x)
}

/// Whether `v` has a row for exactly the rounds with games other than
/// forfeits.
pub open spec fn lists_rounds(v: Seq<RoundTotals>, gs: Seq<GameView>) -> bool {
    forall|r: u32|
        (exists|i: int| 0 <= i < v.len() && #[trigger] v[i].round == r) <==> has_round(gs, r, true)
}

/// The totals of every round that has games other than forfeits, in
/// increasing round order; `None` when a running total would overflow.
pub fn round_totals_checked(t: &Tournament) -> (res: Option<Vec<RoundTotals>>)
    ensures
        res is Some <==> forall|r: u32|
            has_round(t@.games, r, true) ==> #[trigger] round_sums(t@.games, r, t@.games.len() as int).ok,
        res matches Some(v) ==> forall|i: int, j: int|
            0 <= i < j < v@.len() ==> v@[i].round < v@[j].round,
        res matches Some(v) ==> lists_rounds(v@, t@.games),
        res matches Some(v) ==> forall|i: int|
            0 <= i < v@.len() ==> totals_match(
                #[trigger] v@[i],
                round_sums(t@.games, v@[i].round, t@.games.len() as int),
            ),
{
    let rounds = distinct_rounds(&t.games, true);
    assert(game_views(t.games@) == t@.games);
    let mut out: Vec<RoundTotals> = Vec::new();
    let mut i: usize = 0;
    while i < rounds.len()
        invariant
            i <= rounds@.len(),
            out@.len() == i,
            forall|a: int, b: int| 0 <= a < b < rounds@.len() ==> rounds@[a] < rounds@[b],
            forall|r: u32| rounds@.contains(r) <==> has_round(t@.games, r, true),
            forall|a: int| 0 <= a < i ==> #[trigger] out@[a].round == rounds@[a],
            forall|a: int|
                0 <= a < i ==> totals_match(
                    #[trigger] out@[a],
                    round_sums(t@.games, out@[a].round, t@.games.len() as int),
                ),
            forall|a: int|
                0 <= a < i ==> #[trigger] round_sums(t@.games, rounds@[a], t@.games.len() as int).ok,
        decreases rounds@.len() - i,
    {
        let r = rounds[i];
        match round_sums_of(t, r) {
            Some(x) => out.push(x),
            None => {
                assert(rounds@.contains(r));
                return None;
            },
        }
        i = i + 1;
    }
    assert forall|a: int, b: int| 0 <= a < b < out@.len() implies out@[a].round < out@[b].round by {
        assert(out@[a].round == rounds@[a]);
        assert(out@[b].round == rounds@[b]);
    }
    assert forall|r: u32| has_round(t@.games, r, true) implies #[trigger] round_sums(
        t@.games,
        r,
        t@.games.len() as int,
    ).ok by {
        assert(rounds@.contains(r));
        let a = choose|a: int| 0 <= a < rounds@.len() && rounds@[a] == r;
        assert(round_sums(t@.games, rounds@[a], t@.games.len() as int).ok);
    }
    assert forall|r: u32|
        (exists|a: int| 0 <= a < out@.len() && #[trigger] out@[a].round == r) <==> has_round(
            t@.games,
            r,
            true,
        ) by {
        if has_round(t@.games, r, true) {
            assert(rounds@.contains(r));
            let a = choose|a: int| 0 <= a < rounds@.len() && rounds@[a] == r;
            assert(out@[a].round == r);
        }
        if exists|a: int| 0 <= a < out@.len() && #[trigger] out@[a].round == r {
            let a = choose|a: int| 0 <= a < out@.len() && #[trigger] out@[a].round == r;
            assert(rounds@[a] == r);
            assert(rounds@.contains(r));
        }
    }
    assert(lists_rounds(out@, t@.games));
    Some(out)
}

// ── Players' records ───────────────────────────────────────────────────────

/// Where a player's record of a counted game stands: the game, the side
/// (team B or A) and the slot.
#[derive(Debug, Clone, Copy)]
pub struct PlayerRecord {
    pub team_index: usize,
    pub player_index: usize,
    pub game: usize,
    pub side_b: bool,
    pub slot: usize,
}

/// The records of one player of one team, in game order.
#[derive(Debug)]
pub struct PlayerGroup {
    pub team_index: usize,
    pub player_index: usize,
    pub records: Vec<PlayerRecord>,
}

/// The records of the first `m` slots of one side of game `gi`.
pub open spec fn slot_records(gi: int, side_b: bool, ts: TeamScoreView, m: int) -> Seq<PlayerRecord>
    decreases m,
{
    if m <= 0 {
        Seq::empty()
    } else {
        slot_records(gi, side_b, ts, m - 1) + match ts.player_scores[m - 1] {
            Some(p) => seq![
                PlayerRecord {
                    team_index: ts.team_index,
                    player_index: p.player_index,
                    game: gi as usize,
                    side_b,
                    slot: (m - 1) as usize,
                },
            ],
            None => Seq::empty(),
        }
    }
}

/// The player records of the first `k` games of `gs` that count among `n`
/// teams: team A's slots, then team B's, game after game.
pub open spec fn game_records(gs: Seq<GameView>, n: nat, k: int) -> Seq<PlayerRecord>
    decreases k,
{
    if k <= 0 {
        Seq::empty()
    } else {
        game_records(gs, n, k - 1) + if counted(gs[k - 1], n) {
            slot_records(k - 1, false, gs[k - 1].team_a, gs[k - 1].team_a.player_scores.len() as int)
                + slot_records(
                k - 1,
                true,
                gs[k - 1].team_b,
                gs[k - 1].team_b.player_scores.len() as int,
            )
        } else {
            Seq::empty()
        }
    }
}

/// The records of `rs` for player `pi` of team `ti`, in order.
pub open spec fn with_key(rs: Seq<PlayerRecord>, ti: usize, pi: usize) -> Seq<PlayerRecord>
    decreases rs.len(),
{
    if rs.len() == 0 {
        Seq::empty()
    } else if rs.last().team_index == ti && rs.last().player_index == pi {
        with_key(rs.drop_last(), ti, pi).push(rs.last())
    } else {
        with_key(rs.drop_last(), ti, pi)
    }
}

/// Team, then player order.
pub open spec fn key_lt(t1: usize, p1: usize, t2: usize, p2: usize) -> bool {
    t1 < t2 || (t1 == t2 && p1 < p2)
}

fn push_side_records(out: &mut Vec<PlayerRecord>, gi: usize, side_b: bool, ts: &TeamScore)
    ensures
        final(out)@ == old(out)@ + slot_records(gi as int, side_b, ts@, ts@.player_scores.len() as int),
{
    let ghost o0 = out@;
    let mut m: usize = 0;
    assert(o0 + slot_records(gi as int, side_b, ts@, 0) =~= o0);
    while m < ts.player_scores.len()
        invariant
            m <= ts@.player_scores.len(),
            out@ == o0 + slot_records(gi as int, side_b, ts@, m as int),
        decreases ts@.player_scores.len() - m,
    {
        match &ts.player_scores[m] {
            Some(p) => {
                out.push(
                    PlayerRecord {
                        team_index: ts.team_index,
                        player_index: p.player_index,
                        game: gi,
                        side_b,
                        slot: m,
                    },
                );
            },
            None => {},
        }
        m = m + 1;
        assert(out@ =~= o0 + slot_records(gi as int, side_b, ts@, m as int));
    }
}

/// The player records of the games that count, in game order.
pub fn player_records(t: &Tournament) -> (v: Vec<PlayerRecord>)
    ensures
        v@ == game_records(t@.games, t@.teams.len(), t@.games.len() as int),
{
    let n = t.teams.len();
    let mut out: Vec<PlayerRecord> = Vec::new();
    let mut k: usize = 0;
    while k < t.games.len()
        invariant
            k <= t@.games.len(),
            n == t@.teams.len(),
            out@ == game_records(t@.games, n as nat, k as int),
        decreases t@.games.len() - k,
    {
        let g = &t.games[k];
        assert(g@ == t@.games[k as int]);
        let ghost o0 = out@;
        if !g.forfeit && g.team_a.team_index < n && g.team_b.team_index < n {
            push_side_records(&mut out, k, false, &g.team_a);
            push_side_records(&mut out, k, true, &g.team_b);
            assert(out@ =~= game_records(t@.games, n as nat, k + 1));
        } else {
            assert(out@ =~= game_records(t@.games, n as nat, k + 1));
        }
        k = k + 1;
    }
    out
}

pub open spec fn group_records(g: PlayerGroup) -> Seq<PlayerRecord> {
    g.records@
}

/// Whether `gs` holds one group per player that has records in `rs`, in
/// team-then-player order, each with that player's records in order.
pub open spec fn groups_of(gs: Seq<PlayerGroup>, rs: Seq<PlayerRecord>) -> bool {
    &&& forall|i: int, j: int|
        0 <= i < j < gs.len() ==> key_lt(
            gs[i].team_index,
            gs[i].player_index,
            gs[j].team_index,
            gs[j].player_index,
        )
    &&& forall|i: int|
        0 <= i < gs.len() ==> #[trigger] group_records(gs[i]) == with_key(
            rs,
            gs[i].team_index,
            gs[i].player_index,
        ) && group_records(gs[i]).len() > 0
    &&& forall|k: int|
        #![trigger rs[k]]
        0 <= k < rs.len() ==> has_group(gs, rs[k].team_index, rs[k].player_index)
}

/// Whether some group of `gs` belongs to player `pi` of team `ti`.
pub open spec fn has_group(gs: Seq<PlayerGroup>, ti: usize, pi: usize) -> bool {
    exists|i: int| 0 <= i < gs.len() && #[trigger] gs[i].team_index == ti && gs[i].player_index == pi
}

/// The records of each player, grouped in team-then-player order.
pub fn group_players(t: &Tournament) -> (v: Vec<PlayerGroup>)
    ensures
        groups_of(v@, game_records(t@.games, t@.teams.len(), t@.games.len() as int)),
{
    let recs = player_records(t);
    let ghost rs = recs@;
    let mut groups: Vec<PlayerGroup> = Vec::new();
    let mut i: usize = 0;
    while i < recs.len()
        invariant
            i <= rs.len(),
            rs == recs@,
            groups_of(groups@, rs.take(i as int)),
        decreases rs.len() - i,
    {
        let r = recs[i];
        let ghost pre = rs.take(i as int);
        let ghost post = rs.take(i + 1);
        assert(post.drop_last() =~= pre);
        assert(post.last() == r);
        let mut p: usize = 0;
        while p < groups.len() && key_less(
            groups[p].team_index,
            groups[p].player_index,
            r.team_index,
            r.player_index,
        )
            invariant
                p <= groups@.len(),
                forall|j: int|
                    0 <= j < p ==> key_lt(
                        groups@[j].team_index,
                        groups@[j].player_index,
                        r.team_index,
                        r.player_index,
                    ),
            decreases groups@.len() - p,
        {
            p = p + 1;
        }
        let ghost g0 = groups@;
        if p < groups.len() && groups[p].team_index == r.team_index && groups[p].player_index
            == r.player_index {
            let mut g = groups.remove(p);
            let ghost old_recs = g.records@;
            g.records.push(r);
            groups.insert(p, g);
            assert(groups_of(groups@, post)) by {
                assert forall|j: int| 0 <= j < groups@.len() implies #[trigger] group_records(
                    groups@[j],
                ) == with_key(post, groups@[j].team_index, groups@[j].player_index)
                    && group_records(groups@[j]).len() > 0 by {
                    if j != p {
                        assert(groups@[j] == g0[j]);
                        assert(group_records(g0[j]) == with_key(pre, g0[j].team_index, g0[j].player_index));
                    } else {
                        assert(group_records(g0[p as int]) == with_key(
                            pre,
                            g0[p as int].team_index,
                            g0[p as int].player_index,
                        ));
                        assert(old_recs == with_key(pre, r.team_index, r.player_index));
                        assert(with_key(post, r.team_index, r.player_index) == with_key(
                            pre,
                            r.team_index,
                            r.player_index,
                        ).push(r));
                    }
                }
                assert forall|k: int| 0 <= k < post.len() implies has_group(
                    groups@,
                    post[k].team_index,
                    post[k].player_index,
                ) by {
                    if k < pre.len() {
                        assert(post[k] == pre[k]);
                        assert(has_group(g0, pre[k].team_index, pre[k].player_index));
                        let j = choose|j: int|
                            0 <= j < g0.len() && #[trigger] g0[j].team_index == pre[k].team_index
                                && g0[j].player_index == pre[k].player_index;
                        assert(groups@[j].team_index == g0[j].team_index);
                        assert(groups@[j].player_index == g0[j].player_index);
                    } else {
                        assert(groups@[p as int].team_index == r.team_index);
                    }
                }
                assert forall|a: int, b: int| 0 <= a < b < groups@.len() implies key_lt(
                    groups@[a].team_index,
                    groups@[a].player_index,
                    groups@[b].team_index,
                    groups@[b].player_index,
                ) by {
                    assert(groups@[a].team_index == g0[a].team_index && groups@[a].player_index
                        == g0[a].player_index);
                    assert(groups@[b].team_index == g0[b].team_index && groups@[b].player_index
                        == g0[b].player_index);
                }
            }
        } else {
            let mut nr: Vec<PlayerRecord> = Vec::new();
            nr.push(r);
            let g = PlayerGroup { team_index: r.team_index, player_index: r.player_index, records: nr };
            groups.insert(p, g);
            assert(groups_of(groups@, post)) by {
                assert forall|j: int| 0 <= j < groups@.len() implies #[trigger] group_records(
                    groups@[j],
                ) == with_key(post, groups@[j].team_index, groups@[j].player_index)
                    && group_records(groups@[j]).len() > 0 by {
                    if j < p {
                        assert(groups@[j] == g0[j]);
                        assert(group_records(g0[j]) == with_key(pre, g0[j].team_index, g0[j].player_index));
                    } else if j > p {
                        assert(groups@[j] == g0[j - 1]);
                        assert(group_records(g0[j - 1]) == with_key(
                            pre,
                            g0[j - 1].team_index,
                            g0[j - 1].player_index,
                        ));
                    } else {
                        assert(!has_group(g0, r.team_index, r.player_index)) by {
                            if has_group(g0, r.team_index, r.player_index) {
                                let q = choose|q: int|
                                    0 <= q < g0.len() && #[trigger] g0[q].team_index == r.team_index
                                        && g0[q].player_index == r.player_index;
                                if q < p {
                                    assert(key_lt(g0[q].team_index, g0[q].player_index, r.team_index, r.player_index));
                                } else if q > p {
                                    assert(key_lt(g0[p as int].team_index, g0[p as int].player_index, g0[q].team_index, g0[q].player_index));
                                    assert(!key_lt(g0[p as int].team_index, g0[p as int].player_index, r.team_index, r.player_index));
                                }
                            }
                        }
                        lemma_with_key_absent(pre, r.team_index, r.player_index, g0);
                        assert(group_records(groups@[j]) =~= seq![r]);
                    }
                }
                assert forall|k: int| 0 <= k < post.len() implies has_group(
                    groups@,
                    post[k].team_index,
                    post[k].player_index,
                ) by {
                    if k < pre.len() {
                        assert(post[k] == pre[k]);
                        assert(has_group(g0, pre[k].team_index, pre[k].player_index));
                        let j = choose|j: int|
                            0 <= j < g0.len() && #[trigger] g0[j].team_index == pre[k].team_index
                                && g0[j].player_index == pre[k].player_index;
                        if j < p {
                            assert(groups@[j] == g0[j]);
                        } else {
                            assert(groups@[j + 1] == g0[j]);
                        }
                    } else {
                        assert(groups@[p as int].team_index == r.team_index);
                    }
                }
                assert forall|a: int, b: int| 0 <= a < b < groups@.len() implies key_lt(
                    groups@[a].team_index,
                    groups@[a].player_index,
                    groups@[b].team_index,
                    groups@[b].player_index,
                ) by {
                    if b < p {
                        assert(groups@[a] == g0[a] && groups@[b] == g0[b]);
                    } else if b == p {
                        assert(groups@[a] == g0[a]);
                    } else if a < p {
                        assert(groups@[a] == g0[a] && groups@[b] == g0[b - 1]);
                        if p < g0.len() {
                            assert(!key_lt(g0[p as int].team_index, g0[p as int].player_index, r.team_index, r.player_index));
                        }
                        if b - 1 > p {
                            assert(key_lt(g0[p as int].team_index, g0[p as int].player_index, g0[b - 1].team_index, g0[b - 1].player_index));
                        }
                    } else if a == p {
                        assert(groups@[b] == g0[b - 1]);
                        assert(!key_lt(g0[p as int].team_index, g0[p as int].player_index, r.team_index, r.player_index));
                        if b - 1 > p {
                            assert(key_lt(g0[p as int].team_index, g0[p as int].player_index, g0[b - 1].team_index, g0[b - 1].player_index));
                        }
                    } else {
                        assert(groups@[a] == g0[a - 1] && groups@[b] == g0[b - 1]);
                    }
                }
            }
        }
        i = i + 1;
    }
    assert(rs.take(i as int) =~= rs);
    groups
}

/// Whether (t1, p1) comes before (t2, p2).
fn key_less(t1: usize, p1: usize, t2: usize, p2: usize) -> (b: bool)
    ensures
        b == key_lt(t1, p1, t2, p2),
{
    t1 < t2 || (t1 == t2 && p1 < p2)
}

/// A player with no group has no records.
proof fn lemma_with_key_absent(rs: Seq<PlayerRecord>, ti: usize, pi: usize, gs: Seq<PlayerGroup>)
    requires
        forall|k: int|
            #![trigger rs[k]]
            0 <= k < rs.len() ==> has_group(gs, rs[k].team_index, rs[k].player_index),
        !has_group(gs, ti, pi),
    ensures
        with_key(rs, ti, pi) == Seq::<PlayerRecord>::empty(),
    decreases rs.len(),
{
    if rs.len() > 0 {
        let k = rs.len() - 1;
        assert(has_group(gs, rs[k].team_index, rs[k].player_index));
        assert forall|k2: int| 0 <= k2 < rs.drop_last().len() implies has_group(
            gs,
            rs.drop_last()[k2].team_index,
            rs.drop_last()[k2].player_index,
        ) by {
            assert(rs.drop_last()[k2] == rs[k2]);
        }
        lemma_with_key_absent(rs.drop_last(), ti, pi, gs);
    }
}

// ── Players' sums ──────────────────────────────────────────────────────────

/// A player's tossups by category and points over some records.
#[derive(Debug, Clone, Copy)]
pub struct PlayerSums {
    pub q: [i32; 4],
    pub points: i32,
}

pub struct SumsView {
    pub q: Seq<int>,
    pub points: int,
}

impl View for PlayerSums {
    type V = SumsView;

    open spec fn view(&self) -> SumsView {
        SumsView { q: Seq::new(4, |j: int| self.q@[j] as int), points: self.points as int }
    }
}

/// The score a record points at: the slot of its side of its game, none
/// when there is no such game or slot.
pub open spec fn record_score(t: TournamentView, r: PlayerRecord) -> Option<PlayerScoreView> {
    if r.game < t.games.len() {
        let g = t.games[r.game as int];
        slot(
            if r.side_b {
                g.team_b.player_scores
            } else {
                g.team_a.player_scores
            },
            r.slot as int,
        )
    } else {
        None
    }
}

/// `s` with one more score added.
pub open spec fn sums_added(s: SumsView, p: PlayerScoreView) -> SumsView {
    SumsView { q: Seq::new(4, |j: int| s.q[j] + p.q[j]), points: s.points + p.points }
}

pub open spec fn zero_sums() -> SumsView {
    SumsView { q: seq![0int, 0int, 0int, 0int], points: 0 }
}

/// The sums over the scores of the first `k` records of `rs`.
pub open spec fn sums_upto(t: TournamentView, rs: Seq<PlayerRecord>, k: int) -> SumsView
    decreases k,
{
    if k <= 0 {
        zero_sums()
    } else {
        match record_score(t, rs[k - 1]) {
            Some(p) => sums_added(sums_upto(t, rs, k - 1), p),
            None => sums_upto(t, rs, k - 1),
        }
    }
}

/// Every running sum over the records fits an `i32`.
pub open spec fn sums_fit(t: TournamentView, rs: Seq<PlayerRecord>) -> bool {
    forall|k: int|
        0 <= k < rs.len() ==> (#[trigger] record_score(t, rs[k]) matches Some(p) ==> {
            let n = sums_added(sums_upto(t, rs, k), p);
            &&& forall|j: int| 0 <= j < 4 ==> fits(#[trigger] n.q[j])
            &&& fits(n.points)
        })
}

fn add_score(s: PlayerSums, p: &PlayerScore) -> (r: Option<PlayerSums>)
    ensures
        r is Some <==> ({
            let n = sums_added(s@, p@);
            &&& forall|j: int| 0 <= j < 4 ==> fits(#[trigger] n.q[j])
            &&& fits(n.points)
        }),
        r matches Some(x) ==> x@ == sums_added(s@, p@),
{
    let ghost n = sums_added(s@, p@);
    let q0 = s.q[0].checked_add(p.q[0]);
    let q1 = s.q[1].checked_add(p.q[1]);
    let q2 = s.q[2].checked_add(p.q[2]);
    let q3 = s.q[3].checked_add(p.q[3]);
    let pts = s.points.checked_add(p.points);
    assert(n.q[0] == s.q@[0] + p.q@[0] && n.q[1] == s.q@[1] + p.q@[1]);
    assert(n.q[2] == s.q@[2] + p.q@[2] && n.q[3] == s.q@[3] + p.q@[3]);
    match (q0, q1, q2, q3, pts) {
        (Some(q0), Some(q1), Some(q2), Some(q3), Some(points)) => {
            let x = PlayerSums { q: [q0, q1, q2, q3], points };
            assert(x@.q =~= n.q);
            Some(x)
        },
        _ => {
            assert(!fits(n.q[0]) || !fits(n.q[1]) || !fits(n.q[2]) || !fits(n.q[3]) || !fits(n.points));
            None
        },
    }
}

/// A player's tossups by category and points over the scores its records
/// point at, in order; `None` when a running sum overflows an `i32`.
pub fn player_sums(t: &Tournament, g: &PlayerGroup) -> (r: Option<PlayerSums>)
    ensures
        r is Some <==> sums_fit(t@, g.records@),
        r matches Some(s) ==> s@ == sums_upto(t@, g.records@, g.records@.len() as int),
{
    let ghost rs = g.records@;
    let mut s = PlayerSums { q: [0, 0, 0, 0], points: 0 };
    assert(s@.q =~= zero_sums().q);
    let mut k: usize = 0;
    while k < g.records.len()
        invariant
            k <= rs.len(),
            rs == g.records@,
            s@ == sums_upto(t@, rs, k as int),
            forall|m: int|
                0 <= m < k ==> (#[trigger] record_score(t@, rs[m]) matches Some(p) ==> {
                    let n = sums_added(sums_upto(t@, rs, m), p);
                    &&& forall|j: int| 0 <= j < 4 ==> fits(#[trigger] n.q[j])
                    &&& fits(n.points)
                }),
        decreases rs.len() - k,
    {
        let rec = g.records[k];
        let mut score: Option<&PlayerScore> = None;
        if rec.game < t.games.len() {
            let game = &t.games[rec.game];
            let ps = if rec.side_b {
                &game.team_b.player_scores
            } else {
                &game.team_a.player_scores
            };
            if rec.slot < ps.len() {
                score = ps[rec.slot].as_ref();
            }
        }
        assert(match score {
            Some(p) => record_score(t@, rs[k as int]) == Some(p@),
            None => record_score(t@, rs[k as int]) is None,
        });
        match score {
            Some(p) => {
                s = match add_score(s, p) {
                    Some(x) => x,
                    None => return None,
                };
            },
            None => {},
        }
        k = k + 1;
    }
    Some(s)
}

// ── What the round report sums ─────────────────────────────────────────────

/// Whether game `g` counts toward round `r`: it is in that round and not a
/// forfeit.
pub open spec fn in_round(g: GameView, r: u32) -> bool {
    g.round == r && !g.forfeit
}

/// Both teams' points, summed over the games of round `r` among the first
/// `k` of `gs`.
pub open spec fn round_points(gs: Seq<GameView>, r: u32, k: int) -> int
    decreases k,
{
    if k <= 0 {
        0
    } else {
        round_points(gs, r, k - 1) + if in_round(gs[k - 1], r) {
            gs[k - 1].team_a.total_points + gs[k - 1].team_b.total_points
        } else {
            0
        }
    }
}

/// The number of games of round `r` among the first `k` of `gs`.
pub open spec fn round_game_count(gs: Seq<GameView>, r: u32, k: int) -> int
    decreases k,
{
    if k <= 0 {
        0
    } else {
        round_game_count(gs, r, k - 1) + if in_round(gs[k - 1], r) {
            1int
        } else {
            0int
        }
    }
}

/// The tossups heard over the games of round `r` among the first `k` of `gs`.
pub open spec fn round_tuh(gs: Seq<GameView>, r: u32, k: int) -> int
    decreases k,
{
    if k <= 0 {
        0
    } else {
        round_tuh(gs, r, k - 1) + if in_round(gs[k - 1], r) {
            gs[k - 1].tossups_heard as int
        } else {
            0
        }
    }
}

/// One more game adds both its teams' points, one game and its tossups
/// heard to its round's totals, and nothing to any other round's.
pub proof fn lemma_round_sums_step(gs: Seq<GameView>, r: u32, k: int)
    requires
        0 <= k < gs.len(),
    ensures
        in_round(gs[k], r) ==> round_sums(gs, r, k + 1).points == round_sums(gs, r, k).points
            + gs[k].team_a.total_points + gs[k].team_b.total_points,
        in_round(gs[k], r) ==> round_sums(gs, r, k + 1).games == round_sums(gs, r, k).games + 1,
        in_round(gs[k], r) ==> round_sums(gs, r, k + 1).tuh == round_sums(gs, r, k).tuh
            + gs[k].tossups_heard,
        !in_round(gs[k], r) ==> round_sums(gs, r, k + 1) == round_sums(gs, r, k),
{
}

/// A round's totals are both teams' points summed over every game of the
/// round that is not a forfeit, the number of those games and their
/// tossups heard.
pub proof fn lemma_round_sums_totals(gs: Seq<GameView>, r: u32, k: int)
    requires
        0 <= k <= gs.len(),
    ensures
        round_sums(gs, r, k).points == round_points(gs, r, k),
        round_sums(gs, r, k).games == round_game_count(gs, r, k),
        round_sums(gs, r, k).tuh == round_tuh(gs, r, k),
    decreases k,
{
    if k > 0 {
        lemma_round_sums_totals(gs, r, k - 1);
        lemma_round_sums_step(gs, r, k - 1);
    }
}

/// Each row of the round report holds, for its round, both teams' points
/// summed over all of the round's games that are not forfeits, the number
/// of those games and their tossups heard.
pub proof fn lemma_round_rows(v: Seq<RoundTotals>, gs: Seq<GameView>)
    requires
        forall|i: int|
            0 <= i < v.len() ==> totals_match(#[trigger] v[i], round_sums(gs, v[i].round, gs.len() as int)),
    ensures
        forall|i: int|
            0 <= i < v.len() ==> (#[trigger] v[i]).points == round_points(gs, v[i].round, gs.len() as int)
                && v[i].games == round_game_count(gs, v[i].round, gs.len() as int) && v[i].tuh
                == round_tuh(gs, v[i].round, gs.len() as int),
{
    assert forall|i: int| 0 <= i < v.len() implies (#[trigger] v[i]).points == round_points(
        gs,
        v[i].round,
        gs.len() as int,
    ) && v[i].games == round_game_count(gs, v[i].round, gs.len() as int) && v[i].tuh == round_tuh(
        gs,
        v[i].round,
        gs.len() as int,
    ) by {
        lemma_round_sums_totals(gs, v[i].round, gs.len() as int);
    }
}

// ── Where the navigation bar links ─────────────────────────────────────────

/// Whether `sub` occurs in `s`.
pub open spec fn occurs(s: Seq<char>, sub: Seq<char>) -> bool {
    exists|i: int| 0 <= i && i + sub.len() <= s.len() && #[trigger] s.subrange(i, i + sub.len()) == sub
}

proof fn lemma_occurs(pre: Seq<char>, sub: Seq<char>, post: Seq<char>)
    ensures
        occurs(pre + sub + post, sub),
{
    let s = pre + sub + post;
    assert(s.subrange(pre.len() as int, (pre.len() + sub.len()) as int) =~= sub);
}

/// In the navigation bar each report's label links to that report's file.
#[verifier::rlimit(50)]
pub proof fn lemma_bar_links(n: NavView)
    ensures
        occurs(bar_text(n), "<A HREF="@ + n.standings + ">Standings</A>"@),
        occurs(bar_text(n), "<A HREF="@ + n.individuals + ">Individuals</A>"@),
        occurs(bar_text(n), "<A HREF="@ + n.games + ">Scoreboard</A>"@),
        occurs(bar_text(n), "<A HREF="@ + n.team_detail + ">Team Detail</A>"@),
        occurs(bar_text(n), "<A HREF="@ + n.player_detail + ">Individual Detail</A>"@),
        occurs(bar_text(n), "<A HREF="@ + n.rounds + ">Round Report</A>"@),
        occurs(bar_text(n), "<A HREF="@ + n.stat_key + ">Stat Key</A>"@),
{
    reveal_strlit("<table border=0 width=100%>\n<tr>\n  <td><A HREF=");
    reveal_strlit(">Standings</A></td>\n  <td><A HREF=");
    reveal_strlit(">Individuals</A></td>\n  <td><A HREF=");
    reveal_strlit(">Scoreboard</A></td>\n  <td><A HREF=");
    reveal_strlit(">Team Detail</A></td>\n  <td><A HREF=");
    reveal_strlit(">Individual Detail</A></td>\n  <td><A HREF=");
    reveal_strlit(">Round Report</A></td>\n  <td><A HREF=");
    reveal_strlit(">Stat Key</A></td>\n</tr>\n</table>\n");
    reveal_strlit("<A HREF=");
    reveal_strlit(">Standings</A>");
    reveal_strlit(">Individuals</A>");
    reveal_strlit(">Scoreboard</A>");
    reveal_strlit(">Team Detail</A>");
    reveal_strlit(">Individual Detail</A>");
    reveal_strlit(">Round Report</A>");
    reveal_strlit(">Stat Key</A>");
    reveal_strlit("</td>\n  <td>");
    reveal_strlit("<table border=0 width=100%>\n<tr>\n  <td>");
    reveal_strlit("</td>\n</tr>\n</table>\n");
    let h = "<A HREF="@;
    let m = "</td>\n  <td>"@;
    let t1 = h + n.standings + ">Standings</A>"@;
    let t2 = h + n.individuals + ">Individuals</A>"@;
    let t3 = h + n.games + ">Scoreboard</A>"@;
    let t4 = h + n.team_detail + ">Team Detail</A>"@;
    let t5 = h + n.player_detail + ">Individual Detail</A>"@;
    let t6 = h + n.rounds + ">Round Report</A>"@;
    let t7 = h + n.stat_key + ">Stat Key</A>"@;
    let start = "<table border=0 width=100%>\n<tr>\n  <td>"@;
    let end = "</td>\n</tr>\n</table>\n"@;
    assert(bar_text(n) =~= start + t1 + m + t2 + m + t3 + m + t4 + m + t5 + m + t6 + m + t7 + end);
    lemma_occurs(start, t1, m + t2 + m + t3 + m + t4 + m + t5 + m + t6 + m + t7 + end);
    assert(bar_text(n) =~= start + t1 + (m + t2 + m + t3 + m + t4 + m + t5 + m + t6 + m + t7 + end));
    lemma_occurs(start + t1 + m, t2, m + t3 + m + t4 + m + t5 + m + t6 + m + t7 + end);
    assert(bar_text(n) =~= (start + t1 + m) + t2 + (m + t3 + m + t4 + m + t5 + m + t6 + m + t7 + end));
    lemma_occurs(start + t1 + m + t2 + m, t3, m + t4 + m + t5 + m + t6 + m + t7 + end);
    assert(bar_text(n) =~= (start + t1 + m + t2 + m) + t3 + (m + t4 + m + t5 + m + t6 + m + t7 + end));
    lemma_occurs(start + t1 + m + t2 + m + t3 + m, t4, m + t5 + m + t6 + m + t7 + end);
    assert(bar_text(n) =~= (start + t1 + m + t2 + m + t3 + m) + t4 + (m + t5 + m + t6 + m + t7 + end));
    lemma_occurs(start + t1 + m + t2 + m + t3 + m + t4 + m, t5, m + t6 + m + t7 + end);
    assert(bar_text(n) =~= (start + t1 + m + t2 + m + t3 + m + t4 + m) + t5 + (m + t6 + m + t7 + end));
    lemma_occurs(start + t1 + m + t2 + m + t3 + m + t4 + m + t5 + m, t6, m + t7 + end);
    assert(bar_text(n) =~= (start + t1 + m + t2 + m + t3 + m + t4 + m + t5 + m) + t6 + (m + t7 + end));
    lemma_occurs(start + t1 + m + t2 + m + t3 + m + t4 + m + t5 + m + t6 + m, t7, end);
    assert(bar_text(n) =~= (start + t1 + m + t2 + m + t3 + m + t4 + m + t5 + m + t6 + m) + t7 + end);
}

} // verus!
