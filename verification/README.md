# sqbs

Quizbowl tournament statistics: the SQBS tournament file format, a check
for mistyped player names, and the HTML statistics reports.

The library in `src/` is verified with Verus:

- `sqbs_format` reads a tournament file (`SqbsParser::parse`, specified by
  `spec_parse` over the file's text) and writes one (`write_sqbs`, specified
  by `file_lines_of`); every error the reader can return is stated with the
  inputs that cause it.
- `round_trip` proves that what the writer writes, the reader reads back
  unchanged for every tournament already in the form a read gives back
  (`round_trips`), and that for every tournament within the file's limits
  the reader gives back its normal form (`normal_form`: player slots padded
  to eight, divisions, packets and scoring as the file keeps them).
- `name_check` flags names whose capitalization looks mistyped.
- `reports` builds the page frame, escaping, point-value columns, packet
  labels, the stat key page, report file-name checks, the per-team
  totals with the balance laws those totals keep, the per-round totals and
  each player's records grouped by player with their tossup and point sums.
- `team_detail` lists the games each team played with their results and
  sums its totals over them, and proves that those totals are the
  standings' totals whenever every game names two different valid teams.
- `scoreboard` writes the scoreboard's round headings, result lines and
  player lines.
- `models` holds the tournament data and its mathematical views; `text`
  holds integer text, trimming and parsing.

`app/` is the unverified shell: file I/O, the rounding of games played
to two decimals before a file is written (floating point), the state kept for the user
interface, serde/specta copies of the data types, and the report pages whose
cells hold floating-point averages.
