//! Tournament statistics for quizbowl: the SQBS tournament file format,
//! the name-capitalization heuristic and the HTML statistics reports.

pub mod text;
pub mod models;
pub mod sqbs_format;
pub mod round_trip;
pub mod name_check;
pub mod reports;
pub mod team_detail;
pub mod scoreboard;
