//! easysql: the logic behind a front end that writes the files `psql`,
//! `mysql`, `sqlite3` and `sqlcmd` already read, and builds the argv that
//! hands each of them a saved connection.

pub mod text;
pub mod ini;
pub mod settings;
pub mod snippets;
pub mod engines;
pub mod creds;
pub mod history;
pub mod markdown;
pub mod tunnels;
pub mod vias;
pub mod sshhosts;
pub mod reach;
pub mod probe;
pub mod connect;
pub mod widgets;
pub mod forms;
pub mod toolbox;
pub mod screen;
