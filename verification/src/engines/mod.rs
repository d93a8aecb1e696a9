//! The seam. Above this line nothing knows which database it is about to open;
//! below it, one module per engine knows exactly one thing: which file its
//! client already reads, and which argv that client wants.
//!
//! easysql never invents a store and never holds a password: it writes the
//! file `psql`, `mysql` or `sqlite3` reads on its own, so uninstalling it costs
//! nothing and every script keeps working.

pub mod mssql;
pub mod mysql;
pub mod pg;
pub mod sqlite;

use crate::settings::{Settings, SettingsV};
use crate::text::{
    chars_of, copy, cviews, dec, dec_of, eq_ic, eq_ignore_case, extend, join, join_of, same_as,
    seq_eq, split, split_of, string_of, strings_of, views, words, words_of, find, find_char,
    lex_le, lex_le_of, slice_to_vec, file_body,
};
use crate::ini::{
    collapse_in, expand_in, home, kviews, opt_view, collapse_tilde_in, expand_tilde_in, opt_sview,
    remove_lines, target_of, upsert_lines, config_dir, join_path_of, parse_text, section_index,
};
use crate::snippets::Snippet;
use vstd::prelude::*;

verus! {

/// Which client owns a connection. The order here is the order a merged list
/// falls back to when nothing else separates two entries.
#[derive(Clone, Copy, PartialEq, Eq, Debug, Structural)]
pub enum Engine {
    Pg,
    MySql,
    Sqlite,
    MsSql,
}

/// Every engine, in the order a merged list uses.
pub open spec fn engine_order() -> Seq<Engine> {
    seq![Engine::Pg, Engine::MySql, Engine::Sqlite, Engine::MsSql]
}

pub open spec fn label_of(e: Engine) -> Seq<char> {
    match e {
        Engine::Pg => "postgres"@,
        Engine::MySql => "mysql"@,
        Engine::Sqlite => "sqlite"@,
        Engine::MsSql => "sqlserver"@,
    }
}

pub open spec fn slug_of(e: Engine) -> Seq<char> {
    match e {
        Engine::Pg => "pg"@,
        Engine::MySql => "my"@,
        Engine::Sqlite => "lite"@,
        Engine::MsSql => "ms"@,
    }
}

pub open spec fn idx_of(e: Engine) -> int {
    match e {
        Engine::Pg => 0,
        Engine::MySql => 1,
        Engine::Sqlite => 2,
        Engine::MsSql => 3,
    }
}

pub open spec fn client_setting_of(e: Engine) -> Seq<char> {
    match e {
        Engine::Pg => "psql_command"@,
        Engine::MySql => "mysql_command"@,
        Engine::Sqlite => "sqlite_command"@,
        Engine::MsSql => "sqlcmd_command"@,
    }
}

pub open spec fn default_client_of(e: Engine) -> Seq<char> {
    match e {
        Engine::Pg => "psql"@,
        Engine::MySql => "mysql"@,
        Engine::Sqlite => "sqlite3"@,
        Engine::MsSql => "sqlcmd"@,
    }
}

pub open spec fn default_port_of(e: Engine) -> Seq<char> {
    match e {
        Engine::Pg => "5432"@,
        Engine::MySql => "3306"@,
        Engine::Sqlite => ""@,
        Engine::MsSql => "1433"@,
    }
}

pub open spec fn query_flag_of(e: Engine) -> Option<Seq<char>> {
    match e {
        Engine::Pg => Some("-c"@),
        Engine::MySql => Some("-e"@),
        Engine::Sqlite => None,
        Engine::MsSql => Some("-Q"@),
    }
}

pub open spec fn hint_of(e: Engine) -> Seq<char> {
    match e {
        Engine::Pg => "\\l dbs · \\c <db> · \\dn schemas · \\dt tables · \\d <table> · \\i <file> · \\? help · \\q quit"@,
        Engine::MySql => "show databases; · use <db>; · show tables; · desc <table>; · source <file> · \\q quit"@,
        Engine::Sqlite => ".databases · .tables · .schema <table> · .read <file> · .help · .quit"@,
        Engine::MsSql => "GO runs what you typed · sp_databases dbs · use <db> · sp_tables tables · sp_help <table> · :r <file> · exit"@,
    }
}

/// The engine a word names, by slug or by label, first in list order.
pub open spec fn from_slug_spec(s: Seq<char>) -> Option<Engine> {
    if s == slug_of(Engine::Pg) || s == label_of(Engine::Pg) {
        Some(Engine::Pg)
    } else if s == slug_of(Engine::MySql) || s == label_of(Engine::MySql) {
        Some(Engine::MySql)
    } else if s == slug_of(Engine::Sqlite) || s == label_of(Engine::Sqlite) {
        Some(Engine::Sqlite)
    } else if s == slug_of(Engine::MsSql) || s == label_of(Engine::MsSql) {
        Some(Engine::MsSql)
    } else {
        None
    }
}

/// The command setting that runs this engine's client.
pub open spec fn command_of(e: Engine, s: SettingsV) -> Seq<char> {
    match e {
        Engine::Pg => s.psql_command,
        Engine::MySql => s.mysql_command,
        Engine::Sqlite => s.sqlite_command,
        Engine::MsSql => s.sqlcmd_command,
    }
}

/// The configured command split at whitespace; the default client when it
/// holds no word at all.
pub open spec fn client_argv_spec(e: Engine, s: SettingsV) -> Seq<Seq<char>> {
    let w = words(command_of(e, s));
    if w.len() == 0 {
        seq![default_client_of(e)]
    } else {
        w
    }
}

pub open spec fn stores_password_spec(e: Engine) -> bool {
    e == Engine::Pg || e == Engine::MySql
}

pub open spec fn keeps_password_spec(e: Engine, s: SettingsV) -> bool {
    stores_password_spec(e) || (e == Engine::MsSql && s.mssql_passwords)
}

/// Every engine, in list order.
pub fn all_engines() -> (r: Vec<Engine>)
    ensures
        r@ == engine_order(),
{
    let r = vec![Engine::Pg, Engine::MySql, Engine::Sqlite, Engine::MsSql];
    assert(r@ =~= engine_order());
    r
}

impl Engine {
    /// What it is called in prose and in the engine column.
    pub fn label(self) -> (r: &'static str)
        ensures
            r@ == label_of(self),
    {
        match self {
            Engine::Pg => "postgres",
            Engine::MySql => "mysql",
            Engine::Sqlite => "sqlite",
            Engine::MsSql => "sqlserver",
        }
    }

    /// The prefix that disambiguates a name owned by two engines: `pg:prod`.
    pub fn slug(self) -> (r: &'static str)
        ensures
            r@ == slug_of(self),
    {
        match self {
            Engine::Pg => "pg",
            Engine::MySql => "my",
            Engine::Sqlite => "lite",
            Engine::MsSql => "ms",
        }
    }

    /// Position in the list order, so per-engine answers can be kept in an
    /// array.
    pub fn idx(self) -> (r: usize)
        ensures
            r == idx_of(self),
    {
        match self {
            Engine::Pg => 0,
            Engine::MySql => 1,
            Engine::Sqlite => 2,
            Engine::MsSql => 3,
        }
    }

    /// The engine a slug or a label names.
    pub fn from_slug(s: &str) -> (r: Option<Engine>)
        ensures
            r == from_slug_spec(s@),
    {
        let c = chars_of(s);
        if same_as(c.as_slice(), "pg") || same_as(c.as_slice(), "postgres") {
            Some(Engine::Pg)
        } else if same_as(c.as_slice(), "my") || same_as(c.as_slice(), "mysql") {
            Some(Engine::MySql)
        } else if same_as(c.as_slice(), "lite") || same_as(c.as_slice(), "sqlite") {
            Some(Engine::Sqlite)
        } else if same_as(c.as_slice(), "ms") || same_as(c.as_slice(), "sqlserver") {
            Some(Engine::MsSql)
        } else {
            None
        }
    }

    /// The program a connect runs, as configured. A wrapper with its own
    /// arguments (`pgcli`, `docker exec -it db psql`) works because this is a
    /// whole argv, not a program name.
    pub fn client_argv(self, s: &Settings) -> (r: Vec<String>)
        ensures
            views(r@) == client_argv_spec(self, s@),
    {
        let cmd = match self {
            Engine::Pg => chars_of(s.psql_command.as_str()),
            Engine::MySql => chars_of(s.mysql_command.as_str()),
            Engine::Sqlite => chars_of(s.sqlite_command.as_str()),
            Engine::MsSql => chars_of(s.sqlcmd_command.as_str()),
        };
        let w = words_of(cmd.as_slice());
        if w.len() == 0 {
            let r = vec![self.default_client().to_string()];
            assert(views(r@) =~= client_argv_spec(self, s@));
            r
        } else {
            strings_of(&w)
        }
    }

    /// The setting that names this engine's client.
    pub fn client_setting(self) -> (r: &'static str)
        ensures
            r@ == client_setting_of(self),
    {
        match self {
            Engine::Pg => "psql_command",
            Engine::MySql => "mysql_command",
            Engine::Sqlite => "sqlite_command",
            Engine::MsSql => "sqlcmd_command",
        }
    }

    pub fn default_client(self) -> (r: &'static str)
        ensures
            r@ == default_client_of(self),
    {
        match self {
            Engine::Pg => "psql",
            Engine::MySql => "mysql",
            Engine::Sqlite => "sqlite3",
            Engine::MsSql => "sqlcmd",
        }
    }

    /// The port the client assumes when a connection does not name one.
    pub fn default_port(self) -> (r: &'static str)
        ensures
            r@ == default_port_of(self),
    {
        match self {
            Engine::Pg => "5432",
            Engine::MySql => "3306",
            Engine::Sqlite => "",
            Engine::MsSql => "1433",
        }
    }

    /// How this client is handed a query to run and exit. SQLite takes it as
    /// a bare argument, so there is no flag to give.
    pub fn query_flag(self) -> (r: Option<&'static str>)
        ensures
            opt_view(r) == query_flag_of(self),
    {
        match self {
            Engine::Pg => Some("-c"),
            Engine::MySql => Some("-e"),
            Engine::Sqlite => None,
            Engine::MsSql => Some("-Q"),
        }
    }

    /// The one line of orientation printed before the terminal is handed
    /// over: databases, then schemas, then tables, then one object, in each
    /// client's own spelling.
    pub fn hint(self) -> (r: &'static str)
        ensures
            r@ == hint_of(self),
    {
        match self {
            Engine::Pg => "\\l dbs · \\c <db> · \\dn schemas · \\dt tables · \\d <table> · \\i <file> · \\? help · \\q quit",
            Engine::MySql => "show databases; · use <db>; · show tables; · desc <table>; · source <file> · \\q quit",
            Engine::Sqlite => ".databases · .tables · .schema <table> · .read <file> · .help · .quit",
            Engine::MsSql => "GO runs what you typed · sp_databases dbs · use <db> · sp_tables tables · sp_help <table> · :r <file> · exit",
        }
    }

    /// True when this engine has a server to reach, and therefore a port to
    /// probe and a tunnel worth opening. SQLite is a file.
    pub fn networked(self) -> (r: bool)
        ensures
            r == (self != Engine::Sqlite),
    {
        match self {
            Engine::Sqlite => false,
            _ => true,
        }
    }

    /// True when a connection can be made read-only from its form: Postgres
    /// through the service's `options`, SQLite through `-readonly`.
    pub fn offers_read_only(self) -> (r: bool)
        ensures
            r == (self == Engine::Pg || self == Engine::Sqlite),
    {
        match self {
            Engine::Pg | Engine::Sqlite => true,
            _ => false,
        }
    }

    /// True when easysql can save this engine's password into a file its
    /// client reads on its own. SQL Server has no such file.
    pub fn stores_password(self) -> (r: bool)
        ensures
            r == stores_password_spec(self),
    {
        match self {
            Engine::Pg | Engine::MySql => true,
            _ => false,
        }
    }

    /// Whether a password for this engine can be saved at all under these
    /// settings: always where the client has a file of its own, and for SQL
    /// Server only once the user has allowed easysql to keep it.
    pub fn keeps_password(self, s: &Settings) -> (r: bool)
        ensures
            r == keeps_password_spec(self, s@),
    {
        self.stores_password() || (self == Engine::MsSql && s.mssql_passwords)
    }
}

/// One saved connection, whichever file it came out of.
#[derive(Clone, Debug)]
pub struct Conn {
    pub engine: Engine,
    /// The service name / login group / label: what you type after `esql`.
    pub name: String,
    pub host: String,
    pub port: String,
    /// The database, or the file path for SQLite.
    pub database: String,
    pub user: String,
    /// Every other key in the block (`sslmode`, `connect_timeout`, ...),
    /// carried through untouched so a hand-written setting survives an edit.
    pub extra: Vec<(String, String)>,
}

/// A connection as values.
pub struct ConnV {
    pub engine: Engine,
    pub name: Seq<char>,
    pub host: Seq<char>,
    pub port: Seq<char>,
    pub database: Seq<char>,
    pub user: Seq<char>,
    pub extra: Seq<(Seq<char>, Seq<char>)>,
}

impl View for Conn {
    type V = ConnV;

    open spec fn view(&self) -> ConnV {
        ConnV {
            engine: self.engine,
            name: self.name@,
            host: self.host@,
            port: self.port@,
            database: self.database@,
            user: self.user@,
            extra: kviews(self.extra@),
        }
    }
}

pub open spec fn conn_views(v: Seq<Conn>) -> Seq<ConnV> {
    v.map_values(|c: Conn| c@)
}

/// What a wizard collects. Empty strings mean "not set" and are left out of
/// the written block rather than written empty.
pub struct NewConn {
    pub engine: Engine,
    pub name: String,
    pub host: String,
    pub port: String,
    pub database: String,
    pub user: String,
    /// Keys the wizard did not ask about, carried over from the block being
    /// edited.
    pub extra: Vec<(String, String)>,
}

pub struct NewConnV {
    pub engine: Engine,
    pub name: Seq<char>,
    pub host: Seq<char>,
    pub port: Seq<char>,
    pub database: Seq<char>,
    pub user: Seq<char>,
    pub extra: Seq<(Seq<char>, Seq<char>)>,
}

impl View for NewConn {
    type V = NewConnV;

    open spec fn view(&self) -> NewConnV {
        NewConnV {
            engine: self.engine,
            name: self.name@,
            host: self.host@,
            port: self.port@,
            database: self.database@,
            user: self.user@,
            extra: kviews(self.extra@),
        }
    }
}

/// A copy of a list of key/value pairs.
pub fn copy_pairs(v: &[(String, String)]) -> (r: Vec<(String, String)>)
    ensures
        kviews(r@) == kviews(v@),
{
    let mut r: Vec<(String, String)> = Vec::new();
    let mut i: usize = 0;
    while i < v.len()
        invariant
            i <= v@.len(),
            kviews(r@) == kviews(v@).take(i as int),
        decreases v@.len() - i,
    {
        let ghost prev = r@;
        r.push((v[i].0.clone(), v[i].1.clone()));
        assert(kviews(r@) =~= kviews(prev).push(kviews(v@)[i as int]));
        i = i + 1;
        assert(kviews(v@).take(i as int) =~= kviews(v@).take(i - 1).push(kviews(v@)[i - 1]));
    }
    assert(kviews(v@).take(v@.len() as int) =~= kviews(v@));
    r
}

/// A copy of a connection, field for field.
pub fn copy_conn(c: &Conn) -> (r: Conn)
    ensures
        r@ == c@,
{
    Conn {
        engine: c.engine,
        name: c.name.clone(),
        host: c.host.clone(),
        port: c.port.clone(),
        database: c.database.clone(),
        user: c.user.clone(),
        extra: copy_pairs(c.extra.as_slice()),
    }
}

/// Whether some key equal to `key` (ignoring case) holds exactly `value`.
pub open spec fn has_pair(
    extra: Seq<(Seq<char>, Seq<char>)>,
    key: Seq<char>,
    value: Seq<char>,
) -> bool {
    exists|i: int| 0 <= i < extra.len() && eq_ic(#[trigger] extra[i].0, key) && extra[i].1 == value
}

pub fn find_pair(extra: &[(String, String)], key: &str, value: &str) -> (r: bool)
    ensures
        r == has_pair(kviews(extra@), key@, value@),
{
    let k = chars_of(key);
    let v = chars_of(value);
    let mut i: usize = 0;
    while i < extra.len()
        invariant
            i <= extra@.len(),
            k@ == key@,
            v@ == value@,
            forall|j: int|
                0 <= j < i ==> !(eq_ic(#[trigger] kviews(extra@)[j].0, key@) && kviews(extra@)[j].1
                    == value@),
        decreases extra@.len() - i,
    {
        let a = chars_of(extra[i].0.as_str());
        let b = chars_of(extra[i].1.as_str());
        assert(kviews(extra@)[i as int] == (a@, b@));
        if eq_ignore_case(a.as_slice(), k.as_slice()) && seq_eq(b.as_slice(), v.as_slice()) {
            assert(eq_ic(kviews(extra@)[i as int].0, key@) && kviews(extra@)[i as int].1 == value@);
            return true;
        }
        i = i + 1;
    }
    false
}

/// The port, or the one the engine's client assumes when none is saved.
pub open spec fn port_or_default_spec(c: ConnV) -> Seq<char> {
    if c.port.len() == 0 {
        default_port_of(c.engine)
    } else {
        c.port
    }
}

impl Conn {
    pub fn port_or_default(&self) -> (r: String)
        ensures
            r@ == port_or_default_spec(self@),
    {
        if self.port.as_str().is_empty() {
            self.engine.default_port().to_string()
        } else {
            self.port.clone()
        }
    }
}

/// The last component of a path, as `Path::file_name` reads it on Unix: the
/// segments between slashes with empty and `.` ones skipped; none when there
/// is none or the last is `..`.
pub open spec fn path_segments(p: Seq<char>) -> Seq<Seq<char>> {
    split(p, '/').filter(|x: Seq<char>| x.len() > 0 && x != seq!['.'])
}

pub open spec fn file_name(p: Seq<char>) -> Option<Seq<char>> {
    let segs = path_segments(p);
    if segs.len() == 0 || segs.last() == seq!['.', '.'] {
        None
    } else {
        Some(segs.last())
    }
}

/// Whether a path's file name is exactly `name`.
pub fn file_name_is(p: &[char], name: &[char]) -> (r: bool)
    ensures
        r == (file_name(p@) == Some(name@)),
{
    let parts = split_of(p, '/');
    let ghost all = cviews(parts@);
    let mut segs: Vec<Vec<char>> = Vec::new();
    let mut i: usize = 0;
    let dot = vec!['.'];
    assert(dot@ =~= seq!['.']);
    while i < parts.len()
        invariant
            all == cviews(parts@),
            all == split(p@, '/'),
            dot@ == seq!['.'],
            i <= parts@.len(),
            cviews(segs@) == all.take(i as int).filter(
                |x: Seq<char>| x.len() > 0 && x != seq!['.'],
            ),
        decreases parts@.len() - i,
    {
        let ghost prev = cviews(segs@);
        proof {
            reveal_with_fuel(Seq::filter, 1);
            assert(all.take(i + 1).drop_last() =~= all.take(i as int));
        }
        assert(all[i as int] == parts@[i as int]@);
        if parts[i].len() > 0 && !seq_eq(parts[i].as_slice(), dot.as_slice()) {
            segs.push(copy(parts[i].as_slice()));
            assert(cviews(segs@) =~= prev.push(all[i as int]));
        }
        i = i + 1;
    }
    assert(all.take(parts@.len() as int) =~= all);
    if segs.len() == 0 {
        return false;
    }
    let last = segs[segs.len() - 1].as_slice();
    assert(cviews(segs@).last() == last@);
    let up = vec!['.', '.'];
    assert(up@ =~= seq!['.', '.']);
    if seq_eq(last, up.as_slice()) {
        return false;
    }
    seq_eq(last, name)
}

/// True when the configured command really is this engine's own client, even
/// wrapped: `docker exec -it db psql` still takes psql's flags, `pgcli` does
/// not. The single-query commands use the client's own flags, so they are
/// only built when this holds.
pub open spec fn speaks_spec(e: Engine, s: SettingsV) -> bool {
    exists|i: int|
        0 <= i < client_argv_spec(e, s).len() && file_name(#[trigger] client_argv_spec(e, s)[i])
            == Some(default_client_of(e))
}

pub fn speaks_client_flags(engine: Engine, s: &Settings) -> (r: bool)
    ensures
        r == speaks_spec(engine, s@),
{
    let argv = engine.client_argv(s);
    let d = chars_of(engine.default_client());
    let mut i: usize = 0;
    while i < argv.len()
        invariant
            i <= argv@.len(),
            d@ == default_client_of(engine),
            views(argv@) == client_argv_spec(engine, s@),
            forall|j: int|
                0 <= j < i ==> file_name(#[trigger] client_argv_spec(engine, s@)[j]) != Some(
                    default_client_of(engine),
                ),
        decreases argv@.len() - i,
    {
        let w = chars_of(argv[i].as_str());
        assert(views(argv@)[i as int] == argv@[i as int]@);
        if file_name_is(w.as_slice(), d.as_slice()) {
            return true;
        }
        i = i + 1;
    }
    false
}

/// Whether a connection's block makes every session read-only, read from the
/// file rather than remembered, so a line written by hand counts too.
pub open spec fn conn_read_only(c: ConnV) -> bool {
    match c.engine {
        Engine::Pg => pg::read_only_spec(c.extra),
        Engine::Sqlite => sqlite::read_only_spec(c.extra),
        _ => false,
    }
}

/// `user@host:port/db`, the second column and the `ls -v` line; SQLite shows
/// its file, with `home` written as `~`.
pub open spec fn target_spec(c: ConnV, home: Seq<char>) -> Seq<char> {
    if c.engine == Engine::Sqlite {
        collapse_in(home, c.database)
    } else {
        let host = if c.host.len() == 0 {
            "localhost"@
        } else {
            c.host
        };
        let who = if c.user.len() == 0 {
            host
        } else {
            c.user + "@"@ + host
        };
        let p = port_or_default_spec(c);
        let at = if p.len() == 0 {
            who
        } else {
            who + ":"@ + p
        };
        if c.database.len() == 0 {
            at
        } else {
            at + "/"@ + c.database
        }
    }
}

/// The exact command Enter runs, with `home` for a SQLite path's `~`. Every
/// engine points its client at the block by name, so no host, user or
/// password is ever on the command line.
pub open spec fn connect_argv_spec(
    c: ConnV,
    s: SettingsV,
    db: Option<Seq<char>>,
    home: Seq<char>,
) -> Seq<Seq<char>> {
    let base = client_argv_spec(c.engine, s);
    match c.engine {
        Engine::Pg => base.push(pg::conninfo_spec(c.name, db)),
        Engine::MySql => {
            let a = base.push("--defaults-group-suffix="@ + c.name);
            match db {
                Some(d) => a.push("--database="@ + d),
                None => a,
            }
        },
        Engine::Sqlite => {
            let path = expand_in(home, c.database);
            if conn_read_only(c) {
                let b = if speaks_spec(c.engine, s) {
                    base
                } else {
                    seq![default_client_of(Engine::Sqlite)]
                };
                b.push("-readonly"@).push(path)
            } else {
                base.push(path)
            }
        },
        Engine::MsSql => base + mssql::flags_spec(c, db),
    }
}

/// What a session needs in its environment on top of the argv: only a
/// read-only Postgres connection opened in a client other than psql has any,
/// `PGOPTIONS` built on what the environment held (`had`).
pub open spec fn connect_env_spec(c: ConnV, s: SettingsV, had: Option<Seq<char>>) -> Seq<
    (Seq<char>, Seq<char>),
> {
    if c.engine == Engine::Pg && conn_read_only(c) && !speaks_spec(c.engine, s) {
        seq![("PGOPTIONS"@, pg::read_only_pgoptions_spec(had))]
    } else {
        seq![]
    }
}

/// The secret part of a session's environment: a SQL Server password easysql
/// was allowed to keep, found in the password file's text.
pub open spec fn secret_env_spec(c: ConnV, s: SettingsV, pass_text: Seq<char>, private: bool) -> Seq<
    (Seq<char>, Seq<char>),
> {
    if c.engine == Engine::MsSql && s.mssql_passwords {
        match mssql::password_spec(pass_text, private, c.name) {
            Some(p) => seq![("SQLCMDPASSWORD"@, p)],
            None => seq![],
        }
    } else {
        seq![]
    }
}

/// A URL for the connection, which is what a GUI or an ORM config wants.
/// Never carries the password.
pub open spec fn url_spec(c: ConnV) -> Seq<char> {
    if c.engine == Engine::Sqlite {
        "sqlite://"@ + c.database
    } else {
        let scheme = match c.engine {
            Engine::Pg => "postgresql"@,
            Engine::MsSql => "sqlserver"@,
            _ => "mysql"@,
        };
        let host = if c.host.len() == 0 {
            "localhost"@
        } else {
            c.host
        };
        let user = if c.user.len() == 0 {
            seq![]
        } else {
            c.user + "@"@
        };
        let db = if c.database.len() == 0 {
            seq![]
        } else {
            "/"@ + c.database
        };
        scheme + "://"@ + user + host + ":"@ + port_or_default_spec(c) + db
    }
}

impl Conn {
    /// The unique handle for history and selection: two engines are allowed
    /// to both call a connection `prod`.
    pub fn key(&self) -> (r: String)
        ensures
            r@ == slug_of(self.engine) + ":"@ + self.name@,
    {
        let mut v = chars_of(self.engine.slug());
        extend(&mut v, chars_of(":").as_slice());
        extend(&mut v, chars_of(self.name.as_str()).as_slice());
        string_of(v.as_slice())
    }

    /// `target` with the given home directory.
    pub fn target_in(&self, home: &str) -> (r: String)
        ensures
            r@ == target_spec(self@, home@),
    {
        if self.engine == Engine::Sqlite {
            return collapse_tilde_in(home, self.database.as_str());
        }
        let mut v = if self.user.as_str().is_empty() {
            Vec::new()
        } else {
            let mut u = chars_of(self.user.as_str());
            extend(&mut u, chars_of("@").as_slice());
            u
        };
        if self.host.as_str().is_empty() {
            extend(&mut v, chars_of("localhost").as_slice());
        } else {
            extend(&mut v, chars_of(self.host.as_str()).as_slice());
        }
        let ghost host = if self@.host.len() == 0 {
            "localhost"@
        } else {
            self@.host
        };
        let ghost who = if self@.user.len() == 0 {
            host
        } else {
            self@.user + "@"@ + host
        };
        assert(v@ =~= who);
        let port = self.port_or_default();
        if !port.as_str().is_empty() {
            extend(&mut v, chars_of(":").as_slice());
            extend(&mut v, chars_of(port.as_str()).as_slice());
        }
        if !self.database.as_str().is_empty() {
            extend(&mut v, chars_of("/").as_slice());
            extend(&mut v, chars_of(self.database.as_str()).as_slice());
        }
        string_of(v.as_slice())
    }

    /// `user@host:port/db`, the second column and the `ls -v` line. SQLite
    /// has no server, so it shows the file instead, under this machine's `~`.
    pub fn target(&self) -> (r: String)
        ensures
            exists|h: Seq<char>| r@ == target_spec(self@, h),
    {
        let h = home();
        let r = self.target_in(h.as_str());
        assert(r@ == target_spec(self@, h@));
        r
    }

    /// Whether the block makes every session refuse writes.
    pub fn read_only(&self) -> (r: bool)
        ensures
            r == conn_read_only(self@),
    {
        match self.engine {
            Engine::Pg => pg::read_only(self.extra.as_slice()),
            Engine::Sqlite => sqlite::read_only(self.extra.as_slice()),
            _ => false,
        }
    }

    /// What a session with this connection needs in its environment on top
    /// of the argv, given what `PGOPTIONS` already holds. psql applies the
    /// service's `options` itself, but a client that reads the service file
    /// on its own can drop them, as pgcli does.
    pub fn connect_env(&self, s: &Settings, pgoptions: Option<&str>) -> (r: Vec<(String, String)>)
        ensures
            kviews(r@) == connect_env_spec(self@, s@, opt_view(pgoptions)),
    {
        if self.engine == Engine::Pg && self.read_only() && !speaks_client_flags(self.engine, s) {
            let r = vec![("PGOPTIONS".to_string(), pg::read_only_pgoptions(pgoptions))];
            assert(kviews(r@) =~= connect_env_spec(self@, s@, opt_view(pgoptions)));
            r
        } else {
            let r: Vec<(String, String)> = Vec::new();
            assert(kviews(r@) =~= connect_env_spec(self@, s@, opt_view(pgoptions)));
            r
        }
    }

    /// The secret part of a session's environment, given the password file's
    /// text and whether nobody but its owner can read it: only a SQL Server
    /// password easysql was allowed to keep. Applied by the launchers and the
    /// probe, never by anything that shows or copies a command.
    pub fn secret_env(&self, s: &Settings, pass_text: &str, private: bool) -> (r: Vec<
        (String, String),
    >)
        ensures
            kviews(r@) == secret_env_spec(self@, s@, pass_text@, private),
    {
        if self.engine == Engine::MsSql && s.mssql_passwords {
            match mssql::password(pass_text, private, self.name.as_str()) {
                Some(p) => {
                    let ghost pv = p@;
                    let r = vec![("SQLCMDPASSWORD".to_string(), p)];
                    assert(kviews(r@) =~= seq![("SQLCMDPASSWORD"@, pv)]);
                    r
                },
                None => {
                    let r: Vec<(String, String)> = Vec::new();
                    assert(kviews(r@) =~= Seq::<(Seq<char>, Seq<char>)>::empty());
                    r
                },
            }
        } else {
            let r: Vec<(String, String)> = Vec::new();
            assert(kviews(r@) =~= Seq::<(Seq<char>, Seq<char>)>::empty());
            r
        }
    }

    /// `connect_argv_db` with the given home directory.
    pub fn connect_argv_in(&self, s: &Settings, db: Option<&str>, home: &str) -> (r: Vec<String>)
        ensures
            views(r@) == connect_argv_spec(self@, s@, opt_view(db), home@),
    {
        let mut argv = self.engine.client_argv(s);
        let ghost base = views(argv@);
        match self.engine {
            Engine::Pg => {
                argv.push(pg::conninfo(self.name.as_str(), db));
            },
            Engine::MySql => {
                let mut g = chars_of("--defaults-group-suffix=");
                extend(&mut g, chars_of(self.name.as_str()).as_slice());
                argv.push(string_of(g.as_slice()));
                match db {
                    Some(d) => {
                        let mut x = chars_of("--database=");
                        extend(&mut x, chars_of(d).as_slice());
                        argv.push(string_of(x.as_slice()));
                    },
                    None => {},
                }
            },
            Engine::Sqlite => {
                if self.read_only() {
                    if !speaks_client_flags(self.engine, s) {
                        argv = vec![self.engine.default_client().to_string()];
                    }
                    argv.push("-readonly".to_string());
                }
                argv.push(expand_tilde_in(home, self.database.as_str()));
            },
            Engine::MsSql => {
                let f = mssql::flags(self, db);
                let mut i: usize = 0;
                while i < f.len()
                    invariant
                        i <= f@.len(),
                        views(argv@) == base + views(f@).take(i as int),
                    decreases f@.len() - i,
                {
                    let ghost prev = views(argv@);
                    argv.push(f[i].clone());
                    assert(views(argv@) =~= prev.push(f@[i as int]@));
                    i = i + 1;
                    assert(views(f@).take(i as int) =~= views(f@).take(i - 1).push(f@[i - 1]@));
                }
                assert(views(f@).take(f@.len() as int) =~= views(f@));
            },
        }
        assert(views(argv@) =~= connect_argv_spec(self@, s@, opt_view(db), home@));
        argv
    }

    /// The same command aimed at another database on the same server, which
    /// is what `esql <name>/<db>` asks for. SQLite has no database to switch
    /// to, so `db` is refused by the caller and ignored here.
    pub fn connect_argv_db(&self, s: &Settings, db: Option<&str>) -> (r: Vec<String>)
        ensures
            exists|h: Seq<char>| views(r@) == connect_argv_spec(self@, s@, opt_view(db), h),
    {
        let h = home();
        let r = self.connect_argv_in(s, db, h.as_str());
        assert(views(r@) == connect_argv_spec(self@, s@, opt_view(db), h@));
        r
    }

    /// The exact command Enter runs.
    pub fn connect_argv(&self, s: &Settings) -> (r: Vec<String>)
        ensures
            exists|h: Seq<char>| views(r@) == connect_argv_spec(self@, s@, None, h),
    {
        self.connect_argv_db(s, None)
    }

    /// A URL for the connection. Never carries the password.
    pub fn url(&self) -> (r: String)
        ensures
            r@ == url_spec(self@),
    {
        if self.engine == Engine::Sqlite {
            let mut v = chars_of("sqlite://");
            extend(&mut v, chars_of(self.database.as_str()).as_slice());
            return string_of(v.as_slice());
        }
        let mut v = match self.engine {
            Engine::Pg => chars_of("postgresql"),
            Engine::MsSql => chars_of("sqlserver"),
            _ => chars_of("mysql"),
        };
        extend(&mut v, chars_of("://").as_slice());
        if !self.user.as_str().is_empty() {
            extend(&mut v, chars_of(self.user.as_str()).as_slice());
            extend(&mut v, chars_of("@").as_slice());
        }
        if self.host.as_str().is_empty() {
            extend(&mut v, chars_of("localhost").as_slice());
        } else {
            extend(&mut v, chars_of(self.host.as_str()).as_slice());
        }
        extend(&mut v, chars_of(":").as_slice());
        extend(&mut v, chars_of(self.port_or_default().as_str()).as_slice());
        if !self.database.as_str().is_empty() {
            extend(&mut v, chars_of("/").as_slice());
            extend(&mut v, chars_of(self.database.as_str()).as_slice());
        }
        proof {
            let c = self@;
            let scheme = match c.engine {
                Engine::Pg => "postgresql"@,
                Engine::MsSql => "sqlserver"@,
                _ => "mysql"@,
            };
            let host = if c.host.len() == 0 {
                "localhost"@
            } else {
                c.host
            };
            let user = if c.user.len() == 0 {
                Seq::<char>::empty()
            } else {
                c.user + "@"@
            };
            let db = if c.database.len() == 0 {
                Seq::<char>::empty()
            } else {
                "/"@ + c.database
            };
            assert(v@ =~= scheme + "://"@ + user + host + ":"@ + port_or_default_spec(c) + db);
        }
        string_of(v.as_slice())
    }
}

// ---------------------------------------------------------------------------
// the hint line
// ---------------------------------------------------------------------------

/// `:name` for every snippet, the way psql expands them.
pub open spec fn snippet_names(snips: Seq<Snippet>) -> Seq<Seq<char>> {
    snips.map_values(|s: Snippet| ":"@ + s.name@)
}

/// Whether the configured command's program is this engine's own client:
/// only then does the client read `~/.psqlrc` and its `\set` block.
pub open spec fn runs_default_client(e: Engine, s: SettingsV) -> bool {
    file_name(client_argv_spec(e, s)[0]) == Some(default_client_of(e))
}

/// The hint plus this machine's snippets, when the client can expand them
/// itself. Only psql can, so only psql is told about them.
pub open spec fn hint_line_spec(e: Engine, s: SettingsV, snips: Seq<Snippet>) -> Seq<char> {
    let base = hint_of(e);
    if e != Engine::Pg || !runs_default_client(e, s) || snips.len() == 0 {
        base
    } else {
        base + "\n  "@ + join(snippet_names(snips), " · "@)
    }
}

/// The hint line for an engine, given the snippets found on this machine.
pub fn hint_line_from(engine: Engine, s: &Settings, snips: &[Snippet]) -> (r: String)
    ensures
        r@ == hint_line_spec(engine, s@, snips@),
{
    let base = engine.hint();
    let argv = engine.client_argv(s);
    assert(client_argv_spec(engine, s@).len() > 0);
    assert(views(argv@).len() == argv@.len());
    assert(views(argv@)[0] == argv@[0]@);
    let first = chars_of(argv[0].as_str());
    let d = chars_of(engine.default_client());
    let is_psql = file_name_is(first.as_slice(), d.as_slice());
    if engine != Engine::Pg || !is_psql || snips.len() == 0 {
        return base.to_string();
    }
    let mut names: Vec<Vec<char>> = Vec::new();
    let mut i: usize = 0;
    while i < snips.len()
        invariant
            i <= snips@.len(),
            cviews(names@) == snippet_names(snips@).take(i as int),
        decreases snips@.len() - i,
    {
        let mut n = chars_of(":");
        extend(&mut n, chars_of(snips[i].name.as_str()).as_slice());
        let ghost prev = cviews(names@);
        names.push(n);
        assert(cviews(names@) =~= prev.push(snippet_names(snips@)[i as int]));
        i = i + 1;
        assert(snippet_names(snips@).take(i as int) =~= snippet_names(snips@).take(i - 1).push(
            snippet_names(snips@)[i - 1],
        ));
    }
    assert(snippet_names(snips@).take(snips@.len() as int) =~= snippet_names(snips@));
    let mut v = chars_of(base);
    extend(&mut v, chars_of("\n  ").as_slice());
    extend(&mut v, join_of(&names, chars_of(" · ").as_slice()).as_slice());
    string_of(v.as_slice())
}

// ---------------------------------------------------------------------------
// installing a missing client
// ---------------------------------------------------------------------------

/// The package managers easysql knows how to drive.
#[derive(Clone, Copy, PartialEq, Eq, Debug, Structural)]
pub enum PackageManager {
    Apt,
    Pacman,
    Dnf,
    Zypper,
    Apk,
}

/// In the order they are looked for.
pub open spec fn manager_order() -> Seq<PackageManager> {
    seq![
        PackageManager::Apt,
        PackageManager::Pacman,
        PackageManager::Dnf,
        PackageManager::Zypper,
        PackageManager::Apk,
    ]
}

pub open spec fn program_of(m: PackageManager) -> Seq<char> {
    match m {
        PackageManager::Apt => "apt-get"@,
        PackageManager::Pacman => "pacman"@,
        PackageManager::Dnf => "dnf"@,
        PackageManager::Zypper => "zypper"@,
        PackageManager::Apk => "apk"@,
    }
}

pub open spec fn verb_of(m: PackageManager) -> Seq<char> {
    match m {
        PackageManager::Pacman => "-S"@,
        PackageManager::Apk => "add"@,
        _ => "install"@,
    }
}

/// What each engine's client is called, per manager. `None` means it is not
/// known for certain, and naming a package that does not exist is worse than
/// admitting that. Microsoft ships sqlcmd from its own repo, in no distro's.
pub open spec fn package_of(m: PackageManager, e: Engine) -> Option<Seq<char>> {
    match (m, e) {
        (PackageManager::Apt, Engine::Pg) => Some("postgresql-client"@),
        (PackageManager::Apt, Engine::MySql) => Some("mariadb-client"@),
        (PackageManager::Apt, Engine::Sqlite) => Some("sqlite3"@),
        (PackageManager::Pacman, Engine::Pg) => Some("postgresql"@),
        (PackageManager::Pacman, Engine::MySql) => Some("mariadb-clients"@),
        (PackageManager::Pacman, Engine::Sqlite) => Some("sqlite"@),
        (PackageManager::Dnf, Engine::Pg) => Some("postgresql"@),
        (PackageManager::Dnf, Engine::MySql) => Some("mariadb"@),
        (PackageManager::Dnf, Engine::Sqlite) => Some("sqlite"@),
        (PackageManager::Zypper, Engine::Pg) => Some("postgresql"@),
        (PackageManager::Zypper, Engine::MySql) => Some("mariadb-client"@),
        (PackageManager::Zypper, Engine::Sqlite) => Some("sqlite3"@),
        (PackageManager::Apk, Engine::Pg) => Some("postgresql-client"@),
        (PackageManager::Apk, Engine::MySql) => Some("mariadb-client"@),
        (PackageManager::Apk, Engine::Sqlite) => Some("sqlite"@),
        (_, Engine::MsSql) => None,
    }
}

/// The first manager in look-up order whose program `present` says is on
/// the PATH; `present` lists the managers' answers in that order.
pub open spec fn detect_spec(present: Seq<bool>) -> Option<PackageManager> {
    if present.len() > 0 && present[0] {
        Some(PackageManager::Apt)
    } else if present.len() > 1 && present[1] {
        Some(PackageManager::Pacman)
    } else if present.len() > 2 && present[2] {
        Some(PackageManager::Dnf)
    } else if present.len() > 3 && present[3] {
        Some(PackageManager::Zypper)
    } else if present.len() > 4 && present[4] {
        Some(PackageManager::Apk)
    } else {
        None
    }
}

impl PackageManager {
    /// Every manager, in look-up order.
    pub fn all() -> (r: Vec<PackageManager>)
        ensures
            r@ == manager_order(),
    {
        let r = vec![
            PackageManager::Apt,
            PackageManager::Pacman,
            PackageManager::Dnf,
            PackageManager::Zypper,
            PackageManager::Apk,
        ];
        assert(r@ =~= manager_order());
        r
    }

    /// The program to look for, which is also the one to run.
    pub fn program(self) -> (r: &'static str)
        ensures
            r@ == program_of(self),
    {
        match self {
            PackageManager::Apt => "apt-get",
            PackageManager::Pacman => "pacman",
            PackageManager::Dnf => "dnf",
            PackageManager::Zypper => "zypper",
            PackageManager::Apk => "apk",
        }
    }

    pub fn verb(self) -> (r: &'static str)
        ensures
            r@ == verb_of(self),
    {
        match self {
            PackageManager::Pacman => "-S",
            PackageManager::Apk => "add",
            _ => "install",
        }
    }

    /// Which one this machine has, given for each manager in look-up order
    /// whether its program is on the PATH. What is installed is the fact that
    /// matters, not the distro a machine claims to be.
    pub fn detect(present: &[bool]) -> (r: Option<PackageManager>)
        ensures
            r == detect_spec(present@),
    {
        if present.len() > 0 && present[0] {
            Some(PackageManager::Apt)
        } else if present.len() > 1 && present[1] {
            Some(PackageManager::Pacman)
        } else if present.len() > 2 && present[2] {
            Some(PackageManager::Dnf)
        } else if present.len() > 3 && present[3] {
            Some(PackageManager::Zypper)
        } else if present.len() > 4 && present[4] {
            Some(PackageManager::Apk)
        } else {
            None
        }
    }
}

/// What each engine's client is called under a manager.
pub fn package(manager: PackageManager, engine: Engine) -> (r: Option<&'static str>)
    ensures
        opt_view(r) == package_of(manager, engine),
{
    match (manager, engine) {
        (PackageManager::Apt, Engine::Pg) => Some("postgresql-client"),
        (PackageManager::Apt, Engine::MySql) => Some("mariadb-client"),
        (PackageManager::Apt, Engine::Sqlite) => Some("sqlite3"),
        (PackageManager::Pacman, Engine::Pg) => Some("postgresql"),
        (PackageManager::Pacman, Engine::MySql) => Some("mariadb-clients"),
        (PackageManager::Pacman, Engine::Sqlite) => Some("sqlite"),
        (PackageManager::Dnf, Engine::Pg) => Some("postgresql"),
        (PackageManager::Dnf, Engine::MySql) => Some("mariadb"),
        (PackageManager::Dnf, Engine::Sqlite) => Some("sqlite"),
        (PackageManager::Zypper, Engine::Pg) => Some("postgresql"),
        (PackageManager::Zypper, Engine::MySql) => Some("mariadb-client"),
        (PackageManager::Zypper, Engine::Sqlite) => Some("sqlite3"),
        (PackageManager::Apk, Engine::Pg) => Some("postgresql-client"),
        (PackageManager::Apk, Engine::MySql) => Some("mariadb-client"),
        (PackageManager::Apk, Engine::Sqlite) => Some("sqlite"),
        (_, Engine::MsSql) => None,
    }
}

/// The exact command that installs this engine's client with the machine's
/// manager; `None` without a known manager or package. No `-y`: the modal
/// already asked, and the manager showing what it pulls in is information.
pub open spec fn install_argv_spec(e: Engine, m: Option<PackageManager>) -> Option<Seq<Seq<char>>> {
    match m {
        Some(mm) => match package_of(mm, e) {
            Some(p) => Some(seq!["sudo"@, program_of(mm), verb_of(mm), p]),
            None => None,
        },
        None => None,
    }
}

pub open spec fn opt_views(o: Option<Vec<String>>) -> Option<Seq<Seq<char>>> {
    match o {
        Some(v) => Some(views(v@)),
        None => None,
    }
}

pub fn install_argv(engine: Engine, manager: Option<PackageManager>) -> (r: Option<Vec<String>>)
    ensures
        opt_views(r) == install_argv_spec(engine, manager),
{
    match manager {
        Some(m) => match package(m, engine) {
            Some(p) => {
                let v = vec![
                    "sudo".to_string(),
                    m.program().to_string(),
                    m.verb().to_string(),
                    p.to_string(),
                ];
                assert(views(v@) =~= seq!["sudo"@, program_of(m), verb_of(m), p@]);
                Some(v)
            },
            None => None,
        },
        None => None,
    }
}

/// Just the package name, for a row that has no room for the whole command.
pub fn install_package(engine: Engine, manager: Option<PackageManager>) -> (r: Option<
    &'static str,
>)
    ensures
        opt_view(r) == match manager {
            Some(m) => package_of(m, engine),
            None => None,
        },
{
    match manager {
        Some(m) => package(m, engine),
        None => None,
    }
}

pub open spec fn install_note_of(e: Engine) -> Option<Seq<char>> {
    match e {
        Engine::MsSql => Some(
            "sqlcmd is not in any distro's repos: get it from https://aka.ms/go-sqlcmd, or add Microsoft's repo for mssql-tools18 (which installs to /opt/mssql-tools18/bin, not on PATH)"@,
        ),
        _ => None,
    }
}

/// Where a client comes from when no package manager has it. Only SQL
/// Server needs this.
pub fn install_note(engine: Engine) -> (r: Option<&'static str>)
    ensures
        opt_view(r) == install_note_of(engine),
{
    match engine {
        Engine::MsSql => Some(
            "sqlcmd is not in any distro's repos: get it from https://aka.ms/go-sqlcmd, or add Microsoft's repo for mssql-tools18 (which installs to /opt/mssql-tools18/bin, not on PATH)",
        ),
        _ => None,
    }
}

/// How to install the missing client, as one line: the exact command when
/// the manager is known, else where to get it, else the program to look for.
pub open spec fn install_hint_spec(e: Engine, m: Option<PackageManager>) -> Seq<char> {
    match install_argv_spec(e, m) {
        Some(argv) => join(argv, seq![' ']),
        None => match install_note_of(e) {
            Some(n) => n,
            None => "install your distro's "@ + default_client_of(e) + " package"@,
        },
    }
}

pub fn install_hint(engine: Engine, manager: Option<PackageManager>) -> (r: String)
    ensures
        r@ == install_hint_spec(engine, manager),
{
    match install_argv(engine, manager) {
        Some(argv) => {
            let mut parts: Vec<Vec<char>> = Vec::new();
            let mut i: usize = 0;
            while i < argv.len()
                invariant
                    i <= argv@.len(),
                    cviews(parts@) == views(argv@).take(i as int),
                decreases argv@.len() - i,
            {
                let ghost prev = cviews(parts@);
                parts.push(chars_of(argv[i].as_str()));
                assert(cviews(parts@) =~= prev.push(argv@[i as int]@));
                i = i + 1;
                assert(views(argv@).take(i as int) =~= views(argv@).take(i - 1).push(
                    argv@[i - 1]@,
                ));
            }
            assert(views(argv@).take(argv@.len() as int) =~= views(argv@));
            let sp = vec![' '];
            assert(sp@ =~= seq![' ']);
            string_of(join_of(&parts, sp.as_slice()).as_slice())
        },
        None => match install_note(engine) {
            Some(n) => n.to_string(),
            None => {
                let mut v = chars_of("install your distro's ");
                extend(&mut v, chars_of(engine.default_client()).as_slice());
                extend(&mut v, chars_of(" package").as_slice());
                string_of(v.as_slice())
            },
        },
    }
}

// ---------------------------------------------------------------------------
// the merged list
// ---------------------------------------------------------------------------

/// The list order: by engine in the order they are declared, then by name.
pub open spec fn conn_le(a: ConnV, b: ConnV) -> bool {
    idx_of(a.engine) < idx_of(b.engine) || (idx_of(a.engine) == idx_of(b.engine) && lex_le(
        a.name,
        b.name,
    ))
}

/// `v` with `x` placed after every entry that sorts no later than it, which
/// keeps the sort stable.
pub open spec fn insert_conn(v: Seq<ConnV>, x: ConnV) -> Seq<ConnV>
    decreases v.len(),
{
    if v.len() == 0 {
        seq![x]
    } else if conn_le(v.last(), x) {
        v.push(x)
    } else {
        insert_conn(v.drop_last(), x).push(v.last())
    }
}

/// The connections in list order, stably.
pub open spec fn sort_conns(v: Seq<ConnV>) -> Seq<ConnV>
    decreases v.len(),
{
    if v.len() == 0 {
        seq![]
    } else {
        insert_conn(sort_conns(v.drop_last()), v.last())
    }
}

fn conn_le_of(a: &Conn, b: &Conn) -> (r: bool)
    ensures
        r == conn_le(a@, b@),
{
    let ia = a.engine.idx();
    let ib = b.engine.idx();
    if ia < ib {
        true
    } else if ia == ib {
        let na = chars_of(a.name.as_str());
        let nb = chars_of(b.name.as_str());
        lex_le_of(na.as_slice(), nb.as_slice())
    } else {
        false
    }
}

fn insert_conn_of(v: &mut Vec<Conn>, x: Conn)
    ensures
        conn_views(final(v)@) == insert_conn(conn_views(old(v)@), x@),
{
    let mut tail: Vec<Conn> = Vec::new();
    loop
        invariant_except_break
            insert_conn(conn_views(old(v)@), x@) == insert_conn(conn_views(v@), x@) + conn_views(
                tail@,
            ).reverse(),
        ensures
            insert_conn(conn_views(old(v)@), x@) == conn_views(v@) + conn_views(tail@).reverse(),
        decreases v@.len(),
    {
        if v.len() == 0 {
            let ghost before = conn_views(v@);
            v.push(x);
            assert(conn_views(v@) =~= seq![x@]);
            assert(before =~= Seq::<ConnV>::empty());
            break;
        }
        assert(conn_views(v@).last() == v@[v@.len() - 1]@);
        if conn_le_of(&v[v.len() - 1], &x) {
            let ghost before = conn_views(v@);
            v.push(x);
            assert(conn_views(v@) =~= before.push(x@));
            break;
        }
        let ghost before = conn_views(v@);
        let last = v.pop().unwrap();
        assert(conn_views(v@) =~= before.drop_last());
        let ghost t = conn_views(tail@);
        tail.push(last);
        assert(conn_views(tail@).reverse() =~= seq![before.last()] + t.reverse());
    }
    while tail.len() > 0
        invariant
            insert_conn(conn_views(old(v)@), x@) == conn_views(v@) + conn_views(tail@).reverse(),
        decreases tail@.len(),
    {
        let ghost t0 = conn_views(tail@);
        let ghost v0 = conn_views(v@);
        let y = tail.pop().unwrap();
        let ghost t = conn_views(tail@);
        assert(t0 =~= t.push(y@));
        v.push(y);
        assert(conn_views(v@) =~= v0.push(y@));
        assert(t.push(y@).reverse() =~= seq![y@] + t.reverse());
        assert(conn_views(v@) + t.reverse() =~= v0 + (seq![y@] + t.reverse()));
    }
    assert(conn_views(v@) =~= conn_views(v@) + conn_views(tail@).reverse());
}

/// The connections sorted into list order, stably.
pub fn sort_list(found: Vec<Conn>) -> (r: Vec<Conn>)
    ensures
        conn_views(r@) == sort_conns(conn_views(found@)),
{
    let mut r: Vec<Conn> = Vec::new();
    let mut i: usize = 0;
    while i < found.len()
        invariant
            i <= found@.len(),
            conn_views(r@) == sort_conns(conn_views(found@).take(i as int)),
        decreases found@.len() - i,
    {
        let x = copy_conn(&found[i]);
        assert(conn_views(found@).take(i + 1).drop_last() =~= conn_views(found@).take(i as int));
        assert(conn_views(found@).take(i + 1).last() == found@[i as int]@);
        insert_conn_of(&mut r, x);
        i = i + 1;
    }
    assert(conn_views(found@).take(found@.len() as int) =~= conn_views(found@));
    r
}

/// Every saved connection, from the four files' texts, sorted by engine
/// then name. `esql ls` keeps this order, because a script's output must not
/// depend on what you did yesterday.
pub open spec fn list_spec(pg: Seq<char>, my: Seq<char>, lite: Seq<char>, ms: Seq<char>) -> Seq<
    ConnV,
> {
    sort_conns(
        pg::list_spec(pg) + mysql::list_spec(my) + sqlite::list_spec(lite) + mssql::list_spec(ms),
    )
}

fn append_conns(v: &mut Vec<Conn>, more: Vec<Conn>)
    ensures
        conn_views(final(v)@) == conn_views(old(v)@) + conn_views(more@),
{
    let mut i: usize = 0;
    while i < more.len()
        invariant
            i <= more@.len(),
            conn_views(v@) == conn_views(old(v)@) + conn_views(more@).take(i as int),
        decreases more@.len() - i,
    {
        let ghost prev = conn_views(v@);
        v.push(copy_conn(&more[i]));
        assert(conn_views(v@) =~= prev.push(more@[i as int]@));
        i = i + 1;
        assert(conn_views(more@).take(i as int) =~= conn_views(more@).take(i - 1).push(
            more@[i - 1]@,
        ));
    }
    assert(conn_views(more@).take(more@.len() as int) =~= conn_views(more@));
}

/// Every saved connection, given the texts of the service file, `~/.my.cnf`
/// and the SQLite and SQL Server lists.
pub fn list(pg_text: &str, my_text: &str, lite_text: &str, ms_text: &str) -> (r: Vec<Conn>)
    ensures
        conn_views(r@) == list_spec(pg_text@, my_text@, lite_text@, ms_text@),
{
    let mut all = pg::list_in(pg_text);
    append_conns(&mut all, mysql::list_in(my_text));
    append_conns(&mut all, sqlite::list(lite_text));
    append_conns(&mut all, mssql::list_in(ms_text));
    sort_list(all)
}

// ---------------------------------------------------------------------------
// looking a name up
// ---------------------------------------------------------------------------

/// The handle a connection is known by across engines: `pg:prod`.
pub open spec fn key_spec(c: ConnV) -> Seq<char> {
    slug_of(c.engine) + ":"@ + c.name
}

/// What a lookup comes to.
pub enum Found {
    /// The connection.
    Hit(ConnV),
    /// `slug:name` named an engine with no connection of that name.
    NoSuchIn(Engine, Seq<char>),
    /// No connection has that name.
    NoSuch(Seq<char>),
    /// Several engines have one of that name: their keys.
    Ambiguous(Seq<char>, Seq<Seq<char>>),
}

/// Why a name did not resolve.
#[derive(Debug)]
pub enum LookupError {
    NoSuchIn { engine: Engine, name: String },
    NoSuch { needle: String },
    Ambiguous { needle: String, keys: Vec<String> },
}

pub open spec fn found_of(r: Result<Conn, LookupError>) -> Found {
    match r {
        Ok(c) => Found::Hit(c@),
        Err(LookupError::NoSuchIn { engine, name }) => Found::NoSuchIn(engine, name@),
        Err(LookupError::NoSuch { needle }) => Found::NoSuch(needle@),
        Err(LookupError::Ambiguous { needle, keys }) => Found::Ambiguous(needle@, views(keys@)),
    }
}

pub open spec fn message_spec(e: LookupError) -> Seq<char> {
    match e {
        LookupError::NoSuchIn { engine, name } => "no "@ + label_of(engine)
            + " connection named '"@ + name@ + "'"@,
        LookupError::NoSuch { needle } => "no saved connection named '"@ + needle@
            + "' (try `esql ls`)"@,
        LookupError::Ambiguous { needle, keys } => "'"@ + needle@
            + "' is defined for several engines: "@ + join(views(keys@), ", "@)
            + ". Name one of them."@,
    }
}

impl LookupError {
    /// What to tell the user.
    pub fn message(&self) -> (r: String)
        ensures
            r@ == message_spec(*self),
    {
        match self {
            LookupError::NoSuchIn { engine, name } => {
                let mut v = chars_of("no ");
                extend(&mut v, chars_of(engine.label()).as_slice());
                extend(&mut v, chars_of(" connection named '").as_slice());
                extend(&mut v, chars_of(name.as_str()).as_slice());
                extend(&mut v, chars_of("'").as_slice());
                string_of(v.as_slice())
            },
            LookupError::NoSuch { needle } => {
                let mut v = chars_of("no saved connection named '");
                extend(&mut v, chars_of(needle.as_str()).as_slice());
                extend(&mut v, chars_of("' (try `esql ls`)").as_slice());
                string_of(v.as_slice())
            },
            LookupError::Ambiguous { needle, keys } => {
                let mut parts: Vec<Vec<char>> = Vec::new();
                let mut i: usize = 0;
                while i < keys.len()
                    invariant
                        i <= keys@.len(),
                        cviews(parts@) == views(keys@).take(i as int),
                    decreases keys@.len() - i,
                {
                    let ghost prev = cviews(parts@);
                    parts.push(chars_of(keys[i].as_str()));
                    assert(cviews(parts@) =~= prev.push(keys@[i as int]@));
                    i = i + 1;
                    assert(views(keys@).take(i as int) =~= views(keys@).take(i - 1).push(
                        keys@[i - 1]@,
                    ));
                }
                assert(views(keys@).take(keys@.len() as int) =~= views(keys@));
                let mut v = chars_of("'");
                extend(&mut v, chars_of(needle.as_str()).as_slice());
                extend(&mut v, chars_of("' is defined for several engines: ").as_slice());
                extend(&mut v, join_of(&parts, chars_of(", ").as_slice()).as_slice());
                extend(&mut v, chars_of(". Name one of them.").as_slice());
                string_of(v.as_slice())
            },
        }
    }
}

/// `str::split_once`: the text before the first `c` and after it.
pub open spec fn split_once(s: Seq<char>, c: char) -> Option<(Seq<char>, Seq<char>)> {
    match find_char(s, c) {
        Some(k) => Some((s.take(k), s.skip(k + 1))),
        None => None,
    }
}

/// Where `c` last occurs in `s`.
pub open spec fn rfind_char(s: Seq<char>, c: char) -> Option<int>
    decreases s.len(),
{
    if s.len() == 0 {
        None
    } else if s.last() == c {
        Some(s.len() - 1)
    } else {
        rfind_char(s.drop_last(), c)
    }
}

/// `str::rsplit_once`: the text before the last `c` and after it.
pub open spec fn rsplit_once(s: Seq<char>, c: char) -> Option<(Seq<char>, Seq<char>)> {
    match rfind_char(s, c) {
        Some(k) => Some((s.take(k), s.skip(k + 1))),
        None => None,
    }
}

pub fn rfind(s: &[char], c: char) -> (r: Option<usize>)
    ensures
        r matches Some(i) ==> rfind_char(s@, c) == Some(i as int) && i < s@.len(),
        r is None ==> rfind_char(s@, c) is None,
{
    let mut n: usize = s.len();
    assert(s@.take(s@.len() as int) =~= s@);
    while n > 0
        invariant
            n <= s@.len(),
            rfind_char(s@, c) == rfind_char(s@.take(n as int), c),
        decreases n,
    {
        assert(s@.take(n as int).last() == s@[n - 1]);
        if s[n - 1] == c {
            return Some(n - 1);
        }
        assert(s@.take(n as int).drop_last() =~= s@.take(n - 1));
        n = n - 1;
    }
    None
}

/// The first connection of engine `e` named `name`.
pub open spec fn first_in(all: Seq<ConnV>, e: Engine, name: Seq<char>) -> Option<int>
    decreases all.len(),
{
    if all.len() == 0 {
        None
    } else if all[0].engine == e && all[0].name == name {
        Some(0)
    } else {
        match first_in(all.drop_first(), e, name) {
            Some(i) => Some(i + 1),
            None => None,
        }
    }
}

/// The connections named `needle`, in list order.
pub open spec fn named(all: Seq<ConnV>, needle: Seq<char>) -> Seq<ConnV> {
    all.filter(|c: ConnV| c.name == needle)
}

/// Look a name up the way the CLI does: bare `prod`, or `pg:prod` when two
/// engines both have one. An ambiguous bare name is an error, never a guess.
pub open spec fn find_among_spec(all: Seq<ConnV>, needle: Seq<char>) -> Found {
    match split_once(needle, ':') {
        Some(parts) => match from_slug_spec(parts.0) {
            Some(e) => match first_in(all, e, parts.1) {
                Some(i) => Found::Hit(all[i]),
                None => Found::NoSuchIn(e, parts.1),
            },
            None => find_bare(all, needle),
        },
        None => find_bare(all, needle),
    }
}

/// A name without an engine: the one connection with it, or why not.
pub open spec fn find_bare(all: Seq<ConnV>, needle: Seq<char>) -> Found {
    let hits = named(all, needle);
    if hits.len() == 0 {
        Found::NoSuch(needle)
    } else if hits.len() == 1 {
        Found::Hit(hits[0])
    } else {
        Found::Ambiguous(needle, hits.map_values(|c: ConnV| key_spec(c)))
    }
}

proof fn lemma_first_in(all: Seq<ConnV>, e: Engine, name: Seq<char>, i: int)
    requires
        0 <= i <= all.len(),
        forall|j: int| 0 <= j < i ==> !((#[trigger] all[j]).engine == e && all[j].name == name),
    ensures
        i < all.len() && all[i].engine == e && all[i].name == name ==> first_in(all, e, name)
            == Some(i),
        i == all.len() ==> first_in(all, e, name) is None,
    decreases i,
{
    if i > 0 {
        assert forall|j: int| 0 <= j < i - 1 implies !((#[trigger] all.drop_first()[j]).engine
            == e && all.drop_first()[j].name == name) by {
            assert(all.drop_first()[j] == all[j + 1]);
        }
        lemma_first_in(all.drop_first(), e, name, i - 1);
    }
}

pub fn find_among(all: &Vec<Conn>, needle: &str) -> (r: Result<Conn, LookupError>)
    ensures
        found_of(r) == find_among_spec(conn_views(all@), needle@),
{
    let n = chars_of(needle);
    let ghost av = conn_views(all@);
    match find(n.as_slice(), ':') {
        Some(k) => {
            assert(k < n.len());
            let slug = slice_to_vec(n.as_slice(), 0, k);
            let name = slice_to_vec(n.as_slice(), k + 1, n.len());
            assert(slug@ =~= needle@.take(k as int));
            assert(name@ =~= needle@.skip(k + 1));
            assert(split_once(needle@, ':') == Some((slug@, name@)));
            let slug_s = string_of(slug.as_slice());
            match Engine::from_slug(slug_s.as_str()) {
                Some(e) => {
                    let mut i: usize = 0;
                    while i < all.len()
                        invariant
                            i <= all@.len(),
                            av == conn_views(all@),
                            from_slug_spec(slug@) == Some(e),
                            split_once(needle@, ':') == Some((slug@, name@)),
                            forall|j: int|
                                0 <= j < i ==> !((#[trigger] av[j]).engine == e && av[j].name
                                    == name@),
                        decreases all@.len() - i,
                    {
                        assert(av[i as int] == all@[i as int]@);
                        let cn = chars_of(all[i].name.as_str());
                        if all[i].engine == e && seq_eq(cn.as_slice(), name.as_slice()) {
                            proof {
                                lemma_first_in(av, e, name@, i as int);
                            }
                            assert(first_in(av, e, name@) == Some(i as int));
                            assert(find_among_spec(av, needle@) == Found::Hit(av[i as int]));
                            let c = copy_conn(&all[i]);
                            assert(c@ == av[i as int]);
                            return Ok(c);
                        }
                        i = i + 1;
                    }
                    proof {
                        lemma_first_in(av, e, name@, i as int);
                    }
                    return Err(LookupError::NoSuchIn { engine: e, name: string_of(name.as_slice()) });
                },
                None => {},
            }
        },
        None => {},
    }
    let mut hits: Vec<Conn> = Vec::new();
    let mut i: usize = 0;
    while i < all.len()
        invariant
            i <= all@.len(),
            av == conn_views(all@),
            n@ == needle@,
            conn_views(hits@) == named(av.take(i as int), needle@),
        decreases all@.len() - i,
    {
        let ghost prev = conn_views(hits@);
        proof {
            reveal_with_fuel(Seq::filter, 1);
            assert(av.take(i + 1).drop_last() =~= av.take(i as int));
        }
        assert(av[i as int] == all@[i as int]@);
        let cn = chars_of(all[i].name.as_str());
        if seq_eq(cn.as_slice(), n.as_slice()) {
            hits.push(copy_conn(&all[i]));
            assert(conn_views(hits@) =~= prev.push(av[i as int]));
        }
        i = i + 1;
    }
    assert(av.take(all@.len() as int) =~= av);
    if hits.len() == 0 {
        Err(LookupError::NoSuch { needle: needle.to_string() })
    } else if hits.len() == 1 {
        let c = hits.pop().unwrap();
        Ok(c)
    } else {
        let mut keys: Vec<String> = Vec::new();
        let mut j: usize = 0;
        let ghost hv = conn_views(hits@);
        while j < hits.len()
            invariant
                j <= hits@.len(),
                hv == conn_views(hits@),
                views(keys@) == hv.map_values(|c: ConnV| key_spec(c)).take(j as int),
            decreases hits@.len() - j,
        {
            let ghost prev = views(keys@);
            keys.push(hits[j].key());
            assert(hv[j as int] == hits@[j as int]@);
            assert(views(keys@) =~= prev.push(key_spec(hv[j as int])));
            j = j + 1;
            assert(hv.map_values(|c: ConnV| key_spec(c)).take(j as int) =~= hv.map_values(
                |c: ConnV| key_spec(c),
            ).take(j - 1).push(key_spec(hv[j - 1])));
        }
        assert(hv.map_values(|c: ConnV| key_spec(c)).take(hits@.len() as int) =~= hv.map_values(
            |c: ConnV| key_spec(c),
        ));
        Err(LookupError::Ambiguous { needle: needle.to_string(), keys })
    }
}

/// What the CLI is handed: a name, or `<name>/<db>` to point that connection
/// at another database on the same server. The whole string is tried as a
/// name first, so a connection whose own name contains a slash still
/// resolves; a name that exists but is ambiguous is refused, never reread
/// as another connection plus a database, which would run on the wrong host.
pub open spec fn find_target_spec(all: Seq<ConnV>, needle: Seq<char>) -> (Found, Option<Seq<char>>) {
    let f = find_among_spec(all, needle);
    if f is Hit {
        (f, None)
    } else if named(all, needle).len() > 0 {
        (f, None)
    } else {
        match rsplit_once(needle, '/') {
            Some((name, db)) => if name.len() > 0 && db.len() > 0 {
                let g = find_among_spec(all, name);
                if g is Hit {
                    (g, Some(db))
                } else {
                    (g, None)
                }
            } else {
                (f, None)
            },
            None => (f, None),
        }
    }
}

pub open spec fn target_found(r: Result<(Conn, Option<String>), LookupError>) -> (Found, Option<
    Seq<char>,
>) {
    match r {
        Ok((c, db)) => (Found::Hit(c@), opt_sview(db)),
        Err(e) => (found_of(Err(e)), None),
    }
}

/// Whether some connection is named exactly `needle`.
fn any_named(all: &Vec<Conn>, needle: &[char]) -> (r: bool)
    ensures
        r == (named(conn_views(all@), needle@).len() > 0),
{
    let ghost av = conn_views(all@);
    let mut i: usize = 0;
    while i < all.len()
        invariant
            i <= all@.len(),
            av == conn_views(all@),
            named(av.take(i as int), needle@).len() == 0,
        decreases all@.len() - i,
    {
        proof {
            reveal_with_fuel(Seq::filter, 1);
            assert(av.take(i + 1).drop_last() =~= av.take(i as int));
        }
        assert(av[i as int] == all@[i as int]@);
        let cn = chars_of(all[i].name.as_str());
        if seq_eq(cn.as_slice(), needle) {
            proof {
                lemma_filter_grows(av, needle@, i as int);
            }
            return true;
        }
        i = i + 1;
    }
    assert(av.take(all@.len() as int) =~= av);
    false
}

proof fn lemma_filter_grows(av: Seq<ConnV>, needle: Seq<char>, i: int)
    requires
        0 <= i < av.len(),
        av[i].name == needle,
    ensures
        named(av, needle).len() > 0,
    decreases av.len(),
{
    reveal_with_fuel(Seq::filter, 1);
    if i == av.len() - 1 {
        assert(av.drop_last().filter(|c: ConnV| c.name == needle).push(av.last()) == named(
            av,
            needle,
        ));
    } else {
        lemma_filter_grows(av.drop_last(), needle, i);
        assert(av.drop_last()[i] == av[i]);
    }
}

pub fn find_target_among(all: Vec<Conn>, needle: &str) -> (r: Result<(Conn, Option<String>), LookupError>)
    ensures
        target_found(r) == find_target_spec(conn_views(all@), needle@),
{
    let n = chars_of(needle);
    match find_among(&all, needle) {
        Ok(c) => Ok((c, None)),
        Err(e) => {
            if any_named(&all, n.as_slice()) {
                return Err(e);
            }
            match rfind(n.as_slice(), '/') {
                Some(k) => {
                    assert(k < n.len());
                    let name = slice_to_vec(n.as_slice(), 0, k);
                    let db = slice_to_vec(n.as_slice(), k + 1, n.len());
                    assert(name@ =~= needle@.take(k as int));
                    assert(db@ =~= needle@.skip(k + 1));
                    assert(rsplit_once(needle@, '/') == Some((name@, db@)));
                    if name.len() > 0 && db.len() > 0 {
                        let ns = string_of(name.as_slice());
                        match find_among(&all, ns.as_str()) {
                            Ok(c) => Ok((c, Some(string_of(db.as_slice())))),
                            Err(e2) => Err(e2),
                        }
                    } else {
                        Err(e)
                    }
                },
                None => Err(e),
            }
        },
    }
}

/// `find_target_among` over every saved connection, from the four files'
/// texts.
pub fn find_target(
    pg_text: &str,
    my_text: &str,
    lite_text: &str,
    ms_text: &str,
    needle: &str,
) -> (r: Result<(Conn, Option<String>), LookupError>)
    ensures
        target_found(r) == find_target_spec(
            list_spec(pg_text@, my_text@, lite_text@, ms_text@),
            needle@,
        ),
{
    let all = list(pg_text, my_text, lite_text, ms_text);
    find_target_among(all, needle)
}

// ---------------------------------------------------------------------------
// writing
// ---------------------------------------------------------------------------

/// The new text of a connection's file after creating or rewriting it.
pub open spec fn save_spec(text: Seq<char>, original: Option<&str>, nc: NewConnV) -> Seq<char> {
    let name = crate::text::trim(nc.name);
    match nc.engine {
        Engine::Pg => file_body(
            upsert_lines(text, target_of(original, name), name, pg::save_keys(nc)),
        ),
        Engine::MySql => file_body(
            upsert_lines(
                text,
                mysql::existing_group(original, name),
                mysql::group_spec(name),
                mysql::save_keys(text, original, nc),
            ),
        ),
        Engine::Sqlite => file_body(
            upsert_lines(text, target_of(original, name), name, sqlite::save_keys(nc)),
        ),
        Engine::MsSql => file_body(
            upsert_lines(text, target_of(original, name), name, mssql::save_keys(nc)),
        ),
    }
}

/// The new text of a connection's file after creating or rewriting it:
/// `text` is the file `nc.engine` keeps its connections in.
pub fn save(text: &str, original: Option<&str>, nc: &NewConn) -> (r: String)
    ensures
        r@ == save_spec(text@, original, nc@),
{
    match nc.engine {
        Engine::Pg => pg::save(text, original, nc),
        Engine::MySql => mysql::save(text, original, nc),
        Engine::Sqlite => sqlite::save(text, original, nc),
        Engine::MsSql => mssql::save(text, original, nc),
    }
}

/// The block a connection lives in: its name, or its group for MySQL.
pub open spec fn block_name(c: ConnV) -> Seq<char> {
    match c.engine {
        Engine::MySql => mysql::group_spec(c.name),
        _ => c.name,
    }
}

/// The new text of a connection's file without it; `None` when it is not
/// there.
pub fn delete(text: &str, c: &Conn) -> (r: Option<String>)
    ensures
        r matches Some(s) ==> remove_lines(text@, block_name(c@)) matches Some(ls) && s@
            == file_body(ls),
        r is None ==> remove_lines(text@, block_name(c@)) is None,
{
    match c.engine {
        Engine::Pg => pg::delete(text, c.name.as_str()),
        Engine::MySql => mysql::delete(text, c.name.as_str()),
        Engine::Sqlite => sqlite::delete(text, c.name.as_str()),
        Engine::MsSql => mssql::delete(text, c.name.as_str()),
    }
}

/// The file an engine's connections live in, which is also the file its own
/// client reads, given `$PGSERVICEFILE`, the home and the config directory.
pub open spec fn store_spec(e: Engine, env: Option<Seq<char>>, home: Seq<char>, config: Seq<char>) -> Seq<char> {
    match e {
        Engine::Pg => pg::service_path_spec(env, home),
        Engine::MySql => mysql::cnf_path_spec(home),
        Engine::Sqlite => sqlite::store_path_spec(config),
        Engine::MsSql => mssql::store_path_spec(config),
    }
}

impl Engine {
    /// The file this engine's connections live in, given what
    /// `$PGSERVICEFILE` holds, the home directory and the config directory.
    pub fn store_in(self, pgservicefile: Option<&str>, home: &str, config: &str) -> (r: String)
        ensures
            r@ == store_spec(self, opt_view(pgservicefile), home@, config@),
    {
        match self {
            Engine::Pg => pg::service_path_in(pgservicefile, home),
            Engine::MySql => join_path_of(home, ".my.cnf"),
            Engine::Sqlite => sqlite::store_path_in(config),
            Engine::MsSql => {
                let d = join_path_of(config, "easysql");
                join_path_of(d.as_str(), "mssql.conf")
            },
        }
    }

    /// The file this engine's connections live in on this machine, given
    /// what `$PGSERVICEFILE` holds.
    pub fn store(self, pgservicefile: Option<&str>) -> (r: String)
        ensures
            exists|h: Seq<char>, c: Seq<char>| r@ == store_spec(self, opt_view(pgservicefile), h, c),
    {
        let h = home();
        let c = config_dir();
        let r = self.store_in(pgservicefile, h.as_str(), c.as_str());
        assert(r@ == store_spec(self, opt_view(pgservicefile), h@, c@));
        r
    }
}

// ---------------------------------------------------------------------------
// what a saved connection reads back as
// ---------------------------------------------------------------------------

/// The four wizard fields a connection is written with, under the keys its
/// file reads them by.
pub open spec fn fields_of(
    k1: Seq<char>,
    k2: Seq<char>,
    k3: Seq<char>,
    k4: Seq<char>,
    nc: NewConnV,
) -> Seq<(Seq<char>, Seq<char>)> {
    pg::field(k1, nc.host) + pg::field(k2, nc.port) + pg::field(k3, nc.database) + pg::field(
        k4,
        nc.user,
    )
}

/// The keys a connection of this engine's file is read by; the rest of a
/// block is carried as extras.
pub open spec fn known_of(e: Engine) -> Seq<&'static str> {
    match e {
        Engine::Pg => pg::known(),
        Engine::MySql => mysql::known(),
        Engine::Sqlite => sqlite::known(),
        Engine::MsSql => mssql::known(),
    }
}

/// A new connection whose every part reads back as typed: its name and its
/// fields, trimmed, on one line; its carried keys plain, apart from one
/// another, and owned by no field of its engine.
pub open spec fn plain_new(nc: NewConnV) -> bool {
    &&& !crate::text::contains(crate::text::trim(nc.name), '\n')
    &&& !crate::text::contains(crate::text::trim(nc.host), '\n')
    &&& !crate::text::contains(crate::text::trim(nc.port), '\n')
    &&& !crate::text::contains(crate::text::trim(nc.database), '\n')
    &&& !crate::text::contains(crate::text::trim(nc.user), '\n')
    &&& crate::ini::plain_keys(nc.extra)
    &&& forall|i: int|
        0 <= i < nc.extra.len() ==> !crate::ini::is_known(
            known_of(nc.engine),
            #[trigger] nc.extra[i].0,
        )
}

/// The connections an engine's file lists.
pub open spec fn listed(e: Engine, text: Seq<char>) -> Seq<ConnV> {
    match e {
        Engine::Pg => pg::list_spec(text),
        Engine::MySql => mysql::list_spec(text),
        Engine::Sqlite => sqlite::list_spec(text),
        Engine::MsSql => mssql::list_spec(text),
    }
}

/// The block a new connection is written as.
pub open spec fn new_block(nc: NewConnV) -> Seq<char> {
    match nc.engine {
        Engine::MySql => mysql::group_spec(crate::text::trim(nc.name)),
        _ => crate::text::trim(nc.name),
    }
}

/// The connection a saved one is listed as: what was typed, trimmed; an
/// SQLite file has no host, port or user.
pub open spec fn typed_conn(nc: NewConnV) -> ConnV {
    let t = |v: Seq<char>| crate::text::trim(v);
    match nc.engine {
        Engine::Sqlite => ConnV {
            engine: nc.engine,
            name: t(nc.name),
            host: seq![],
            port: seq![],
            database: t(nc.database),
            user: seq![],
            extra: nc.extra,
        },
        _ => ConnV {
            engine: nc.engine,
            name: t(nc.name),
            host: t(nc.host),
            port: t(nc.port),
            database: t(nc.database),
            user: t(nc.user),
            extra: nc.extra,
        },
    }
}

proof fn lemma_field(k: Seq<char>, v: Seq<char>)
    requires
        crate::ini::plain_key(k),
        !crate::text::contains(crate::text::trim(v), '\n'),
    ensures
        crate::ini::plain_keys(pg::field(k, v)),
        forall|j: int| 0 <= j < pg::field(k, v).len() ==> (#[trigger] pg::field(k, v)[j]).0 == k,
        pg::or_empty(crate::ini::lookup(pg::field(k, v), k)) == crate::text::trim(v),
{
    crate::text::lemma_trim_idem(v);
    let f = pg::field(k, v);
    assert(eq_ic(k, k));
    if crate::text::trim(v).len() == 0 {
        crate::ini::lemma_key_index(f, k, 0);
        assert(crate::text::trim(v) =~= Seq::<char>::empty());
    } else {
        assert(f[0] == (k, crate::text::trim(v)));
        crate::ini::lemma_key_index(f, k, 0);
    }
}

/// A key its engine owns is no carried key.
proof fn lemma_owned_apart(known: Seq<&str>, k: Seq<char>, x: Seq<char>)
    requires
        crate::ini::is_known(known, k),
        !crate::ini::is_known(known, x),
    ensures
        !eq_ic(k, x),
        !eq_ic(x, k),
{
    reveal(crate::ini::is_known);
    let j = choose|j: int| 0 <= j < known.len() && eq_ic(#[trigger] known[j]@, k);
    crate::text::lemma_eq_ic_sym(k, x);
    if eq_ic(k, x) {
        assert(eq_ic(known[j]@, x));
    }
}

/// Four fields under four keys, then keys kept from the block being
/// replaced, then the carried ones: the whole reads back as those fields and
/// those carried keys, the kept ones being owned by the engine.
proof fn lemma_fields_read(
    k1: Seq<char>,
    k2: Seq<char>,
    k3: Seq<char>,
    k4: Seq<char>,
    nc: NewConnV,
    kept: Seq<(Seq<char>, Seq<char>)>,
    x: Seq<(Seq<char>, Seq<char>)>,
    known: Seq<&str>,
)
    requires
        crate::ini::plain_key(k1),
        crate::ini::plain_key(k2),
        crate::ini::plain_key(k3),
        crate::ini::plain_key(k4),
        !eq_ic(k1, k2),
        !eq_ic(k1, k3),
        !eq_ic(k1, k4),
        !eq_ic(k2, k3),
        !eq_ic(k2, k4),
        !eq_ic(k3, k4),
        crate::ini::is_known(known, k1),
        crate::ini::is_known(known, k2),
        crate::ini::is_known(known, k3),
        crate::ini::is_known(known, k4),
        !crate::text::contains(crate::text::trim(nc.host), '\n'),
        !crate::text::contains(crate::text::trim(nc.port), '\n'),
        !crate::text::contains(crate::text::trim(nc.database), '\n'),
        !crate::text::contains(crate::text::trim(nc.user), '\n'),
        crate::ini::plain_keys(kept),
        forall|i: int| 0 <= i < kept.len() ==> crate::ini::is_known(known, #[trigger] kept[i].0),
        forall|i: int|
            0 <= i < kept.len() ==> !eq_ic(#[trigger] kept[i].0, k1) && !eq_ic(kept[i].0, k2)
                && !eq_ic(kept[i].0, k3) && !eq_ic(kept[i].0, k4),
        crate::ini::plain_keys(x),
        forall|i: int| 0 <= i < x.len() ==> !crate::ini::is_known(known, #[trigger] x[i].0),
    ensures
        ({
            let kk = (fields_of(k1, k2, k3, k4, nc) + kept) + x;
            &&& crate::ini::plain_keys(kk)
            &&& pg::or_empty(crate::ini::lookup(kk, k1)) == crate::text::trim(nc.host)
            &&& pg::or_empty(crate::ini::lookup(kk, k2)) == crate::text::trim(nc.port)
            &&& pg::or_empty(crate::ini::lookup(kk, k3)) == crate::text::trim(nc.database)
            &&& pg::or_empty(crate::ini::lookup(kk, k4)) == crate::text::trim(nc.user)
            &&& crate::ini::rest_of(kk, known) == x
        }),
{
    let f1 = pg::field(k1, nc.host);
    let f2 = pg::field(k2, nc.port);
    let f3 = pg::field(k3, nc.database);
    let f4 = pg::field(k4, nc.user);
    lemma_field(k1, nc.host);
    lemma_field(k2, nc.port);
    lemma_field(k3, nc.database);
    lemma_field(k4, nc.user);
    crate::text::lemma_eq_ic_sym(k1, k2);
    crate::text::lemma_eq_ic_sym(k1, k3);
    crate::text::lemma_eq_ic_sym(k1, k4);
    crate::text::lemma_eq_ic_sym(k2, k3);
    crate::text::lemma_eq_ic_sym(k2, k4);
    crate::text::lemma_eq_ic_sym(k3, k4);
    let a2 = f1 + f2;
    let a3 = a2 + f3;
    let ff = a3 + f4;
    let fk = ff + kept;
    let kk = fk + x;
    assert(kk == (fields_of(k1, k2, k3, k4, nc) + kept) + x);
    // every written field is under one of the four keys
    assert forall|j: int| 0 <= j < ff.len() implies (#[trigger] ff[j]).0 == k1 || ff[j].0 == k2
        || ff[j].0 == k3 || ff[j].0 == k4 by {
        if j < f1.len() {
            assert(ff[j] == f1[j]);
        } else if j < a2.len() {
            assert(ff[j] == f2[j - f1.len()]);
        } else if j < a3.len() {
            assert(ff[j] == f3[j - a2.len()]);
        } else {
            assert(ff[j] == f4[j - a3.len()]);
        }
    }
    assert forall|j: int| 0 <= j < kept.len() implies !eq_ic(k1, #[trigger] kept[j].0) && !eq_ic(
        k2,
        kept[j].0,
    ) && !eq_ic(k3, kept[j].0) && !eq_ic(k4, kept[j].0) by {
        crate::text::lemma_eq_ic_sym(k1, kept[j].0);
        crate::text::lemma_eq_ic_sym(k2, kept[j].0);
        crate::text::lemma_eq_ic_sym(k3, kept[j].0);
        crate::text::lemma_eq_ic_sym(k4, kept[j].0);
    }
    assert forall|j: int| 0 <= j < x.len() implies !eq_ic(#[trigger] x[j].0, k1) && !eq_ic(
        x[j].0,
        k2,
    ) && !eq_ic(x[j].0, k3) && !eq_ic(x[j].0, k4) by {
        lemma_owned_apart(known, k1, x[j].0);
        lemma_owned_apart(known, k2, x[j].0);
        lemma_owned_apart(known, k3, x[j].0);
        lemma_owned_apart(known, k4, x[j].0);
    }
    // plain, and no two keys alike
    crate::ini::lemma_plain_keys_add(f1, f2);
    assert forall|i: int, j: int| 0 <= i < a2.len() && 0 <= j < f3.len() implies !eq_ic(
        #[trigger] a2[i].0,
        #[trigger] f3[j].0,
    ) by {
        if i < f1.len() {
            assert(a2[i] == f1[i]);
        } else {
            assert(a2[i] == f2[i - f1.len()]);
        }
    }
    crate::ini::lemma_plain_keys_add(a2, f3);
    assert forall|i: int, j: int| 0 <= i < a3.len() && 0 <= j < f4.len() implies !eq_ic(
        #[trigger] a3[i].0,
        #[trigger] f4[j].0,
    ) by {
        if i < f1.len() {
            assert(a3[i] == f1[i]);
        } else if i < a2.len() {
            assert(a3[i] == f2[i - f1.len()]);
        } else {
            assert(a3[i] == f3[i - a2.len()]);
        }
    }
    crate::ini::lemma_plain_keys_add(a3, f4);
    assert forall|i: int, j: int| 0 <= i < ff.len() && 0 <= j < kept.len() implies !eq_ic(
        #[trigger] ff[i].0,
        #[trigger] kept[j].0,
    ) by {
        assert(ff[i].0 == k1 || ff[i].0 == k2 || ff[i].0 == k3 || ff[i].0 == k4);
    }
    crate::ini::lemma_plain_keys_add(ff, kept);
    assert forall|i: int| 0 <= i < fk.len() implies crate::ini::is_known(known, #[trigger] fk[i].0) by {
        if i < ff.len() {
            assert(fk[i] == ff[i]);
            assert(ff[i].0 == k1 || ff[i].0 == k2 || ff[i].0 == k3 || ff[i].0 == k4);
        } else {
            assert(fk[i] == kept[i - ff.len()]);
        }
    }
    assert forall|i: int, j: int| 0 <= i < fk.len() && 0 <= j < x.len() implies !eq_ic(
        #[trigger] fk[i].0,
        #[trigger] x[j].0,
    ) by {
        assert(crate::ini::is_known(known, fk[i].0));
        lemma_owned_apart(known, fk[i].0, x[j].0);
    }
    crate::ini::lemma_plain_keys_add(fk, x);
    // each field is found under its own key
    crate::ini::lemma_lookup_skip_back(fk, x, k1);
    crate::ini::lemma_lookup_skip_back(ff, kept, k1);
    crate::ini::lemma_lookup_skip_back(a3, f4, k1);
    crate::ini::lemma_lookup_skip_back(a2, f3, k1);
    crate::ini::lemma_lookup_skip_back(f1, f2, k1);
    crate::ini::lemma_lookup_skip_back(fk, x, k2);
    crate::ini::lemma_lookup_skip_back(ff, kept, k2);
    crate::ini::lemma_lookup_skip_back(a3, f4, k2);
    crate::ini::lemma_lookup_skip_back(a2, f3, k2);
    crate::ini::lemma_lookup_skip_front(f1, f2, k2);
    crate::ini::lemma_lookup_skip_back(fk, x, k3);
    crate::ini::lemma_lookup_skip_back(ff, kept, k3);
    crate::ini::lemma_lookup_skip_back(a3, f4, k3);
    assert forall|j: int| 0 <= j < a2.len() implies !eq_ic(#[trigger] a2[j].0, k3) by {
        if j < f1.len() {
            assert(a2[j] == f1[j]);
        } else {
            assert(a2[j] == f2[j - f1.len()]);
        }
    }
    crate::ini::lemma_lookup_skip_front(a2, f3, k3);
    crate::ini::lemma_lookup_skip_back(fk, x, k4);
    crate::ini::lemma_lookup_skip_back(ff, kept, k4);
    assert forall|j: int| 0 <= j < a3.len() implies !eq_ic(#[trigger] a3[j].0, k4) by {
        if j < f1.len() {
            assert(a3[j] == f1[j]);
        } else if j < a2.len() {
            assert(a3[j] == f2[j - f1.len()]);
        } else {
            assert(a3[j] == f3[j - a2.len()]);
        }
    }
    crate::ini::lemma_lookup_skip_front(a3, f4, k4);
    // and the carried keys are what is left over
    crate::ini::lemma_rest_of_split(fk, x, known);
}

proof fn lemma_lower_literal(k: Seq<char>, n: int)
    requires
        k.len() == n,
        1 <= n <= 8,
        n > 0 ==> 'a' <= k[0] <= 'z',
        n > 1 ==> 'a' <= k[1] <= 'z',
        n > 2 ==> 'a' <= k[2] <= 'z',
        n > 3 ==> 'a' <= k[3] <= 'z',
        n > 4 ==> 'a' <= k[4] <= 'z',
        n > 5 ==> 'a' <= k[5] <= 'z',
        n > 6 ==> 'a' <= k[6] <= 'z',
        n > 7 ==> 'a' <= k[7] <= 'z',
    ensures
        crate::ini::plain_key(k),
{
    assert forall|i: int| 0 <= i < k.len() implies 'a' <= #[trigger] k[i] <= 'z' by {
        if i == 0 {} else if i == 1 {} else if i == 2 {} else if i == 3 {} else if i == 4 {
        } else if i == 5 {} else if i == 6 {} else {}
    }
    crate::ini::lemma_lower_word(k);
}

/// What the field keys are, to a reader of the files.
proof fn lemma_field_keys()
    ensures
        crate::ini::plain_key("host"@),
        crate::ini::plain_key("port"@),
        crate::ini::plain_key("dbname"@),
        crate::ini::plain_key("database"@),
        crate::ini::plain_key("user"@),
        crate::ini::plain_key("path"@),
        !eq_ic("host"@, "port"@),
        !eq_ic("host"@, "dbname"@),
        !eq_ic("host"@, "database"@),
        !eq_ic("host"@, "user"@),
        !eq_ic("port"@, "dbname"@),
        !eq_ic("port"@, "database"@),
        !eq_ic("port"@, "user"@),
        !eq_ic("dbname"@, "user"@),
        !eq_ic("database"@, "user"@),
        crate::ini::is_known(pg::known(), "host"@),
        crate::ini::is_known(pg::known(), "port"@),
        crate::ini::is_known(pg::known(), "dbname"@),
        crate::ini::is_known(pg::known(), "user"@),
        crate::ini::is_known(mssql::known(), "host"@),
        crate::ini::is_known(mssql::known(), "port"@),
        crate::ini::is_known(mssql::known(), "database"@),
        crate::ini::is_known(mssql::known(), "user"@),
        crate::ini::is_known(mysql::known(), "host"@),
        crate::ini::is_known(mysql::known(), "port"@),
        crate::ini::is_known(mysql::known(), "database"@),
        crate::ini::is_known(mysql::known(), "user"@),
        crate::ini::is_known(sqlite::known(), "path"@),
        crate::ini::plain_key("password"@),
        crate::ini::is_known(mysql::known(), "password"@),
        !eq_ic("host"@, "password"@),
        !eq_ic("port"@, "password"@),
        !eq_ic("database"@, "password"@),
        !eq_ic("user"@, "password"@),
{
    reveal_strlit("host");
    reveal_strlit("port");
    reveal_strlit("dbname");
    reveal_strlit("database");
    reveal_strlit("user");
    reveal_strlit("path");
    lemma_lower_literal("host"@, 4);
    lemma_lower_literal("port"@, 4);
    lemma_lower_literal("dbname"@, 6);
    lemma_lower_literal("database"@, 8);
    lemma_lower_literal("user"@, 4);
    lemma_lower_literal("path"@, 4);
    reveal_strlit("password");
    lemma_lower_literal("password"@, 8);
    assert(!eq_ic("port"@, "password"@)) by {
        assert("port"@[1] == 'o' && "password"@[1] == 'a');
    }
    assert(!eq_ic("database"@, "password"@)) by {
        assert("database"@[0] == 'd' && "password"@[0] == 'p');
    }
    assert(eq_ic("password"@, "password"@));
    assert(mysql::known()[4]@ == "password"@);
    assert(!eq_ic("host"@, "port"@)) by {
        assert("host"@[0] == 'h' && "port"@[0] == 'p');
    }
    assert(!eq_ic("host"@, "user"@)) by {
        assert("host"@[0] == 'h' && "user"@[0] == 'u');
    }
    assert(!eq_ic("port"@, "user"@)) by {
        assert("port"@[0] == 'p' && "user"@[0] == 'u');
    }
    reveal(crate::ini::is_known);
    assert(eq_ic("host"@, "host"@));
    assert(eq_ic("port"@, "port"@));
    assert(eq_ic("dbname"@, "dbname"@));
    assert(eq_ic("database"@, "database"@));
    assert(eq_ic("user"@, "user"@));
    assert(eq_ic("path"@, "path"@));
    assert(pg::known()[0]@ == "host"@ && pg::known()[1]@ == "port"@);
    assert(pg::known()[2]@ == "dbname"@ && pg::known()[3]@ == "user"@);
    assert(mssql::known()[0]@ == "host"@ && mssql::known()[1]@ == "port"@);
    assert(mssql::known()[2]@ == "database"@ && mssql::known()[3]@ == "user"@);
    assert(mysql::known()[0]@ == "host"@ && mysql::known()[1]@ == "port"@);
    assert(mysql::known()[2]@ == "database"@ && mysql::known()[3]@ == "user"@);
    assert(sqlite::known()[0]@ == "path"@);
}

/// A new block's name reads back as itself.
proof fn lemma_block_plain(nc: NewConnV)
    requires
        plain_new(nc),
        nc.engine == Engine::MySql ==> crate::text::trim(nc.name).len() > 0,
    ensures
        crate::ini::plain(new_block(nc)),
        nc.engine == Engine::MySql ==> mysql::name_spec(new_block(nc)) == Some(
            crate::text::trim(nc.name),
        ),
{
    let t = crate::text::trim(nc.name);
    crate::text::lemma_trim_idem(nc.name);
    if nc.engine == Engine::MySql {
        reveal_strlit("client");
        let c = "client"@;
        let g = c + t;
        assert(g == new_block(nc));
        crate::text::lemma_trimmed_ends(t);
        assert(g[0] == 'c');
        assert(g.last() == t.last());
        crate::text::lemma_trim_fixed(g);
        if crate::text::contains(g, '\n') {
            let j = choose|j: int| 0 <= j < g.len() && g[j] == '\n';
            if j >= c.len() {
                assert(g[j] == t[j - c.len()]);
            } else {
                assert(c[j] != '\n') by {
                    if j == 0 {} else if j == 1 {} else if j == 2 {} else if j == 3 {} else if j == 4 {
                    } else {}
                }
            }
        }
        assert(g.take(c.len() as int) =~= c);
        assert(g.skip(c.len() as int) =~= t);
    }
}

proof fn lemma_mysql_same_blocks(a: Seq<crate::ini::SectionV>, b: Seq<crate::ini::SectionV>)
    requires
        a.len() == b.len(),
        forall|j: int| 0 <= j < a.len() ==> crate::ini::same_block(#[trigger] a[j], b[j]),
    ensures
        mysql::list_spec_of(a) == mysql::list_spec_of(b),
    decreases a.len(),
{
    if a.len() > 0 {
        assert forall|j: int| 0 <= j < a.drop_last().len() implies crate::ini::same_block(
            #[trigger] a.drop_last()[j],
            b.drop_last()[j],
        ) by {
            assert(crate::ini::same_block(a[j], b[j]));
        }
        lemma_mysql_same_blocks(a.drop_last(), b.drop_last());
        assert(crate::ini::same_block(a[a.len() - 1], b[b.len() - 1]));
    }
}

/// The keys a connection is written with; `original` names the block an
/// edit replaces.
pub open spec fn keys_of(text: Seq<char>, original: Option<&str>, nc: NewConnV) -> Seq<
    (Seq<char>, Seq<char>),
> {
    match nc.engine {
        Engine::Pg => pg::save_keys(nc),
        Engine::MySql => mysql::save_keys(text, original, nc),
        Engine::Sqlite => sqlite::save_keys(nc),
        Engine::MsSql => mssql::save_keys(nc),
    }
}

/// The connection one block of an engine's file describes.
pub open spec fn block_conn(e: Engine, s: crate::ini::SectionV) -> ConnV {
    match e {
        Engine::Pg => pg::conn_of(s),
        Engine::MySql => mysql::conn_of(s),
        Engine::Sqlite => sqlite::conn_of(s),
        Engine::MsSql => mssql::conn_of(s),
    }
}

/// The password an edit keeps from a MySQL group is plain and the engine's.
proof fn lemma_kept_password(text: Seq<char>, group: Seq<char>)
    ensures
        ({
            let kept = mysql::kept_password(text, group);
            &&& crate::ini::plain_keys(kept)
            &&& forall|i: int|
                0 <= i < kept.len() ==> crate::ini::is_known(mysql::known(), #[trigger] kept[i].0)
            &&& forall|i: int|
                0 <= i < kept.len() ==> !eq_ic(#[trigger] kept[i].0, "host"@) && !eq_ic(
                    kept[i].0,
                    "port"@,
                ) && !eq_ic(kept[i].0, "database"@) && !eq_ic(kept[i].0, "user"@)
        }),
{
    lemma_field_keys();
    let secs = parse_text(text);
    let kept = mysql::kept_password(text, group);
    match section_index(secs, group) {
        Some(i) => {
            crate::ini::lemma_section_index_some(secs, group);
            crate::ini::lemma_key_index_props(secs[i].keys, "password"@);
            match crate::ini::lookup(secs[i].keys, "password"@) {
                Some(p) => {
                    crate::ini::lemma_values_plain(text);
                    let k = crate::ini::key_index(secs[i].keys, "password"@)->0;
                    assert(p == secs[i].keys[k].1);
                    assert(crate::ini::plain(secs[i].keys[k].1));
                    assert(kept == seq![("password"@, p)]);
                    assert(kept[0] == ("password"@, p));
                    crate::text::lemma_eq_ic_sym("host"@, "password"@);
                    crate::text::lemma_eq_ic_sym("port"@, "password"@);
                    crate::text::lemma_eq_ic_sym("database"@, "password"@);
                    crate::text::lemma_eq_ic_sym("user"@, "password"@);
                },
                None => {},
            }
        },
        None => {},
    }
}

proof fn lemma_four_field_keys(
    text: Seq<char>,
    original: Option<&str>,
    nc: NewConnV,
    s: crate::ini::SectionV,
)
    requires
        nc.engine != Engine::Sqlite,
        plain_new(nc),
        nc.engine == Engine::MySql ==> crate::text::trim(nc.name).len() > 0,
        s.name == new_block(nc),
        s.keys == keys_of(text, original, nc),
    ensures
        crate::ini::plain_keys(keys_of(text, original, nc)),
        block_conn(nc.engine, s) == typed_conn(nc),
{
    lemma_field_keys();
    lemma_block_plain(nc);
    let x = nc.extra;
    let none = Seq::<(Seq<char>, Seq<char>)>::empty();
    match nc.engine {
        Engine::Pg => {
            lemma_fields_read("host"@, "port"@, "dbname"@, "user"@, nc, none, x, pg::known());
            assert(fields_of("host"@, "port"@, "dbname"@, "user"@, nc) + none =~= fields_of(
                "host"@,
                "port"@,
                "dbname"@,
                "user"@,
                nc,
            ));
        },
        Engine::MsSql => {
            lemma_fields_read("host"@, "port"@, "database"@, "user"@, nc, none, x, mssql::known());
            assert(fields_of("host"@, "port"@, "database"@, "user"@, nc) + none =~= fields_of(
                "host"@,
                "port"@,
                "database"@,
                "user"@,
                nc,
            ));
        },
        _ => {
            let g = mysql::existing_group(original, crate::text::trim(nc.name));
            let kept = mysql::kept_password(text, g);
            lemma_kept_password(text, g);
            lemma_fields_read("host"@, "port"@, "database"@, "user"@, nc, kept, x, mysql::known());
            assert(keys_of(text, original, nc) == (fields_of(
                "host"@,
                "port"@,
                "database"@,
                "user"@,
                nc,
            ) + kept) + x);
        },
    }
}

proof fn lemma_path_keys(
    text: Seq<char>,
    original: Option<&str>,
    nc: NewConnV,
    s: crate::ini::SectionV,
)
    requires
        nc.engine == Engine::Sqlite,
        plain_new(nc),
        s.name == new_block(nc),
        s.keys == keys_of(text, original, nc),
    ensures
        crate::ini::plain_keys(keys_of(text, original, nc)),
        block_conn(nc.engine, s) == typed_conn(nc),
{
    lemma_field_keys();
    let x = nc.extra;
    let path = crate::text::trim(nc.database);
    let f = seq![("path"@, path)];
    crate::text::lemma_trim_idem(nc.database);
    assert(crate::ini::plain_keys(f)) by {
        assert(f[0] == ("path"@, path));
    }
    assert forall|j: int| 0 <= j < x.len() implies !eq_ic(#[trigger] x[j].0, "path"@) && !eq_ic(
        "path"@,
        x[j].0,
    ) by {
        lemma_owned_apart(sqlite::known(), "path"@, x[j].0);
    }
    assert forall|i: int, j: int| 0 <= i < f.len() && 0 <= j < x.len() implies !eq_ic(
        #[trigger] f[i].0,
        #[trigger] x[j].0,
    ) by {
        assert(f[i] == f[0]);
    }
    crate::ini::lemma_plain_keys_add(f, x);
    crate::ini::lemma_lookup_skip_back(f, x, "path"@);
    assert(eq_ic("path"@, "path"@));
    crate::ini::lemma_key_index(f, "path"@, 0);
    assert forall|i: int| 0 <= i < f.len() implies crate::ini::is_known(
        sqlite::known(),
        #[trigger] f[i].0,
    ) by {
        assert(f[i] == f[0]);
    }
    crate::ini::lemma_rest_of_split(f, x, sqlite::known());
    assert(keys_of(text, original, nc) == f + x);
}

/// Blocks that read the same list the same connections.
proof fn lemma_listed_blocks(
    e: Engine,
    a: Seq<crate::ini::SectionV>,
    b: Seq<crate::ini::SectionV>,
)
    requires
        a.len() == b.len() + 1,
        forall|j: int| 0 <= j < b.len() ==> crate::ini::same_block(#[trigger] a[j], b[j]),
        e == Engine::MySql ==> mysql::name_spec(a[b.len() as int].name) is Some,
    ensures
        e == Engine::Pg ==> a.map_values(|s: crate::ini::SectionV| pg::conn_of(s)) == b.map_values(
            |s: crate::ini::SectionV| pg::conn_of(s),
        ).push(block_conn(e, a[b.len() as int])),
        e == Engine::Sqlite ==> a.map_values(|s: crate::ini::SectionV| sqlite::conn_of(s))
            == b.map_values(|s: crate::ini::SectionV| sqlite::conn_of(s)).push(
            block_conn(e, a[b.len() as int]),
        ),
        e == Engine::MsSql ==> a.map_values(|s: crate::ini::SectionV| mssql::conn_of(s))
            == b.map_values(|s: crate::ini::SectionV| mssql::conn_of(s)).push(
            block_conn(e, a[b.len() as int]),
        ),
        e == Engine::MySql ==> mysql::list_spec_of(a) == mysql::list_spec_of(b).push(
            block_conn(e, a[b.len() as int]),
        ),
{
    let n = b.len() as int;
    match e {
        Engine::Pg => {
            assert forall|j: int| 0 <= j < n implies #[trigger] pg::conn_of(a[j]) == pg::conn_of(
                b[j],
            ) by {
                assert(crate::ini::same_block(a[j], b[j]));
            }
            assert(a.map_values(|s: crate::ini::SectionV| pg::conn_of(s)) =~= b.map_values(
                |s: crate::ini::SectionV| pg::conn_of(s),
            ).push(pg::conn_of(a[n])));
        },
        Engine::Sqlite => {
            assert forall|j: int| 0 <= j < n implies #[trigger] sqlite::conn_of(a[j])
                == sqlite::conn_of(b[j]) by {
                assert(crate::ini::same_block(a[j], b[j]));
            }
            assert(a.map_values(|s: crate::ini::SectionV| sqlite::conn_of(s)) =~= b.map_values(
                |s: crate::ini::SectionV| sqlite::conn_of(s),
            ).push(sqlite::conn_of(a[n])));
        },
        Engine::MsSql => {
            assert forall|j: int| 0 <= j < n implies #[trigger] mssql::conn_of(a[j])
                == mssql::conn_of(b[j]) by {
                assert(crate::ini::same_block(a[j], b[j]));
            }
            assert(a.map_values(|s: crate::ini::SectionV| mssql::conn_of(s)) =~= b.map_values(
                |s: crate::ini::SectionV| mssql::conn_of(s),
            ).push(mssql::conn_of(a[n])));
        },
        Engine::MySql => {
            assert forall|j: int| 0 <= j < a.drop_last().len() implies crate::ini::same_block(
                #[trigger] a.drop_last()[j],
                b[j],
            ) by {
                assert(crate::ini::same_block(a[j], b[j]));
            }
            lemma_mysql_same_blocks(a.drop_last(), b);
            assert(a.last() == a[n]);
        },
    }
}

/// A connection saved under a name its file does not hold yet is listed
/// after every connection that was there, as it was typed: trimmed, with its
/// carried keys as they were; the connections before it read as they did.
/// What is typed reads back as itself: each part on one line, the carried
/// keys plain and none of them a key its engine owns, and a MySQL name not
/// empty, since `[client]` alone is no connection.
#[verifier::spinoff_prover]
#[verifier::rlimit(40)]
pub proof fn lemma_saved_conn_is_listed(text: Seq<char>, nc: NewConnV)
    requires
        section_index(parse_text(text), new_block(nc)) is None,
        plain_new(nc),
        nc.engine == Engine::MySql ==> crate::text::trim(nc.name).len() > 0,
    ensures
        listed(nc.engine, save_spec(text, None, nc)) == listed(nc.engine, text).push(
            typed_conn(nc),
        ),
{
    lemma_block_plain(nc);
    let block = new_block(nc);
    let keys = keys_of(text, None, nc);
    let old = parse_text(text);
    let n = old.len() as int;
    let out = save_spec(text, None, nc);
    assert(out == file_body(crate::ini::upsert_lines(text, block, block, keys)));
    let new = parse_text(out);
    let probe = crate::ini::SectionV { name: block, keys, at: 0, end: 0 };
    if nc.engine == Engine::Sqlite {
        lemma_path_keys(text, None, nc, probe);
    } else {
        lemma_four_field_keys(text, None, nc, probe);
    }
    crate::ini::lemma_new_section_blocks(text, block, block, keys);
    assert(new[n].name == block && new[n].keys == keys);
    if nc.engine == Engine::Sqlite {
        lemma_path_keys(text, None, nc, new[n]);
    } else {
        lemma_four_field_keys(text, None, nc, new[n]);
    }
    lemma_listed_blocks(nc.engine, new, old);
}

/// The block an edit replaces: the connection's old name, or its group for
/// MySQL.
pub open spec fn old_block(e: Engine, original: Seq<char>) -> Seq<char> {
    match e {
        Engine::MySql => mysql::group_spec(original),
        _ => original,
    }
}

/// Where block `i` of a file sits in its engine's list of connections: MySQL
/// lists only the `client` groups.
pub open spec fn list_pos(e: Engine, secs: Seq<crate::ini::SectionV>, i: int) -> int {
    match e {
        Engine::MySql => mysql::list_spec_of(secs.take(i)).len() as int,
        _ => i,
    }
}

proof fn lemma_group_name(t: Seq<char>)
    requires
        t.len() > 0,
    ensures
        mysql::name_spec(mysql::group_spec(t)) == Some(t),
{
    reveal_strlit("client");
    let g = mysql::group_spec(t);
    assert(g.take("client"@.len() as int) =~= "client"@);
    assert(g.skip("client"@.len() as int) =~= t);
}

proof fn lemma_mysql_list_add(a: Seq<crate::ini::SectionV>, b: Seq<crate::ini::SectionV>)
    ensures
        mysql::list_spec_of(a + b) == mysql::list_spec_of(a) + mysql::list_spec_of(b),
    decreases b.len(),
{
    if b.len() == 0 {
        assert(a + b =~= a);
        assert(mysql::list_spec_of(a) + Seq::<ConnV>::empty() =~= mysql::list_spec_of(a));
    } else {
        lemma_mysql_list_add(a, b.drop_last());
        assert((a + b).drop_last() =~= a + b.drop_last());
        assert((a + b).last() == b.last());
        let la = mysql::list_spec_of(a);
        let lb = mysql::list_spec_of(b.drop_last());
        if mysql::name_spec(b.last().name) is Some {
            assert((la + lb).push(mysql::conn_of(b.last())) =~= la + lb.push(
                mysql::conn_of(b.last()),
            ));
        }
    }
}

/// A file whose block `i` was replaced lists the replacement where the old
/// one was, and every other connection as it was.
proof fn lemma_listed_update(
    e: Engine,
    a: Seq<crate::ini::SectionV>,
    b: Seq<crate::ini::SectionV>,
    i: int,
)
    requires
        a.len() == b.len(),
        0 <= i < b.len(),
        forall|j: int| 0 <= j < b.len() && j != i ==> crate::ini::same_block(#[trigger] a[j], b[j]),
        e == Engine::MySql ==> mysql::name_spec(a[i].name) is Some && mysql::name_spec(
            b[i].name,
        ) is Some,
    ensures
        e == Engine::Pg ==> a.map_values(|s: crate::ini::SectionV| pg::conn_of(s)) == b.map_values(
            |s: crate::ini::SectionV| pg::conn_of(s),
        ).update(i, block_conn(e, a[i])),
        e == Engine::Sqlite ==> a.map_values(|s: crate::ini::SectionV| sqlite::conn_of(s))
            == b.map_values(|s: crate::ini::SectionV| sqlite::conn_of(s)).update(
            i,
            block_conn(e, a[i]),
        ),
        e == Engine::MsSql ==> a.map_values(|s: crate::ini::SectionV| mssql::conn_of(s))
            == b.map_values(|s: crate::ini::SectionV| mssql::conn_of(s)).update(
            i,
            block_conn(e, a[i]),
        ),
        e == Engine::MySql ==> mysql::list_spec_of(a) == mysql::list_spec_of(b).update(
            list_pos(e, b, i),
            block_conn(e, a[i]),
        ),
{
    match e {
        Engine::Pg => {
            assert forall|j: int| 0 <= j < b.len() && j != i implies #[trigger] pg::conn_of(a[j])
                == pg::conn_of(b[j]) by {
                assert(crate::ini::same_block(a[j], b[j]));
            }
            assert(a.map_values(|s: crate::ini::SectionV| pg::conn_of(s)) =~= b.map_values(
                |s: crate::ini::SectionV| pg::conn_of(s),
            ).update(i, pg::conn_of(a[i])));
        },
        Engine::Sqlite => {
            assert forall|j: int| 0 <= j < b.len() && j != i implies #[trigger] sqlite::conn_of(
                a[j],
            ) == sqlite::conn_of(b[j]) by {
                assert(crate::ini::same_block(a[j], b[j]));
            }
            assert(a.map_values(|s: crate::ini::SectionV| sqlite::conn_of(s)) =~= b.map_values(
                |s: crate::ini::SectionV| sqlite::conn_of(s),
            ).update(i, sqlite::conn_of(a[i])));
        },
        Engine::MsSql => {
            assert forall|j: int| 0 <= j < b.len() && j != i implies #[trigger] mssql::conn_of(
                a[j],
            ) == mssql::conn_of(b[j]) by {
                assert(crate::ini::same_block(a[j], b[j]));
            }
            assert(a.map_values(|s: crate::ini::SectionV| mssql::conn_of(s)) =~= b.map_values(
                |s: crate::ini::SectionV| mssql::conn_of(s),
            ).update(i, mssql::conn_of(a[i])));
        },
        Engine::MySql => {
            let one_a = seq![a[i]];
            let one_b = seq![b[i]];
            assert(a =~= (a.take(i) + one_a) + a.skip(i + 1));
            assert(b =~= (b.take(i) + one_b) + b.skip(i + 1));
            lemma_mysql_list_add(a.take(i) + one_a, a.skip(i + 1));
            lemma_mysql_list_add(a.take(i), one_a);
            lemma_mysql_list_add(b.take(i) + one_b, b.skip(i + 1));
            lemma_mysql_list_add(b.take(i), one_b);
            assert forall|j: int| 0 <= j < a.take(i).len() implies crate::ini::same_block(
                #[trigger] a.take(i)[j],
                b.take(i)[j],
            ) by {
                assert(crate::ini::same_block(a[j], b[j]));
            }
            lemma_mysql_same_blocks(a.take(i), b.take(i));
            assert forall|j: int| 0 <= j < a.skip(i + 1).len() implies crate::ini::same_block(
                #[trigger] a.skip(i + 1)[j],
                b.skip(i + 1)[j],
            ) by {
                assert(crate::ini::same_block(a[i + 1 + j], b[i + 1 + j]));
            }
            lemma_mysql_same_blocks(a.skip(i + 1), b.skip(i + 1));
            assert(one_a.drop_last() =~= Seq::<crate::ini::SectionV>::empty());
            assert(one_b.drop_last() =~= Seq::<crate::ini::SectionV>::empty());
            assert(one_a.last() == a[i]);
            assert(one_b.last() == b[i]);
            assert(mysql::list_spec_of(one_a.drop_last()) == Seq::<ConnV>::empty());
            assert(mysql::list_spec_of(one_b.drop_last()) == Seq::<ConnV>::empty());
            assert(mysql::list_spec_of(one_a) =~= seq![mysql::conn_of(a[i])]);
            assert(mysql::list_spec_of(one_b) =~= seq![mysql::conn_of(b[i])]);
            let p = mysql::list_spec_of(b.take(i));
            let q = mysql::list_spec_of(b.skip(i + 1));
            assert((p + seq![mysql::conn_of(a[i])]) + q =~= ((p + seq![mysql::conn_of(b[i])])
                + q).update(p.len() as int, mysql::conn_of(a[i])));
        },
    }
}

proof fn lemma_edit_blocks(text: Seq<char>, original: &str, nc: NewConnV)
    requires
        section_index(parse_text(text), old_block(nc.engine, original@)) is Some,
        plain_new(nc),
        nc.engine == Engine::MySql ==> crate::text::trim(nc.name).len() > 0,
    ensures
        ({
            let old = parse_text(text);
            let new = parse_text(save_spec(text, Some(original), nc));
            let i = section_index(old, old_block(nc.engine, original@))->0;
            &&& 0 <= i < old.len()
            &&& old[i].name == old_block(nc.engine, original@)
            &&& new.len() == old.len()
            &&& forall|j: int|
                0 <= j < old.len() && j != i ==> crate::ini::same_block(#[trigger] new[j], old[j])
            &&& new[i].name == new_block(nc)
            &&& block_conn(nc.engine, new[i]) == typed_conn(nc)
        }),
{
    lemma_block_plain(nc);
    let block = new_block(nc);
    let target = old_block(nc.engine, original@);
    let keys = keys_of(text, Some(original), nc);
    let old = parse_text(text);
    crate::ini::lemma_section_index_some(old, target);
    let i = section_index(old, target)->0;
    assert(save_spec(text, Some(original), nc) == file_body(
        crate::ini::upsert_lines(text, target, block, keys),
    ));
    let probe = crate::ini::SectionV { name: block, keys, at: 0, end: 0 };
    if nc.engine == Engine::Sqlite {
        lemma_path_keys(text, Some(original), nc, probe);
    } else {
        lemma_four_field_keys(text, Some(original), nc, probe);
    }
    crate::ini::lemma_replaced_section_blocks(text, target, block, keys);
    let new = parse_text(save_spec(text, Some(original), nc));
    if nc.engine == Engine::Sqlite {
        lemma_path_keys(text, Some(original), nc, new[i]);
    } else {
        lemma_four_field_keys(text, Some(original), nc, new[i]);
    }
}

/// A connection edited in place is listed where the old one was, as it was
/// typed: trimmed, with its carried keys as they were; every other
/// connection reads as it did. (For MySQL the group's password, which is not
/// the wizard's to touch, is kept.) What is typed reads back as itself, as
/// for a new connection, and a MySQL name is not empty.
pub proof fn lemma_edited_conn_is_listed(text: Seq<char>, original: &str, nc: NewConnV)
    requires
        section_index(parse_text(text), old_block(nc.engine, original@)) is Some,
        plain_new(nc),
        nc.engine == Engine::MySql ==> crate::text::trim(nc.name).len() > 0 && original@.len()
            > 0,
    ensures
        listed(nc.engine, save_spec(text, Some(original), nc)) == listed(nc.engine, text).update(
            list_pos(
                nc.engine,
                parse_text(text),
                section_index(parse_text(text), old_block(nc.engine, original@))->0,
            ),
            typed_conn(nc),
        ),
{
    lemma_edit_blocks(text, original, nc);
    let old = parse_text(text);
    let new = parse_text(save_spec(text, Some(original), nc));
    let i = section_index(old, old_block(nc.engine, original@))->0;
    if nc.engine == Engine::MySql {
        lemma_group_name(original@);
        lemma_block_plain(nc);
    }
    lemma_listed_update(nc.engine, new, old, i);
}

/// A file whose block `i` was dropped lists every other connection as it
/// was, in order.
proof fn lemma_listed_remove(
    e: Engine,
    a: Seq<crate::ini::SectionV>,
    b: Seq<crate::ini::SectionV>,
    i: int,
)
    requires
        0 <= i < b.len(),
        a.len() == b.len() - 1,
        forall|j: int| 0 <= j < i ==> crate::ini::same_block(#[trigger] a[j], b[j]),
        forall|j: int| i <= j < a.len() ==> crate::ini::same_block(#[trigger] a[j], b[j + 1]),
        e == Engine::MySql ==> mysql::name_spec(b[i].name) is Some,
    ensures
        e == Engine::Pg ==> a.map_values(|s: crate::ini::SectionV| pg::conn_of(s)) == b.map_values(
            |s: crate::ini::SectionV| pg::conn_of(s),
        ).remove(i),
        e == Engine::Sqlite ==> a.map_values(|s: crate::ini::SectionV| sqlite::conn_of(s))
            == b.map_values(|s: crate::ini::SectionV| sqlite::conn_of(s)).remove(i),
        e == Engine::MsSql ==> a.map_values(|s: crate::ini::SectionV| mssql::conn_of(s))
            == b.map_values(|s: crate::ini::SectionV| mssql::conn_of(s)).remove(i),
        e == Engine::MySql ==> mysql::list_spec_of(a) == mysql::list_spec_of(b).remove(
            list_pos(e, b, i),
        ),
{
    match e {
        Engine::Pg => {
            assert forall|j: int| 0 <= j < a.len() implies #[trigger] pg::conn_of(a[j])
                == (if j < i { pg::conn_of(b[j]) } else { pg::conn_of(b[j + 1]) }) by {
                if j < i {
                    assert(crate::ini::same_block(a[j], b[j]));
                } else {
                    assert(crate::ini::same_block(a[j], b[j + 1]));
                }
            }
            assert(a.map_values(|s: crate::ini::SectionV| pg::conn_of(s)) =~= b.map_values(
                |s: crate::ini::SectionV| pg::conn_of(s),
            ).remove(i));
        },
        Engine::Sqlite => {
            assert forall|j: int| 0 <= j < a.len() implies #[trigger] sqlite::conn_of(a[j])
                == (if j < i { sqlite::conn_of(b[j]) } else { sqlite::conn_of(b[j + 1]) }) by {
                if j < i {
                    assert(crate::ini::same_block(a[j], b[j]));
                } else {
                    assert(crate::ini::same_block(a[j], b[j + 1]));
                }
            }
            assert(a.map_values(|s: crate::ini::SectionV| sqlite::conn_of(s)) =~= b.map_values(
                |s: crate::ini::SectionV| sqlite::conn_of(s),
            ).remove(i));
        },
        Engine::MsSql => {
            assert forall|j: int| 0 <= j < a.len() implies #[trigger] mssql::conn_of(a[j])
                == (if j < i { mssql::conn_of(b[j]) } else { mssql::conn_of(b[j + 1]) }) by {
                if j < i {
                    assert(crate::ini::same_block(a[j], b[j]));
                } else {
                    assert(crate::ini::same_block(a[j], b[j + 1]));
                }
            }
            assert(a.map_values(|s: crate::ini::SectionV| mssql::conn_of(s)) =~= b.map_values(
                |s: crate::ini::SectionV| mssql::conn_of(s),
            ).remove(i));
        },
        Engine::MySql => {
            let one_b = seq![b[i]];
            assert(b =~= (b.take(i) + one_b) + b.skip(i + 1));
            assert(a =~= a.take(i) + a.skip(i));
            lemma_mysql_list_add(b.take(i) + one_b, b.skip(i + 1));
            lemma_mysql_list_add(b.take(i), one_b);
            lemma_mysql_list_add(a.take(i), a.skip(i));
            assert forall|j: int| 0 <= j < a.take(i).len() implies crate::ini::same_block(
                #[trigger] a.take(i)[j],
                b.take(i)[j],
            ) by {
                assert(crate::ini::same_block(a[j], b[j]));
            }
            lemma_mysql_same_blocks(a.take(i), b.take(i));
            assert forall|j: int| 0 <= j < a.skip(i).len() implies crate::ini::same_block(
                #[trigger] a.skip(i)[j],
                b.skip(i + 1)[j],
            ) by {
                assert(crate::ini::same_block(a[i + j], b[i + j + 1]));
            }
            lemma_mysql_same_blocks(a.skip(i), b.skip(i + 1));
            assert(one_b.drop_last() =~= Seq::<crate::ini::SectionV>::empty());
            assert(one_b.last() == b[i]);
            assert(mysql::list_spec_of(one_b.drop_last()) == Seq::<ConnV>::empty());
            assert(mysql::list_spec_of(one_b) =~= seq![mysql::conn_of(b[i])]);
            let p = mysql::list_spec_of(b.take(i));
            let q = mysql::list_spec_of(b.skip(i + 1));
            assert(p + q =~= ((p + seq![mysql::conn_of(b[i])]) + q).remove(p.len() as int));
        },
    }
}

/// Deleting a connection drops it from its engine's list and leaves every
/// other connection as it was, in order. A MySQL name is not empty, since
/// `[client]` alone is no connection.
pub proof fn lemma_deleted_conn_unlisted(text: Seq<char>, c: ConnV)
    requires
        section_index(parse_text(text), block_name(c)) is Some,
        c.engine == Engine::MySql ==> c.name.len() > 0,
    ensures
        remove_lines(text, block_name(c)) matches Some(ls) && listed(c.engine, file_body(ls))
            == listed(c.engine, text).remove(
            list_pos(c.engine, parse_text(text), section_index(parse_text(text), block_name(c))->0),
        ),
{
    let old = parse_text(text);
    let i = section_index(old, block_name(c))->0;
    crate::ini::lemma_removed_section_blocks(text, block_name(c));
    crate::ini::lemma_section_index_some(old, block_name(c));
    let ls = remove_lines(text, block_name(c))->0;
    let new = parse_text(file_body(ls));
    if c.engine == Engine::MySql {
        lemma_group_name(c.name);
    }
    lemma_listed_remove(c.engine, new, old, i);
}

/// A connection's URL starts with its engine's own scheme, one per engine:
/// `postgresql://`, `mysql://`, `sqlserver://` or `sqlite://`. For a
/// server it names the server's address after any user; SQLite's names the
/// file.
pub proof fn lemma_url_scheme(c: ConnV)
    ensures
        c.engine == Engine::Pg ==> "postgresql://"@.is_prefix_of(url_spec(c)),
        c.engine == Engine::MySql ==> "mysql://"@.is_prefix_of(url_spec(c)),
        c.engine == Engine::MsSql ==> "sqlserver://"@.is_prefix_of(url_spec(c)),
        c.engine == Engine::Sqlite ==> url_spec(c) == "sqlite://"@ + c.database,
{
    reveal_strlit("postgresql://");
    reveal_strlit("postgresql");
    reveal_strlit("mysql://");
    reveal_strlit("mysql");
    reveal_strlit("sqlserver://");
    reveal_strlit("sqlserver");
    reveal_strlit("://");
    let u = url_spec(c);
    if c.engine == Engine::Pg {
        assert(u.take(13) =~= "postgresql://"@);
    } else if c.engine == Engine::MySql {
        assert(u.take(8) =~= "mysql://"@);
    } else if c.engine == Engine::MsSql {
        assert(u.take(12) =~= "sqlserver://"@);
    }
}

/// A server connection with a user, a host and a database set reads as
/// `<scheme>://<user>@<host>:<port>/<database>`, the port being the one it
/// names or its engine's default.
pub proof fn lemma_url_names_the_server(c: ConnV, scheme: Seq<char>)
    requires
        c.engine != Engine::Sqlite,
        c.user.len() > 0,
        c.host.len() > 0,
        c.database.len() > 0,
        c.engine == Engine::Pg ==> scheme == "postgresql"@,
        c.engine == Engine::MySql ==> scheme == "mysql"@,
        c.engine == Engine::MsSql ==> scheme == "sqlserver"@,
    ensures
        url_spec(c) == scheme + "://"@ + c.user + "@"@ + c.host + ":"@ + port_or_default_spec(c) + "/"@
            + c.database,
{
}

/// Opening a connection on another database changes the command only by
/// naming that database: MySQL's gains `--database=<d>` at the end, and
/// Postgres's one connection string gains ` dbname=<d>`, quoted the way
/// libpq reads it.
pub proof fn lemma_other_database_is_named(c: ConnV, s: SettingsV, d: Seq<char>, home: Seq<char>)
    ensures
        c.engine == Engine::MySql ==> connect_argv_spec(c, s, Some(d), home) == connect_argv_spec(c, s, None, home).push(
            "--database="@ + d,
        ),
        c.engine == Engine::Pg ==> {
            let with = connect_argv_spec(c, s, Some(d), home);
            let without = connect_argv_spec(c, s, None, home);
            &&& with.len() == without.len()
            &&& with.drop_last() == without.drop_last()
            &&& with.last() == without.last() + " dbname="@ + pg::quote_spec(d)
        },
        c.engine == Engine::MsSql ==> connect_argv_spec(c, s, Some(d), home) == connect_argv_spec(
            ConnV { database: d, ..c },
            s,
            None,
            home,
        ),
{
    if c.engine == Engine::Pg {
        let with = connect_argv_spec(c, s, Some(d), home);
        let without = connect_argv_spec(c, s, None, home);
        assert(with.drop_last() =~= without.drop_last());
    }
}

} // verus!
