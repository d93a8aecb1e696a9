//! `esql <name> [client args…]`: what runs when a saved connection is opened.
//!
//! Four shapes, decided by what follows the name: nothing opens a session,
//! `:word` runs a saved query, a word that is not a flag is SQL to run and
//! exit (`ssh host 'cmd'`, for databases), and anything else is the client's.
//! `<name>/<db>` picks another database on the same server first. Finding the
//! connection, starting its tunnel, stamping the history and handing the
//! terminal over happen outside; here is what is decided.

use crate::engines::{
    client_argv_spec, client_setting_of, connect_argv_spec, default_client_of, query_flag_of,
    speaks_client_flags, speaks_spec, Conn, ConnV, Engine,
};
use crate::ini::opt_view;
use crate::settings::{set_spec, Settings, SettingsV};
use crate::text::{chars_of, extend, string_of, views};
use vstd::prelude::*;

verus! {

/// What follows the connection name.
pub enum Shape {
    /// Nothing: open a session.
    Session,
    /// `:name`: run that saved query.
    Snippet(String),
    /// `--`: everything after it reaches the client bare.
    Escape,
    /// A word that is not a flag: SQL to run and exit.
    Query,
    /// Anything else is the client's own arguments.
    Client,
}

pub enum ShapeV {
    Session,
    Snippet(Seq<char>),
    Escape,
    Query,
    Client,
}

pub open spec fn shape_view(s: Shape) -> ShapeV {
    match s {
        Shape::Session => ShapeV::Session,
        Shape::Snippet(n) => ShapeV::Snippet(n@),
        Shape::Escape => ShapeV::Escape,
        Shape::Query => ShapeV::Query,
        Shape::Client => ShapeV::Client,
    }
}

pub open spec fn shape_spec(rest: Seq<Seq<char>>) -> ShapeV {
    if rest.len() == 0 {
        ShapeV::Session
    } else {
        let first = rest[0];
        if first.len() > 0 && first[0] == ':' {
            ShapeV::Snippet(first.drop_first())
        } else if first == "--"@ {
            ShapeV::Escape
        } else if !(first.len() > 0 && first[0] == '-') {
            ShapeV::Query
        } else {
            ShapeV::Client
        }
    }
}

/// The shape of the words after the connection name.
pub fn shape(rest: &[String]) -> (r: Shape)
    ensures
        shape_view(r) == shape_spec(views(rest@)),
{
    if rest.len() == 0 {
        return Shape::Session;
    }
    let first = chars_of(rest[0].as_str());
    assert(views(rest@)[0] == rest@[0]@);
    if first.len() > 0 && first[0] == ':' {
        let name = crate::text::slice_to_vec(first.as_slice(), 1, first.len());
        assert(name@ =~= first@.drop_first());
        Shape::Snippet(string_of(name.as_slice()))
    } else if crate::text::same_as(first.as_slice(), "--") {
        Shape::Escape
    } else if !(first.len() > 0 && first[0] == '-') {
        Shape::Query
    } else {
        Shape::Client
    }
}

/// Whether the connect is a one-shot that has to be spelled in the client's
/// own flags: another database, a saved query or a query. A flag the user
/// typed is theirs, so a passthrough is not one.
pub open spec fn one_shot_spec(db: bool, s: ShapeV) -> bool {
    db || s is Snippet || s is Query
}

pub fn is_one_shot(db: bool, s: &Shape) -> (r: bool)
    ensures
        r == one_shot_spec(db, shape_view(*s)),
{
    db || match s {
        Shape::Snippet(_) | Shape::Query => true,
        _ => false,
    }
}

/// The settings a one-shot runs with: unchanged when the configured client
/// speaks the engine's own flags, else with the engine's own client in its
/// place, so the query is answered and the setting keeps the interactive
/// session it was chosen for.
pub open spec fn one_shot_settings(e: Engine, s: SettingsV) -> SettingsV {
    if speaks_spec(e, s) {
        s
    } else {
        set_spec(s, client_setting_of(e), default_client_of(e))
    }
}

pub fn use_default_client_for_one_shot(conn: &Conn, s: &mut Settings)
    ensures
        final(s)@ == one_shot_settings(conn.engine, old(s)@),
{
    if speaks_client_flags(conn.engine, s) {
        return;
    }
    s.set(conn.engine.client_setting(), conn.engine.default_client());
}

/// The flag that hands this engine's client a query, when it has one.
pub open spec fn query_flag_words(e: Engine) -> Seq<Seq<char>> {
    match query_flag_of(e) {
        Some(f) => seq![f],
        None => seq![],
    }
}

/// Hand the client a query to run and exit, so stdout carries rows and the
/// exit status is the client's own. sqlite3 takes it as a bare argument.
pub fn push_query(argv: &mut Vec<String>, conn: &Conn, sql: String)
    ensures
        views(final(argv)@) == views(old(argv)@) + query_flag_words(conn.engine) + seq![sql@],
{
    let ghost before = views(argv@);
    let ghost q = sql@;
    match conn.engine.query_flag() {
        Some(flag) => {
            argv.push(flag.to_string());
        },
        None => {},
    }
    argv.push(sql);
    assert(views(argv@) =~= before + query_flag_words(conn.engine) + seq![q]);
}

/// What follows the client's own argv: the query for a saved query or a bare
/// word, then the words after it; after `--`, the words after it; for a flag,
/// every word.
pub open spec fn tail_spec(e: Engine, rest: Seq<Seq<char>>, sql: Option<Seq<char>>) -> Seq<
    Seq<char>,
> {
    match shape_spec(rest) {
        ShapeV::Session => seq![],
        ShapeV::Snippet(_) => query_flag_words(e) + seq![sql->0] + rest.skip(1),
        ShapeV::Escape => rest.skip(1),
        ShapeV::Query => query_flag_words(e) + seq![rest[0]] + rest.skip(1),
        ShapeV::Client => rest,
    }
}

/// What a connect decided: the argv to run, whether to print the hint line,
/// and whether to bring psql's `\set` block up to date first.
pub struct Plan {
    pub argv: Vec<String>,
    pub hint: bool,
    pub sync_psqlrc: bool,
}

fn push_all(argv: &mut Vec<String>, more: &[String], from: usize)
    requires
        from <= more@.len(),
    ensures
        views(final(argv)@) == views(old(argv)@) + views(more@).skip(from as int),
{
    let mut i = from;
    while i < more.len()
        invariant
            from <= i <= more@.len(),
            views(argv@) == views(old(argv)@) + views(more@).subrange(from as int, i as int),
        decreases more@.len() - i,
    {
        let ghost before = views(argv@);
        argv.push(more[i].clone());
        assert(views(argv@) =~= before.push(more@[i as int]@));
        i = i + 1;
        assert(views(more@).subrange(from as int, i as int) =~= views(more@).subrange(
            from as int,
            i - 1,
        ).push(more@[i - 1]@));
    }
    assert(views(more@).subrange(from as int, more@.len() as int) =~= views(more@).skip(
        from as int,
    ));
}

/// The connect, decided: the connection's argv aimed at `db`, with `home`
/// for a SQLite path, and the words after the name placed by their shape.
/// `sql` is the saved query's text when the shape names one, which the caller
/// has looked up and refused to go on without. The hint line is printed only
/// when a session opens, and psql's shortcuts are synced on the way into any
/// Postgres connect that is not itself running one.
pub fn plan(
    conn: &Conn,
    s: &Settings,
    db: Option<&str>,
    rest: &[String],
    sql: Option<&str>,
    home: &str,
) -> (r: Plan)
    requires
        shape_spec(views(rest@)) is Snippet ==> sql is Some,
    ensures
        views(r.argv@) == connect_argv_spec(conn@, s@, opt_view(db), home@) + tail_spec(
            conn.engine,
            views(rest@),
            opt_view(sql),
        ),
        r.hint == (s.hints && rest@.len() == 0),
        r.sync_psqlrc == (conn.engine == Engine::Pg && !(shape_spec(views(rest@)) is Snippet)),
{
    let mut argv = conn.connect_argv_in(s, db, home);
    let ghost base = views(argv@);
    let sh = shape(rest);
    let is_snippet = match sh {
        Shape::Snippet(_) => true,
        _ => false,
    };
    match sh {
        Shape::Session => {},
        Shape::Snippet(_) => {
            let q = match sql {
                Some(q) => q.to_string(),
                None => String::new(),
            };
            push_query(&mut argv, conn, q);
            push_all(&mut argv, rest, 1);
        },
        Shape::Escape => {
            push_all(&mut argv, rest, 1);
        },
        Shape::Query => {
            assert(views(rest@)[0] == rest@[0]@);
            push_query(&mut argv, conn, rest[0].clone());
            push_all(&mut argv, rest, 1);
        },
        Shape::Client => {
            push_all(&mut argv, rest, 0);
            assert(views(rest@).skip(0) =~= views(rest@));
        },
    }
    assert(views(argv@) =~= base + tail_spec(conn.engine, views(rest@), opt_view(sql)));
    Plan {
        argv,
        hint: s.hints && rest.len() == 0,
        sync_psqlrc: conn.engine == Engine::Pg && !is_snippet,
    }
}

/// Why a connect stopped before running anything.
pub enum ConnectError {
    /// Nothing after `esql` that names a connection.
    NoConnection,
    /// `<name>/<db>` on a SQLite connection, where another database is
    /// another file.
    SqliteDb(String),
    /// `:name` with no saved query of that name.
    NoSnippet(String),
}

pub open spec fn error_lines(e: ConnectError) -> (Seq<char>, Seq<char>) {
    match e {
        ConnectError::NoConnection => (
            "esql: no connection given. Try `esql ls` or just `esql`."@,
            seq![],
        ),
        ConnectError::SqliteDb(n) => (
            "esql: `"@ + n@ + "` is a sqlite file, and another database is another file."@,
            "      save that file as its own connection with `c` in `esql`."@,
        ),
        ConnectError::NoSnippet(n) => (
            "esql: no snippet called '"@ + n@ + "'"@,
            "      `esql` and the Snippets tab list and create them."@,
        ),
    }
}

impl ConnectError {
    /// The headline and, when there is one, the line under it.
    pub fn lines(&self) -> (r: (String, String))
        ensures
            (r.0@, r.1@) == error_lines(*self),
    {
        match self {
            ConnectError::NoConnection => (
                "esql: no connection given. Try `esql ls` or just `esql`.".to_string(),
                String::new(),
            ),
            ConnectError::SqliteDb(n) => {
                let mut v = chars_of("esql: `");
                extend(&mut v, chars_of(n.as_str()).as_slice());
                extend(
                    &mut v,
                    chars_of("` is a sqlite file, and another database is another file.").as_slice(),
                );
                (
                    string_of(v.as_slice()),
                    "      save that file as its own connection with `c` in `esql`.".to_string(),
                )
            },
            ConnectError::NoSnippet(n) => {
                let mut v = chars_of("esql: no snippet called '");
                extend(&mut v, chars_of(n.as_str()).as_slice());
                extend(&mut v, chars_of("'").as_slice());
                (
                    string_of(v.as_slice()),
                    "      `esql` and the Snippets tab list and create them.".to_string(),
                )
            },
        }
    }
}

/// Whether another database was asked of a SQLite connection, which has
/// none to switch to.
pub fn refuses_db(conn: &Conn, db: Option<&str>) -> (r: Option<ConnectError>)
    ensures
        match r {
            Some(ConnectError::SqliteDb(n)) => db is Some && conn.engine == Engine::Sqlite && n@
                == conn.name@,
            Some(_) => false,
            None => !(db is Some && conn.engine == Engine::Sqlite),
        },
{
    if db.is_some() && conn.engine == Engine::Sqlite {
        Some(ConnectError::SqliteDb(conn.name.clone()))
    } else {
        None
    }
}

// ---------------------------------------------------------------------------
// `esql ls`
// ---------------------------------------------------------------------------

/// How many bytes a character takes in UTF-8.
pub open spec fn utf8_width(c: char) -> nat {
    if (c as u32) < 0x80 {
        1
    } else if (c as u32) < 0x800 {
        2
    } else if (c as u32) < 0x10000 {
        3
    } else {
        4
    }
}

/// `str::len`: the text's length in UTF-8 bytes.
pub open spec fn byte_len(s: Seq<char>) -> nat
    decreases s.len(),
{
    if s.len() == 0 {
        0
    } else {
        byte_len(s.drop_last()) + utf8_width(s.last())
    }
}

fn byte_len_of(s: &[char]) -> (r: usize)
    requires
        byte_len(s@) <= usize::MAX,
    ensures
        r == byte_len(s@),
{
    let mut n: usize = 0;
    let mut i: usize = 0;
    while i < s.len()
        invariant
            i <= s@.len(),
            n == byte_len(s@.take(i as int)),
            byte_len(s@) <= usize::MAX,
        decreases s@.len() - i,
    {
        assert(s@.take(i + 1).drop_last() =~= s@.take(i as int));
        proof {
            lemma_byte_len_prefix(s@, i + 1);
        }
        let c = s[i];
        let w: usize = if (c as u32) < 0x80 {
            1
        } else if (c as u32) < 0x800 {
            2
        } else if (c as u32) < 0x10000 {
            3
        } else {
            4
        };
        n = n + w;
        i = i + 1;
    }
    assert(s@.take(s@.len() as int) =~= s@);
    n
}

pub proof fn lemma_byte_len_prefix(s: Seq<char>, i: int)
    requires
        0 <= i <= s.len(),
    ensures
        byte_len(s.take(i)) <= byte_len(s),
    decreases s.len() - i,
{
    if i < s.len() {
        lemma_byte_len_prefix(s, i + 1);
        assert(s.take(i + 1).drop_last() =~= s.take(i));
    } else {
        assert(s.take(i) =~= s);
    }
}

/// The widest engine label and the widest name, in bytes, which is how the
/// verbose list pads its columns.
pub open spec fn widths_spec(cs: Seq<ConnV>) -> (nat, nat)
    decreases cs.len(),
{
    if cs.len() == 0 {
        (0, 0)
    } else {
        let (e, n) = widths_spec(cs.drop_last());
        let le = byte_len(crate::engines::label_of(cs.last().engine));
        let ln = byte_len(cs.last().name);
        (if le > e {
            le
        } else {
            e
        }, if ln > n {
            ln
        } else {
            n
        })
    }
}

pub fn ls_widths(conns: &[Conn]) -> (r: (usize, usize))
    requires
        forall|i: int| 0 <= i < conns@.len() ==> byte_len(#[trigger] conns@[i].name@) <= usize::MAX,
    ensures
        (r.0 as nat, r.1 as nat) == widths_spec(crate::engines::conn_views(conns@)),
{
    let ghost cv = crate::engines::conn_views(conns@);
    let mut e: usize = 0;
    let mut n: usize = 0;
    let mut i: usize = 0;
    while i < conns.len()
        invariant
            i <= conns@.len(),
            cv == crate::engines::conn_views(conns@),
            forall|k: int| 0 <= k < conns@.len() ==> byte_len(#[trigger] conns@[k].name@) <= usize::MAX,
            (e as nat, n as nat) == widths_spec(cv.take(i as int)),
        decreases conns@.len() - i,
    {
        assert(cv.take(i + 1).drop_last() =~= cv.take(i as int));
        assert(cv.take(i + 1).last() == conns@[i as int]@);
        let label = chars_of(conns[i].engine.label());
        proof {
            reveal_strlit("postgres");
            reveal_strlit("mysql");
            reveal_strlit("sqlite");
            reveal_strlit("sqlserver");
            assert(byte_len(label@) <= 9) by {
                lemma_ascii_len(label@);
            }
        }
        let le = byte_len_of(label.as_slice());
        let ln = byte_len_of(chars_of(conns[i].name.as_str()).as_slice());
        if le > e {
            e = le;
        }
        if ln > n {
            n = ln;
        }
        i = i + 1;
    }
    assert(cv.take(conns@.len() as int) =~= cv);
    (e, n)
}

proof fn lemma_ascii_len(s: Seq<char>)
    requires
        forall|i: int| 0 <= i < s.len() ==> (#[trigger] s[i] as u32) < 0x80,
    ensures
        byte_len(s) == s.len(),
    decreases s.len(),
{
    if s.len() > 0 {
        lemma_ascii_len(s.drop_last());
    }
}

} // verus!
