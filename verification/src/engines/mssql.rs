//! Microsoft SQL Server. The odd one out, twice over.
//!
//! There is no file both clients read: the modern `go-sqlcmd` keeps YAML the
//! classic ODBC `sqlcmd` ignores, and the classic one has no config file at
//! all. So this list is easysql's own, kept in the config dir in the same INI
//! shape as the rest, and turned into plain `-S/-d/-U` flags both builds
//! understand.
//!
//! And there is no password file. By default easysql keeps nothing and sqlcmd
//! prompts on the terminal it is handed. The `mssql_passwords` setting lets
//! easysql keep one in `~/.esqlpass` instead and hand it over in
//! `SQLCMDPASSWORD`, the one place this crate holds a secret.

use super::{find_pair, has_pair, port_or_default_spec, Conn, ConnV, Engine, NewConn, NewConnV};
use crate::engines::pg::{field, get_or_empty, or_empty, push_all, push_field};
use crate::ini::{
    config_dir, home, join_path, join_path_of, kviews, lookup, opt_sview, opt_view, parse,
    parse_text, remove, remove_lines, rest_of, section_at, section_index, sviews, target_of,
    upsert, upsert_lines, SectionV,
};
use crate::text::{chars_of, dec, dec_of, extend, file_body, seq_eq, string_of, trim, trimmed, views};
use vstd::prelude::*;

verus! {

/// The keys the wizard owns. `trust_cert` stays in the extras, the way
/// `sslmode` does for Postgres.
pub open spec fn known() -> Seq<&'static str> {
    seq!["host", "port", "database", "user"]
}

fn known_keys() -> (r: Vec<&'static str>)
    ensures
        r@ == known(),
{
    let r = vec!["host", "port", "database", "user"];
    assert(r@ =~= known());
    r
}

/// `easysql/mssql.conf` under the config directory.
pub open spec fn store_path_spec(config: Seq<char>) -> Seq<char> {
    join_path(join_path(config, "easysql"@), "mssql.conf"@)
}

pub fn store_path() -> (r: String)
    ensures
        exists|c: Seq<char>| r@ == store_path_spec(c),
{
    let c = config_dir();
    let d = join_path_of(c.as_str(), "easysql");
    let r = join_path_of(d.as_str(), "mssql.conf");
    assert(r@ == store_path_spec(c@));
    r
}

/// `~/.esqlpass`: beside `~/.pgpass` and `~/.my.cnf`, where anyone who knows
/// those looks for it, and not in `~/.config`, which people sync and commit.
pub open spec fn pass_path_spec(home: Seq<char>) -> Seq<char> {
    join_path(home, ".esqlpass"@)
}

pub fn pass_path() -> (r: String)
    ensures
        exists|h: Seq<char>| r@ == pass_path_spec(h),
{
    let h = home();
    let r = join_path_of(h.as_str(), ".esqlpass");
    assert(r@ == pass_path_spec(h@));
    r
}

/// Whether a file with these permission bits can be read by nobody but its
/// owner: no group or other bit set, the same test libpq applies to
/// `.pgpass` before it will use it.
pub fn mode_is_private(mode: u32) -> (r: bool)
    ensures
        r == (mode & 0o077 == 0),
{
    mode & 0o077 == 0
}

/// The password kept for connection `name` in the password file's text: the
/// first section with that name, its `password` key, and only when non-empty.
/// A file others can read is not used at all (`private` false), so sqlcmd
/// asks instead.
pub open spec fn password_spec(text: Seq<char>, private: bool, name: Seq<char>) -> Option<
    Seq<char>,
> {
    if !private {
        None
    } else {
        let secs = parse_text(text);
        match section_index(secs, name) {
            Some(i) => match lookup(secs[i].keys, "password"@) {
                Some(p) => if p.len() > 0 {
                    Some(p)
                } else {
                    None
                },
                None => None,
            },
            None => None,
        }
    }
}

pub fn password(text: &str, private: bool, name: &str) -> (r: Option<String>)
    ensures
        opt_sview(r) == password_spec(text@, private, name@),
{
    if !private {
        return None;
    }
    let secs = parse(text);
    let n = chars_of(name);
    match section_at(&secs, n.as_slice()) {
        Some(i) => {
            assert(sviews(secs@)[i as int] == secs@[i as int]@);
            match secs[i].get("password") {
                Some(p) => if !p.is_empty() {
                    Some(p.to_string())
                } else {
                    None
                },
                None => None,
            }
        },
        None => None,
    }
}

/// Whether some section named `name` carries a `password` key.
pub open spec fn has_password_spec(text: Seq<char>, name: Seq<char>) -> bool {
    exists|i: int|
        0 <= i < parse_text(text).len() && (#[trigger] parse_text(text)[i]).name == name && lookup(
            parse_text(text)[i].keys,
            "password"@,
        ) is Some
}

pub fn has_password(text: &str, name: &str) -> (r: bool)
    ensures
        r == has_password_spec(text@, name@),
{
    let secs = parse(text);
    let g = chars_of(name);
    let mut i: usize = 0;
    while i < secs.len()
        invariant
            i <= secs@.len(),
            g@ == name@,
            sviews(secs@) == parse_text(text@),
            forall|j: int|
                0 <= j < i ==> !((#[trigger] parse_text(text@)[j]).name == name@ && lookup(
                    parse_text(text@)[j].keys,
                    "password"@,
                ) is Some),
        decreases secs@.len() - i,
    {
        assert(sviews(secs@)[i as int] == secs@[i as int]@);
        let n = chars_of(secs[i].name.as_str());
        if seq_eq(n.as_slice(), g.as_slice()) && secs[i].get("password").is_some() {
            return true;
        }
        i = i + 1;
    }
    false
}

/// The password file's new text after saving `password` for `name`, or with
/// `None` forgetting it; `None` when there is nothing to write.
pub open spec fn set_password_spec(text: Seq<char>, name: Seq<char>, password: Option<Seq<char>>) -> Option<
    Seq<char>,
> {
    match password {
        Some(p) => Some(file_body(upsert_lines(text, name, name, seq![("password"@, p)]))),
        None => if has_password_spec(text, name) {
            match remove_lines(text, name) {
                Some(ls) => Some(file_body(ls)),
                None => None,
            }
        } else {
            None
        },
    }
}

/// Save it, or with `None` forget it.
pub fn set_password(text: &str, name: &str, password: Option<&str>) -> (r: Option<String>)
    ensures
        opt_sview(r) == set_password_spec(text@, name@, opt_view(password)),
{
    match password {
        Some(p) => {
            let keys = vec![("password".to_string(), p.to_string())];
            assert(kviews(keys@) =~= seq![("password"@, p@)]);
            Some(upsert(text, None, name, &keys))
        },
        None => {
            if has_password(text, name) {
                remove(text, name)
            } else {
                None
            }
        },
    }
}

/// The password file's new text after a rename moved the connection from
/// `from` to `to`; `None` when there is no usable password to move.
pub open spec fn rename_password_spec(text: Seq<char>, private: bool, from: Seq<char>, to: Seq<char>) -> Option<
    Seq<char>,
> {
    match password_spec(text, private, from) {
        Some(p) => Some(file_body(upsert_lines(text, from, to, seq![("password"@, p)]))),
        None => None,
    }
}

/// A rename moves the password with the connection, since it is keyed on the
/// name.
pub fn rename_password(text: &str, private: bool, from: &str, to: &str) -> (r: Option<String>)
    ensures
        opt_sview(r) == rename_password_spec(text@, private, from@, to@),
{
    match password(text, private, from) {
        Some(p) => {
            let ghost pv = p@;
            let keys = vec![("password".to_string(), p)];
            assert(kviews(keys@) =~= seq![("password"@, pv)]);
            Some(upsert(text, Some(from), to, &keys))
        },
        None => None,
    }
}

/// The connection a block describes.
pub open spec fn conn_of(s: SectionV) -> ConnV {
    ConnV {
        engine: Engine::MsSql,
        name: s.name,
        host: or_empty(lookup(s.keys, "host"@)),
        port: or_empty(lookup(s.keys, "port"@)),
        database: or_empty(lookup(s.keys, "database"@)),
        user: or_empty(lookup(s.keys, "user"@)),
        extra: rest_of(s.keys, known()),
    }
}

pub open spec fn list_spec(text: Seq<char>) -> Seq<ConnV> {
    parse_text(text).map_values(|s: SectionV| conn_of(s))
}

/// Every connection in the list's text, in file order.
pub fn list_in(text: &str) -> (r: Vec<Conn>)
    ensures
        super::conn_views(r@) == list_spec(text@),
{
    let secs = parse(text);
    let kn = known_keys();
    let mut r: Vec<Conn> = Vec::new();
    let mut i: usize = 0;
    while i < secs.len()
        invariant
            i <= secs@.len(),
            kn@ == known(),
            sviews(secs@) == parse_text(text@),
            super::conn_views(r@) == list_spec(text@).take(i as int),
        decreases secs@.len() - i,
    {
        let s = &secs[i];
        assert(sviews(secs@)[i as int] == s@);
        let c = Conn {
            engine: Engine::MsSql,
            name: s.name.clone(),
            host: get_or_empty(s, "host"),
            port: get_or_empty(s, "port"),
            database: get_or_empty(s, "database"),
            user: get_or_empty(s, "user"),
            extra: s.rest(kn.as_slice()),
        };
        let ghost prev = r@;
        r.push(c);
        assert(super::conn_views(r@) =~= super::conn_views(prev).push(conn_of(s@)));
        i = i + 1;
        assert(list_spec(text@).take(i as int) =~= list_spec(text@).take(i - 1).push(
            conn_of(s@),
        ));
    }
    assert(list_spec(text@).take(secs@.len() as int) =~= list_spec(text@));
    r
}

/// Whether a connection waives certificate validation.
pub open spec fn trusts_cert_spec(c: ConnV) -> bool {
    has_pair(c.extra, "trust_cert"@, "yes"@)
}

pub fn trusts_cert(c: &Conn) -> (r: bool)
    ensures
        r == trusts_cert_spec(c@),
{
    find_pair(c.extra.as_slice(), "trust_cert", "yes")
}

/// The connection flags, which are the whole handoff for this engine:
/// `-S host,port` (sqlcmd's own syntax, a comma, not a colon), `-d` with the
/// asked-for database or the saved one, `-U` with the user, and `-C` when the
/// certificate is trusted. `-P` is never passed, so sqlcmd asks for the
/// password itself.
pub open spec fn flags_spec(c: ConnV, db: Option<Seq<char>>) -> Seq<Seq<char>> {
    let host = if c.host.len() == 0 {
        "localhost"@
    } else {
        c.host
    };
    let s = seq!["-S"@, host + ","@ + port_or_default_spec(c)];
    let database = match db {
        Some(d) => d,
        None => c.database,
    };
    let d = if database.len() > 0 {
        s + seq!["-d"@, database]
    } else {
        s
    };
    let u = if c.user.len() > 0 {
        d + seq!["-U"@, c.user]
    } else {
        d
    };
    if trusts_cert_spec(c) {
        u.push("-C"@)
    } else {
        u
    }
}

pub fn flags(c: &Conn, db: Option<&str>) -> (r: Vec<String>)
    ensures
        views(r@) == flags_spec(c@, opt_view(db)),
{
    let mut hp = if c.host.as_str().is_empty() {
        chars_of("localhost")
    } else {
        chars_of(c.host.as_str())
    };
    hp.push(',');
    extend(&mut hp, chars_of(c.port_or_default().as_str()).as_slice());
    let mut argv: Vec<String> = vec!["-S".to_string(), string_of(hp.as_slice())];
    let ghost host = if c@.host.len() == 0 {
        "localhost"@
    } else {
        c@.host
    };
    proof {
        reveal_strlit(",");
    }
    assert(hp@ =~= host + ","@ + port_or_default_spec(c@));
    let database = match db {
        Some(d) => d.to_string(),
        None => c.database.clone(),
    };
    let ghost s0 = views(argv@);
    if !database.as_str().is_empty() {
        argv.push("-d".to_string());
        argv.push(database);
    }
    let ghost s1 = views(argv@);
    if !c.user.as_str().is_empty() {
        argv.push("-U".to_string());
        argv.push(c.user.clone());
    }
    let ghost s2 = views(argv@);
    if trusts_cert(c) {
        argv.push("-C".to_string());
    }
    assert(views(argv@) =~= flags_spec(c@, opt_view(db)));
    argv
}

pub open spec fn save_keys(nc: NewConnV) -> Seq<(Seq<char>, Seq<char>)> {
    field("host"@, nc.host) + field("port"@, nc.port) + field("database"@, nc.database) + field(
        "user"@,
        nc.user,
    ) + nc.extra
}

/// The list's new text after creating or rewriting a connection.
pub fn save(text: &str, original: Option<&str>, nc: &NewConn) -> (r: String)
    ensures
        r@ == file_body(
            upsert_lines(
                text@,
                target_of(original, trim(nc.name@)),
                trim(nc.name@),
                save_keys(nc@),
            ),
        ),
{
    let mut keys: Vec<(String, String)> = Vec::new();
    push_field(&mut keys, "host", nc.host.as_str());
    push_field(&mut keys, "port", nc.port.as_str());
    push_field(&mut keys, "database", nc.database.as_str());
    push_field(&mut keys, "user", nc.user.as_str());
    push_all(&mut keys, nc.extra.as_slice());
    assert(kviews(keys@) =~= save_keys(nc@));
    let name = string_of(trimmed(chars_of(nc.name.as_str()).as_slice()).as_slice());
    upsert(text, original, name.as_str(), &keys)
}

/// The list's new text without connection `name`; `None` when there is none.
pub fn delete(text: &str, name: &str) -> (r: Option<String>)
    ensures
        r matches Some(s) ==> remove_lines(text@, name@) matches Some(ls) && s@ == file_body(ls),
        r is None ==> remove_lines(text@, name@) is None,
{
    remove(text, name)
}

/// The non-interactive question after a failed open. `-l` is the login
/// timeout in seconds, and there is no "never prompt" flag: sqlcmd asks for a
/// password unless `SQLCMDPASSWORD` is set, so the probe hands over the stored
/// password when the setting allows one, and an empty one otherwise purely to
/// stop sqlcmd blocking on a prompt nobody can answer.
pub fn probe_argv(c: &Conn, s: &crate::settings::Settings, pass_text: &str, private: bool) -> (r: (
    Vec<String>,
    Vec<(String, String)>,
))
    ensures
        exists|h: Seq<char>|
            views(r.0@) == super::connect_argv_spec(c@, s@, None, h) + seq![
                "-l"@,
                dec(s.probe_timeout as nat),
                "-Q"@,
                "select 1"@,
            ],
        kviews(r.1@) == if super::secret_env_spec(c@, s@, pass_text@, private).len() > 0 {
            super::secret_env_spec(c@, s@, pass_text@, private).take(1)
        } else {
            seq![("SQLCMDPASSWORD"@, Seq::<char>::empty())]
        },
{
    let h = home();
    let mut argv = c.connect_argv_in(s, None, h.as_str());
    let ghost base = views(argv@);
    argv.push("-l".to_string());
    argv.push(string_of(dec_of(s.probe_timeout).as_slice()));
    argv.push("-Q".to_string());
    argv.push("select 1".to_string());
    assert(views(argv@) =~= base + seq!["-l"@, dec(s.probe_timeout as nat), "-Q"@, "select 1"@]);
    let mut sec = c.secret_env(s, pass_text, private);
    let env = if sec.len() > 0 {
        let first = sec.remove(0);
        let e = vec![first];
        assert(kviews(e@) =~= super::secret_env_spec(c@, s@, pass_text@, private).take(1));
        e
    } else {
        let e = vec![("SQLCMDPASSWORD".to_string(), String::new())];
        assert(kviews(e@) =~= seq![("SQLCMDPASSWORD"@, Seq::<char>::empty())]);
        e
    };
    (argv, env)
}

/// A password saved for a connection is the one the password file then gives
/// for it, whether it had one before or not. The name and the password read
/// back as themselves (trimmed, on one line), and the password is not empty.
pub proof fn lemma_saved_password_reads_back(text: Seq<char>, name: Seq<char>, p: Seq<char>)
    requires
        crate::ini::plain(name),
        crate::ini::plain(p),
        p.len() > 0,
    ensures
        set_password_spec(text, name, Some(p)) matches Some(t) && password_spec(t, true, name)
            == Some(p),
{
    super::lemma_field_keys();
    let keys = seq![("password"@, p)];
    assert(crate::ini::plain_keys(keys)) by {
        assert(keys[0] == ("password"@, p));
    }
    crate::ini::lemma_written_section_found(text, name, keys);
    let t = file_body(upsert_lines(text, name, name, keys));
    let secs = parse_text(t);
    let i = section_index(secs, name)->0;
    assert(secs[i].keys == keys);
    assert(crate::text::eq_ic("password"@, "password"@));
    crate::ini::lemma_key_index(keys, "password"@, 0);
}

/// A rename moves the password with the connection: the file then gives,
/// for the new name, the password it gave for the old one. The new name reads
/// back as itself and names no section yet.
pub proof fn lemma_renamed_password_moves(text: Seq<char>, from: Seq<char>, to: Seq<char>)
    requires
        password_spec(text, true, from) is Some,
        section_index(parse_text(text), to) is None,
        crate::ini::plain(to),
    ensures
        rename_password_spec(text, true, from, to) matches Some(t) && password_spec(t, true, to)
            == password_spec(text, true, from),
{
    super::lemma_field_keys();
    let secs = parse_text(text);
    let i = section_index(secs, from)->0;
    crate::ini::lemma_section_index_some(secs, from);
    crate::ini::lemma_section_index_none(secs, to);
    let p = password_spec(text, true, from)->0;
    crate::ini::lemma_key_index_props(secs[i].keys, "password"@);
    crate::ini::lemma_values_plain(text);
    let k = crate::ini::key_index(secs[i].keys, "password"@)->0;
    assert(p == secs[i].keys[k].1);
    assert(crate::ini::plain(secs[i].keys[k].1));
    let keys = seq![("password"@, p)];
    assert(crate::ini::plain_keys(keys)) by {
        assert(keys[0] == ("password"@, p));
    }
    crate::ini::lemma_replaced_section_blocks(text, from, to, keys);
    let t = file_body(upsert_lines(text, from, to, keys));
    let ns = parse_text(t);
    assert forall|j: int| 0 <= j < i implies (#[trigger] ns[j]).name != to by {
        assert(crate::ini::same_block(ns[j], secs[j]));
    }
    crate::ini::lemma_section_index(ns, to, i);
    assert(ns[i].keys == keys);
    assert(crate::text::eq_ic("password"@, "password"@));
    crate::ini::lemma_key_index(keys, "password"@, 0);
}

} // verus!
