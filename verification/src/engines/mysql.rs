//! MySQL and MariaDB. Connections live in `~/.my.cnf` as `[clientNAME]` option
//! groups, which `mysql --defaults-group-suffix=NAME` reads on top of the plain
//! `[client]` group: the same "point the client at a named block" handoff the
//! Postgres service file gives.
//!
//! Named groups on purpose, never `[client]` itself: that one is read by every
//! MySQL tool on the machine, so writing a host into it would silently
//! redirect `mysqldump` and everything else. The password lives in the group,
//! which is why nothing here ever passes `-p<password>`.

use super::{Conn, ConnV, Engine, NewConn, NewConnV};
use crate::engines::pg::{field, get_or_empty, or_empty, push_all, push_field};
use crate::ini::{
    home, join_path, join_path_of, kviews, lookup, opt_sview, opt_view, parse, parse_text, remove,
    remove_lines, rest_of, section_at, section_index, set_key, set_keys, sviews, upsert,
    upsert_lines, SectionV,
};
use crate::text::{
    chars_of, copy, dec, dec_of, extend, file_body, has_prefix, slice_to_vec, starts_with, string_of,
    trim, trimmed, views,
};
use vstd::prelude::*;

verus! {

/// The keys the wizard owns. `password` is in the list: it is carried by the
/// Credentials tab, not by a connection edit, so `rest` must not hand it back
/// as an extra.
pub open spec fn known() -> Seq<&'static str> {
    seq!["host", "port", "database", "user", "password"]
}

fn known_keys() -> (r: Vec<&'static str>)
    ensures
        r@ == known(),
{
    let r = vec!["host", "port", "database", "user", "password"];
    assert(r@ =~= known());
    r
}

/// `~/.my.cnf` under `home`.
pub open spec fn cnf_path_spec(home: Seq<char>) -> Seq<char> {
    join_path(home, ".my.cnf"@)
}

pub fn cnf_path() -> (r: String)
    ensures
        exists|h: Seq<char>| r@ == cnf_path_spec(h),
{
    let h = home();
    let r = join_path_of(h.as_str(), ".my.cnf");
    assert(r@ == cnf_path_spec(h@));
    r
}

/// The group a connection called `prod` lives in: `clientprod`.
pub open spec fn group_spec(name: Seq<char>) -> Seq<char> {
    "client"@ + name
}

pub fn group_of(name: &str) -> (r: String)
    ensures
        r@ == group_spec(name@),
{
    let mut v = chars_of("client");
    extend(&mut v, chars_of(name).as_slice());
    string_of(v.as_slice())
}

/// The connection name a group belongs to; nothing for `[client]` itself and
/// for every group that is not ours (`[mysqld]`, `[mysqldump]`).
pub open spec fn name_spec(group: Seq<char>) -> Option<Seq<char>> {
    if starts_with(group, "client"@) && group.len() > "client"@.len() {
        Some(group.skip("client"@.len() as int))
    } else {
        None
    }
}

pub fn name_of(group: &str) -> (r: Option<String>)
    ensures
        opt_sview(r) == name_spec(group@),
{
    let g = chars_of(group);
    let p = chars_of("client");
    if has_prefix(g.as_slice(), p.as_slice()) && g.len() > p.len() {
        let rest = slice_to_vec(g.as_slice(), p.len(), g.len());
        Some(string_of(rest.as_slice()))
    } else {
        None
    }
}

/// The connection a group describes.
pub open spec fn conn_of(s: SectionV) -> ConnV {
    ConnV {
        engine: Engine::MySql,
        name: name_spec(s.name)->0,
        host: or_empty(lookup(s.keys, "host"@)),
        port: or_empty(lookup(s.keys, "port"@)),
        database: or_empty(lookup(s.keys, "database"@)),
        user: or_empty(lookup(s.keys, "user"@)),
        extra: rest_of(s.keys, known()),
    }
}

/// The connections in the file: every group named `client` plus a name, in
/// file order.
pub open spec fn list_spec_of(secs: Seq<SectionV>) -> Seq<ConnV>
    decreases secs.len(),
{
    if secs.len() == 0 {
        seq![]
    } else {
        let rest = list_spec_of(secs.drop_last());
        if name_spec(secs.last().name) is Some {
            rest.push(conn_of(secs.last()))
        } else {
            rest
        }
    }
}

pub open spec fn list_spec(text: Seq<char>) -> Seq<ConnV> {
    list_spec_of(parse_text(text))
}

/// Every connection group in `~/.my.cnf`'s text, in file order.
pub fn list_in(text: &str) -> (r: Vec<Conn>)
    ensures
        super::conn_views(r@) == list_spec(text@),
{
    let secs = parse(text);
    let kn = known_keys();
    let mut r: Vec<Conn> = Vec::new();
    let mut i: usize = 0;
    while i < secs.len()
        invariant
            i <= secs@.len(),
            kn@ == known(),
            sviews(secs@) == parse_text(text@),
            super::conn_views(r@) == list_spec_of(parse_text(text@).take(i as int)),
        decreases secs@.len() - i,
    {
        let s = &secs[i];
        assert(sviews(secs@)[i as int] == s@);
        assert(parse_text(text@).take(i + 1).drop_last() =~= parse_text(text@).take(i as int));
        match name_of(s.name.as_str()) {
            Some(name) => {
                let c = Conn {
                    engine: Engine::MySql,
                    name,
                    host: get_or_empty(s, "host"),
                    port: get_or_empty(s, "port"),
                    database: get_or_empty(s, "database"),
                    user: get_or_empty(s, "user"),
                    extra: s.rest(kn.as_slice()),
                };
                let ghost prev = r@;
                r.push(c);
                assert(super::conn_views(r@) =~= super::conn_views(prev).push(conn_of(s@)));
            },
            None => {},
        }
        i = i + 1;
    }
    assert(parse_text(text@).take(secs@.len() as int) =~= parse_text(text@));
    r
}

/// Whether the group of connection `name` carries a password. The value is
/// never read out, only its presence.
pub open spec fn has_password_spec(text: Seq<char>, name: Seq<char>) -> bool {
    exists|i: int|
        0 <= i < parse_text(text).len() && (#[trigger] parse_text(text)[i]).name == group_spec(name)
            && lookup(parse_text(text)[i].keys, "password"@) is Some
}

pub fn has_password(text: &str, name: &str) -> (r: bool)
    ensures
        r == has_password_spec(text@, name@),
{
    let secs = parse(text);
    let g = chars_of(group_of(name).as_str());
    let mut i: usize = 0;
    while i < secs.len()
        invariant
            i <= secs@.len(),
            g@ == group_spec(name@),
            sviews(secs@) == parse_text(text@),
            forall|j: int|
                0 <= j < i ==> !((#[trigger] parse_text(text@)[j]).name == group_spec(name@)
                    && lookup(parse_text(text@)[j].keys, "password"@) is Some),
        decreases secs@.len() - i,
    {
        assert(sviews(secs@)[i as int] == secs@[i as int]@);
        let n = chars_of(secs[i].name.as_str());
        if crate::text::seq_eq(n.as_slice(), g.as_slice()) && secs[i].get("password").is_some() {
            return true;
        }
        i = i + 1;
    }
    false
}

/// The password already in the group a save replaces, so that an edit, which
/// has no password field, does not drop it.
pub open spec fn kept_password(text: Seq<char>, group: Seq<char>) -> Seq<(Seq<char>, Seq<char>)> {
    let secs = parse_text(text);
    match section_index(secs, group) {
        Some(i) => match lookup(secs[i].keys, "password"@) {
            Some(p) => seq![("password"@, p)],
            None => seq![],
        },
        None => seq![],
    }
}

/// The group a save replaces: the original's, or the new name's.
pub open spec fn existing_group(original: Option<&str>, name: Seq<char>) -> Seq<char> {
    match original {
        Some(o) => group_spec(o@),
        None => group_spec(name),
    }
}

pub open spec fn save_keys(text: Seq<char>, original: Option<&str>, nc: NewConnV) -> Seq<
    (Seq<char>, Seq<char>),
> {
    field("host"@, nc.host) + field("port"@, nc.port) + field("database"@, nc.database) + field(
        "user"@,
        nc.user,
    ) + kept_password(text, existing_group(original, trim(nc.name))) + nc.extra
}

/// `~/.my.cnf`'s new text after creating or rewriting a connection's group.
pub fn save(text: &str, original: Option<&str>, nc: &NewConn) -> (r: String)
    ensures
        r@ == file_body(
            upsert_lines(
                text@,
                existing_group(original, trim(nc.name@)),
                group_spec(trim(nc.name@)),
                save_keys(text@, original, nc@),
            ),
        ),
{
    let name = string_of(trimmed(chars_of(nc.name.as_str()).as_slice()).as_slice());
    let group = group_of(name.as_str());
    let existing = match original {
        Some(o) => group_of(o),
        None => group_of(name.as_str()),
    };
    let mut keys: Vec<(String, String)> = Vec::new();
    push_field(&mut keys, "host", nc.host.as_str());
    push_field(&mut keys, "port", nc.port.as_str());
    push_field(&mut keys, "database", nc.database.as_str());
    push_field(&mut keys, "user", nc.user.as_str());
    let ghost before = kviews(keys@);
    let secs = parse(text);
    let ex = chars_of(existing.as_str());
    match section_at(&secs, ex.as_slice()) {
        Some(i) => {
            assert(sviews(secs@)[i as int] == secs@[i as int]@);
            match secs[i].get("password") {
                Some(pw) => {
                    keys.push(("password".to_string(), pw.to_string()));
                },
                None => {},
            }
        },
        None => {},
    }
    assert(kviews(keys@) =~= before + kept_password(text@, existing@));
    push_all(&mut keys, nc.extra.as_slice());
    assert(kviews(keys@) =~= save_keys(text@, original, nc@));
    upsert(text, Some(existing.as_str()), group.as_str(), &keys)
}

/// `~/.my.cnf`'s new text without connection `name`'s group; `None` when
/// there is none.
pub fn delete(text: &str, name: &str) -> (r: Option<String>)
    ensures
        r matches Some(s) ==> remove_lines(text@, group_spec(name@)) matches Some(ls) && s@
            == file_body(ls),
        r is None ==> remove_lines(text@, group_spec(name@)) is None,
{
    let g = group_of(name);
    remove(text, g.as_str())
}

/// `~/.my.cnf`'s new text with the group's password written or, for `None`,
/// cleared; `None` when the connection has no group. The only place easysql
/// touches a MySQL secret, and it goes straight into the file the client reads.
pub fn set_password(text: &str, name: &str, password: Option<&str>) -> (r: Option<String>)
    ensures
        r is None <==> section_index(parse_text(text@), group_spec(name@)) is None,
        r matches Some(s) ==> ({
            let secs = parse_text(text@);
            let i = section_index(secs, group_spec(name@))->0;
            s@ == file_body(
                upsert_lines(
                    text@,
                    group_spec(name@),
                    group_spec(name@),
                    set_keys(secs[i].keys, "password"@, opt_view(password)),
                ),
            )
        }),
{
    let g = group_of(name);
    set_key(text, g.as_str(), "password", password)
}

/// The non-interactive question after a failed open: one `select 1` with a
/// connect timeout.
pub fn probe_argv(c: &Conn, s: &crate::settings::Settings) -> (r: (
    Vec<String>,
    Vec<(String, String)>,
))
    ensures
        exists|h: Seq<char>|
            views(r.0@) == super::connect_argv_spec(c@, s@, None, h) + seq![
                "--connect-timeout="@ + dec(s.probe_timeout as nat),
                "-e"@,
                "select 1"@,
            ],
        r.1@.len() == 0,
{
    let h = home();
    let mut argv = c.connect_argv_in(s, None, h.as_str());
    let ghost base = views(argv@);
    let mut t = chars_of("--connect-timeout=");
    extend(&mut t, dec_of(s.probe_timeout).as_slice());
    argv.push(string_of(t.as_slice()));
    argv.push("-e".to_string());
    argv.push("select 1".to_string());
    assert(views(argv@) =~= base + seq![
        "--connect-timeout="@ + dec(s.probe_timeout as nat),
        "-e"@,
        "select 1"@,
    ]);
    (argv, Vec::new())
}

} // verus!
