//! SQLite. There is no server, no user and no password: a connection is a path
//! to a file, and `sqlite3 <path>` is the whole story.
//!
//! It is also the one engine whose client has no config file of its own, so
//! this is a list easysql owns rather than borrows. It lives in the config dir
//! in the same INI shape as the others, so it reads the same way by hand.

use super::{find_pair, has_pair, Conn, ConnV, Engine, NewConn, NewConnV};
use crate::engines::pg::{get_or_empty, or_empty, push_all};
use crate::ini::{
    config_dir, join_path, join_path_of, kviews, lookup, parse, parse_text, remove, remove_lines,
    rest_of, sviews, target_of, upsert, upsert_lines, SectionV,
};
use crate::text::{chars_of, file_body, string_of, trim, trimmed};
use vstd::prelude::*;

verus! {

/// The keys the wizard owns.
pub open spec fn known() -> Seq<&'static str> {
    seq!["path"]
}

fn known_keys() -> (r: Vec<&'static str>)
    ensures
        r@ == known(),
{
    let r = vec!["path"];
    assert(r@ =~= known());
    r
}

/// `easysql/sqlite.conf` under the config directory.
pub open spec fn store_path_spec(config: Seq<char>) -> Seq<char> {
    join_path(join_path(config, "easysql"@), "sqlite.conf"@)
}

pub fn store_path_in(config: &str) -> (r: String)
    ensures
        r@ == store_path_spec(config@),
{
    let d = join_path_of(config, "easysql");
    join_path_of(d.as_str(), "sqlite.conf")
}

/// The list's file under this machine's config directory.
pub fn store_path() -> (r: String)
    ensures
        exists|c: Seq<char>| r@ == store_path_spec(c),
{
    let c = config_dir();
    store_path_in(c.as_str())
}

/// Whether a block opens its file with `-readonly`, which sqlite3 enforces
/// itself: a write fails with "attempt to write a readonly database".
pub open spec fn read_only_spec(extra: Seq<(Seq<char>, Seq<char>)>) -> bool {
    has_pair(extra, "readonly"@, "yes"@)
}

pub fn read_only(extra: &[(String, String)]) -> (r: bool)
    ensures
        r == read_only_spec(kviews(extra@)),
{
    find_pair(extra, "readonly", "yes")
}

/// The connection a block describes.
pub open spec fn conn_of(s: SectionV) -> ConnV {
    ConnV {
        engine: Engine::Sqlite,
        name: s.name,
        host: seq![],
        port: seq![],
        database: or_empty(lookup(s.keys, "path"@)),
        user: seq![],
        extra: rest_of(s.keys, known()),
    }
}

pub open spec fn list_spec(text: Seq<char>) -> Seq<ConnV> {
    parse_text(text).map_values(|s: SectionV| conn_of(s))
}

/// Every connection in the list's text, in file order.
pub fn list(text: &str) -> (r: Vec<Conn>)
    ensures
        super::conn_views(r@) == list_spec(text@),
{
    let secs = parse(text);
    let kn = known_keys();
    let mut r: Vec<Conn> = Vec::new();
    let mut i: usize = 0;
    while i < secs.len()
        invariant
            i <= secs@.len(),
            kn@ == known(),
            sviews(secs@) == parse_text(text@),
            super::conn_views(r@) == list_spec(text@).take(i as int),
        decreases secs@.len() - i,
    {
        let s = &secs[i];
        assert(sviews(secs@)[i as int] == s@);
        let c = Conn {
            engine: Engine::Sqlite,
            name: s.name.clone(),
            host: String::new(),
            port: String::new(),
            database: get_or_empty(s, "path"),
            user: String::new(),
            extra: s.rest(kn.as_slice()),
        };
        let ghost prev = r@;
        r.push(c);
        assert(super::conn_views(r@) =~= super::conn_views(prev).push(conn_of(s@)));
        i = i + 1;
        assert(list_spec(text@).take(i as int) =~= list_spec(text@).take(i - 1).push(
            conn_of(s@),
        ));
    }
    assert(list_spec(text@).take(secs@.len() as int) =~= list_spec(text@));
    r
}

/// The keys a connection is written with: its path, always, then the rest.
pub open spec fn save_keys(nc: NewConnV) -> Seq<(Seq<char>, Seq<char>)> {
    seq![("path"@, trim(nc.database))] + nc.extra
}

/// The list's new text after creating or rewriting a connection.
pub fn save(text: &str, original: Option<&str>, nc: &NewConn) -> (r: String)
    ensures
        r@ == file_body(
            upsert_lines(
                text@,
                target_of(original, trim(nc.name@)),
                trim(nc.name@),
                save_keys(nc@),
            ),
        ),
{
    let path = string_of(trimmed(chars_of(nc.database.as_str()).as_slice()).as_slice());
    let mut keys: Vec<(String, String)> = vec![("path".to_string(), path)];
    push_all(&mut keys, nc.extra.as_slice());
    assert(kviews(keys@) =~= save_keys(nc@));
    let name = string_of(trimmed(chars_of(nc.name.as_str()).as_slice()).as_slice());
    upsert(text, original, name.as_str(), &keys)
}

/// The list's new text without connection `name`; `None` when there is none.
pub fn delete(text: &str, name: &str) -> (r: Option<String>)
    ensures
        r matches Some(s) ==> remove_lines(text@, name@) matches Some(ls) && s@ == file_body(ls),
        r is None ==> remove_lines(text@, name@) is None,
{
    remove(text, name)
}

} // verus!
