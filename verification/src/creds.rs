//! Passwords, kept where each client already looks for them and nowhere else.
//!
//! Postgres reads `~/.pgpass`, one `host:port:database:user:password` line per
//! entry with `*` as a wildcard. MySQL reads the `password` key inside the
//! connection's own `[clientNAME]` group. easysql writes those files and then
//! forgets: no password is ever held, put in an environment variable or passed
//! on a command line. A row shows which connection it answers for; the secret
//! itself is only ever written. Here a file is its text.

use crate::engines::{port_or_default_spec, Conn, ConnV, Engine, label_of};
use crate::engines::mysql;
use crate::ini::{collapse_in, home, join_path, join_path_of, kviews, opt_sview, opt_view, collapse_tilde_in};
use crate::text::{
    chars_of, copy, cviews, extend, file_body, file_body_of, join, join_of, lines, lines_of,
    seq_eq, string_of, strings_of, starts_with, trim, trim_start, trimmed, trimmed_start, views,
};
use vstd::prelude::*;

verus! {

/// Where one credential physically lives, which is what a delete has to know.
#[derive(Clone)]
pub enum Source {
    /// The nth entry of `~/.pgpass`, comments and blank lines not counted.
    Pgpass(usize),
    /// The `password` key of `[clientNAME]` in `~/.my.cnf`.
    MyCnf(String),
}

/// One stored password, described by what it unlocks rather than by its value.
#[derive(Clone)]
pub struct Cred {
    pub engine: Engine,
    pub host: String,
    pub port: String,
    pub database: String,
    pub user: String,
    pub source: Source,
}

pub enum SourceV {
    Pgpass(int),
    MyCnf(Seq<char>),
}

pub struct CredV {
    pub engine: Engine,
    pub host: Seq<char>,
    pub port: Seq<char>,
    pub database: Seq<char>,
    pub user: Seq<char>,
    pub source: SourceV,
}

impl View for Cred {
    type V = CredV;

    open spec fn view(&self) -> CredV {
        CredV {
            engine: self.engine,
            host: self.host@,
            port: self.port@,
            database: self.database@,
            user: self.user@,
            source: match self.source {
                Source::Pgpass(i) => SourceV::Pgpass(i as int),
                Source::MyCnf(n) => SourceV::MyCnf(n@),
            },
        }
    }
}

pub open spec fn cred_views(v: Seq<Cred>) -> Seq<CredV> {
    v.map_values(|c: Cred| c@)
}

/// `s` padded with spaces to `n` characters, as `{:<n}` formats it.
pub open spec fn pad(s: Seq<char>, n: nat) -> Seq<char> {
    if s.len() >= n {
        s
    } else {
        s + Seq::new((n - s.len()) as nat, |i: int| ' ')
    }
}

fn pad_of(s: &[char], n: usize) -> (r: Vec<char>)
    ensures
        r@ == pad(s@, n as nat),
{
    let mut r = copy(s);
    let ghost start = s@;
    while r.len() < n
        invariant
            start == s@,
            r@.len() >= start.len(),
            r@.len() <= n || r@.len() == start.len(),
            r@ == start + Seq::new((r@.len() - start.len()) as nat, |i: int| ' '),
        decreases n - r@.len(),
    {
        let ghost prev = r@;
        r.push(' ');
        assert(r@ =~= start + Seq::new((r@.len() - start.len()) as nat, |i: int| ' '));
    }
    assert(r@ =~= pad(s@, n as nat));
    r
}

/// The one-line summary: which server, which database, which user.
pub open spec fn describe_spec(c: CredV) -> Seq<char> {
    pad(label_of(c.engine), 9) + seq![' '] + pad(c.host + seq![':'] + c.port, 28) + seq![' ']
        + pad(c.database, 14) + seq![' '] + c.user
}

/// A `.pgpass` field matches when it is the wildcard or the exact value. An
/// empty value on the connection's side (no dbname set, say) cannot be
/// checked, so only the wildcard covers it.
pub open spec fn field_matches_spec(pattern: Seq<char>, value: Seq<char>) -> bool {
    pattern == seq!['*'] || (value.len() > 0 && pattern == value)
}

pub fn field_matches(pattern: &str, value: &str) -> (r: bool)
    ensures
        r == field_matches_spec(pattern@, value@),
{
    let p = chars_of(pattern);
    let v = chars_of(value);
    let star = vec!['*'];
    assert(star@ =~= seq!['*']);
    seq_eq(p.as_slice(), star.as_slice()) || (v.len() > 0 && seq_eq(p.as_slice(), v.as_slice()))
}

/// Whether an entry answers for a connection: the same engine, and for
/// MySQL the same group, for Postgres every field matched, `*` matching
/// anything, which is what makes one `.pgpass` line cover a whole cluster.
pub open spec fn covers_spec(cr: CredV, c: ConnV) -> bool {
    if cr.engine != c.engine {
        false
    } else {
        match cr.source {
            SourceV::MyCnf(name) => name == c.name,
            SourceV::Pgpass(_) => {
                let host = if c.host.len() == 0 {
                    "localhost"@
                } else {
                    c.host
                };
                field_matches_spec(cr.host, host) && field_matches_spec(
                    cr.port,
                    port_or_default_spec(c),
                ) && field_matches_spec(cr.database, c.database) && field_matches_spec(
                    cr.user,
                    c.user,
                )
            },
        }
    }
}

/// `$PGPASSFILE` (given as `env`), else `~/.pgpass`. libpq's own precedence.
pub open spec fn pgpass_path_spec(env: Option<Seq<char>>, home: Seq<char>) -> Seq<char> {
    match env {
        Some(p) => p,
        None => join_path(home, ".pgpass"@),
    }
}

pub fn pgpass_path(env: Option<&str>) -> (r: String)
    ensures
        exists|h: Seq<char>| r@ == pgpass_path_spec(opt_view(env), h),
{
    let h = home();
    let r = match env {
        Some(p) => p.to_string(),
        None => join_path_of(h.as_str(), ".pgpass"),
    };
    assert(r@ == pgpass_path_spec(opt_view(env), h@));
    r
}

/// Where a delete would go, in words, with `home` shown as `~`.
pub open spec fn where_stored_spec(c: CredV, env: Option<Seq<char>>, home: Seq<char>) -> Seq<char> {
    match c.source {
        SourceV::Pgpass(_) => collapse_in(home, pgpass_path_spec(env, home)),
        SourceV::MyCnf(name) => collapse_in(home, mysql::cnf_path_spec(home)) + " ["@
            + mysql::group_spec(name) + "]"@,
    }
}

/// A copy of a stored password's description, field for field.
pub fn copy_cred(c: &Cred) -> (r: Cred)
    ensures
        r@ == c@,
{
    Cred {
        engine: c.engine,
        host: c.host.clone(),
        port: c.port.clone(),
        database: c.database.clone(),
        user: c.user.clone(),
        source: match &c.source {
            Source::Pgpass(i) => Source::Pgpass(*i),
            Source::MyCnf(n) => Source::MyCnf(n.clone()),
        },
    }
}

impl Cred {
    /// The one-line summary: which server, which database, which user.
    pub fn describe(&self) -> (r: String)
        ensures
            r@ == describe_spec(self@),
    {
        let mut v = pad_of(chars_of(self.engine.label()).as_slice(), 9);
        v.push(' ');
        let mut hp = chars_of(self.host.as_str());
        hp.push(':');
        extend(&mut hp, chars_of(self.port.as_str()).as_slice());
        extend(&mut v, pad_of(hp.as_slice(), 28).as_slice());
        v.push(' ');
        extend(&mut v, pad_of(chars_of(self.database.as_str()).as_slice(), 14).as_slice());
        v.push(' ');
        extend(&mut v, chars_of(self.user.as_str()).as_slice());
        assert(v@ =~= describe_spec(self@));
        string_of(v.as_slice())
    }

    /// Where a delete would go, in words, given what `$PGPASSFILE` holds and
    /// the home directory.
    pub fn where_stored_in(&self, pgpassfile: Option<&str>, h: &str) -> (r: String)
        ensures
            r@ == where_stored_spec(self@, opt_view(pgpassfile), h@),
    {
        match &self.source {
            Source::Pgpass(_) => {
                let p = match pgpassfile {
                    Some(p) => p.to_string(),
                    None => join_path_of(h, ".pgpass"),
                };
                collapse_tilde_in(h, p.as_str())
            },
            Source::MyCnf(name) => {
                let cnf = join_path_of(h, ".my.cnf");
                let mut v = chars_of(collapse_tilde_in(h, cnf.as_str()).as_str());
                extend(&mut v, chars_of(" [").as_slice());
                extend(&mut v, chars_of(mysql::group_of(name.as_str()).as_str()).as_slice());
                extend(&mut v, chars_of("]").as_slice());
                string_of(v.as_slice())
            },
        }
    }

    /// Where a delete would go, in words, given what `$PGPASSFILE` holds.
    pub fn where_stored(&self, pgpassfile: Option<&str>) -> (r: String)
        ensures
            exists|h: Seq<char>| r@ == where_stored_spec(self@, opt_view(pgpassfile), h),
    {
        let h = home();
        let r = self.where_stored_in(pgpassfile, h.as_str());
        assert(r@ == where_stored_spec(self@, opt_view(pgpassfile), h@));
        r
    }

    /// Does this entry answer for that connection?
    pub fn covers(&self, c: &Conn) -> (r: bool)
        ensures
            r == covers_spec(self@, c@),
    {
        if self.engine != c.engine {
            return false;
        }
        match &self.source {
            Source::MyCnf(name) => {
                let a = chars_of(name.as_str());
                let b = chars_of(c.name.as_str());
                seq_eq(a.as_slice(), b.as_slice())
            },
            Source::Pgpass(_) => {
                let host = if c.host.as_str().is_empty() {
                    "localhost".to_string()
                } else {
                    c.host.clone()
                };
                let port = c.port_or_default();
                field_matches(self.host.as_str(), host.as_str()) && field_matches(
                    self.port.as_str(),
                    port.as_str(),
                ) && field_matches(self.database.as_str(), c.database.as_str())
                    && field_matches(self.user.as_str(), c.user.as_str())
            },
        }
    }
}

// ---------------------------------------------------------------------------
// the `.pgpass` format
// ---------------------------------------------------------------------------

/// `fs` with `c` put in front of its first field.
pub open spec fn prepend(c: char, fs: Seq<Seq<char>>) -> Seq<Seq<char>> {
    fs.update(0, seq![c] + fs[0])
}

/// The fields of a line from character `i` on: split on unescaped colons,
/// where `\:` is a literal colon and `\\` a literal backslash.
pub open spec fn split_from(s: Seq<char>, i: int) -> Seq<Seq<char>>
    decreases s.len() - i,
{
    if i < 0 || i >= s.len() {
        seq![seq![]]
    } else if s[i] == '\\' {
        if i + 1 < s.len() {
            prepend(s[i + 1], split_from(s, i + 2))
        } else {
            seq![seq![]]
        }
    } else if s[i] == ':' {
        seq![seq![]] + split_from(s, i + 1)
    } else {
        prepend(s[i], split_from(s, i + 1))
    }
}

/// A line's fields.
pub open spec fn split_pgpass_spec(line: Seq<char>) -> Seq<Seq<char>> {
    split_from(line, 0)
}

proof fn lemma_split_from_len(s: Seq<char>, i: int)
    ensures
        split_from(s, i).len() >= 1,
    decreases s.len() - i,
{
    if 0 <= i < s.len() {
        if s[i] == '\\' {
            if i + 1 < s.len() {
                lemma_split_from_len(s, i + 2);
            }
        } else {
            lemma_split_from_len(s, i + 1);
        }
    }
}

/// What is written so far followed by what is left to read.
pub open spec fn glue(out: Seq<Seq<char>>, rest: Seq<Seq<char>>) -> Seq<Seq<char>> {
    out.drop_last() + seq![out.last() + rest[0]] + rest.drop_first()
}

/// Split on unescaped colons. `\:` is a literal colon and `\\` a literal
/// backslash, which is how a password containing either survives the format.
pub fn split_pgpass(line: &[char]) -> (r: Vec<Vec<char>>)
    ensures
        cviews(r@) == split_pgpass_spec(line@),
{
    let mut out: Vec<Vec<char>> = vec![Vec::new()];
    let mut i: usize = 0;
    proof {
        lemma_split_from_len(line@, 0);
        assert(glue(cviews(out@), split_from(line@, 0)) =~= split_from(line@, 0));
    }
    while i < line.len()
        invariant
            i <= line@.len(),
            out@.len() >= 1,
            glue(cviews(out@), split_from(line@, i as int)) == split_from(line@, 0),
        decreases line@.len() - i,
    {
        let c = line[i];
        let ghost before = cviews(out@);
        proof {
            lemma_split_from_len(line@, i + 1);
            lemma_split_from_len(line@, i + 2);
        }
        if c == '\\' {
            if i + 1 < line.len() {
                let next = line[i + 1];
                let last = out.len() - 1;
                let mut f = out.pop().unwrap();
                f.push(next);
                out.push(f);
                let ghost rest = split_from(line@, i + 2);
                assert(cviews(out@) =~= before.drop_last().push(before.last().push(next)));
                assert(before.last().push(next) + rest[0] =~= before.last() + (seq![next] + rest[0]));
                assert(prepend(next, rest).drop_first() =~= rest.drop_first());
                assert(glue(cviews(out@), rest) =~= glue(before, prepend(next, rest)));
                i = i + 2;
            } else {
                assert(split_from(line@, i as int) =~= seq![Seq::<char>::empty()]);
                assert(split_from(line@, i + 1) =~= seq![Seq::<char>::empty()]);
                i = i + 1;
            }
        } else if c == ':' {
            out.push(Vec::new());
            let ghost rest = split_from(line@, i + 1);
            assert(cviews(out@) =~= before.push(seq![]));
            assert(glue(cviews(out@), rest) =~= glue(before, seq![seq![]] + rest));
            i = i + 1;
        } else {
            let mut f = out.pop().unwrap();
            f.push(c);
            out.push(f);
            let ghost rest = split_from(line@, i + 1);
            assert(cviews(out@) =~= before.drop_last().push(before.last().push(c)));
            assert(before.last().push(c) + rest[0] =~= before.last() + (seq![c] + rest[0]));
            assert(prepend(c, rest).drop_first() =~= rest.drop_first());
            assert(glue(cviews(out@), rest) =~= glue(before, prepend(c, rest)));
            i = i + 1;
        }
    }
    assert(split_from(line@, i as int) =~= seq![Seq::<char>::empty()]);
    assert(glue(cviews(out@), seq![Seq::<char>::empty()]) =~= cviews(out@));
    out
}

/// The inverse: a value going into a `.pgpass` field, with a backslash
/// before each backslash and each colon.
pub open spec fn escape_pgpass_spec(v: Seq<char>) -> Seq<char>
    decreases v.len(),
{
    if v.len() == 0 {
        seq![]
    } else {
        let c = v.last();
        escape_pgpass_spec(v.drop_last()) + if c == '\\' || c == ':' {
            seq!['\\', c]
        } else {
            seq![c]
        }
    }
}

pub fn escape_pgpass(v: &[char]) -> (r: Vec<char>)
    ensures
        r@ == escape_pgpass_spec(v@),
{
    let mut r: Vec<char> = Vec::new();
    let mut i: usize = 0;
    while i < v.len()
        invariant
            i <= v@.len(),
            r@ == escape_pgpass_spec(v@.take(i as int)),
        decreases v@.len() - i,
    {
        let c = v[i];
        assert(v@.take(i + 1).drop_last() =~= v@.take(i as int));
        if c == '\\' || c == ':' {
            r.push('\\');
        }
        r.push(c);
        i = i + 1;
        assert(r@ =~= escape_pgpass_spec(v@.take(i as int)));
    }
    assert(v@.take(v@.len() as int) =~= v@);
    r
}

/// A `.pgpass` line for these fields.
pub open spec fn entry_spec(fields: Seq<Seq<char>>) -> Seq<char> {
    join(fields.map_values(|f: Seq<char>| escape_pgpass_spec(f)), seq![':'])
}

fn entry_of(fields: &Vec<Vec<char>>) -> (r: Vec<char>)
    ensures
        r@ == entry_spec(cviews(fields@)),
{
    let mut parts: Vec<Vec<char>> = Vec::new();
    let mut i: usize = 0;
    let ghost esc = cviews(fields@).map_values(|f: Seq<char>| escape_pgpass_spec(f));
    while i < fields.len()
        invariant
            i <= fields@.len(),
            esc == cviews(fields@).map_values(|f: Seq<char>| escape_pgpass_spec(f)),
            cviews(parts@) == esc.take(i as int),
        decreases fields@.len() - i,
    {
        let ghost prev = cviews(parts@);
        parts.push(escape_pgpass(fields[i].as_slice()));
        assert(cviews(parts@) =~= prev.push(esc[i as int]));
        i = i + 1;
        assert(esc.take(i as int) =~= esc.take(i - 1).push(esc[i - 1]));
    }
    assert(esc.take(fields@.len() as int) =~= esc);
    let colon = vec![':'];
    assert(colon@ =~= seq![':']);
    join_of(&parts, colon.as_slice())
}

/// Whether a line is a comment or blank, which entries do not count.
pub open spec fn not_entry(line: Seq<char>) -> bool {
    trim(line).len() == 0 || starts_with(trim_start(line), seq!['#'])
}

fn is_not_entry(line: &[char]) -> (r: bool)
    ensures
        r == not_entry(line@),
{
    let t = trimmed(line);
    if t.len() == 0 {
        return true;
    }
    let s = trimmed_start(line);
    let r = s.len() > 0 && s[0] == '#';
    proof {
        if s@.len() > 0 {
            if s@[0] == '#' {
                assert(s@.take(1) =~= seq!['#']);
            } else {
                assert(s@.take(1)[0] != '#');
            }
        }
    }
    r
}

/// The entries of a `.pgpass` text, numbered among the lines that are not
/// comments or blank, keeping only those with exactly five fields: anything
/// else is not an entry easysql understands, and guessing at it is how a
/// password file gets corrupted.
pub open spec fn entries_of(ls: Seq<Seq<char>>) -> (Seq<CredV>, int)
    decreases ls.len(),
{
    if ls.len() == 0 {
        (seq![], 0)
    } else {
        let (out, n) = entries_of(ls.drop_last());
        let line = ls.last();
        if not_entry(line) {
            (out, n)
        } else {
            let f = split_pgpass_spec(line);
            if f.len() == 5 {
                (
                    out.push(
                        CredV {
                            engine: Engine::Pg,
                            host: f[0],
                            port: f[1],
                            database: f[2],
                            user: f[3],
                            source: SourceV::Pgpass(n),
                        },
                    ),
                    n + 1,
                )
            } else {
                (out, n + 1)
            }
        }
    }
}

/// The credential a MySQL connection with a password stands for.
pub open spec fn my_cred(c: ConnV) -> CredV {
    CredV {
        engine: Engine::MySql,
        host: if c.host.len() == 0 {
            "localhost"@
        } else {
            c.host
        },
        port: port_or_default_spec(c),
        database: c.database,
        user: c.user,
        source: SourceV::MyCnf(c.name),
    }
}

/// The MySQL connections whose group holds a password, as credentials.
pub open spec fn my_creds(cs: Seq<ConnV>, text: Seq<char>) -> Seq<CredV>
    decreases cs.len(),
{
    if cs.len() == 0 {
        seq![]
    } else {
        let rest = my_creds(cs.drop_last(), text);
        if mysql::has_password_spec(text, cs.last().name) {
            rest.push(my_cred(cs.last()))
        } else {
            rest
        }
    }
}

/// Every stored password, Postgres first, from the texts of `~/.pgpass` and
/// `~/.my.cnf`.
pub open spec fn list_spec(pgpass: Seq<char>, mycnf: Seq<char>) -> Seq<CredV> {
    entries_of(lines(pgpass)).0 + my_creds(mysql::list_spec(mycnf), mycnf)
}

fn pgpass_entries(text: &str) -> (r: Vec<Cred>)
    ensures
        cred_views(r@) == entries_of(lines(text@)).0,
{
    let ls = lines_of(chars_of(text).as_slice());
    let ghost lv = cviews(ls@);
    let mut out: Vec<Cred> = Vec::new();
    let mut n: usize = 0;
    let mut i: usize = 0;
    while i < ls.len()
        invariant
            i <= ls@.len(),
            lv == cviews(ls@),
            lv == lines(text@),
            n <= i,
            (cred_views(out@), n as int) == entries_of(lv.take(i as int)),
        decreases ls@.len() - i,
    {
        assert(lv.take(i + 1).drop_last() =~= lv.take(i as int));
        assert(lv.take(i + 1).last() == ls@[i as int]@);
        let line = ls[i].as_slice();
        if !is_not_entry(line) {
            let f = split_pgpass(line);
            if f.len() == 5 {
                let ghost prev = cred_views(out@);
                let c = Cred {
                    engine: Engine::Pg,
                    host: string_of(f[0].as_slice()),
                    port: string_of(f[1].as_slice()),
                    database: string_of(f[2].as_slice()),
                    user: string_of(f[3].as_slice()),
                    source: Source::Pgpass(n),
                };
                out.push(c);
                assert(cred_views(out@) =~= prev.push(c@));
            }
            n = n + 1;
        }
        i = i + 1;
    }
    assert(lv.take(ls@.len() as int) =~= lv);
    out
}

/// Every stored password, Postgres first, given the texts of `~/.pgpass` and
/// `~/.my.cnf`.
pub fn list(pgpass_text: &str, mycnf_text: &str) -> (r: Vec<Cred>)
    ensures
        cred_views(r@) == list_spec(pgpass_text@, mycnf_text@),
{
    let mut out = pgpass_entries(pgpass_text);
    let ghost head = cred_views(out@);
    let conns = mysql::list_in(mycnf_text);
    let ghost cv = crate::engines::conn_views(conns@);
    let mut i: usize = 0;
    while i < conns.len()
        invariant
            i <= conns@.len(),
            cv == crate::engines::conn_views(conns@),
            cv == mysql::list_spec(mycnf_text@),
            cred_views(out@) == head + my_creds(cv.take(i as int), mycnf_text@),
        decreases conns@.len() - i,
    {
        let c = &conns[i];
        assert(cv.take(i + 1).drop_last() =~= cv.take(i as int));
        assert(cv.take(i + 1).last() == c@);
        if mysql::has_password(mycnf_text, c.name.as_str()) {
            let cr = Cred {
                engine: Engine::MySql,
                host: if c.host.as_str().is_empty() {
                    "localhost".to_string()
                } else {
                    c.host.clone()
                },
                port: c.port_or_default(),
                database: c.database.clone(),
                user: c.user.clone(),
                source: Source::MyCnf(c.name.clone()),
            };
            let ghost prev = cred_views(out@);
            out.push(cr);
            assert(cred_views(out@) =~= prev.push(my_cred(c@)));
        }
        i = i + 1;
    }
    assert(cv.take(conns@.len() as int) =~= cv);
    out
}

// ---------------------------------------------------------------------------
// writing `.pgpass`
// ---------------------------------------------------------------------------

/// Whether a line is an entry for these four fields.
pub open spec fn same_key(line: Seq<char>, key: Seq<Seq<char>>) -> bool {
    let f = split_pgpass_spec(line);
    f.len() == 5 && f[0] == key[0] && f[1] == key[1] && f[2] == key[2] && f[3] == key[3]
}

/// The lines after writing `entry` for `key`: in place of the first entry
/// with the same four fields, every other line as it was.
pub open spec fn set_state(ls: Seq<Seq<char>>, key: Seq<Seq<char>>, entry: Seq<char>) -> (Seq<
    Seq<char>,
>, bool)
    decreases ls.len(),
{
    if ls.len() == 0 {
        (seq![], false)
    } else {
        let (out, done) = set_state(ls.drop_last(), key, entry);
        if same_key(ls.last(), key) && !done {
            (out.push(entry), true)
        } else {
            (out.push(ls.last()), done)
        }
    }
}

/// The new `.pgpass` text after adding or replacing a Postgres password. An
/// entry with the same first four fields is replaced in place rather than
/// appended, so re-answering the wizard fixes a password instead of stacking
/// a second line libpq would never reach.
pub open spec fn set_pg_spec(
    text: Seq<char>,
    host: Seq<char>,
    port: Seq<char>,
    database: Seq<char>,
    user: Seq<char>,
    password: Seq<char>,
) -> Seq<char> {
    let key = seq![host, port, database, user];
    let entry = entry_spec(seq![host, port, database, user, password]);
    let (out, done) = set_state(lines(text), key, entry);
    file_body(
        if done {
            out
        } else {
            out.push(entry)
        },
    )
}

pub fn set_pg(text: &str, host: &str, port: &str, database: &str, user: &str, password: &str) -> (r:
    String)
    ensures
        r@ == set_pg_spec(text@, host@, port@, database@, user@, password@),
{
    let fields = vec![
        chars_of(host),
        chars_of(port),
        chars_of(database),
        chars_of(user),
        chars_of(password),
    ];
    assert(cviews(fields@) =~= seq![host@, port@, database@, user@, password@]);
    let entry = entry_of(&fields);
    let ghost key = seq![host@, port@, database@, user@];
    let ls = lines_of(chars_of(text).as_slice());
    let ghost lv = cviews(ls@);
    let mut out: Vec<Vec<char>> = Vec::new();
    let mut done = false;
    let mut i: usize = 0;
    while i < ls.len()
        invariant
            i <= ls@.len(),
            lv == cviews(ls@),
            lv == lines(text@),
            fields@.len() == 5,
            cviews(fields@) == seq![host@, port@, database@, user@, password@],
            key == seq![host@, port@, database@, user@],
            entry@ == entry_spec(seq![host@, port@, database@, user@, password@]),
            (cviews(out@), done) == set_state(lv.take(i as int), key, entry@),
        decreases ls@.len() - i,
    {
        assert(lv.take(i + 1).drop_last() =~= lv.take(i as int));
        assert(lv.take(i + 1).last() == ls@[i as int]@);
        let f = split_pgpass(ls[i].as_slice());
        let same = f.len() == 5 && seq_eq(f[0].as_slice(), fields[0].as_slice()) && seq_eq(
            f[1].as_slice(),
            fields[1].as_slice(),
        ) && seq_eq(f[2].as_slice(), fields[2].as_slice()) && seq_eq(
            f[3].as_slice(),
            fields[3].as_slice(),
        );
        assert(same == same_key(lv[i as int], key)) by {
            if f@.len() == 5 {
                assert(cviews(f@)[0] == f@[0]@);
                assert(cviews(f@)[1] == f@[1]@);
                assert(cviews(f@)[2] == f@[2]@);
                assert(cviews(f@)[3] == f@[3]@);
                assert(cviews(fields@)[0] == fields@[0]@);
                assert(cviews(fields@)[1] == fields@[1]@);
                assert(cviews(fields@)[2] == fields@[2]@);
                assert(cviews(fields@)[3] == fields@[3]@);
            }
        }
        let ghost prev = cviews(out@);
        if same && !done {
            out.push(copy(entry.as_slice()));
            done = true;
            assert(cviews(out@) =~= prev.push(entry@));
        } else {
            out.push(copy(ls[i].as_slice()));
            assert(cviews(out@) =~= prev.push(lv[i as int]));
        }
        i = i + 1;
    }
    assert(lv.take(ls@.len() as int) =~= lv);
    if !done {
        let ghost prev = cviews(out@);
        out.push(entry);
        assert(cviews(out@) =~= prev.push(entry_spec(seq![host@, port@, database@, user@, password@])));
    }
    string_of(file_body_of(&out).as_slice())
}

/// The lines after moving entry `idx` to new first four fields, keeping its
/// password, and whether it was found.
pub open spec fn rekey_state(ls: Seq<Seq<char>>, idx: int, key: Seq<Seq<char>>) -> (Seq<
    Seq<char>,
>, int, bool)
    decreases ls.len(),
{
    if ls.len() == 0 {
        (seq![], 0, false)
    } else {
        let (out, seen, moved) = rekey_state(ls.drop_last(), idx, key);
        let line = ls.last();
        if not_entry(line) {
            (out.push(line), seen, moved)
        } else {
            let f = split_pgpass_spec(line);
            if seen == idx && f.len() == 5 {
                (out.push(entry_spec(key.push(f[4]))), seen + 1, true)
            } else {
                (out.push(line), seen + 1, moved)
            }
        }
    }
}

/// Why a move did not happen.
#[derive(Debug)]
pub enum RekeyError {
    /// The entry is no longer in the file.
    Gone,
}

impl RekeyError {
    pub fn message(&self) -> (r: &'static str)
        ensures
            r@ == "that entry is no longer in the file (press r to reload)"@,
    {
        "that entry is no longer in the file (press r to reload)"
    }
}

/// The new `.pgpass` text after moving entry `idx` to a different host, port,
/// database or user, keeping whatever password it already holds. The secret
/// is copied from the old line to the new one and never surfaces. `idx`
/// counts entries, not lines, so comments and blanks cannot shift which row
/// moves.
pub open spec fn rekey_pg_spec(
    text: Seq<char>,
    idx: int,
    host: Seq<char>,
    port: Seq<char>,
    database: Seq<char>,
    user: Seq<char>,
) -> Option<Seq<char>> {
    let (out, _, moved) = rekey_state(lines(text), idx, seq![host, port, database, user]);
    if moved {
        Some(file_body(out))
    } else {
        None
    }
}

pub fn rekey_pg(text: &str, idx: usize, host: &str, port: &str, database: &str, user: &str) -> (r:
    Result<String, RekeyError>)
    ensures
        match r {
            Ok(s) => rekey_pg_spec(text@, idx as int, host@, port@, database@, user@) == Some(s@),
            Err(_) => rekey_pg_spec(text@, idx as int, host@, port@, database@, user@) is None,
        },
{
    let ghost key = seq![host@, port@, database@, user@];
    let ls = lines_of(chars_of(text).as_slice());
    let ghost lv = cviews(ls@);
    let mut out: Vec<Vec<char>> = Vec::new();
    let mut seen: usize = 0;
    let mut moved = false;
    let mut i: usize = 0;
    while i < ls.len()
        invariant
            i <= ls@.len(),
            lv == cviews(ls@),
            lv == lines(text@),
            seen <= i,
            key == seq![host@, port@, database@, user@],
            (cviews(out@), seen as int, moved) == rekey_state(lv.take(i as int), idx as int, key),
        decreases ls@.len() - i,
    {
        assert(lv.take(i + 1).drop_last() =~= lv.take(i as int));
        assert(lv.take(i + 1).last() == ls@[i as int]@);
        let line = ls[i].as_slice();
        let ghost prev = cviews(out@);
        if is_not_entry(line) {
            out.push(copy(line));
            assert(cviews(out@) =~= prev.push(lv[i as int]));
        } else {
            let f = split_pgpass(line);
            if seen == idx && f.len() == 5 {
                let fields = vec![
                    chars_of(host),
                    chars_of(port),
                    chars_of(database),
                    chars_of(user),
                    copy(f[4].as_slice()),
                ];
                assert(cviews(f@)[4] == f@[4]@);
                assert(cviews(fields@) =~= key.push(split_pgpass_spec(lv[i as int])[4]));
                out.push(entry_of(&fields));
                moved = true;
                assert(cviews(out@) =~= prev.push(
                    entry_spec(key.push(split_pgpass_spec(lv[i as int])[4])),
                ));
            } else {
                out.push(copy(line));
                assert(cviews(out@) =~= prev.push(lv[i as int]));
            }
            seen = seen + 1;
        }
        i = i + 1;
    }
    assert(lv.take(ls@.len() as int) =~= lv);
    if !moved {
        return Err(RekeyError::Gone);
    }
    Ok(string_of(file_body_of(&out).as_slice()))
}

/// The lines left after dropping entry `idx`; comments and blanks are copied
/// through and cannot shift which row goes.
pub open spec fn drop_state(ls: Seq<Seq<char>>, idx: int) -> (Seq<Seq<char>>, int)
    decreases ls.len(),
{
    if ls.len() == 0 {
        (seq![], 0)
    } else {
        let (out, seen) = drop_state(ls.drop_last(), idx);
        let line = ls.last();
        if not_entry(line) {
            (out.push(line), seen)
        } else if seen == idx {
            (out, seen + 1)
        } else {
            (out.push(line), seen + 1)
        }
    }
}

/// The new `.pgpass` text without entry `idx`.
pub fn delete_pg(text: &str, idx: usize) -> (r: String)
    ensures
        r@ == file_body(drop_state(lines(text@), idx as int).0),
{
    let ls = lines_of(chars_of(text).as_slice());
    let ghost lv = cviews(ls@);
    let mut out: Vec<Vec<char>> = Vec::new();
    let mut seen: usize = 0;
    let mut i: usize = 0;
    while i < ls.len()
        invariant
            i <= ls@.len(),
            lv == cviews(ls@),
            lv == lines(text@),
            seen <= i,
            (cviews(out@), seen as int) == drop_state(lv.take(i as int), idx as int),
        decreases ls@.len() - i,
    {
        assert(lv.take(i + 1).drop_last() =~= lv.take(i as int));
        assert(lv.take(i + 1).last() == ls@[i as int]@);
        let line = ls[i].as_slice();
        let ghost prev = cviews(out@);
        if is_not_entry(line) {
            out.push(copy(line));
            assert(cviews(out@) =~= prev.push(lv[i as int]));
        } else {
            if seen != idx {
                out.push(copy(line));
                assert(cviews(out@) =~= prev.push(lv[i as int]));
            }
            seen = seen + 1;
        }
        i = i + 1;
    }
    assert(lv.take(ls@.len() as int) =~= lv);
    string_of(file_body_of(&out).as_slice())
}

/// The new text of the file a credential lives in after deleting it: `text`
/// is `~/.pgpass` for a Postgres entry and `~/.my.cnf` for a MySQL one.
/// `None` when a MySQL connection has no group any more.
pub open spec fn delete_spec(c: CredV, text: Seq<char>) -> Option<Seq<char>> {
    match c.source {
        SourceV::Pgpass(idx) => Some(file_body(drop_state(lines(text), idx).0)),
        SourceV::MyCnf(name) => {
            let secs = crate::ini::parse_text(text);
            match crate::ini::section_index(secs, mysql::group_spec(name)) {
                Some(i) => Some(
                    file_body(
                        crate::ini::upsert_lines(
                            text,
                            mysql::group_spec(name),
                            mysql::group_spec(name),
                            crate::ini::set_keys(secs[i].keys, "password"@, None),
                        ),
                    ),
                ),
                None => None,
            }
        },
    }
}

pub fn delete(cred: &Cred, text: &str) -> (r: Option<String>)
    ensures
        opt_sview(r) == delete_spec(cred@, text@),
{
    match &cred.source {
        Source::MyCnf(name) => mysql::set_password(text, name.as_str(), None),
        Source::Pgpass(idx) => Some(delete_pg(text, *idx)),
    }
}

// ---------------------------------------------------------------------------
// what the format keeps
// ---------------------------------------------------------------------------

/// `fs` with `f` put in front of its first field.
pub open spec fn prepend_all(f: Seq<char>, fs: Seq<Seq<char>>) -> Seq<Seq<char>> {
    fs.update(0, f + fs[0])
}

proof fn lemma_split_shift(a: Seq<char>, b: Seq<char>, j: int)
    requires
        0 <= j,
    ensures
        split_from(a + b, a.len() + j) == split_from(b, j),
    decreases b.len() - j,
{
    let s = a + b;
    let p = a.len() + j;
    if j < b.len() {
        assert(s[p] == b[j]);
        if b[j] == '\\' {
            if j + 1 < b.len() {
                assert(s[p + 1] == b[j + 1]);
                lemma_split_shift(a, b, j + 2);
            }
        } else {
            lemma_split_shift(a, b, j + 1);
        }
    }
}

/// The escaping of one character.
pub open spec fn esc_char(c: char) -> Seq<char> {
    if c == '\\' || c == ':' {
        seq!['\\', c]
    } else {
        seq![c]
    }
}

#[verifier::spinoff_prover]
proof fn lemma_escape_front(f: Seq<char>)
    requires
        f.len() > 0,
    ensures
        escape_pgpass_spec(f) == esc_char(f[0]) + escape_pgpass_spec(f.drop_first()),
    decreases f.len(),
{
    if f.len() == 1 {
        assert(f.drop_last() =~= Seq::<char>::empty());
        assert(f.drop_first() =~= Seq::<char>::empty());
        assert(escape_pgpass_spec(Seq::<char>::empty()) == Seq::<char>::empty());
        assert(f.last() == f[0]);
        assert(escape_pgpass_spec(f) == escape_pgpass_spec(f.drop_last()) + esc_char(f.last()));
        assert(escape_pgpass_spec(f) =~= esc_char(f[0]));
        assert(esc_char(f[0]) + Seq::<char>::empty() =~= esc_char(f[0]));
    } else {
        lemma_escape_front(f.drop_last());
        assert(f.drop_last().drop_first() =~= f.drop_first().drop_last());
        assert(f.drop_first().last() == f.last());
        assert(f.drop_last()[0] == f[0]);
        assert(escape_pgpass_spec(f) =~= esc_char(f[0]) + escape_pgpass_spec(f.drop_first()));
    }
}

proof fn lemma_split_escaped(f: Seq<char>, rest: Seq<char>)
    ensures
        split_from(escape_pgpass_spec(f) + rest, 0) == prepend_all(f, split_from(rest, 0)),
    decreases f.len(),
{
    lemma_split_from_len(rest, 0);
    if f.len() == 0 {
        assert(escape_pgpass_spec(f) + rest =~= rest);
        assert(prepend_all(f, split_from(rest, 0)) =~= split_from(rest, 0));
    } else {
        lemma_escape_front(f);
        let c = f[0];
        let tail = f.drop_first();
        let x = escape_pgpass_spec(tail) + rest;
        let s = escape_pgpass_spec(f) + rest;
        assert(s =~= esc_char(c) + x);
        lemma_split_escaped(tail, rest);
        lemma_split_from_len(x, 0);
        lemma_split_shift(esc_char(c), x, 0);
        if c == '\\' || c == ':' {
            assert(s[0] == '\\' && s[1] == c);
            assert(split_from(s, 0) == prepend(c, split_from(s, 2)));
        } else {
            assert(s[0] == c);
            assert(split_from(s, 0) == prepend(c, split_from(s, 1)));
        }
        let fs = split_from(rest, 0);
        assert(seq![c] + (tail + fs[0]) =~= f + fs[0]);
        assert(prepend(c, prepend_all(tail, fs)) =~= prepend_all(f, fs));
    }
}

proof fn lemma_join_front(fs: Seq<Seq<char>>, sep: Seq<char>)
    requires
        fs.len() >= 2,
    ensures
        join(fs, sep) == fs[0] + sep + join(fs.drop_first(), sep),
    decreases fs.len(),
{
    if fs.len() == 2 {
        assert(fs.drop_first().len() == 1);
        assert(join(fs.drop_first(), sep) == fs[1]);
        assert(fs.drop_last().len() == 1);
        assert(join(fs.drop_last(), sep) == fs[0]);
    } else {
        lemma_join_front(fs.drop_last(), sep);
        assert(fs.drop_last().drop_first() =~= fs.drop_first().drop_last());
        assert(fs.drop_first().last() == fs.last());
        assert(fs.drop_last()[0] == fs[0]);
        assert(join(fs, sep) =~= fs[0] + sep + join(fs.drop_first(), sep));
    }
}

/// Any fields written as a `.pgpass` line read back as the same fields: a
/// colon or a backslash in a password cannot shift the fields after it.
pub proof fn lemma_entry_reads_back(fields: Seq<Seq<char>>)
    requires
        fields.len() > 0,
    ensures
        split_pgpass_spec(entry_spec(fields)) == fields,
    decreases fields.len(),
{
    let esc = fields.map_values(|f: Seq<char>| escape_pgpass_spec(f));
    if fields.len() == 1 {
        assert(join(esc, seq![':']) == esc[0]);
        lemma_split_escaped(fields[0], seq![]);
        assert(esc[0] + Seq::<char>::empty() =~= esc[0]);
        assert(split_from(Seq::<char>::empty(), 0) =~= seq![Seq::<char>::empty()]);
        assert(prepend_all(fields[0], seq![Seq::<char>::empty()]) =~= fields);
    } else {
        let rest = fields.drop_first();
        lemma_entry_reads_back(rest);
        lemma_join_front(esc, seq![':']);
        let esc_rest = rest.map_values(|f: Seq<char>| escape_pgpass_spec(f));
        assert(esc.drop_first() =~= esc_rest);
        let j = join(esc_rest, seq![':']);
        let tail = seq![':'] + j;
        assert(join(esc, seq![':']) =~= esc[0] + tail);
        lemma_split_escaped(fields[0], tail);
        lemma_split_shift(seq![':'], j, 0);
        assert(split_from(tail, 0) == seq![Seq::<char>::empty()] + split_from(tail, 1));
        assert(split_from(tail, 0) =~= seq![Seq::<char>::empty()] + rest);
        assert(fields[0] + Seq::<char>::empty() =~= fields[0]);
        assert(prepend_all(fields[0], seq![Seq::<char>::empty()] + rest) =~= fields);
    }
}

/// A `.my.cnf` group answers for a connection exactly when the engines
/// agree and the group was made for a connection of that very name.
pub proof fn lemma_mycnf_group_covers(cr: CredV, c: ConnV)
    requires
        cr.source is MyCnf,
    ensures
        covers_spec(cr, c) <==> cr.engine == c.engine && cr.source->MyCnf_0 == c.name,
{
}

/// One `.pgpass` field against the connection's value: `*`, or exactly
/// the value, which must be set.
pub open spec fn pgpass_field_ok(pattern: Seq<char>, value: Seq<char>) -> bool {
    pattern == seq!['*'] || (value.len() > 0 && pattern == value)
}

/// A `.pgpass` line covers a connection exactly when the engines agree and
/// each of its four fields is `*` or the connection's own value: host (an
/// unset host is `localhost`), port (an unset port is the engine's
/// default), database and user. In particular a line naming another
/// database, or another user, covers nothing.
pub proof fn lemma_pgpass_line_covers(cr: CredV, c: ConnV)
    requires
        cr.source is Pgpass,
    ensures
        covers_spec(cr, c) <==> {
            &&& cr.engine == c.engine
            &&& pgpass_field_ok(cr.host, if c.host.len() == 0 { seq!['l', 'o', 'c', 'a', 'l', 'h', 'o', 's', 't'] } else { c.host })
            &&& pgpass_field_ok(cr.port, port_or_default_spec(c))
            &&& pgpass_field_ok(cr.database, c.database)
            &&& pgpass_field_ok(cr.user, c.user)
        },
        cr.database != seq!['*'] && cr.database != c.database ==> !covers_spec(cr, c),
        cr.user != seq!['*'] && cr.user != c.user ==> !covers_spec(cr, c),
{
    reveal_strlit("localhost");
    assert("localhost"@ =~= seq!['l', 'o', 'c', 'a', 'l', 'h', 'o', 's', 't']);
}

} // verus!
