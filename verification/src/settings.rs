//! The handful of choices that are yours rather than the clients', kept in
//! `~/.config/easysql/settings` as `key = value` lines you can read and edit by
//! hand. Nothing here changes what psql, mysql or sqlite3 do; it changes what
//! easysql assumes before you type anything.
//!
//! Every setting has a default that works with no file at all, and an unknown
//! key is left alone rather than dropped, so an older build never eats a newer
//! one's file.

use crate::text::{
    lemma_parse_dec, lines_text, lemma_lines_text, lemma_lines_text_append, lemma_trim_assignment,
    lemma_trimmed_ends, lines_state, strip_all, strip_cr, contains, is_ws, all_digits, is_digit,
    lemma_find_char, lemma_find_char_props, lemma_trim_push_ws, lemma_trim_strip_cr, lemma_lines_no_newline, chars_of, dec, dec_of, extend, find_char, find, lines, lines_of, parse_u64, parse_u64_of,
    seq_eq, slice_to_vec, string_of, trim, trimmed,
};
use vstd::prelude::*;

verus! {

/// `easysql/settings` under the config directory.
pub open spec fn path_spec(config: Seq<char>) -> Seq<char> {
    crate::ini::join_path(crate::ini::join_path(config, "easysql"@), "settings"@)
}

/// The settings file under the config directory `config`.
pub fn path_in(config: &str) -> (r: String)
    ensures
        r@ == path_spec(config@),
{
    let d = crate::ini::join_path_of(config, "easysql");
    crate::ini::join_path_of(d.as_str(), "settings")
}

/// The settings file under this machine's config directory.
pub fn path() -> (r: String)
    ensures
        exists|c: Seq<char>| r@ == path_spec(c),
{
    let c = crate::ini::config_dir();
    path_in(c.as_str())
}

/// How the Connections tab is ordered.
#[derive(Clone, Copy, PartialEq, Eq, Debug, Structural)]
pub enum ConnOrder {
    /// Most recently opened first: the database you were in is the one you want.
    Recent,
    /// Grouped by engine, then by name inside each - the order `esql ls` uses.
    Engine,
    /// By name alone, ignoring which engine it belongs to.
    Name,
}

pub struct Settings {
    /// Whether to check each server's port in the background.
    pub probe: bool,
    /// How long a probe waits, in seconds. Also the deadline on the `select 1`
    /// that makes a failed connect explain itself.
    pub probe_timeout: u64,
    pub conn_order: ConnOrder,
    /// What runs an interactive Postgres session. `psql`, or a wrapper such as
    /// `pgcli` or `docker exec -it db psql`.
    pub psql_command: String,
    pub mysql_command: String,
    pub sqlite_command: String,
    pub sqlcmd_command: String,
    pub hints: bool,
    /// Whether easysql may keep a SQL Server password in `~/.esqlpass` and hand
    /// it to sqlcmd in `SQLCMDPASSWORD`. Off until the user turns it on.
    pub mssql_passwords: bool,
    /// The ssh host a tunnel wizard offers first, for the bastion you always use.
    pub tunnel_host: String,
}

/// The settings as values.
pub struct SettingsV {
    pub probe: bool,
    pub probe_timeout: u64,
    pub conn_order: ConnOrder,
    pub psql_command: Seq<char>,
    pub mysql_command: Seq<char>,
    pub sqlite_command: Seq<char>,
    pub sqlcmd_command: Seq<char>,
    pub hints: bool,
    pub mssql_passwords: bool,
    pub tunnel_host: Seq<char>,
}

impl View for Settings {
    type V = SettingsV;

    open spec fn view(&self) -> SettingsV {
        SettingsV {
            probe: self.probe,
            probe_timeout: self.probe_timeout,
            conn_order: self.conn_order,
            psql_command: self.psql_command@,
            mysql_command: self.mysql_command@,
            sqlite_command: self.sqlite_command@,
            sqlcmd_command: self.sqlcmd_command@,
            hints: self.hints,
            mssql_passwords: self.mssql_passwords,
            tunnel_host: self.tunnel_host@,
        }
    }
}

/// What a fresh install assumes.
pub open spec fn default_settings() -> SettingsV {
    SettingsV {
        probe: true,
        probe_timeout: 2,
        conn_order: ConnOrder::Recent,
        psql_command: "psql"@,
        mysql_command: "mysql"@,
        sqlite_command: "sqlite3"@,
        sqlcmd_command: "sqlcmd"@,
        hints: true,
        mssql_passwords: false,
        tunnel_host: seq![],
    }
}

impl Default for Settings {
    fn default() -> (s: Self)
        ensures
            s@ == default_settings(),
    {
        Settings {
            probe: true,
            probe_timeout: 2,
            conn_order: ConnOrder::Recent,
            psql_command: "psql".to_string(),
            mysql_command: "mysql".to_string(),
            sqlite_command: "sqlite3".to_string(),
            sqlcmd_command: "sqlcmd".to_string(),
            hints: true,
            mssql_passwords: false,
            tunnel_host: String::new(),
        }
    }
}

/// The two kinds of setting, which are not the same promise: one decides what
/// easysql does, the other only decides what a wizard offers you before you
/// overwrite it.
#[derive(PartialEq, Eq, Clone, Copy, Debug, Structural)]
pub enum Group {
    /// Always in force.
    Behaviour,
    /// Pre-fills a wizard field; every use can still say otherwise.
    Default,
}

impl Group {
    pub fn label(&self) -> (r: &'static str)
        ensures
            r@ == (match self {
                Group::Behaviour => "behaviour"@,
                Group::Default => "defaults"@,
            }),
    {
        match self {
            Group::Behaviour => "behaviour",
            Group::Default => "defaults",
        }
    }
}

/// One editable line in the Settings tab. `choices` is what makes it a cycled
/// answer rather than a typed one.
pub struct Row {
    pub key: &'static str,
    pub group: Group,
    pub label: &'static str,
    /// What it changes, in the words of the thing it changes.
    pub help: &'static str,
    pub value: String,
    pub default: String,
    pub choices: Option<Vec<&'static str>>,
}

impl Row {
    pub fn is_default(&self) -> (r: bool)
        ensures
            r == (self.value@ == self.default@),
    {
        let v = chars_of(self.value.as_str());
        let d = chars_of(self.default.as_str());
        seq_eq(v.as_slice(), d.as_slice())
    }
}

pub open spec fn on_off_spec(v: bool) -> Seq<char> {
    if v {
        "on"@
    } else {
        "off"@
    }
}

fn on_off(v: bool) -> (r: &'static str)
    ensures
        r@ == on_off_spec(v),
{
    if v {
        "on"
    } else {
        "off"
    }
}

pub open spec fn non_empty_spec(value: Seq<char>, fallback: Seq<char>) -> Seq<char> {
    if value.len() == 0 {
        fallback
    } else {
        value
    }
}

fn non_empty(value: &[char], fallback: &str) -> (r: String)
    ensures
        r@ == non_empty_spec(value@, fallback@),
{
    if value.len() == 0 {
        fallback.to_string()
    } else {
        string_of(value)
    }
}

fn is_lit(a: &[char], lit: &str) -> (r: bool)
    ensures
        r == (a@ == lit@),
{
    let b = chars_of(lit);
    seq_eq(a, b.as_slice())
}

/// The list order a value names. "alphabetical" is the old spelling of what
/// is now "engine", kept so an existing file still means what it meant;
/// anything unrecognised is the default.
pub open spec fn order_named(v: Seq<char>) -> ConnOrder {
    if v == "engine"@ || v == "alphabetical"@ || v == "alpha"@ {
        ConnOrder::Engine
    } else if v == "name"@ {
        ConnOrder::Name
    } else {
        ConnOrder::Recent
    }
}

pub open spec fn order_name(o: ConnOrder) -> Seq<char> {
    match o {
        ConnOrder::Recent => "recent"@,
        ConnOrder::Engine => "engine"@,
        ConnOrder::Name => "name"@,
    }
}

pub open spec fn clamp_spec(n: u64, lo: u64, hi: u64) -> u64 {
    if n < lo {
        lo
    } else if n > hi {
        hi
    } else {
        n
    }
}

/// What `key = value` does to the settings. A key nobody knows changes
/// nothing, and so does a timeout that is not a number.
pub open spec fn set_spec(s: SettingsV, key: Seq<char>, value: Seq<char>) -> SettingsV {
    if key == "probe"@ {
        SettingsV { probe: value != "off"@, ..s }
    } else if key == "probe_timeout"@ {
        match parse_u64(value) {
            Some(n) => SettingsV { probe_timeout: clamp_spec(n, 1, 60), ..s },
            None => s,
        }
    } else if key == "conn_order"@ {
        SettingsV { conn_order: order_named(value), ..s }
    } else if key == "psql_command"@ {
        SettingsV { psql_command: non_empty_spec(value, "psql"@), ..s }
    } else if key == "mysql_command"@ {
        SettingsV { mysql_command: non_empty_spec(value, "mysql"@), ..s }
    } else if key == "sqlite_command"@ {
        SettingsV { sqlite_command: non_empty_spec(value, "sqlite3"@), ..s }
    } else if key == "sqlcmd_command"@ {
        SettingsV { sqlcmd_command: non_empty_spec(value, "sqlcmd"@), ..s }
    } else if key == "hints"@ {
        SettingsV { hints: value != "off"@, ..s }
    } else if key == "mssql_passwords"@ {
        SettingsV { mssql_passwords: value == "on"@, ..s }
    } else if key == "tunnel_host"@ {
        SettingsV { tunnel_host: value, ..s }
    } else {
        s
    }
}

// ---------------------------------------------------------------------------
// the rows of the Settings tab
// ---------------------------------------------------------------------------

pub open spec fn row_keys() -> Seq<Seq<char>> {
    seq![
        "probe"@,
        "probe_timeout"@,
        "conn_order"@,
        "psql_command"@,
        "mysql_command"@,
        "sqlite_command"@,
        "sqlcmd_command"@,
        "hints"@,
        "mssql_passwords"@,
        "tunnel_host"@,
    ]
}

pub open spec fn row_labels() -> Seq<Seq<char>> {
    seq![
        "Check ports"@,
        "Check waits"@,
        "List order"@,
        "Postgres with"@,
        "MySQL with"@,
        "SQLite with"@,
        "SQL Server with"@,
        "Prompt hints"@,
        "sqlcmd passwords"@,
        "Tunnel through"@,
    ]
}

pub open spec fn row_helps() -> Seq<Seq<char>> {
    seq![
        "ask each server's port whether it answers, for the up/down dot"@,
        "seconds a check waits before calling a server down"@,
        "recent = last opened first · engine = grouped, like esql ls · name = ignoring engine"@,
        "what opens a postgres session: psql, or a wrapper such as `pgcli`"@,
        "what opens a mysql session: mysql, or `mariadb`"@,
        "what opens a sqlite file: sqlite3, or a wrapper such as `litecli`"@,
        "what opens a sql server session: sqlcmd, or a full path under /opt/mssql-tools18/bin"@,
        "print how to list tables in that client before handing the terminal over"@,
        "keep a sql server password in ~/.esqlpass and hand it to sqlcmd in SQLCMDPASSWORD, never on its command line"@,
        "the ssh host a tunnel offers first, for the bastion you always use"@,
    ]
}

pub open spec fn row_group(i: int) -> Group {
    if i == 9 {
        Group::Default
    } else {
        Group::Behaviour
    }
}

/// What row `i` shows for these settings.
pub open spec fn row_value(s: SettingsV, i: int) -> Seq<char> {
    if i == 0 {
        on_off_spec(s.probe)
    } else if i == 1 {
        dec(s.probe_timeout as nat)
    } else if i == 2 {
        order_name(s.conn_order)
    } else if i == 3 {
        s.psql_command
    } else if i == 4 {
        s.mysql_command
    } else if i == 5 {
        s.sqlite_command
    } else if i == 6 {
        s.sqlcmd_command
    } else if i == 7 {
        on_off_spec(s.hints)
    } else if i == 8 {
        on_off_spec(s.mssql_passwords)
    } else {
        s.tunnel_host
    }
}

/// The answers a cycled row steps through; `None` for a typed one.
pub open spec fn row_choices(i: int) -> Option<Seq<Seq<char>>> {
    if i == 0 || i == 7 || i == 8 {
        Some(seq!["on"@, "off"@])
    } else if i == 1 {
        Some(seq!["1"@, "2"@, "3"@, "5"@, "10"@])
    } else if i == 2 {
        Some(seq!["recent"@, "engine"@, "name"@])
    } else {
        None
    }
}

pub open spec fn choices_view(c: Option<Vec<&'static str>>) -> Option<Seq<Seq<char>>> {
    match c {
        Some(v) => Some(v@.map_values(|s: &'static str| s@)),
        None => None,
    }
}

/// Row `r` is row `i` of the tab for settings `s`.
pub open spec fn row_is(r: Row, s: SettingsV, i: int) -> bool {
    &&& r.key@ == row_keys()[i]
    &&& r.group == row_group(i)
    &&& r.label@ == row_labels()[i]
    &&& r.help@ == row_helps()[i]
    &&& r.value@ == row_value(s, i)
    &&& r.default@ == row_value(default_settings(), i)
    &&& choices_view(r.choices) == row_choices(i)
}

pub open spec fn row_index_from(key: Seq<char>, i: int) -> Option<int>
    decreases 10 - i,
{
    if i >= 10 || i < 0 {
        None
    } else if row_keys()[i] == key {
        Some(i)
    } else {
        row_index_from(key, i + 1)
    }
}

/// The index of the row a key names.
pub open spec fn row_index(key: Seq<char>) -> Option<int> {
    row_index_from(key, 0)
}

/// Where `v` first stands in `cs`.
pub open spec fn choice_index(cs: Seq<Seq<char>>, v: Seq<char>) -> Option<int>
    decreases cs.len(),
{
    if cs.len() == 0 {
        None
    } else if cs[0] == v {
        Some(0)
    } else {
        match choice_index(cs.drop_first(), v) {
            Some(i) => Some(i + 1),
            None => None,
        }
    }
}

/// `reset`: the setting back the way it ships.
pub open spec fn reset_spec(s: SettingsV, key: Seq<char>) -> SettingsV {
    let s1 = match row_index(key) {
        Some(i) => set_spec(s, key, row_value(default_settings(), i)),
        None => s,
    };
    if key == "tunnel_host"@ {
        SettingsV { tunnel_host: seq![], ..s1 }
    } else {
        s1
    }
}

/// `cycle`: a cycled setting moved `delta` answers along its choices,
/// starting from the first when its value is none of them.
pub open spec fn cycle_spec(s: SettingsV, key: Seq<char>, delta: int) -> SettingsV {
    match row_index(key) {
        None => s,
        Some(i) => match row_choices(i) {
            None => s,
            Some(cs) => {
                let at = match choice_index(cs, row_value(s, i)) {
                    Some(a) => a,
                    None => 0,
                };
                set_spec(s, key, cs[(at + delta) % (cs.len() as int)])
            },
        },
    }
}

/// What one line of the settings file does: blanks, `#` comments and lines
/// without `=` change nothing.
pub open spec fn load_step(s: SettingsV, line: Seq<char>) -> SettingsV {
    let l = trim(line);
    if l.len() == 0 || l[0] == '#' {
        s
    } else {
        match find_char(l, '=') {
            None => s,
            Some(i) => set_spec(s, trim(l.take(i)), trim(l.skip(i + 1))),
        }
    }
}

pub open spec fn load_lines(s: SettingsV, ls: Seq<Seq<char>>) -> SettingsV
    decreases ls.len(),
{
    if ls.len() == 0 {
        s
    } else {
        load_step(load_lines(s, ls.drop_last()), ls.last())
    }
}

/// The settings a file's text means, over the defaults.
pub open spec fn load_spec(text: Seq<char>) -> SettingsV {
    load_lines(default_settings(), lines(text))
}

pub open spec fn file_header() -> Seq<char> {
    "# easysql settings - `key = value`, one per line. Delete a line\n# to go back to its default. The Settings tab edits this file.\n\n"@
}

pub open spec fn rows_text(s: SettingsV, n: int) -> Seq<char>
    decreases n,
{
    if n <= 0 {
        seq![]
    } else {
        rows_text(s, n - 1) + row_keys()[n - 1] + " = "@ + row_value(s, n - 1) + seq!['\n']
    }
}

/// A line that sets a key this build does not know: kept as it is, so an
/// older build never eats a newer one's file.
pub open spec fn is_foreign(l: Seq<char>) -> bool {
    let t = trim(l);
    &&& t.len() > 0
    &&& t[0] != '#'
    &&& match find_char(t, '=') {
        Some(i) => row_index(trim(t.take(i))) is None,
        None => false,
    }
}

/// The foreign lines of a file, in order.
pub open spec fn foreign(ls: Seq<Seq<char>>) -> Seq<Seq<char>>
    decreases ls.len(),
{
    if ls.len() == 0 {
        seq![]
    } else if is_foreign(ls.last()) {
        foreign(ls.drop_last()).push(ls.last())
    } else {
        foreign(ls.drop_last())
    }
}

/// The file `save` writes over `existing`: every setting, defaults included,
/// so the file doubles as the list of what can be changed, then every line
/// the old file had for a key this build does not know.
pub open spec fn save_spec(s: SettingsV, existing: Seq<char>) -> Seq<char> {
    file_header() + rows_text(s, 10) + lines_text(foreign(lines(existing)))
}

/// Parse the file over the defaults. A missing file, an unreadable one or a
/// line that makes no sense all mean "keep the default", never an error: a
/// broken settings file must not stop you opening a database.
pub fn load(text: &str) -> (s: Settings)
    ensures
        s@ == load_spec(text@),
{
    let mut s = Settings::default();
    let chars = chars_of(text);
    let ls = lines_of(chars.as_slice());
    let mut i: usize = 0;
    while i < ls.len()
        invariant
            i <= ls@.len(),
            crate::text::cviews(ls@) == lines(text@),
            s@ == load_lines(default_settings(), lines(text@).take(i as int)),
        decreases ls@.len() - i,
    {
        let l = trimmed(ls[i].as_slice());
        assert(lines(text@).take(i + 1).drop_last() =~= lines(text@).take(i as int));
        assert(lines(text@)[i as int] == ls@[i as int]@);
        if l.len() == 0 || l[0] == '#' {
        } else {
            match find(l.as_slice(), '=') {
                None => {},
                Some(at) => {
                    let k = trimmed(slice_to_vec(l.as_slice(), 0, at).as_slice());
                    let v = trimmed(slice_to_vec(l.as_slice(), at + 1, l.len()).as_slice());
                    assert(l@.take(at as int) =~= l@.subrange(0, at as int));
                    assert(l@.skip(at + 1) =~= l@.subrange(at + 1, l@.len() as int));
                    let ks = string_of(k.as_slice());
                    let vs = string_of(v.as_slice());
                    s.set(ks.as_str(), vs.as_str());
                },
            }
        }
        i = i + 1;
    }
    assert(lines(text@).take(ls@.len() as int) =~= lines(text@));
    s
}

pub const ROW_COUNT: usize = 10;

proof fn lemma_neg_mod(m: int, n: int)
    requires
        m < 0,
        n > 0,
    ensures
        ((-m) % n == 0 ==> m % n == 0),
        ((-m) % n != 0 ==> m % n == n - (-m) % n),
{
    let q = (-m) / n;
    let r = (-m) % n;
    assert(-m == q * n + r) by (nonlinear_arith)
        requires
            n > 0,
            q == (-m) / n,
            r == (-m) % n,
    ;
    if r == 0 {
        assert(m == (-q) * n) by (nonlinear_arith)
            requires
                -m == q * n + r,
                r == 0,
        ;
        vstd::arithmetic::div_mod::lemma_mod_multiples_basic(-q, n);
    } else {
        assert(m == (-q - 1) * n + (n - r)) by (nonlinear_arith)
            requires
                -m == q * n + r,
        ;
        assert(m % n == n - r) by (nonlinear_arith)
            requires
                m == (-q - 1) * n + (n - r),
                0 < r < n,
                n > 0,
        ;
    }
}

proof fn lemma_choice_index(cs: Seq<Seq<char>>, v: Seq<char>, i: int)
    requires
        0 <= i <= cs.len(),
        forall|j: int| 0 <= j < i ==> cs[j] != v,
    ensures
        i < cs.len() && cs[i] == v ==> choice_index(cs, v) == Some(i),
        i == cs.len() ==> choice_index(cs, v) is None,
    decreases i,
{
    if i > 0 {
        assert forall|j: int| 0 <= j < i - 1 implies cs.drop_first()[j] != v by {
            assert(cs.drop_first()[j] == cs[j + 1]);
        }
        lemma_choice_index(cs.drop_first(), v, i - 1);
    }
}

fn row_at(rows: &Vec<Row>, key: &[char]) -> (r: Option<usize>)
    requires
        rows@.len() == ROW_COUNT,
        forall|i: int| 0 <= i < ROW_COUNT ==> (#[trigger] rows@[i]).key@ == row_keys()[i],
    ensures
        r matches Some(i) ==> row_index(key@) == Some(i as int) && i < ROW_COUNT,
        r is None ==> row_index(key@) is None,
{
    let mut i: usize = 0;
    while i < rows.len()
        invariant
            i <= ROW_COUNT,
            rows@.len() == ROW_COUNT,
            forall|j: int| 0 <= j < ROW_COUNT ==> (#[trigger] rows@[j]).key@ == row_keys()[j],
            row_index(key@) == row_index_from(key@, i as int),
        decreases ROW_COUNT - i,
    {
        let k = chars_of(rows[i].key);
        if seq_eq(k.as_slice(), key) {
            return Some(i);
        }
        i = i + 1;
    }
    None
}

fn foreign_line(rows: &Vec<Row>, l: &[char]) -> (r: bool)
    requires
        rows@.len() == ROW_COUNT,
        forall|i: int| 0 <= i < ROW_COUNT ==> (#[trigger] rows@[i]).key@ == row_keys()[i],
    ensures
        r == is_foreign(l@),
{
    let t = trimmed(l);
    if t.len() == 0 || t[0] == '#' {
        return false;
    }
    match find(t.as_slice(), '=') {
        None => false,
        Some(at) => {
            let k = trimmed(slice_to_vec(t.as_slice(), 0, at).as_slice());
            assert(t@.take(at as int) =~= t@.subrange(0, at as int));
            row_at(rows, k.as_slice()).is_none()
        },
    }
}

impl Settings {
    /// The text `save` writes to the settings file, given what the file held.
    pub fn save(&self, existing: &str) -> (r: String)
        ensures
            r@ == save_spec(self@, existing@),
    {
        let rows = self.rows();
        let mut out = chars_of(
            "# easysql settings - `key = value`, one per line. Delete a line\n# to go back to its default. The Settings tab edits this file.\n\n",
        );
        let ghost head = out@;
        let sep = chars_of(" = ");
        let mut i: usize = 0;
        while i < rows.len()
            invariant
                i <= ROW_COUNT,
                rows@.len() == ROW_COUNT,
                forall|j: int| 0 <= j < ROW_COUNT ==> row_is(#[trigger] rows@[j], self@, j),
                head == file_header(),
                sep@ == " = "@,
                out@ == head + rows_text(self@, i as int),
            decreases ROW_COUNT - i,
        {
            assert(row_is(rows@[i as int], self@, i as int));
            let k = chars_of(rows[i].key);
            let v = chars_of(rows[i].value.as_str());
            extend(&mut out, k.as_slice());
            extend(&mut out, sep.as_slice());
            extend(&mut out, v.as_slice());
            out.push('\n');
            i = i + 1;
            assert(out@ =~= head + rows_text(self@, i as int));
        }
        let ghost known = out@;
        let old_text = chars_of(existing);
        let ls = lines_of(old_text.as_slice());
        let mut j: usize = 0;
        while j < ls.len()
            invariant
                j <= ls@.len(),
                crate::text::cviews(ls@) == lines(existing@),
                rows@.len() == ROW_COUNT,
                forall|x: int| 0 <= x < ROW_COUNT ==> row_is(#[trigger] rows@[x], self@, x),
                out@ == known + lines_text(foreign(lines(existing@).take(j as int))),
            decreases ls@.len() - j,
        {
            assert(lines(existing@).take(j + 1).drop_last() =~= lines(existing@).take(j as int));
            assert(lines(existing@)[j as int] == ls@[j as int]@);
            let ghost pre = foreign(lines(existing@).take(j as int));
            if foreign_line(&rows, ls[j].as_slice()) {
                extend(&mut out, ls[j].as_slice());
                out.push('\n');
                assert(pre.push(ls@[j as int]@).drop_last() =~= pre);
                assert(out@ =~= known + lines_text(pre.push(ls@[j as int]@)));
            }
            j = j + 1;
            assert(out@ =~= known + lines_text(foreign(lines(existing@).take(j as int))));
        }
        assert(lines(existing@).take(ls@.len() as int) =~= lines(existing@));
        string_of(out.as_slice())
    }

    /// Put one setting back the way it ships.
    pub fn reset(&mut self, key: &str)
        ensures
            final(self)@ == reset_spec(old(self)@, key@),
    {
        let d = Settings::default();
        let rows = d.rows();
        let k = chars_of(key);
        match row_at(&rows, k.as_slice()) {
            Some(i) => {
                assert(row_is(rows@[i as int], d@, i as int));
                let value = rows[i].value.clone();
                assert(d@ == default_settings());
                assert(value@ == row_value(default_settings(), i as int));
                self.set(key, value.as_str());
                assert(row_index(key@) == Some(i as int));
            },
            None => {},
        }
        assert(self@ == (match row_index(key@) {
            Some(i) => set_spec(old(self)@, key@, row_value(default_settings(), i)),
            None => old(self)@,
        }));
        // A setting whose default is empty cannot be restored through `set`,
        // which reads an empty value as "leave it alone".
        let ghost s1 = self@;
        if is_lit(k.as_slice(), "tunnel_host") {
            self.tunnel_host = String::new();
            assert(self@ =~= SettingsV { tunnel_host: seq![], ..s1 });
        }
    }

    /// Move a cycled setting to its next (or previous) answer. A no-op on a
    /// typed setting, which is edited in a field instead.
    pub fn cycle(&mut self, key: &str, delta: i32)
        ensures
            final(self)@ == cycle_spec(old(self)@, key@, delta as int),
    {
        let rows = self.rows();
        let k = chars_of(key);
        let i = match row_at(&rows, k.as_slice()) {
            Some(i) => i,
            None => {
                return;
            },
        };
        assert(row_is(rows@[i as int], self@, i as int));
        let choices = match &rows[i].choices {
            Some(c) => c,
            None => {
                return;
            },
        };
        let ghost cs = choices@.map_values(|s: &'static str| s@);
        assert(Some(cs) == row_choices(i as int));
        let value = chars_of(rows[i].value.as_str());
        let mut at: usize = 0;
        let mut found = false;
        let mut j: usize = 0;
        while j < choices.len()
            invariant
                j <= choices@.len(),
                cs == choices@.map_values(|s: &'static str| s@),
                !found ==> at == 0,
                found ==> at < choices@.len(),
                choices@.len() <= 5,
                found ==> choice_index(cs, value@) == Some(at as int),
                !found ==> forall|x: int| 0 <= x < j ==> cs[x] != value@,
                found ==> j == choices@.len(),
            decreases choices@.len() - j,
        {
            let c = chars_of(choices[j]);
            if !found && seq_eq(c.as_slice(), value.as_slice()) {
                proof {
                    lemma_choice_index(cs, value@, j as int);
                }
                at = j;
                found = true;
                j = choices.len();
            } else {
                j = j + 1;
            }
        }
        proof {
            if !found {
                lemma_choice_index(cs, value@, j as int);
            }
        }
        let n = choices.len() as u64;
        let m: i64 = at as i64 + delta as i64;
        let next: u64 = if m >= 0 {
            (m as u64) % n
        } else {
            let k = ((-m) as u64) % n;
            if k == 0 {
                0
            } else {
                n - k
            }
        };
        proof {
            let mi = at as int + delta as int;
            let ni = cs.len() as int;
            assert(ni == n);
            if mi >= 0 {
                assert(next as int == mi % ni);
            } else {
                let k = (-mi) % ni;
                lemma_neg_mod(mi, ni);
                assert(next as int == mi % ni);
            }
        }
        let pick = choices[next as usize];
        self.set(key, pick);
    }

    /// Apply one `key = value`, ignoring anything we do not recognise.
    pub fn set(&mut self, key: &str, value: &str)
        ensures
            final(self)@ == set_spec(old(self)@, key@, value@),
    {
        let k = chars_of(key);
        let v = chars_of(value);
        let k = k.as_slice();
        let v = v.as_slice();
        if is_lit(k, "probe") {
            self.probe = !is_lit(v, "off");
        } else if is_lit(k, "probe_timeout") {
            match parse_u64_of(v) {
                Some(n) => {
                    self.probe_timeout = if n < 1 {
                        1
                    } else if n > 60 {
                        60
                    } else {
                        n
                    };
                },
                None => {},
            }
        } else if is_lit(k, "conn_order") {
            self.conn_order = if is_lit(v, "engine") || is_lit(v, "alphabetical") || is_lit(
                v,
                "alpha",
            ) {
                ConnOrder::Engine
            } else if is_lit(v, "name") {
                ConnOrder::Name
            } else {
                ConnOrder::Recent
            };
        } else if is_lit(k, "psql_command") {
            self.psql_command = non_empty(v, "psql");
        } else if is_lit(k, "mysql_command") {
            self.mysql_command = non_empty(v, "mysql");
        } else if is_lit(k, "sqlite_command") {
            self.sqlite_command = non_empty(v, "sqlite3");
        } else if is_lit(k, "sqlcmd_command") {
            self.sqlcmd_command = non_empty(v, "sqlcmd");
        } else if is_lit(k, "hints") {
            self.hints = !is_lit(v, "off");
        } else if is_lit(k, "mssql_passwords") {
            self.mssql_passwords = is_lit(v, "on");
        } else if is_lit(k, "tunnel_host") {
            self.tunnel_host = string_of(v);
        }
    }

    /// Everything the Settings tab shows, in the order it shows it: what
    /// easysql always does first, then what it merely suggests.
    pub fn rows(&self) -> (r: Vec<Row>)
        ensures
            r@.len() == ROW_COUNT,
            forall|i: int| 0 <= i < ROW_COUNT ==> row_is(#[trigger] r@[i], self@, i),
    {
        let d = Settings::default();
        let mut r: Vec<Row> = Vec::new();
        r.push(
            Row {
                key: "probe",
                group: Group::Behaviour,
                label: "Check ports",
                help: "ask each server's port whether it answers, for the up/down dot",
                value: on_off(self.probe).to_string(),
                default: on_off(d.probe).to_string(),
                choices: Some(vec!["on", "off"]),
            },
        );
        r.push(
            Row {
                key: "probe_timeout",
                group: Group::Behaviour,
                label: "Check waits",
                help: "seconds a check waits before calling a server down",
                value: string_of(dec_of(self.probe_timeout).as_slice()),
                default: string_of(dec_of(d.probe_timeout).as_slice()),
                choices: Some(vec!["1", "2", "3", "5", "10"]),
            },
        );
        r.push(
            Row {
                key: "conn_order",
                group: Group::Behaviour,
                label: "List order",
                help: "recent = last opened first · engine = grouped, like esql ls · name = ignoring engine",
                value: match self.conn_order {
                    ConnOrder::Recent => "recent".to_string(),
                    ConnOrder::Engine => "engine".to_string(),
                    ConnOrder::Name => "name".to_string(),
                },
                default: "recent".to_string(),
                choices: Some(vec!["recent", "engine", "name"]),
            },
        );
        r.push(
            Row {
                key: "psql_command",
                group: Group::Behaviour,
                label: "Postgres with",
                help: "what opens a postgres session: psql, or a wrapper such as `pgcli`",
                value: self.psql_command.clone(),
                default: d.psql_command.clone(),
                choices: None,
            },
        );
        r.push(
            Row {
                key: "mysql_command",
                group: Group::Behaviour,
                label: "MySQL with",
                help: "what opens a mysql session: mysql, or `mariadb`",
                value: self.mysql_command.clone(),
                default: d.mysql_command.clone(),
                choices: None,
            },
        );
        r.push(
            Row {
                key: "sqlite_command",
                group: Group::Behaviour,
                label: "SQLite with",
                help: "what opens a sqlite file: sqlite3, or a wrapper such as `litecli`",
                value: self.sqlite_command.clone(),
                default: d.sqlite_command.clone(),
                choices: None,
            },
        );
        r.push(
            Row {
                key: "sqlcmd_command",
                group: Group::Behaviour,
                label: "SQL Server with",
                help: "what opens a sql server session: sqlcmd, or a full path under /opt/mssql-tools18/bin",
                value: self.sqlcmd_command.clone(),
                default: d.sqlcmd_command.clone(),
                choices: None,
            },
        );
        r.push(
            Row {
                key: "hints",
                group: Group::Behaviour,
                label: "Prompt hints",
                help: "print how to list tables in that client before handing the terminal over",
                value: on_off(self.hints).to_string(),
                default: on_off(d.hints).to_string(),
                choices: Some(vec!["on", "off"]),
            },
        );
        r.push(
            Row {
                key: "mssql_passwords",
                group: Group::Behaviour,
                label: "sqlcmd passwords",
                help: "keep a sql server password in ~/.esqlpass and hand it to sqlcmd in SQLCMDPASSWORD, never on its command line",
                value: on_off(self.mssql_passwords).to_string(),
                default: on_off(d.mssql_passwords).to_string(),
                choices: Some(vec!["on", "off"]),
            },
        );
        r.push(
            Row {
                key: "tunnel_host",
                group: Group::Default,
                label: "Tunnel through",
                help: "the ssh host a tunnel offers first, for the bastion you always use",
                value: self.tunnel_host.clone(),
                default: d.tunnel_host.clone(),
                choices: None,
            },
        );
        proof {
            assert(choices_view(r@[0].choices) =~= row_choices(0));
            assert(choices_view(r@[1].choices) =~= row_choices(1));
            assert(choices_view(r@[2].choices) =~= row_choices(2));
            assert(choices_view(r@[7].choices) =~= row_choices(7));
            assert(choices_view(r@[8].choices) =~= row_choices(8));
        }
        r
    }
}

// ---------------------------------------------------------------------------
// what the settings promise
// ---------------------------------------------------------------------------

/// `t` with the setting that row `i` shows taken from `s`.
pub open spec fn with_row(t: SettingsV, s: SettingsV, i: int) -> SettingsV {
    if i == 0 {
        SettingsV { probe: s.probe, ..t }
    } else if i == 1 {
        SettingsV { probe_timeout: s.probe_timeout, ..t }
    } else if i == 2 {
        SettingsV { conn_order: s.conn_order, ..t }
    } else if i == 3 {
        SettingsV { psql_command: s.psql_command, ..t }
    } else if i == 4 {
        SettingsV { mysql_command: s.mysql_command, ..t }
    } else if i == 5 {
        SettingsV { sqlite_command: s.sqlite_command, ..t }
    } else if i == 6 {
        SettingsV { sqlcmd_command: s.sqlcmd_command, ..t }
    } else if i == 7 {
        SettingsV { hints: s.hints, ..t }
    } else if i == 8 {
        SettingsV { mssql_passwords: s.mssql_passwords, ..t }
    } else {
        SettingsV { tunnel_host: s.tunnel_host, ..t }
    }
}

/// Whether what row `i` shows for `s` sets the same thing again: a timeout
/// inside the range a file may set, and a client that is named.
pub open spec fn writable_row(s: SettingsV, i: int) -> bool {
    if i == 1 {
        1 <= s.probe_timeout <= 60
    } else if 3 <= i <= 6 {
        row_value(s, i).len() > 0
    } else {
        true
    }
}

proof fn lemma_literals()
    ensures
        row_keys()[0] == "probe"@,
        row_keys()[1] == "probe_timeout"@,
        row_keys()[2] == "conn_order"@,
        row_keys()[3] == "psql_command"@,
        row_keys()[4] == "mysql_command"@,
        row_keys()[5] == "sqlite_command"@,
        row_keys()[6] == "sqlcmd_command"@,
        row_keys()[7] == "hints"@,
        row_keys()[8] == "mssql_passwords"@,
        row_keys()[9] == "tunnel_host"@,
        "on"@ != "off"@,
        "recent"@ != "engine"@,
        "recent"@ != "alphabetical"@,
        "recent"@ != "alpha"@,
        "recent"@ != "name"@,
        "name"@ != "engine"@,
        "name"@ != "alphabetical"@,
        "name"@ != "alpha"@,
{
    reveal_strlit("on");
    reveal_strlit("off");
    reveal_strlit("recent");
    reveal_strlit("engine");
    reveal_strlit("alphabetical");
    reveal_strlit("alpha");
    reveal_strlit("name");
    assert("on"@.len() != "off"@.len());
    assert("recent"@.len() != "engine"@.len() || "recent"@[0] != "engine"@[0]);
    assert("recent"@.len() != "alphabetical"@.len());
    assert("recent"@.len() != "alpha"@.len());
    assert("recent"@.len() != "name"@.len());
    assert("name"@.len() != "engine"@.len());
    assert("name"@.len() != "alphabetical"@.len());
    assert("name"@.len() != "alpha"@.len());
}

/// The keys, each told apart from every other by its length, its first
/// character or its fourth.
proof fn lemma_keys_apart()
    ensures
        forall|i: int, j: int|
            0 <= i < 10 && 0 <= j < 10 && i != j ==> #[trigger] row_keys()[i] != #[trigger] row_keys()[j],
{
    reveal_strlit("probe");
    reveal_strlit("probe_timeout");
    reveal_strlit("conn_order");
    reveal_strlit("psql_command");
    reveal_strlit("mysql_command");
    reveal_strlit("sqlite_command");
    reveal_strlit("sqlcmd_command");
    reveal_strlit("hints");
    reveal_strlit("mssql_passwords");
    reveal_strlit("tunnel_host");
    let k = row_keys();
    let f = |x: Seq<char>| (x.len(), x[0], x[3]);
    assert(f(k[0]) == (5nat, 'p', 'b'));
    assert(f(k[1]) == (13nat, 'p', 'b'));
    assert(f(k[2]) == (10nat, 'c', 'n'));
    assert(f(k[3]) == (12nat, 'p', 'l'));
    assert(f(k[4]) == (13nat, 'm', 'q'));
    assert(f(k[5]) == (14nat, 's', 'i'));
    assert(f(k[6]) == (14nat, 's', 'c'));
    assert(f(k[7]) == (5nat, 'h', 't'));
    assert(f(k[8]) == (15nat, 'm', 'q'));
    assert(f(k[9]) == (11nat, 't', 'n'));
    assert forall|i: int, j: int|
        0 <= i < 10 && 0 <= j < 10 && i != j implies #[trigger] k[i] != #[trigger] k[j] by {
        if k[i] == k[j] {
            assert(f(k[i]) == f(k[j]));
        }
    }
}

/// Setting row `i`'s key to what row `i` shows for `s` takes exactly that
/// setting from `s` and touches nothing else.
proof fn lemma_set_row(t: SettingsV, s: SettingsV, i: int)
    requires
        0 <= i < 10,
        writable_row(s, i),
    ensures
        set_spec(t, row_keys()[i], row_value(s, i)) == with_row(t, s, i),
{
    lemma_literals();
    lemma_keys_apart();
    let k = row_keys();
    assert(k[0] != k[1] && k[0] != k[2] && k[0] != k[3] && k[0] != k[4] && k[0] != k[5]);
    assert(k[0] != k[6] && k[0] != k[7] && k[0] != k[8] && k[0] != k[9]);
    assert(k[1] != k[2] && k[1] != k[3] && k[1] != k[4] && k[1] != k[5] && k[1] != k[6]);
    assert(k[1] != k[7] && k[1] != k[8] && k[1] != k[9]);
    assert(k[2] != k[3] && k[2] != k[4] && k[2] != k[5] && k[2] != k[6] && k[2] != k[7]);
    assert(k[2] != k[8] && k[2] != k[9]);
    assert(k[3] != k[4] && k[3] != k[5] && k[3] != k[6] && k[3] != k[7] && k[3] != k[8]);
    assert(k[3] != k[9] && k[4] != k[5] && k[4] != k[6] && k[4] != k[7] && k[4] != k[8]);
    assert(k[4] != k[9] && k[5] != k[6] && k[5] != k[7] && k[5] != k[8] && k[5] != k[9]);
    assert(k[6] != k[7] && k[6] != k[8] && k[6] != k[9] && k[7] != k[8] && k[7] != k[9]);
    assert(k[8] != k[9]);
    if i == 1 {
        lemma_parse_dec(s.probe_timeout);
    }
}

/// A key that names no row changes nothing.
proof fn lemma_set_unknown(t: SettingsV, key: Seq<char>, value: Seq<char>)
    requires
        row_index(key) is None,
    ensures
        set_spec(t, key, value) == t,
{
    lemma_literals();
    reveal_with_fuel(row_index_from, 11);
}

proof fn lemma_row_index(i: int)
    requires
        0 <= i < 10,
    ensures
        row_index(row_keys()[i]) == Some(i),
{
    lemma_keys_apart();
    reveal_with_fuel(row_index_from, 11);
}

proof fn lemma_keys_pairwise()
    ensures
        ({
            let k = row_keys();
            &&& k[0] != k[1] && k[0] != k[2] && k[0] != k[3] && k[0] != k[4] && k[0] != k[5]
            &&& k[0] != k[6] && k[0] != k[7] && k[0] != k[8] && k[0] != k[9]
            &&& k[1] != k[2] && k[1] != k[3] && k[1] != k[4] && k[1] != k[5] && k[1] != k[6]
            &&& k[1] != k[7] && k[1] != k[8] && k[1] != k[9]
            &&& k[2] != k[3] && k[2] != k[4] && k[2] != k[5] && k[2] != k[6] && k[2] != k[7]
            &&& k[2] != k[8] && k[2] != k[9]
            &&& k[3] != k[4] && k[3] != k[5] && k[3] != k[6] && k[3] != k[7] && k[3] != k[8]
            &&& k[3] != k[9] && k[4] != k[5] && k[4] != k[6] && k[4] != k[7] && k[4] != k[8]
            &&& k[4] != k[9] && k[5] != k[6] && k[5] != k[7] && k[5] != k[8] && k[5] != k[9]
            &&& k[6] != k[7] && k[6] != k[8] && k[6] != k[9] && k[7] != k[8] && k[7] != k[9]
            &&& k[8] != k[9]
        }),
{
    lemma_keys_apart();
    let k = row_keys();
    assert(k[0] != k[1] && k[0] != k[2] && k[0] != k[3] && k[0] != k[4] && k[0] != k[5]);
    assert(k[0] != k[6] && k[0] != k[7] && k[0] != k[8] && k[0] != k[9]);
    assert(k[1] != k[2] && k[1] != k[3] && k[1] != k[4] && k[1] != k[5] && k[1] != k[6]);
    assert(k[1] != k[7] && k[1] != k[8] && k[1] != k[9]);
    assert(k[2] != k[3] && k[2] != k[4] && k[2] != k[5] && k[2] != k[6] && k[2] != k[7]);
    assert(k[2] != k[8] && k[2] != k[9]);
    assert(k[3] != k[4] && k[3] != k[5] && k[3] != k[6] && k[3] != k[7] && k[3] != k[8]);
    assert(k[3] != k[9] && k[4] != k[5] && k[4] != k[6] && k[4] != k[7] && k[4] != k[8]);
    assert(k[4] != k[9] && k[5] != k[6] && k[5] != k[7] && k[5] != k[8] && k[5] != k[9]);
    assert(k[6] != k[7] && k[6] != k[8] && k[6] != k[9] && k[7] != k[8] && k[7] != k[9]);
    assert(k[8] != k[9]);
}

/// Setting row `i`'s key touches only the setting that row shows.
proof fn lemma_set_touches_row(t: SettingsV, i: int, v: Seq<char>)
    requires
        0 <= i < 10,
    ensures
        set_spec(t, row_keys()[i], v) == with_row(t, set_spec(t, row_keys()[i], v), i),
{
    lemma_literals();
    lemma_keys_pairwise();
}

/// What a row shows after one setting was taken from elsewhere.
proof fn lemma_row_of_with(t: SettingsV, s: SettingsV, i: int, j: int)
    requires
        0 <= i < 10,
        0 <= j < 10,
    ensures
        row_value(with_row(t, s, i), j) == if i == j {
            row_value(s, j)
        } else {
            row_value(t, j)
        },
{
}

proof fn lemma_small_decs()
    ensures
        dec(1) == "1"@,
        dec(2) == "2"@,
        dec(3) == "3"@,
        dec(5) == "5"@,
        dec(10) == "10"@,
{
    reveal_strlit("1");
    reveal_strlit("2");
    reveal_strlit("3");
    reveal_strlit("5");
    reveal_strlit("10");
    assert(dec(1) =~= seq!['1']);
    assert(dec(0) =~= seq!['0']);
    assert(dec(10) == dec(1).push('0'));
    assert(dec(10) =~= seq!['1', '0']);
    assert(dec(2) =~= seq!['2']);
    assert(dec(3) =~= seq!['3']);
    assert(dec(5) =~= seq!['5']);
}

/// Setting a cycled row to one of its answers shows that answer.
proof fn lemma_set_choice(t: SettingsV, i: int, a: int)
    requires
        0 <= i < 10,
        row_choices(i) matches Some(cs) && 0 <= a < cs.len(),
    ensures
        row_value(set_spec(t, row_keys()[i], row_choices(i).unwrap()[a]), i) == row_choices(i).unwrap()[a],
{
    lemma_literals();
    lemma_keys_pairwise();
    lemma_small_decs();
    let cs = row_choices(i).unwrap();
    if i == 1 {
        if a == 0 {
            lemma_parse_dec(1);
        } else if a == 1 {
            lemma_parse_dec(2);
        } else if a == 2 {
            lemma_parse_dec(3);
        } else if a == 3 {
            lemma_parse_dec(5);
        } else {
            lemma_parse_dec(10);
        }
    }
}

/// `d` puts a setting back: after a reset, the row shows what a fresh
/// install shows, and every other row is as it was.
pub proof fn lemma_reset_restores_default(s: SettingsV, i: int)
    requires
        0 <= i < 10,
    ensures
        row_value(reset_spec(s, row_keys()[i]), i) == row_value(default_settings(), i),
        forall|j: int| 0 <= j < 10 && j != i ==> row_value(reset_spec(s, row_keys()[i]), j) == row_value(s, j),
{
    lemma_literals();
    lemma_row_index(i);
    reveal_strlit("psql");
    reveal_strlit("mysql");
    reveal_strlit("sqlite3");
    reveal_strlit("sqlcmd");
    lemma_keys_pairwise();
    lemma_set_row(s, default_settings(), i);
    let r = with_row(s, default_settings(), i);
    assert(reset_spec(s, row_keys()[i]) == r);
    lemma_row_of_with(s, default_settings(), i, i);
    assert forall|j: int| 0 <= j < 10 && j != i implies row_value(reset_spec(s, row_keys()[i]), j) == row_value(s, j) by {
        lemma_row_of_with(s, default_settings(), i, j);
    }
}

/// Cycling a setting one way and then back the same distance leaves the
/// settings as they were, when the setting was on one of its answers.
pub proof fn lemma_cycle_back_undoes_cycle(s: SettingsV, i: int, delta: int)
    requires
        0 <= i < 10,
        row_choices(i) matches Some(cs) && choice_index(cs, row_value(s, i)) is Some,
    ensures
        cycle_spec(cycle_spec(s, row_keys()[i], delta), row_keys()[i], -delta) == s,
{
    lemma_row_index(i);
    let k = row_keys()[i];
    let cs = row_choices(i).unwrap();
    let at = choice_index(cs, row_value(s, i)).unwrap();
    lemma_choice_index_props(cs, row_value(s, i));
    let n = cs.len() as int;
    let nxt = (at + delta) % n;
    let c = cs[nxt];
    let s1 = cycle_spec(s, k, delta);
    assert(s1 == set_spec(s, k, c));
    lemma_set_choice(s, i, nxt);
    lemma_set_touches_row(s, i, c);
    lemma_choices_distinct(i);
    lemma_choice_index_of(cs, nxt);
    assert(choice_index(cs, row_value(s1, i)) == Some(nxt));
    let back = (nxt - delta) % n;
    vstd::arithmetic::div_mod::lemma_sub_mod_noop_right(nxt, delta, n);
    vstd::arithmetic::div_mod::lemma_sub_mod_noop(at + delta, delta, n);
    vstd::arithmetic::div_mod::lemma_small_mod(at as nat, n as nat);
    assert(back == at);
    let s2 = cycle_spec(s1, k, -delta);
    assert(s2 == set_spec(s1, k, cs[at]));
    assert(cs[at] == row_value(s, i));
    if i == 1 {
        lemma_small_decs();
        lemma_parse_dec(s.probe_timeout);
        lemma_parse_dec(1);
        lemma_parse_dec(2);
        lemma_parse_dec(3);
        lemma_parse_dec(5);
        lemma_parse_dec(10);
        assert(1 <= s.probe_timeout <= 60);
    }
    lemma_set_row(s1, s, i);
    assert(s2 == with_row(s1, s, i));
    assert(s2 =~= s);
}

/// The answer a cycled row moves to: `delta` places along its choices,
/// counted round the list, from the one it is on (the first when its value
/// is none of them).
pub open spec fn cycled_answer(s: SettingsV, i: int, delta: int) -> Seq<char> {
    let cs = row_choices(i).unwrap();
    let at = match choice_index(cs, row_value(s, i)) {
        Some(a) => a,
        None => 0,
    };
    cs[(at + delta) % (cs.len() as int)]
}

/// `↵` on a Settings row: a cycled row takes the answer `delta` places
/// along, every other row keeps its value, and a typed row is not cycled
/// at all.
pub proof fn lemma_cycle_moves_one_row(s: SettingsV, i: int, delta: int)
    requires
        0 <= i < 10,
    ensures
        row_choices(i) is None ==> cycle_spec(s, row_keys()[i], delta) == s,
        row_choices(i) is Some ==> row_value(cycle_spec(s, row_keys()[i], delta), i) == cycled_answer(s, i, delta),
        forall|j: int|
            0 <= j < 10 && j != i ==> row_value(cycle_spec(s, row_keys()[i], delta), j) == row_value(s, j),
{
    lemma_row_index(i);
    let k = row_keys()[i];
    if let Some(cs) = row_choices(i) {
        lemma_choice_index_props(cs, row_value(s, i));
        let at = match choice_index(cs, row_value(s, i)) {
            Some(a) => a,
            None => 0,
        };
        let n = cs.len() as int;
        let nxt = (at + delta) % n;
        assert(0 <= nxt < n);
        let c = cs[nxt];
        assert(cycle_spec(s, k, delta) == set_spec(s, k, c));
        lemma_set_choice(s, i, nxt);
        lemma_set_touches_row(s, i, c);
        assert forall|j: int| 0 <= j < 10 && j != i implies row_value(cycle_spec(s, k, delta), j) == row_value(s, j) by {
            lemma_row_of_with(s, set_spec(s, k, c), i, j);
        }
    }
}

/// A key that names no row is cycled to nothing: the settings stay as they
/// were.
pub proof fn lemma_cycle_unknown_key(s: SettingsV, key: Seq<char>, delta: int)
    requires
        row_index(key) is None,
    ensures
        cycle_spec(s, key, delta) == s,
{
}

proof fn lemma_choice_index_props(cs: Seq<Seq<char>>, v: Seq<char>)
    ensures
        choice_index(cs, v) matches Some(a) ==> 0 <= a < cs.len() && cs[a] == v,
    decreases cs.len(),
{
    if cs.len() > 0 {
        lemma_choice_index_props(cs.drop_first(), v);
    }
}

proof fn lemma_choices_distinct(i: int)
    requires
        0 <= i < 10,
    ensures
        row_choices(i) matches Some(cs) ==> forall|a: int, b: int|
            0 <= a < cs.len() && 0 <= b < cs.len() && a != b ==> cs[a] != cs[b],
{
    reveal_strlit("on");
    reveal_strlit("off");
    reveal_strlit("1");
    reveal_strlit("2");
    reveal_strlit("3");
    reveal_strlit("5");
    reveal_strlit("10");
    reveal_strlit("recent");
    reveal_strlit("engine");
    reveal_strlit("name");
    if let Some(cs) = row_choices(i) {
        assert forall|a: int, b: int| 0 <= a < cs.len() && 0 <= b < cs.len() && a != b implies cs[a] != cs[b] by {
            if cs[a] == cs[b] {
                assert(cs[a].len() == cs[b].len());
                assert(cs[a][0] == cs[b][0]);
            }
        }
    }
}

proof fn lemma_choice_index_of(cs: Seq<Seq<char>>, a: int)
    requires
        0 <= a < cs.len(),
        forall|x: int, y: int| 0 <= x < cs.len() && 0 <= y < cs.len() && x != y ==> cs[x] != cs[y],
    ensures
        choice_index(cs, cs[a]) == Some(a),
{
    lemma_choice_index(cs, cs[a], a);
}

/// A value that reads back from a `key = value` line as itself: nothing to
/// trim at either end, and no line break inside.
pub open spec fn plain_value(v: Seq<char>) -> bool {
    trim(v) == v && !contains(v, '\n')
}

/// Settings a file can say: a timeout inside the range a file may set, every
/// client named, and every typed value plain.
pub open spec fn expressible(s: SettingsV) -> bool {
    &&& 1 <= s.probe_timeout <= 60
    &&& s.psql_command.len() > 0
    &&& s.mysql_command.len() > 0
    &&& s.sqlite_command.len() > 0
    &&& s.sqlcmd_command.len() > 0
    &&& plain_value(s.psql_command)
    &&& plain_value(s.mysql_command)
    &&& plain_value(s.sqlite_command)
    &&& plain_value(s.sqlcmd_command)
    &&& plain_value(s.tunnel_host)
}

/// The line `save` writes for row `i`.
pub open spec fn row_line(s: SettingsV, i: int) -> Seq<char> {
    row_keys()[i] + " = "@ + row_value(s, i)
}

pub open spec fn row_lines(s: SettingsV, n: int) -> Seq<Seq<char>> {
    Seq::new(n as nat, |i: int| row_line(s, i))
}

pub open spec fn header_lines() -> Seq<Seq<char>> {
    seq![
        "# easysql settings - `key = value`, one per line. Delete a line"@,
        "# to go back to its default. The Settings tab edits this file."@,
        seq![],
    ]
}

/// `t` with the first `n` settings taken from `s`, in row order.
pub open spec fn with_rows(t: SettingsV, s: SettingsV, n: int) -> SettingsV
    decreases n,
{
    if n <= 0 {
        t
    } else {
        with_row(with_rows(t, s, n - 1), s, n - 1)
    }
}

proof fn lemma_header()
    ensures
        file_header() == lines_text(header_lines()),
        forall|i: int| 0 <= i < 3 ==> !contains(#[trigger] header_lines()[i], '\n'),
        forall|i: int| 0 <= i < 3 ==> strip_cr(#[trigger] header_lines()[i]) == header_lines()[i],
        forall|i: int| 0 <= i < 3 ==> {
            let t = trim(#[trigger] header_lines()[i]);
            t.len() == 0 || t[0] == '#'
        },
{
    reveal_strlit("# easysql settings - `key = value`, one per line. Delete a line\n# to go back to its default. The Settings tab edits this file.\n\n");
    reveal_strlit("# easysql settings - `key = value`, one per line. Delete a line");
    reveal_strlit("# to go back to its default. The Settings tab edits this file.");
    let h = header_lines();
    assert(h.take(1).drop_last() =~= Seq::<Seq<char>>::empty());
    assert(h.take(1).last() == h[0]);
    assert(lines_text(Seq::<Seq<char>>::empty()) == Seq::<char>::empty());
    assert(lines_text(h.take(1)) == lines_text(Seq::<Seq<char>>::empty()) + h[0] + seq!['\n']);
    assert(lines_text(h.take(1)) =~= h[0] + seq!['\n']);
    assert(h.take(2).drop_last() =~= h.take(1));
    assert(h.take(2).last() == h[1]);
    assert(lines_text(h.take(2)) =~= h[0] + seq!['\n'] + h[1] + seq!['\n']);
    assert(h.drop_last() =~= h.take(2));
    assert(lines_text(h) =~= h[0] + seq!['\n'] + h[1] + seq!['\n'] + seq!['\n']);
    assert(file_header() =~= lines_text(h));
    assert forall|i: int| 0 <= i < 3 implies !contains(#[trigger] h[i], '\n') by {
        if contains(h[i], '\n') {
            let j = choose|j: int| 0 <= j < h[i].len() && h[i][j] == '\n';
            assert(h[i][j] == '\n');
        }
    }
    assert forall|i: int| 0 <= i < 3 implies {
        let t = trim(#[trigger] h[i]);
        t.len() == 0 || t[0] == '#'
    } by {
        if i < 2 {
            assert(h[i][0] == '#');
            assert(trim_start_is(h[i]));
            lemma_trim_end_keeps_head(h[i]);
        }
    }
}

spec fn trim_start_is(v: Seq<char>) -> bool {
    crate::text::trim_start(v) == v
}

proof fn lemma_trim_end_keeps_head(v: Seq<char>)
    requires
        v.len() > 0,
        !is_ws(v[0]),
    ensures
        crate::text::trim_end(v).len() > 0,
        crate::text::trim_end(v)[0] == v[0],
    decreases v.len(),
{
    if v.len() > 1 && is_ws(v.last()) {
        lemma_trim_end_keeps_head(v.drop_last());
    }
}

proof fn lemma_rows_text(s: SettingsV, n: int)
    requires
        0 <= n <= 10,
    ensures
        rows_text(s, n) == lines_text(row_lines(s, n)),
    decreases n,
{
    if n > 0 {
        lemma_rows_text(s, n - 1);
        assert(row_lines(s, n).drop_last() =~= row_lines(s, n - 1));
    } else {
        assert(row_lines(s, n) =~= Seq::<Seq<char>>::empty());
    }
}

/// A key's shape: a word of letters and underscores.
proof fn lemma_key_shape(i: int)
    requires
        0 <= i < 10,
    ensures
        row_keys()[i].len() > 0,
        !is_ws(row_keys()[i][0]),
        !is_ws(row_keys()[i].last()),
        row_keys()[i][0] != '#',
        !contains(row_keys()[i], '='),
        !contains(row_keys()[i], '\n'),
{
    lemma_literals();
    reveal_strlit("probe");
    reveal_strlit("probe_timeout");
    reveal_strlit("conn_order");
    reveal_strlit("psql_command");
    reveal_strlit("mysql_command");
    reveal_strlit("sqlite_command");
    reveal_strlit("sqlcmd_command");
    reveal_strlit("hints");
    reveal_strlit("mssql_passwords");
    reveal_strlit("tunnel_host");
    let k = row_keys()[i];
    assert forall|j: int| 0 <= j < k.len() implies ('a' <= #[trigger] k[j] <= 'z' || k[j] == '_') by {
        if i == 0 { assert(k == seq!['p','r','o','b','e']); }
        else if i == 1 { assert(k == seq!['p','r','o','b','e','_','t','i','m','e','o','u','t']); }
        else if i == 2 { assert(k == seq!['c','o','n','n','_','o','r','d','e','r']); }
        else if i == 3 { assert(k == seq!['p','s','q','l','_','c','o','m','m','a','n','d']); }
        else if i == 4 { assert(k == seq!['m','y','s','q','l','_','c','o','m','m','a','n','d']); }
        else if i == 5 { assert(k == seq!['s','q','l','i','t','e','_','c','o','m','m','a','n','d']); }
        else if i == 6 { assert(k == seq!['s','q','l','c','m','d','_','c','o','m','m','a','n','d']); }
        else if i == 7 { assert(k == seq!['h','i','n','t','s']); }
        else if i == 8 { assert(k == seq!['m','s','s','q','l','_','p','a','s','s','w','o','r','d','s']); }
        else { assert(k == seq!['t','u','n','n','e','l','_','h','o','s','t']); }
    }
    assert(k.len() > 0) by {
        lemma_keys_apart();
        if i == 0 { assert(k.len() == 5); }
        else { assert(k.len() > 0); }
    }
}

/// What row `i` shows for expressible settings is a plain value.
proof fn lemma_row_value_plain(s: SettingsV, i: int)
    requires
        0 <= i < 10,
        expressible(s),
    ensures
        plain_value(row_value(s, i)),
{
    reveal_strlit("on");
    reveal_strlit("off");
    reveal_strlit("recent");
    reveal_strlit("engine");
    reveal_strlit("name");
    let v = row_value(s, i);
    if i == 0 || i == 2 || i == 7 || i == 8 {
        assert(v.len() > 0);
        assert(!is_ws(v[0]) && !is_ws(v.last()));
        lemma_plain_ends(v);
    } else if i == 1 {
        lemma_dec_shape(s.probe_timeout as nat);
        lemma_plain_ends(v);
    }
}

proof fn lemma_dec_shape(n: nat)
    ensures
        dec(n).len() > 0,
        forall|j: int| 0 <= j < dec(n).len() ==> is_digit(#[trigger] dec(n)[j]),
{
    lemma_parse_dec_shape(n);
}

proof fn lemma_parse_dec_shape(n: nat)
    ensures
        dec(n).len() > 0,
        all_digits(dec(n)),
    decreases n,
{
    if n >= 10 {
        lemma_parse_dec_shape(n / 10);
        let d = dec(n);
        assert(d.drop_last() == dec(n / 10));
        assert forall|i: int| 0 <= i < d.len() implies is_digit(#[trigger] d[i]) by {
            if i < d.len() - 1 {
                assert(d[i] == dec(n / 10)[i]);
            }
        }
    }
}

/// A text whose first and last characters are not whitespace, and which
/// holds no newline or no whitespace at all, is plain.
proof fn lemma_plain_ends(v: Seq<char>)
    requires
        v.len() > 0,
        forall|j: int| 0 <= j < v.len() ==> !is_ws(#[trigger] v[j]),
    ensures
        plain_value(v),
{
    assert(crate::text::trim_start(v) == v);
    assert(crate::text::trim_end(v) == v);
    if contains(v, '\n') {
        let j = choose|j: int| 0 <= j < v.len() && v[j] == '\n';
        assert(!is_ws(v[j]));
    }
}

proof fn lemma_load_append(t: SettingsV, a: Seq<Seq<char>>, b: Seq<Seq<char>>)
    ensures
        load_lines(t, a + b) == load_lines(load_lines(t, a), b),
    decreases b.len(),
{
    if b.len() == 0 {
        assert(a + b =~= a);
    } else {
        lemma_load_append(t, a, b.drop_last());
        assert((a + b).drop_last() =~= a + b.drop_last());
        assert((a + b).last() == b.last());
    }
}

proof fn lemma_strip_all_append(a: Seq<Seq<char>>, b: Seq<Seq<char>>)
    ensures
        strip_all(a + b) == strip_all(a) + strip_all(b),
{
    assert(strip_all(a + b) =~= strip_all(a) + strip_all(b));
}

proof fn lemma_load_header(t: SettingsV)
    ensures
        load_lines(t, strip_all(header_lines())) == t,
{
    lemma_header();
    let h = header_lines();
    let sh = strip_all(h);
    assert(sh =~= h);
    assert(h.drop_last() =~= seq![h[0], h[1]]);
    assert(seq![h[0], h[1]].drop_last() =~= seq![h[0]]);
    assert(seq![h[0]].drop_last() =~= Seq::<Seq<char>>::empty());
    let t0 = trim(h[0]);
    let t1 = trim(h[1]);
    let t2 = trim(h[2]);
    assert(t0.len() == 0 || t0[0] == '#');
    assert(t1.len() == 0 || t1[0] == '#');
    assert(t2.len() == 0 || t2[0] == '#');
    assert(load_lines(t, Seq::<Seq<char>>::empty()) == t);
    assert(load_lines(t, seq![h[0]]) == load_step(t, h[0]));
    assert(load_lines(t, seq![h[0], h[1]]) == load_step(load_lines(t, seq![h[0]]), h[1]));
    assert(load_lines(t, h) == load_step(load_lines(t, seq![h[0], h[1]]), h[2]));
}

/// Where the `=` of a `key = value` line is, and what stands either side.
proof fn lemma_read_row_line(t: SettingsV, s: SettingsV, i: int)
    requires
        0 <= i < 10,
        expressible(s),
    ensures
        load_step(t, row_line(s, i)) == with_row(t, s, i),
        strip_cr(row_line(s, i)) == row_line(s, i),
        !contains(row_line(s, i), '\n'),
        !is_foreign(row_line(s, i)),
{
    reveal_strlit(" = ");
    reveal_strlit(" =");
    reveal_strlit(" ");
    lemma_key_shape(i);
    lemma_row_value_plain(s, i);
    let k = row_keys()[i];
    let v = row_value(s, i);
    let line = row_line(s, i);
    lemma_trim_assignment(k, v);
    let l = trim(line);
    let n = k.len() as int;
    assert(l.len() >= n + 2);
    assert(l[0] == k[0]);
    assert forall|j: int| 0 <= j < n + 1 implies l[j] != '=' by {
        if j < n {
            assert(l[j] == k[j]);
            if k[j] == '=' {
                assert(contains(k, '='));
            }
        } else {
            assert(l[j] == ' ');
        }
    }
    assert(l[n + 1] == '=');
    lemma_find_char(l, '=', n + 1);
    assert(l.take(n + 1) =~= k + " "@);
    if v.len() == 0 {
        assert(l.skip(n + 2) =~= Seq::<char>::empty());
        assert(trim(l.skip(n + 2)) == v);
    } else {
        assert(l.skip(n + 2) =~= " "@ + v);
    }
    lemma_set_row(t, s, i);
    lemma_row_index(i);
    // no newline, and nothing for strip_cr to take
    if contains(line, '\n') {
        let j = choose|j: int| 0 <= j < line.len() && line[j] == '\n';
        if j < n {
            assert(line[j] == k[j]);
            assert(contains(k, '\n'));
        } else if j >= n + 3 {
            assert(line[j] == v[j - n - 3]);
            assert(contains(v, '\n'));
        }
    }
    if v.len() > 0 {
        lemma_trimmed_ends(v);
        assert(line.last() == v.last());
    }
}

proof fn lemma_load_rows(t: SettingsV, s: SettingsV, n: int)
    requires
        0 <= n <= 10,
        expressible(s),
    ensures
        load_lines(t, strip_all(row_lines(s, n))) == with_rows(t, s, n),
    decreases n,
{
    if n == 0 {
        assert(strip_all(row_lines(s, n)) =~= Seq::<Seq<char>>::empty());
    } else {
        lemma_load_rows(t, s, n - 1);
        assert(strip_all(row_lines(s, n)).drop_last() =~= strip_all(row_lines(s, n - 1)));
        lemma_read_row_line(with_rows(t, s, n - 1), s, n - 1);
        assert(strip_all(row_lines(s, n)).last() == row_line(s, n - 1));
    }
}

proof fn lemma_with_all_rows(t: SettingsV, s: SettingsV)
    ensures
        with_rows(t, s, 10) == s,
{
    reveal_with_fuel(with_rows, 11);
    let w = with_rows(t, s, 10);
    assert(w.probe == s.probe && w.probe_timeout == s.probe_timeout && w.conn_order == s.conn_order);
    assert(w.psql_command == s.psql_command && w.mysql_command == s.mysql_command);
    assert(w.sqlite_command == s.sqlite_command && w.sqlcmd_command == s.sqlcmd_command);
    assert(w.hints == s.hints && w.mssql_passwords == s.mssql_passwords && w.tunnel_host == s.tunnel_host);
}

proof fn lemma_foreign_props(ls: Seq<Seq<char>>)
    requires
        forall|i: int| 0 <= i < ls.len() ==> !contains(#[trigger] ls[i], '\n'),
    ensures
        forall|i: int| 0 <= i < foreign(ls).len() ==> is_foreign(#[trigger] foreign(ls)[i]),
        forall|i: int| 0 <= i < foreign(ls).len() ==> !contains(#[trigger] foreign(ls)[i], '\n'),
    decreases ls.len(),
{
    if ls.len() > 0 {
        let init = ls.drop_last();
        assert forall|i: int| 0 <= i < init.len() implies !contains(#[trigger] init[i], '\n') by {
            assert(init[i] == ls[i]);
        }
        lemma_foreign_props(init);
        if is_foreign(ls.last()) {
            let f = foreign(init).push(ls.last());
            assert(!contains(ls[ls.len() - 1], '\n'));
            assert forall|i: int| 0 <= i < f.len() implies is_foreign(#[trigger] f[i]) && !contains(f[i], '\n') by {
                if i < foreign(init).len() {
                    assert(f[i] == foreign(init)[i]);
                }
            }
        }
    }
}

proof fn lemma_foreign_append(a: Seq<Seq<char>>, b: Seq<Seq<char>>)
    ensures
        foreign(a + b) == foreign(a) + foreign(b),
    decreases b.len(),
{
    if b.len() == 0 {
        assert(a + b =~= a);
        assert(foreign(a) + foreign(b) =~= foreign(a));
    } else {
        lemma_foreign_append(a, b.drop_last());
        assert((a + b).drop_last() =~= a + b.drop_last());
        assert((a + b).last() == b.last());
        if is_foreign(b.last()) {
            assert(foreign(a) + foreign(b.drop_last()).push(b.last()) =~= (foreign(a) + foreign(
                b.drop_last(),
            )).push(b.last()));
        }
    }
}

/// A line read for a key nobody knows leaves the settings alone.
proof fn lemma_load_foreign(t: SettingsV, fs: Seq<Seq<char>>)
    requires
        forall|i: int| 0 <= i < fs.len() ==> is_foreign(#[trigger] fs[i]),
    ensures
        load_lines(t, strip_all(fs)) == t,
        foreign(strip_all(fs)) == strip_all(fs),
    decreases fs.len(),
{
    if fs.len() == 0 {
        assert(strip_all(fs) =~= Seq::<Seq<char>>::empty());
    } else {
        let init = fs.drop_last();
        assert forall|i: int| 0 <= i < init.len() implies is_foreign(#[trigger] init[i]) by {
            assert(init[i] == fs[i]);
        }
        lemma_load_foreign(t, init);
        assert(strip_all(fs).drop_last() =~= strip_all(init));
        let f = fs.last();
        assert(is_foreign(fs[fs.len() - 1]));
        assert(strip_all(fs).last() == strip_cr(f));
        lemma_trim_strip_cr(f);
        let l = trim(f);
        let at = find_char(l, '=').unwrap();
        lemma_set_unknown(t, trim(l.take(at)), trim(l.skip(at + 1)));
        assert(load_step(t, strip_cr(f)) == t);
        assert(is_foreign(strip_cr(f)));
        assert(strip_all(init).push(strip_cr(f)) =~= strip_all(fs));
    }
}

proof fn lemma_nothing_foreign_before(s: SettingsV)
    requires
        expressible(s),
    ensures
        foreign(strip_all(header_lines())) == Seq::<Seq<char>>::empty(),
        foreign(strip_all(row_lines(s, 10))) == Seq::<Seq<char>>::empty(),
{
    lemma_header();
    let h = header_lines();
    assert(strip_all(h) =~= h);
    assert(h.drop_last() =~= seq![h[0], h[1]]);
    assert(seq![h[0], h[1]].drop_last() =~= seq![h[0]]);
    assert(seq![h[0]].drop_last() =~= Seq::<Seq<char>>::empty());
    assert(!is_foreign(h[0]) && !is_foreign(h[1]) && !is_foreign(h[2]));
    assert(foreign(Seq::<Seq<char>>::empty()) == Seq::<Seq<char>>::empty());
    assert(seq![h[0]].last() == h[0]);
    assert(foreign(seq![h[0]]) == foreign(Seq::<Seq<char>>::empty()));
    assert(seq![h[0], h[1]].last() == h[1]);
    assert(h.last() == h[2]);
    assert(foreign(seq![h[0], h[1]]) =~= Seq::<Seq<char>>::empty());
    lemma_no_foreign_rows(s, 10);
}

proof fn lemma_no_foreign_rows(s: SettingsV, n: int)
    requires
        0 <= n <= 10,
        expressible(s),
    ensures
        foreign(strip_all(row_lines(s, n))) == Seq::<Seq<char>>::empty(),
    decreases n,
{
    if n == 0 {
        assert(strip_all(row_lines(s, n)) =~= Seq::<Seq<char>>::empty());
    } else {
        lemma_no_foreign_rows(s, n - 1);
        assert(strip_all(row_lines(s, n)).drop_last() =~= strip_all(row_lines(s, n - 1)));
        lemma_read_row_line(default_settings(), s, n - 1);
        assert(strip_all(row_lines(s, n)).last() == row_line(s, n - 1));
    }
}

/// The lines of a saved file: the header, one per setting, and the foreign
/// lines kept from the old file.
proof fn lemma_saved_lines(s: SettingsV, existing: Seq<char>)
    requires
        expressible(s),
    ensures
        lines(save_spec(s, existing)) == strip_all(header_lines()) + strip_all(row_lines(s, 10))
            + strip_all(foreign(lines(existing))),
        forall|i: int|
            0 <= i < foreign(lines(existing)).len() ==> is_foreign(
                #[trigger] foreign(lines(existing))[i],
            ),
{
    let fs = foreign(lines(existing));
    let h = header_lines();
    let r = row_lines(s, 10);
    lemma_header();
    lemma_rows_text(s, 10);
    lemma_lines_no_newline(existing);
    lemma_foreign_props(lines(existing));
    lemma_lines_text_append(h, r);
    lemma_lines_text_append(h + r, fs);
    let all = h + r + fs;
    assert(save_spec(s, existing) == lines_text(all));
    assert forall|i: int| 0 <= i < all.len() implies !contains(#[trigger] all[i], '\n') by {
        if i < 3 {
            assert(all[i] == h[i]);
        } else if i < 13 {
            assert(all[i] == r[i - 3]);
            lemma_read_row_line(default_settings(), s, i - 3);
        } else {
            assert(all[i] == fs[i - 13]);
        }
    }
    lemma_lines_text(all);
    lemma_strip_all_append(h + r, fs);
    lemma_strip_all_append(h, r);
}

/// What `save` writes, `load` reads back as the same settings: every setting
/// a file can say survives the trip, whatever the old file held.
pub proof fn lemma_save_reads_back(s: SettingsV, existing: Seq<char>)
    requires
        expressible(s),
    ensures
        load_spec(save_spec(s, existing)) == s,
{
    lemma_saved_lines(s, existing);
    let hs = strip_all(header_lines());
    let rs = strip_all(row_lines(s, 10));
    let fs = foreign(lines(existing));
    let d = default_settings();
    lemma_load_append(d, hs + rs, strip_all(fs));
    lemma_load_append(d, hs, rs);
    lemma_load_header(d);
    lemma_load_rows(d, s, 10);
    lemma_with_all_rows(d, s);
    lemma_load_foreign(s, fs);
}

/// A line the old file had for a key this build does not know is still in
/// the file `save` writes, in the same order, read as the reader reads it.
pub proof fn lemma_save_keeps_foreign_lines(s: SettingsV, existing: Seq<char>)
    requires
        expressible(s),
    ensures
        foreign(lines(save_spec(s, existing))) == strip_all(foreign(lines(existing))),
{
    lemma_saved_lines(s, existing);
    let hs = strip_all(header_lines());
    let rs = strip_all(row_lines(s, 10));
    let fs = foreign(lines(existing));
    lemma_foreign_append(hs + rs, strip_all(fs));
    lemma_foreign_append(hs, rs);
    lemma_nothing_foreign_before(s);
    lemma_load_foreign(default_settings(), fs);
    assert(Seq::<Seq<char>>::empty() + Seq::<Seq<char>>::empty() + strip_all(fs) =~= strip_all(fs));
}

} // verus!
