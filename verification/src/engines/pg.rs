//! Postgres. Connections live in `~/.pg_service.conf`, the connection service
//! file `psql` (and libpq, and therefore nearly every Postgres client and
//! driver) already reads: `psql "service=prod"` is the whole handoff.
//!
//! Passwords are not here. They belong in `~/.pgpass`, which libpq reads by
//! itself, which is why easysql never has to hold one or put one on a command
//! line where `ps` would show it.

use super::{Conn, ConnV, Engine, NewConn, NewConnV};
use crate::ini::{
    Section, SectionV, home, join_path, key_index, kviews, lookup, parse, parse_text, remove,
    remove_lines, rest_of, sviews, target_of, upsert, upsert_lines, opt_view, lemma_key_index_props};
use crate::snippets::{escape_set, escape_set_of};
use crate::text::{
    chars_of, contains, copy, cviews, dec, dec_of, eq_ic, eq_ignore_case, extend, file_body, find,
    find_char, has_prefix, is_whitespace, is_ws, join, join_of, lines, lines_of, lower, lower_of,
    same_as, seq_eq, slice_to_vec, starts_with, string_of, trim, trimmed, words, words_of,
    is_word, lemma_words_are_words, lemma_words_join,
};
use vstd::prelude::*;

verus! {

/// The server setting that makes a session refuse writes. It lives in the
/// block's `options`, which libpq hands to the server for every session.
pub const READ_ONLY: &'static str = "default_transaction_read_only";

/// The keys the wizard owns. Anything else in a block (`sslmode`, `options`,
/// `connect_timeout`) is carried through an edit untouched.
pub open spec fn known() -> Seq<&'static str> {
    seq!["host", "port", "dbname", "user"]
}

fn known_keys() -> (r: Vec<&'static str>)
    ensures
        r@ == known(),
{
    let r = vec!["host", "port", "dbname", "user"];
    assert(r@ =~= known());
    r
}

// ---------------------------------------------------------------------------
// reading `options`
// ---------------------------------------------------------------------------

/// How many words the token at `i` takes: `-c name=v` takes two, anything
/// else one.
pub open spec fn ro_span(ws: Seq<Seq<char>>, i: int) -> int {
    if ws[i] == seq!['-', 'c'] && i + 1 < ws.len() {
        2
    } else {
        1
    }
}

/// The `name=value` a token carries, in the three spellings the server
/// accepts: `-c name=v`, `-cname=v` and `--name=v`; nothing for any other word.
pub open spec fn ro_setting(ws: Seq<Seq<char>>, i: int) -> Seq<char> {
    if ws[i] == seq!['-', 'c'] && i + 1 < ws.len() {
        ws[i + 1]
    } else if starts_with(ws[i], seq!['-', 'c']) {
        ws[i].skip(2)
    } else if starts_with(ws[i], seq!['-', '-']) {
        ws[i].skip(2)
    } else {
        seq![]
    }
}

/// A setting's name with dashes read as underscores, as the server reads it.
pub open spec fn dash_us(s: Seq<char>) -> Seq<char> {
    s.map_values(|c: char| if c == '-' { '_' } else { c })
}

/// The value of a setting that names the read-only switch, in lower case.
pub open spec fn ro_value(setting: Seq<char>) -> Option<Seq<char>> {
    match find_char(setting, '=') {
        Some(k) => if eq_ic(dash_us(setting.take(k)), READ_ONLY@) {
            Some(lower(setting.skip(k + 1)))
        } else {
            None
        },
        None => None,
    }
}

/// The read-only tokens from word `i` on: where each starts, how many words
/// it takes, and its value.
pub open spec fn ro_hits_from(ws: Seq<Seq<char>>, i: int) -> Seq<(int, int, Seq<char>)>
    decreases ws.len() - i,
{
    if i < 0 || i >= ws.len() {
        seq![]
    } else {
        let span = ro_span(ws, i);
        let rest = ro_hits_from(ws, i + span);
        match ro_value(ro_setting(ws, i)) {
            Some(v) => seq![(i, span, v)] + rest,
            None => rest,
        }
    }
}

/// The `options` tokens that set read-only.
pub open spec fn ro_values(options: Seq<char>) -> Seq<(int, int, Seq<char>)> {
    ro_hits_from(words(options), 0)
}

pub open spec fn hit_views(h: Seq<(usize, usize, String)>) -> Seq<(int, int, Seq<char>)> {
    h.map_values(|x: (usize, usize, String)| (x.0 as int, x.1 as int, x.2@))
}

fn dash_us_of(s: &[char]) -> (r: Vec<char>)
    ensures
        r@ == dash_us(s@),
{
    let mut r: Vec<char> = Vec::new();
    let mut i: usize = 0;
    while i < s.len()
        invariant
            i <= s@.len(),
            r@ == dash_us(s@.take(i as int)),
        decreases s@.len() - i,
    {
        let c = s[i];
        r.push(if c == '-' { '_' } else { c });
        i = i + 1;
        assert(r@ =~= dash_us(s@.take(i as int)));
    }
    assert(s@.take(s@.len() as int) =~= s@);
    r
}

fn ro_value_of(setting: &[char]) -> (r: Option<Vec<char>>)
    ensures
        r matches Some(v) ==> ro_value(setting@) == Some(v@),
        r is None ==> ro_value(setting@) is None,
{
    match find(setting, '=') {
        Some(k) => {
            assert(k < setting.len());
            let name = slice_to_vec(setting, 0, k);
            let value = slice_to_vec(setting, k + 1, setting.len());
            assert(name@ =~= setting@.take(k as int));
            assert(value@ =~= setting@.skip(k + 1));
            let us = dash_us_of(name.as_slice());
            let ro = chars_of(READ_ONLY);
            if eq_ignore_case(us.as_slice(), ro.as_slice()) {
                Some(lower_of(value.as_slice()))
            } else {
                None
            }
        },
        None => None,
    }
}

/// The setting token `i` carries and how many words it takes.
fn setting_at(ws: &Vec<Vec<char>>, i: usize) -> (r: (Vec<char>, usize))
    requires
        i < ws@.len(),
    ensures
        r.0@ == ro_setting(cviews(ws@), i as int),
        r.1 == ro_span(cviews(ws@), i as int),
{
    let w = ws[i].as_slice();
    let dc = vec!['-', 'c'];
    let dd = vec!['-', '-'];
    assert(dc@ =~= seq!['-', 'c']);
    assert(dd@ =~= seq!['-', '-']);
    assert(cviews(ws@)[i as int] == w@);
    if seq_eq(w, dc.as_slice()) && ws.len() - i > 1 {
        assert(cviews(ws@)[i + 1] == ws@[i + 1]@);
        (copy(ws[i + 1].as_slice()), 2)
    } else if has_prefix(w, dc.as_slice()) {
        let s = slice_to_vec(w, 2, w.len());
        assert(s@ =~= w@.skip(2));
        (s, 1)
    } else if has_prefix(w, dd.as_slice()) {
        let s = slice_to_vec(w, 2, w.len());
        assert(s@ =~= w@.skip(2));
        (s, 1)
    } else {
        (Vec::new(), 1)
    }
}

/// The `options` tokens that set read-only: where each starts among the
/// words, how many words it takes, and its value in lower case.
pub fn read_only_values(options: &str) -> (r: Vec<(usize, usize, String)>)
    ensures
        hit_views(r@) == ro_values(options@),
{
    let ws = words_of(chars_of(options).as_slice());
    let ghost w = cviews(ws@);
    let mut hits: Vec<(usize, usize, String)> = Vec::new();
    let mut i: usize = 0;
    while i < ws.len()
        invariant
            w == cviews(ws@),
            w == words(options@),
            i <= ws@.len(),
            hit_views(hits@) + ro_hits_from(w, i as int) == ro_hits_from(w, 0),
        decreases ws@.len() - i,
    {
        let (setting, span) = setting_at(&ws, i);
        let ghost prev = hits@;
        match ro_value_of(setting.as_slice()) {
            Some(v) => {
                hits.push((i, span, string_of(v.as_slice())));
                assert(hit_views(hits@) =~= hit_views(prev) + seq![(i as int, span as int, v@)]);
            },
            None => {},
        }
        i = i + span;
    }
    hits
}

/// A Postgres boolean that means on: `on`, `1`, or any prefix of `true` or
/// `yes`, which is how the server reads `t`, `y` and `tru` as well.
pub open spec fn truthy(v: Seq<char>) -> bool {
    v == "on"@ || v == "1"@ || (v.len() > 0 && (starts_with("true"@, v) || starts_with("yes"@, v)))
}

pub fn is_truthy(v: &[char]) -> (r: bool)
    ensures
        r == truthy(v@),
{
    let t = chars_of("true");
    let y = chars_of("yes");
    same_as(v, "on") || same_as(v, "1") || (v.len() > 0 && (has_prefix(t.as_slice(), v)
        || has_prefix(y.as_slice(), v)))
}

/// Whether a block's keys make every session read-only: the last read-only
/// token in its first `options` key turns it on, the way the server reads them.
pub open spec fn read_only_spec(extra: Seq<(Seq<char>, Seq<char>)>) -> bool {
    match key_index(extra, "options"@) {
        Some(i) => {
            let h = ro_values(extra[i].1);
            h.len() > 0 && truthy(h.last().2)
        },
        None => false,
    }
}

/// Where the first `options` key sits, ignoring case.
fn options_at(extra: &[(String, String)]) -> (r: Option<usize>)
    ensures
        r matches Some(i) ==> key_index(kviews(extra@), "options"@) == Some(i as int) && i
            < extra@.len(),
        r is None ==> key_index(kviews(extra@), "options"@) is None,
{
    let k = chars_of("options");
    let mut i: usize = 0;
    while i < extra.len()
        invariant
            i <= extra@.len(),
            k@ == "options"@,
            forall|j: int| 0 <= j < i ==> !eq_ic(#[trigger] kviews(extra@)[j].0, "options"@),
        decreases extra@.len() - i,
    {
        let name = chars_of(extra[i].0.as_str());
        if eq_ignore_case(name.as_slice(), k.as_slice()) {
            proof {
                crate::ini::lemma_key_index(kviews(extra@), "options"@, i as int);
            }
            return Some(i);
        }
        i = i + 1;
    }
    proof {
        crate::ini::lemma_key_index(kviews(extra@), "options"@, i as int);
    }
    None
}

/// Whether this block makes every session read-only, however that line got
/// there. The last setting wins, the way the server reads them.
pub fn read_only(extra: &[(String, String)]) -> (r: bool)
    ensures
        r == read_only_spec(kviews(extra@)),
{
    match options_at(extra) {
        Some(i) => {
            let h = read_only_values(extra[i].1.as_str());
            if h.len() == 0 {
                false
            } else {
                let last = chars_of(h[h.len() - 1].2.as_str());
                assert(hit_views(h@).last().2 == h@[h@.len() - 1].2@);
                is_truthy(last.as_slice())
            }
        },
        None => false,
    }
}

// ---------------------------------------------------------------------------
// writing `options`
// ---------------------------------------------------------------------------

/// The words from `i` on that are not part of a read-only token, in order.
pub open spec fn kept_from(ws: Seq<Seq<char>>, i: int) -> Seq<Seq<char>>
    decreases ws.len() - i,
{
    if i < 0 || i >= ws.len() {
        seq![]
    } else {
        let span = ro_span(ws, i);
        let rest = kept_from(ws, i + span);
        match ro_value(ro_setting(ws, i)) {
            Some(_) => rest,
            None => ws.subrange(i, i + span) + rest,
        }
    }
}

/// The two words that switch read-only on.
pub open spec fn ro_on_words() -> Seq<Seq<char>> {
    seq![seq!['-', 'c'], READ_ONLY@ + "=on"@]
}

/// What `set_read_only` leaves in the `options` value: every other token the
/// user wrote, in order, and the switch at the end when turning it on.
pub open spec fn new_options(old: Seq<char>, on: bool) -> Seq<char> {
    let kept = kept_from(words(old), 0);
    join(if on { kept + ro_on_words() } else { kept }, seq![' '])
}

/// The keys after setting or clearing read-only: the first `options` key
/// rewritten in place, dropped when nothing is left in it, or appended when
/// there was none and something needs saying.
pub open spec fn set_read_only_spec(extra: Seq<(Seq<char>, Seq<char>)>, on: bool) -> Seq<
    (Seq<char>, Seq<char>),
> {
    match key_index(extra, "options"@) {
        Some(i) => {
            let new = new_options(extra[i].1, on);
            if new.len() == 0 {
                extra.remove(i)
            } else {
                extra.update(i, (extra[i].0, new))
            }
        },
        None => {
            let new = new_options(seq![], on);
            if new.len() == 0 {
                extra
            } else {
                extra.push(("options"@, new))
            }
        },
    }
}

fn kept_words(ws: &Vec<Vec<char>>) -> (r: Vec<Vec<char>>)
    ensures
        cviews(r@) == kept_from(cviews(ws@), 0),
{
    let ghost w = cviews(ws@);
    let mut kept: Vec<Vec<char>> = Vec::new();
    let mut i: usize = 0;
    while i < ws.len()
        invariant
            w == cviews(ws@),
            i <= ws@.len(),
            cviews(kept@) + kept_from(w, i as int) == kept_from(w, 0),
        decreases ws@.len() - i,
    {
        let (setting, span) = setting_at(&ws, i);
        let ghost prev = cviews(kept@);
        match ro_value_of(setting.as_slice()) {
            Some(_) => {},
            None => {
                kept.push(copy(ws[i].as_slice()));
                if span == 2 {
                    kept.push(copy(ws[i + 1].as_slice()));
                }
                assert(cviews(kept@) =~= prev + w.subrange(i as int, i + span));
            },
        }
        i = i + span;
    }
    assert(cviews(kept@) =~= cviews(kept@) + kept_from(w, i as int));
    kept
}

/// Set or clear read-only in the block's `options`, keeping every other token
/// the user wrote there in order, and dropping the key when nothing is left.
pub fn set_read_only(extra: &mut Vec<(String, String)>, on: bool)
    ensures
        kviews(final(extra)@) == set_read_only_spec(kviews(old(extra)@), on),
{
    let at = options_at(extra.as_slice());
    let old_v = match at {
        Some(i) => chars_of(extra[i].1.as_str()),
        None => Vec::new(),
    };
    let ws = words_of(old_v.as_slice());
    let mut kept = kept_words(&ws);
    let ghost k0 = cviews(kept@);
    if on {
        kept.push(vec!['-', 'c']);
        let mut sw = chars_of(READ_ONLY);
        extend(&mut sw, chars_of("=on").as_slice());
        kept.push(sw);
        assert(cviews(kept@) =~= k0 + ro_on_words());
    }
    let sp = vec![' '];
    assert(sp@ =~= seq![' ']);
    let new = join_of(&kept, sp.as_slice());
    let ghost e = kviews(old(extra)@);
    match at {
        Some(i) => {
            assert(new@ == new_options(e[i as int].1, on));
            if new.len() == 0 {
                extra.remove(i);
                assert(kviews(extra@) =~= e.remove(i as int));
            } else {
                let key = extra[i].0.clone();
                extra.set(i, (key, string_of(new.as_slice())));
                assert(kviews(extra@) =~= e.update(i as int, (e[i as int].0, new@)));
            }
        },
        None => {
            assert(old_v@ =~= Seq::<char>::empty());
            if new.len() > 0 {
                extra.push(("options".to_string(), string_of(new.as_slice())));
                assert(kviews(extra@) =~= e.push(("options"@, new@)));
            }
        },
    }
}

/// `PGOPTIONS` for a read-only session: whatever the environment already had
/// (`had`), with the read-only setting appended so it wins.
pub open spec fn read_only_pgoptions_spec(had: Option<Seq<char>>) -> Seq<char> {
    let ours = "-c "@ + READ_ONLY@ + "=on"@;
    match had {
        Some(h) => if trim(h).len() > 0 {
            trim(h) + seq![' '] + ours
        } else {
            ours
        },
        None => ours,
    }
}

/// `PGOPTIONS` for a read-only session, given what the environment holds.
/// pgcli builds its own connection from the service file and drops
/// `options`, but every libpq client reads this variable.
pub fn read_only_pgoptions(had: Option<&str>) -> (r: String)
    ensures
        r@ == read_only_pgoptions_spec(opt_view(had)),
{
    let mut ours = chars_of("-c ");
    extend(&mut ours, chars_of(READ_ONLY).as_slice());
    extend(&mut ours, chars_of("=on").as_slice());
    match had {
        Some(h) => {
            let t = trimmed(chars_of(h).as_slice());
            if t.len() > 0 {
                let mut r = t;
                r.push(' ');
                extend(&mut r, ours.as_slice());
                string_of(r.as_slice())
            } else {
                string_of(ours.as_slice())
            }
        },
        None => string_of(ours.as_slice()),
    }
}

// ---------------------------------------------------------------------------
// asking the server
// ---------------------------------------------------------------------------

/// What the server says, asked just before a read-only session, about whether
/// that session will really refuse writes.
pub enum ReadOnlyCheck {
    Holds,
    /// It answered `off`: something between here and the server dropped the
    /// setting on the way in.
    Writable,
    /// The setting was refused outright, in the refuser's own words.
    Refused(String),
    /// No answer to go on - no psql, a password it would have to prompt for,
    /// a timeout - in the client's own words.
    Unknown(String),
}

pub open spec fn fix_text() -> Seq<char> {
    "a pooler's admin can let it through with `track_extra_parameters = default_transaction_read_only` in pgbouncer"@
}

pub open spec fn refusal_spec(c: ReadOnlyCheck, name: Seq<char>) -> Option<(Seq<char>, Seq<char>)> {
    match c {
        ReadOnlyCheck::Holds => None,
        ReadOnlyCheck::Unknown(_) => None,
        ReadOnlyCheck::Writable => Some(
            (
                "`"@ + name
                    + "` is marked read-only, but the server says this session could write, so easysql will not go in."@,
                "something between here and the server dropped the setting - pgbouncer does with `options` in its `ignore_startup_parameters`; "@
                    + fix_text() + "."@,
            ),
        ),
        ReadOnlyCheck::Refused(said) => Some(
            (
                "the read-only setting was refused on the way in: "@ + said@,
                "that is a connection pooler, which refuses it by default; "@ + fix_text() + "."@,
            ),
        ),
    }
}

impl ReadOnlyCheck {
    /// What to say when this answer means not going in: a headline and what
    /// to do about it. `None` for the answers that let the session go ahead.
    pub fn refusal(&self, name: &str) -> (r: Option<(String, String)>)
        ensures
            match r {
                Some((a, b)) => refusal_spec(*self, name@) == Some((a@, b@)),
                None => refusal_spec(*self, name@) is None,
            },
    {
        match self {
            ReadOnlyCheck::Holds => None,
            ReadOnlyCheck::Unknown(_) => None,
            ReadOnlyCheck::Writable => {
                let mut a = chars_of("`");
                extend(&mut a, chars_of(name).as_slice());
                extend(
                    &mut a,
                    chars_of(
                        "` is marked read-only, but the server says this session could write, so easysql will not go in.",
                    ).as_slice(),
                );
                let mut b = chars_of(
                    "something between here and the server dropped the setting - pgbouncer does with `options` in its `ignore_startup_parameters`; ",
                );
                extend(
                    &mut b,
                    chars_of(
                        "a pooler's admin can let it through with `track_extra_parameters = default_transaction_read_only` in pgbouncer",
                    ).as_slice(),
                );
                extend(&mut b, chars_of(".").as_slice());
                Some((string_of(a.as_slice()), string_of(b.as_slice())))
            },
            ReadOnlyCheck::Refused(said) => {
                let mut a = chars_of("the read-only setting was refused on the way in: ");
                extend(&mut a, chars_of(said.as_str()).as_slice());
                let mut b = chars_of("that is a connection pooler, which refuses it by default; ");
                extend(
                    &mut b,
                    chars_of(
                        "a pooler's admin can let it through with `track_extra_parameters = default_transaction_read_only` in pgbouncer",
                    ).as_slice(),
                );
                extend(&mut b, chars_of(".").as_slice());
                Some((string_of(a.as_slice()), string_of(b.as_slice())))
            },
        }
    }
}

/// The question put to the server before a read-only session: psql with
/// `-X` so no rc file runs, `-w` so nothing can prompt, and a deadline in
/// the environment. The caller also clears `PGOPTIONS`, so the answer is the
/// service's own.
pub fn check_read_only_argv(c: &Conn, db: Option<&str>, timeout: u64) -> (r: (
    Vec<String>,
    Vec<(String, String)>,
))
    ensures
        crate::text::views(r.0@) == seq![
            "psql"@,
            conninfo_spec(c.name@, opt_view(db)),
            "-X"@,
            "-w"@,
            "-tAc"@,
            "show default_transaction_read_only"@,
        ],
        kviews(r.1@) == seq![("PGCONNECT_TIMEOUT"@, dec(timeout as nat))],
{
    let argv = vec![
        "psql".to_string(),
        conninfo(c.name.as_str(), db),
        "-X".to_string(),
        "-w".to_string(),
        "-tAc".to_string(),
        "show default_transaction_read_only".to_string(),
    ];
    let env = vec![("PGCONNECT_TIMEOUT".to_string(), string_of(dec_of(timeout).as_slice()))];
    assert(crate::text::views(argv@) =~= seq![
        "psql"@,
        conninfo_spec(c.name@, opt_view(db)),
        "-X"@,
        "-w"@,
        "-tAc"@,
        "show default_transaction_read_only"@,
    ]);
    assert(kviews(env@) =~= seq![("PGCONNECT_TIMEOUT"@, dec(timeout as nat))]);
    (argv, env)
}

/// Whether `p` occurs in `s`.
pub open spec fn has_sub(s: Seq<char>, p: Seq<char>) -> bool {
    exists|i: int| 0 <= i <= s.len() - p.len() && #[trigger] s.subrange(i, i + p.len()) == p
}

pub fn find_sub(s: &[char], p: &[char]) -> (r: bool)
    ensures
        r == has_sub(s@, p@),
{
    if p.len() > s.len() {
        return false;
    }
    let mut i: usize = 0;
    while i <= s.len() - p.len()
        invariant
            p@.len() <= s@.len(),
            i <= s@.len() - p@.len() + 1,
            forall|j: int| 0 <= j < i ==> #[trigger] s@.subrange(j, j + p@.len()) != p@,
        decreases s@.len() - p@.len() + 1 - i,
    {
        let part = slice_to_vec(s, i, i + p.len());
        if seq_eq(part.as_slice(), p) {
            return true;
        }
        if i == s.len() - p.len() {
            return false;
        }
        i = i + 1;
    }
    false
}

/// The first line of some text, or nothing.
pub open spec fn first_line(s: Seq<char>) -> Seq<char> {
    if lines(s).len() == 0 {
        seq![]
    } else {
        lines(s)[0]
    }
}

pub fn first_line_of(s: &[char]) -> (r: Vec<char>)
    ensures
        r@ == first_line(s@),
{
    let ls = lines_of(s);
    if ls.len() == 0 {
        Vec::new()
    } else {
        assert(cviews(ls@)[0] == ls@[0]@);
        copy(ls[0].as_slice())
    }
}

/// What psql's answer to the read-only question means. `ran` is `None` when
/// psql could not be started, else whether it exited successfully and what
/// it printed on stdout and stderr.
pub fn read_only_answer(ran: Option<(bool, &str, &str)>) -> (r: ReadOnlyCheck)
    ensures
        match ran {
            None => r matches ReadOnlyCheck::Unknown(m) && m@ == "`psql` is not installed to ask"@,
            Some((ok, out, err)) => if ok {
                if trim(out@) == "on"@ {
                    r is Holds
                } else {
                    r is Writable
                }
            } else if has_sub(trim(err@), "unsupported startup parameter in options"@) {
                r matches ReadOnlyCheck::Refused(m) && m@ == first_line(trim(err@))
            } else {
                r matches ReadOnlyCheck::Unknown(m) && m@ == first_line(trim(err@))
            },
        },
{
    match ran {
        None => ReadOnlyCheck::Unknown("`psql` is not installed to ask".to_string()),
        Some((ok, out, err)) => {
            if ok {
                let said = trimmed(chars_of(out).as_slice());
                if same_as(said.as_slice(), "on") {
                    ReadOnlyCheck::Holds
                } else {
                    ReadOnlyCheck::Writable
                }
            } else {
                let e = trimmed(chars_of(err).as_slice());
                let line = string_of(first_line_of(e.as_slice()).as_slice());
                let needle = chars_of("unsupported startup parameter in options");
                if find_sub(e.as_slice(), needle.as_slice()) {
                    ReadOnlyCheck::Refused(line)
                } else {
                    ReadOnlyCheck::Unknown(line)
                }
            }
        },
    }
}

// ---------------------------------------------------------------------------
// the service file
// ---------------------------------------------------------------------------

/// Whether libpq needs a value quoted: empty, or holding whitespace, a quote
/// or a backslash.
pub open spec fn needs_quote(v: Seq<char>) -> bool {
    v.len() == 0 || exists|i: int| 0 <= i < v.len() && (is_ws(#[trigger] v[i]) || v[i] == '\''
        || v[i] == '\\')
}

/// libpq conninfo quoting: single quotes around a value that needs them, a
/// backslash before a quote or a backslash.
pub open spec fn quote_spec(v: Seq<char>) -> Seq<char> {
    if needs_quote(v) {
        seq!['\''] + escape_set(v) + seq!['\'']
    } else {
        v
    }
}

fn quote(v: &[char]) -> (r: Vec<char>)
    ensures
        r@ == quote_spec(v@),
{
    let mut plain = v.len() > 0;
    let mut i: usize = 0;
    while i < v.len()
        invariant
            i <= v@.len(),
            plain == (v@.len() > 0 && forall|j: int| 0 <= j < i ==> !(is_ws(#[trigger] v@[j]) || v@[j]
                == '\'' || v@[j] == '\\')),
        decreases v@.len() - i,
    {
        let c = v[i];
        if is_whitespace(c) || c == '\'' || c == '\\' {
            plain = false;
        }
        i = i + 1;
    }
    if plain {
        copy(v)
    } else {
        let mut r = vec!['\''];
        extend(&mut r, escape_set_of(v).as_slice());
        r.push('\'');
        assert(r@ =~= seq!['\''] + escape_set(v@) + seq!['\'']);
        r
    }
}

/// The one argument psql is handed: the service block, plus an explicit
/// `dbname` when another database on the same server was asked for.
pub open spec fn conninfo_spec(name: Seq<char>, db: Option<Seq<char>>) -> Seq<char> {
    match db {
        None => "service="@ + quote_spec(name),
        Some(d) => "service="@ + quote_spec(name) + " dbname="@ + quote_spec(d),
    }
}

/// The one argument psql is handed. Keywords given here win over the service
/// file's own, and it is the only place a database can be swapped: `-d` and
/// the bare positional land in libpq's dbname and username slots instead.
pub fn conninfo(name: &str, db: Option<&str>) -> (r: String)
    ensures
        r@ == conninfo_spec(name@, opt_view(db)),
{
    let mut r = chars_of("service=");
    extend(&mut r, quote(chars_of(name).as_slice()).as_slice());
    match db {
        None => {},
        Some(d) => {
            extend(&mut r, chars_of(" dbname=").as_slice());
            extend(&mut r, quote(chars_of(d).as_slice()).as_slice());
        },
    }
    string_of(r.as_slice())
}

/// A value that may be missing, as an empty string when it is.
pub open spec fn or_empty(o: Option<Seq<char>>) -> Seq<char> {
    match o {
        Some(v) => v,
        None => seq![],
    }
}

/// The connection a service block describes.
pub open spec fn conn_of(s: SectionV) -> ConnV {
    ConnV {
        engine: Engine::Pg,
        name: s.name,
        host: or_empty(lookup(s.keys, "host"@)),
        port: or_empty(lookup(s.keys, "port"@)),
        database: or_empty(lookup(s.keys, "dbname"@)),
        user: or_empty(lookup(s.keys, "user"@)),
        extra: rest_of(s.keys, known()),
    }
}

pub open spec fn list_spec(text: Seq<char>) -> Seq<ConnV> {
    parse_text(text).map_values(|s: SectionV| conn_of(s))
}

/// The value of `key` in a section, or empty.
pub fn get_or_empty(s: &Section, key: &str) -> (r: String)
    ensures
        r@ == or_empty(lookup(s@.keys, key@)),
{
    match s.get(key) {
        Some(v) => v.to_string(),
        None => String::new(),
    }
}

/// Every service in the file's text, in file order.
pub fn list_in(text: &str) -> (r: Vec<Conn>)
    ensures
        super::conn_views(r@) == list_spec(text@),
{
    let secs = parse(text);
    let kn = known_keys();
    let mut r: Vec<Conn> = Vec::new();
    let mut i: usize = 0;
    while i < secs.len()
        invariant
            i <= secs@.len(),
            kn@ == known(),
            sviews(secs@) == parse_text(text@),
            super::conn_views(r@) == list_spec(text@).take(i as int),
        decreases secs@.len() - i,
    {
        let s = &secs[i];
        assert(sviews(secs@)[i as int] == s@);
        let c = Conn {
            engine: Engine::Pg,
            name: s.name.clone(),
            host: get_or_empty(s, "host"),
            port: get_or_empty(s, "port"),
            database: get_or_empty(s, "dbname"),
            user: get_or_empty(s, "user"),
            extra: s.rest(kn.as_slice()),
        };
        let ghost prev = r@;
        r.push(c);
        assert(super::conn_views(r@) =~= super::conn_views(prev).push(conn_of(s@)));
        i = i + 1;
        assert(list_spec(text@).take(i as int) =~= list_spec(text@).take(i - 1).push(
            conn_of(s@),
        ));
    }
    assert(list_spec(text@).take(secs@.len() as int) =~= list_spec(text@));
    r
}

/// A wizard field as a key, or nothing when it was left empty.
pub open spec fn field(k: Seq<char>, v: Seq<char>) -> Seq<(Seq<char>, Seq<char>)> {
    if trim(v).len() == 0 {
        seq![]
    } else {
        seq![(k, trim(v))]
    }
}

/// The keys a new or edited service is written with.
pub open spec fn save_keys(nc: NewConnV) -> Seq<(Seq<char>, Seq<char>)> {
    field("host"@, nc.host) + field("port"@, nc.port) + field("dbname"@, nc.database) + field(
        "user"@,
        nc.user,
    ) + nc.extra
}

/// Push `(k, trim(v))` unless `v` is blank.
pub fn push_field(keys: &mut Vec<(String, String)>, k: &str, v: &str)
    ensures
        kviews(final(keys)@) == kviews(old(keys)@) + field(k@, v@),
{
    let t = trimmed(chars_of(v).as_slice());
    if t.len() > 0 {
        keys.push((k.to_string(), string_of(t.as_slice())));
        assert(kviews(keys@) =~= kviews(old(keys)@) + field(k@, v@));
    } else {
        assert(kviews(keys@) =~= kviews(old(keys)@) + field(k@, v@));
    }
}

/// Push a copy of every pair.
pub fn push_all(keys: &mut Vec<(String, String)>, more: &[(String, String)])
    ensures
        kviews(final(keys)@) == kviews(old(keys)@) + kviews(more@),
{
    let mut i: usize = 0;
    while i < more.len()
        invariant
            i <= more@.len(),
            kviews(keys@) == kviews(old(keys)@) + kviews(more@).take(i as int),
        decreases more@.len() - i,
    {
        let ghost prev = keys@;
        keys.push((more[i].0.clone(), more[i].1.clone()));
        assert(kviews(keys@) =~= kviews(prev).push(kviews(more@)[i as int]));
        i = i + 1;
        assert(kviews(more@).take(i as int) =~= kviews(more@).take(i - 1).push(
            kviews(more@)[i - 1],
        ));
    }
    assert(kviews(more@).take(more@.len() as int) =~= kviews(more@));
}

/// The service file's new text after creating or rewriting a connection.
/// `original` is the name being replaced, which differs from the new name
/// only when an edit renamed it.
pub fn save(text: &str, original: Option<&str>, nc: &NewConn) -> (r: String)
    ensures
        r@ == file_body(
            upsert_lines(
                text@,
                target_of(original, trim(nc.name@)),
                trim(nc.name@),
                save_keys(nc@),
            ),
        ),
{
    let mut keys: Vec<(String, String)> = Vec::new();
    push_field(&mut keys, "host", nc.host.as_str());
    push_field(&mut keys, "port", nc.port.as_str());
    push_field(&mut keys, "dbname", nc.database.as_str());
    push_field(&mut keys, "user", nc.user.as_str());
    push_all(&mut keys, nc.extra.as_slice());
    assert(kviews(keys@) =~= save_keys(nc@));
    let name = string_of(trimmed(chars_of(nc.name.as_str()).as_slice()).as_slice());
    upsert(text, original, name.as_str(), &keys)
}

/// The service file's new text without the service `name`; `None` when there
/// is no such service.
pub fn delete(text: &str, name: &str) -> (r: Option<String>)
    ensures
        r matches Some(s) ==> remove_lines(text@, name@) matches Some(ls) && s@ == file_body(ls),
        r is None ==> remove_lines(text@, name@) is None,
{
    remove(text, name)
}

/// `$PGSERVICEFILE` (given as `env`), else `~/.pg_service.conf` under `home`.
/// Same precedence libpq uses, so the file read and written is the one the
/// client reads.
pub open spec fn service_path_spec(env: Option<Seq<char>>, home: Seq<char>) -> Seq<char> {
    match env {
        Some(p) => p,
        None => join_path(home, ".pg_service.conf"@),
    }
}

pub fn service_path_in(env: Option<&str>, home: &str) -> (r: String)
    ensures
        r@ == service_path_spec(opt_view(env), home@),
{
    match env {
        Some(p) => p.to_string(),
        None => crate::ini::join_path_of(home, ".pg_service.conf"),
    }
}

/// The service file, given `$PGSERVICEFILE` as `env`.
pub fn service_path(env: Option<&str>) -> (r: String)
    ensures
        exists|h: Seq<char>| r@ == service_path_spec(opt_view(env), h),
{
    let h = home();
    service_path_in(env, h.as_str())
}

/// The non-interactive question that makes a failed connect explain itself:
/// one `select 1` over the same service, `-w` so nothing can prompt, with a
/// deadline in the environment so a black-holed host answers in seconds.
pub fn probe_argv(c: &Conn, s: &crate::settings::Settings) -> (r: (
    Vec<String>,
    Vec<(String, String)>,
))
    ensures
        exists|h: Seq<char>|
            crate::text::views(r.0@) == super::connect_argv_spec(c@, s@, None, h) + seq![
                "-w"@,
                "-tAc"@,
                "select 1"@,
            ],
        kviews(r.1@) == seq![("PGCONNECT_TIMEOUT"@, dec(s.probe_timeout as nat))],
{
    let h = home();
    let mut argv = c.connect_argv_in(s, None, h.as_str());
    let ghost base = crate::text::views(argv@);
    argv.push("-w".to_string());
    argv.push("-tAc".to_string());
    argv.push("select 1".to_string());
    assert(crate::text::views(argv@) =~= base + seq!["-w"@, "-tAc"@, "select 1"@]);
    let env = vec![("PGCONNECT_TIMEOUT".to_string(), string_of(dec_of(s.probe_timeout).as_slice()))];
    assert(kviews(env@) =~= seq![("PGCONNECT_TIMEOUT"@, dec(s.probe_timeout as nat))]);
    (argv, env)
}

// ---------------------------------------------------------------------------
// what switching read-only does
// ---------------------------------------------------------------------------

/// Whether the tokens from word `i` on end in a lone `-c`, which would take
/// the next word written after it as its value.
pub open spec fn ends_dangling(ws: Seq<Seq<char>>, i: int) -> bool
    decreases ws.len() - i,
{
    if i < 0 || i >= ws.len() {
        false
    } else if i == ws.len() - 1 && ws[i] == seq!['-', 'c'] {
        true
    } else {
        ends_dangling(ws, i + ro_span(ws, i))
    }
}

/// The values of some read-only tokens, without their places.
pub open spec fn vals(h: Seq<(int, int, Seq<char>)>) -> Seq<Seq<char>> {
    h.map_values(|x: (int, int, Seq<char>)| x.2)
}

/// Words put in front do not change how the words behind them read, once the
/// reading has reached them.
proof fn lemma_hits_shift(a: Seq<Seq<char>>, b: Seq<Seq<char>>, j: int)
    requires
        0 <= j,
    ensures
        vals(ro_hits_from(a + b, a.len() + j)) == vals(ro_hits_from(b, j)),
    decreases b.len() - j,
{
    let ab = a + b;
    let p = a.len() + j;
    if j < b.len() {
        assert(ab[p] == b[j]);
        assert(p + 1 < ab.len() ==> ab[p + 1] == b[j + 1]);
        assert(ro_span(ab, p) == ro_span(b, j));
        assert(ro_setting(ab, p) == ro_setting(b, j));
        let span = ro_span(b, j);
        lemma_hits_shift(a, b, j + span);
        assert(a.len() + (j + span) == p + span);
        let rest_ab = ro_hits_from(ab, p + span);
        let rest_b = ro_hits_from(b, j + span);
        match ro_value(ro_setting(b, j)) {
            Some(v) => {
                assert(vals(seq![(p, span, v)] + rest_ab) =~= seq![v] + vals(rest_ab));
                assert(vals(seq![(j, span, v)] + rest_b) =~= seq![v] + vals(rest_b));
            },
            None => {},
        }
    }
}

/// Reading the words `set_read_only` keeps, followed by anything, finds only
/// what the followers hold - unless a lone `-c` is left at the end to take
/// the first follower as its own.
proof fn lemma_kept_reads(ws: Seq<Seq<char>>, i: int, tail: Seq<Seq<char>>)
    requires
        0 <= i <= ws.len(),
        tail.len() == 0 || !ends_dangling(ws, i),
    ensures
        vals(ro_hits_from(kept_from(ws, i) + tail, 0)) == vals(ro_hits_from(tail, 0)),
    decreases ws.len() - i,
{
    if i == ws.len() {
        assert(kept_from(ws, i) + tail =~= tail);
    } else {
        let span = ro_span(ws, i);
        let k = kept_from(ws, i + span);
        lemma_kept_reads(ws, i + span, tail);
        match ro_value(ro_setting(ws, i)) {
            Some(_) => {},
            None => {
                let seg = ws.subrange(i, i + span);
                let big = k + tail;
                assert(kept_from(ws, i) + tail =~= seg + big);
                let sb = seg + big;
                if span == 2 {
                    assert(sb[0] == ws[i]);
                    assert(sb[1] == ws[i + 1]);
                    assert(ro_span(sb, 0) == 2);
                    assert(ro_setting(sb, 0) == ro_setting(ws, i));
                    lemma_hits_shift(seg, big, 0);
                } else if ws[i] == seq!['-', 'c'] {
                    assert(i == ws.len() - 1);
                    assert(ends_dangling(ws, i));
                    assert(k =~= Seq::<Seq<char>>::empty());
                    assert(sb =~= seq![ws[i]]);
                    assert(ro_setting(sb, 0) =~= Seq::<char>::empty());
                    assert(find_char(Seq::<char>::empty(), '=') is None);
                    assert(ro_hits_from(sb, 1) =~= Seq::<(int, int, Seq<char>)>::empty());
                    assert(tail =~= Seq::<Seq<char>>::empty());
                    assert(ro_hits_from(tail, 0) =~= Seq::<(int, int, Seq<char>)>::empty());
                } else {
                    assert(sb[0] == ws[i]);
                    assert(ro_span(sb, 0) == 1);
                    assert(ro_setting(sb, 0) == ro_setting(ws, i));
                    lemma_hits_shift(seg, big, 0);
                }
            },
        }
    }
}

proof fn lemma_kept_words(ws: Seq<Seq<char>>, i: int)
    requires
        forall|j: int| 0 <= j < ws.len() ==> is_word(#[trigger] ws[j]),
    ensures
        forall|j: int| 0 <= j < kept_from(ws, i).len() ==> is_word(#[trigger] kept_from(ws, i)[j]),
    decreases ws.len() - i,
{
    if 0 <= i < ws.len() {
        let span = ro_span(ws, i);
        lemma_kept_words(ws, i + span);
        let k = kept_from(ws, i + span);
        let seg = ws.subrange(i, i + span);
        assert forall|j: int| 0 <= j < (seg + k).len() implies is_word(#[trigger] (seg + k)[j]) by {
            if j < seg.len() {
                assert((seg + k)[j] == ws[i + j]);
            } else {
                assert((seg + k)[j] == k[j - seg.len()]);
            }
        }
    }
}

/// The switch itself reads as on.
proof fn lemma_switch_reads_on()
    ensures
        vals(ro_hits_from(ro_on_words(), 0)) == seq!["on"@],
        is_word(ro_on_words()[0]),
        is_word(ro_on_words()[1]),
        kept_from(ro_on_words(), 0) == Seq::<Seq<char>>::empty(),
{
    reveal_strlit("default_transaction_read_only");
    reveal_strlit("=on");
    reveal_strlit("on");
    let w = ro_on_words();
    let setting = w[1];
    assert(ro_span(w, 0) == 2);
    assert(ro_setting(w, 0) == setting);
    assert(setting =~= seq![
        'd', 'e', 'f', 'a', 'u', 'l', 't', '_', 't', 'r', 'a', 'n', 's', 'a', 'c', 't', 'i', 'o',
        'n', '_', 'r', 'e', 'a', 'd', '_', 'o', 'n', 'l', 'y', '=', 'o', 'n',
    ]);
    assert forall|j: int| 0 <= j < 29 implies setting[j] != '=' && setting[j] != '-' by {}
    crate::text::lemma_find_char(setting, '=', 29);
    assert(setting.take(29) =~= READ_ONLY@);
    assert(dash_us(READ_ONLY@) =~= READ_ONLY@);
    assert(setting.skip(30) =~= seq!['o', 'n']);
    assert(lower(seq!['o', 'n']) =~= seq!['o', 'n']);
    assert(ro_value(setting) == Some("on"@));
    assert(ro_hits_from(w, 2) =~= Seq::<(int, int, Seq<char>)>::empty());
    assert(vals(ro_hits_from(w, 0)) =~= seq!["on"@]);
    assert(kept_from(w, 2) =~= Seq::<Seq<char>>::empty());
    assert forall|j: int| 0 <= j < w[1].len() implies !is_ws(#[trigger] w[1][j]) by {}
}

/// Words put in front do not change which words behind them are kept.
proof fn lemma_kept_shift(a: Seq<Seq<char>>, b: Seq<Seq<char>>, j: int)
    requires
        0 <= j,
    ensures
        kept_from(a + b, a.len() + j) == kept_from(b, j),
    decreases b.len() - j,
{
    let ab = a + b;
    let p = a.len() + j;
    if j < b.len() {
        assert(ab[p] == b[j]);
        assert(p + 1 < ab.len() ==> ab[p + 1] == b[j + 1]);
        assert(ro_span(ab, p) == ro_span(b, j));
        assert(ro_setting(ab, p) == ro_setting(b, j));
        let span = ro_span(b, j);
        lemma_kept_shift(a, b, j + span);
        assert(a.len() + (j + span) == p + span);
        assert(ab.subrange(p, p + span) =~= b.subrange(j, j + span));
    }
}

/// Keeping the kept words again keeps them all, and what follows them is
/// read on its own - unless a lone `-c` at the end would take it.
proof fn lemma_kept_kept(ws: Seq<Seq<char>>, i: int, tail: Seq<Seq<char>>)
    requires
        0 <= i <= ws.len(),
        tail.len() == 0 || !ends_dangling(ws, i),
    ensures
        kept_from(kept_from(ws, i) + tail, 0) == kept_from(ws, i) + kept_from(tail, 0),
    decreases ws.len() - i,
{
    if i == ws.len() {
        assert(kept_from(ws, i) + tail =~= tail);
        assert(kept_from(ws, i) + kept_from(tail, 0) =~= kept_from(tail, 0));
    } else {
        let span = ro_span(ws, i);
        let k = kept_from(ws, i + span);
        lemma_kept_kept(ws, i + span, tail);
        match ro_value(ro_setting(ws, i)) {
            Some(_) => {},
            None => {
                let seg = ws.subrange(i, i + span);
                let big = k + tail;
                assert(kept_from(ws, i) + tail =~= seg + big);
                let sb = seg + big;
                lemma_kept_shift(seg, big, 0);
                if span == 2 {
                    assert(sb[0] == ws[i]);
                    assert(sb[1] == ws[i + 1]);
                    assert(ro_span(sb, 0) == 2);
                    assert(ro_setting(sb, 0) == ro_setting(ws, i));
                    assert(sb.subrange(0, 2) =~= seg);
                } else if ws[i] == seq!['-', 'c'] {
                    assert(i == ws.len() - 1);
                    assert(ends_dangling(ws, i));
                    assert(k =~= Seq::<Seq<char>>::empty());
                    assert(tail =~= Seq::<Seq<char>>::empty());
                    assert(sb =~= seq![ws[i]]);
                    assert(ro_span(sb, 0) == 1);
                    assert(ro_setting(sb, 0) =~= Seq::<char>::empty());
                    assert(find_char(Seq::<char>::empty(), '=') is None);
                    assert(sb.subrange(0, 1) =~= seg);
                } else {
                    assert(sb[0] == ws[i]);
                    assert(ro_span(sb, 0) == 1);
                    assert(ro_setting(sb, 0) == ro_setting(ws, i));
                    assert(sb.subrange(0, 1) =~= seg);
                }
                assert(kept_from(sb, 0) == sb.subrange(0, span) + kept_from(sb, span));
                assert(kept_from(big, 0) == k + kept_from(tail, 0));
                assert(kept_from(sb, 0) =~= seg + (k + kept_from(tail, 0)));
                assert(kept_from(ws, i) + kept_from(tail, 0) =~= seg + (k + kept_from(tail, 0)));
            },
        }
    }
}

/// The words of the new `options` value, and that writing it again gives
/// the same value.
proof fn lemma_new_options_fixed(old: Seq<char>, on: bool)
    requires
        on ==> !ends_dangling(words(old), 0),
    ensures
        words(new_options(old, on)) == kept_from(words(old), 0) + (if on {
            ro_on_words()
        } else {
            Seq::<Seq<char>>::empty()
        }),
        new_options(new_options(old, on), on) == new_options(old, on),
{
    let ws = words(old);
    lemma_words_are_words(old);
    lemma_kept_words(ws, 0);
    let kept = kept_from(ws, 0);
    lemma_switch_reads_on();
    let all = if on { kept + ro_on_words() } else { kept };
    assert forall|j: int| 0 <= j < all.len() implies is_word(#[trigger] all[j]) by {
        if on && j >= kept.len() {
            assert(all[j] == ro_on_words()[j - kept.len()]);
        }
    }
    lemma_words_join(all);
    if on {
        lemma_kept_kept(ws, 0, ro_on_words());
        assert(kept + Seq::<Seq<char>>::empty() =~= kept);
    } else {
        lemma_kept_kept(ws, 0, seq![]);
        assert(kept + Seq::<Seq<char>>::empty() =~= kept);
        assert(kept_from(Seq::<Seq<char>>::empty(), 0) =~= Seq::<Seq<char>>::empty());
        assert(all + Seq::<Seq<char>>::empty() =~= all);
    }
    assert(kept_from(words(new_options(old, on)), 0) == kept);
}

/// The keys of a block other than its first `options` key, in order.
pub open spec fn others(extra: Seq<(Seq<char>, Seq<char>)>) -> Seq<(Seq<char>, Seq<char>)> {
    match key_index(extra, "options"@) {
        Some(i) => extra.remove(i),
        None => extra,
    }
}

/// The words `set_read_only` leaves in `options`: every word the user wrote
/// that does not set read-only, in order, then the switch when turning it on.
pub open spec fn kept_options(extra: Seq<(Seq<char>, Seq<char>)>, on: bool) -> Seq<Seq<char>> {
    kept_from(words(options_value(extra)), 0) + (if on {
        ro_on_words()
    } else {
        Seq::<Seq<char>>::empty()
    })
}

/// Setting or clearing read-only on a block keeps every other key as it was
/// and in order,
/// keeps every `options` word that does not set read-only, in order, ending
/// with the switch when turning it on, keeps the `options` key exactly when
/// words are left for it, and a second call with the same flag changes
/// nothing. This holds for a block with one `options` key at most, as every
/// parsed block has, and for any block whose first `options` key keeps some
/// words; it fails only where that key is dropped and a later one remains.
/// Turning it on asks that the user's words not end in a lone `-c`, which
/// would take the switch as its own value.
pub proof fn lemma_set_read_only_keeps_the_rest(extra: Seq<(Seq<char>, Seq<char>)>, on: bool)
    requires
        one_options_key(extra) || kept_options(extra, on).len() > 0,
        on ==> !ends_dangling(words(options_value(extra)), 0),
    ensures
        others(set_read_only_spec(extra, on)) == others(extra),
        words(options_value(set_read_only_spec(extra, on))) == kept_options(extra, on),
        key_index(set_read_only_spec(extra, on), "options"@) is Some <==> kept_options(extra, on).len() > 0,
        set_read_only_spec(set_read_only_spec(extra, on), on) == set_read_only_spec(extra, on),
{
    lemma_key_index_props(extra, "options"@);
    let after = set_read_only_spec(extra, on);
    let e = Seq::<Seq<char>>::empty();
    assert(words(Seq::<char>::empty()) =~= e);
    assert(kept_from(e, 0) =~= e);
    match key_index(extra, "options"@) {
        Some(i) => {
            let old = extra[i].1;
            lemma_new_options_reads(old, on);
            lemma_new_options_fixed(old, on);
            let new = new_options(old, on);
            if new.len() == 0 {
                assert forall|j: int| 0 <= j < after.len() implies !eq_ic(
                    #[trigger] after[j].0,
                    "options"@,
                ) by {
                    if j < i {
                        assert(after[j] == extra[j]);
                    } else {
                        assert(after[j] == extra[j + 1]);
                    }
                }
                crate::ini::lemma_key_index(after, "options"@, after.len() as int);
                assert(kept_from(words(old), 0) + e =~= kept_from(words(old), 0));
                lemma_new_options_reads(seq![], false);
                assert(new_options(seq![], false).len() == 0);
            } else {
                assert forall|j: int| 0 <= j < i implies !eq_ic(#[trigger] after[j].0, "options"@) by {
                    assert(after[j] == extra[j]);
                }
                crate::ini::lemma_key_index(after, "options"@, i);
                assert(after.remove(i) =~= extra.remove(i));
                assert(after.update(i, (after[i].0, new)) =~= after);
            }
        },
        None => {
            lemma_new_options_reads(seq![], on);
            lemma_new_options_fixed(seq![], on);
            let new = new_options(seq![], on);
            if new.len() > 0 {
                assert forall|j: int| 0 <= j < extra.len() implies !eq_ic(
                    #[trigger] after[j].0,
                    "options"@,
                ) by {
                    assert(after[j] == extra[j]);
                }
                assert(crate::text::eq_ic("options"@, "options"@));
                crate::ini::lemma_key_index(after, "options"@, extra.len() as int);
                assert(after.remove(extra.len() as int) =~= extra);
                assert(after.update(extra.len() as int, (after[extra.len() as int].0, new)) =~= after);
            } else {
                assert(e + e =~= e);
            }
        },
    }
}

/// Whether a block has at most one `options` key, as any block `ini::parse`
/// gives does.
pub open spec fn one_options_key(extra: Seq<(Seq<char>, Seq<char>)>) -> bool {
    forall|i: int, j: int|
        0 <= i < extra.len() && 0 <= j < extra.len() && eq_ic(#[trigger] extra[i].0, "options"@)
            && eq_ic(#[trigger] extra[j].0, "options"@) ==> i == j
}

/// The `options` value a block holds, or nothing.
pub open spec fn options_value(extra: Seq<(Seq<char>, Seq<char>)>) -> Seq<char> {
    match key_index(extra, "options"@) {
        Some(i) => extra[i].1,
        None => seq![],
    }
}

/// What the new `options` value reads as.
proof fn lemma_new_options_reads(old: Seq<char>, on: bool)
    requires
        on ==> !ends_dangling(words(old), 0),
    ensures
        vals(ro_values(new_options(old, on))) == (if on {
            seq!["on"@]
        } else {
            Seq::<Seq<char>>::empty()
        }),
        new_options(old, on).len() == 0 <==> (!on && kept_from(words(old), 0).len() == 0),
{
    let ws = words(old);
    lemma_words_are_words(old);
    lemma_kept_words(ws, 0);
    let kept = kept_from(ws, 0);
    lemma_switch_reads_on();
    let all = if on { kept + ro_on_words() } else { kept };
    assert forall|j: int| 0 <= j < all.len() implies is_word(#[trigger] all[j]) by {
        if on && j >= kept.len() {
            assert(all[j] == ro_on_words()[j - kept.len()]);
        }
    }
    lemma_words_join(all);
    assert(words(new_options(old, on)) == all);
    if on {
        lemma_kept_reads(ws, 0, ro_on_words());
    } else {
        lemma_kept_reads(ws, 0, seq![]);
        assert(kept + Seq::<Seq<char>>::empty() =~= kept);
        assert(ro_hits_from(Seq::<Seq<char>>::empty(), 0) =~= Seq::<(int, int, Seq<char>)>::empty());
        assert(vals(Seq::<(int, int, Seq<char>)>::empty()) =~= Seq::<Seq<char>>::empty());
    }
    if all.len() > 0 {
        assert(is_word(all[0]));
        crate::text::lemma_join_nonempty(all, seq![' ']);
    }
}

/// Switching read-only off reads back as off, whatever the `options` held,
/// for a block with one `options` key at most, or whose first `options` key
/// keeps some words (only a dropped first key lets a later one be read).
pub proof fn lemma_read_only_off(extra: Seq<(Seq<char>, Seq<char>)>)
    requires
        one_options_key(extra) || kept_options(extra, false).len() > 0,
    ensures
        !read_only_spec(set_read_only_spec(extra, false)),
{
    lemma_key_index_props(extra, "options"@);
    let after = set_read_only_spec(extra, false);
    match key_index(extra, "options"@) {
        Some(i) => {
            lemma_new_options_reads(extra[i].1, false);
            let new = new_options(extra[i].1, false);
            if new.len() == 0 {
                assert forall|j: int| 0 <= j < after.len() implies !eq_ic(
                    #[trigger] after[j].0,
                    "options"@,
                ) by {
                    if j < i {
                        assert(after[j] == extra[j]);
                    } else {
                        assert(after[j] == extra[j + 1]);
                    }
                }
                crate::ini::lemma_key_index(after, "options"@, after.len() as int);
            } else {
                assert forall|j: int| 0 <= j < i implies !eq_ic(#[trigger] after[j].0, "options"@) by {
                    assert(after[j] == extra[j]);
                }
                crate::ini::lemma_key_index(after, "options"@, i);
                assert(after[i].1 == new);
                assert(ro_values(new).len() == vals(ro_values(new)).len());
            }
        },
        None => {
            lemma_new_options_reads(seq![], false);
        },
    }
}

/// Switching read-only on reads back as on, unless the `options` the user
/// wrote end in a lone `-c`, which takes the switch as its own value.
pub proof fn lemma_read_only_on(extra: Seq<(Seq<char>, Seq<char>)>)
    requires
        !ends_dangling(words(options_value(extra)), 0),
    ensures
        read_only_spec(set_read_only_spec(extra, true)),
{
    lemma_key_index_props(extra, "options"@);
    reveal_strlit("on");
    let after = set_read_only_spec(extra, true);
    match key_index(extra, "options"@) {
        Some(i) => {
            lemma_new_options_reads(extra[i].1, true);
            let new = new_options(extra[i].1, true);
            assert forall|j: int| 0 <= j < i implies !eq_ic(#[trigger] after[j].0, "options"@) by {
                assert(after[j] == extra[j]);
            }
            crate::ini::lemma_key_index(after, "options"@, i);
            let h = ro_values(new);
            assert(vals(h).len() == 1);
            assert(h.last().2 == vals(h)[0]);
        },
        None => {
            assert(words(Seq::<char>::empty()) =~= Seq::<Seq<char>>::empty());
            lemma_new_options_reads(seq![], true);
            let new = new_options(seq![], true);
            assert forall|j: int| 0 <= j < extra.len() implies !eq_ic(
                #[trigger] after[j].0,
                "options"@,
            ) by {
                assert(after[j] == extra[j]);
            }
            assert(crate::text::eq_ic("options"@, "options"@));
            crate::ini::lemma_key_index(after, "options"@, extra.len() as int);
            let h = ro_values(new);
            assert(vals(h).len() == 1);
            assert(h.last().2 == vals(h)[0]);
        },
    }
}

} // verus!
