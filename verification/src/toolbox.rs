//! What the toolbox decides when a key is pressed: a wizard's fields move,
//! cycle and fill, a submitted wizard turns into the one write or command it
//! stands for, and a yes/no gate resolves. Every decision is a value the
//! terminal loop carries out; nothing here touches a file or a terminal.

use crate::engines::pg::{has_sub, set_read_only_spec};
use crate::creds::{Cred, CredV};
use crate::engines::{
    client_argv_spec, default_client_of, install_argv_spec, install_hint_spec, label_of,
    port_or_default_spec, slug_of, store_spec, Conn, ConnV, Engine, NewConn, NewConnV,
    PackageManager,
};
use crate::probe::{Failure, Fix};
use crate::tunnels::{ports_spec, Tunnel};
use crate::widgets::{shell_join, shell_join_spec};
use crate::ini::{collapse_in, collapse_tilde_in, kviews, opt_view};
use crate::forms::{
    chose, forward_target, forward_target_spec, sslmodes, step_spec, v, well_formed, Action,
    ActionV, Field, FieldV, Kind, KindV, Prompt, PromptV,
};
use crate::sshhosts::plain;
use crate::text::{chars_of, push_char, string_of, trim, views};
use vstd::prelude::*;

verus! {

/// A key as the toolbox reads it.
#[derive(Clone, Copy, PartialEq, Eq, Debug, Structural)]
pub enum Key {
    Char(char),
    Enter,
    Esc,
    Tab,
    BackTab,
    Backspace,
    Up,
    Down,
    Left,
    Right,
    /// Anything the toolbox has no use for.
    Other,
}

/// A key press: the key, and whether Control was held.
#[derive(Clone, Copy, PartialEq, Eq, Debug, Structural)]
pub struct KeyPress {
    pub code: Key,
    pub ctrl: bool,
}

/// What a key did to an open wizard, for the loop around it to act on.
pub enum PromptStep {
    /// Handled in place.
    Stay,
    /// Handled in place, with something to say.
    Status(String),
    /// Pick the ssh host for this field from the ones the machine knows.
    PickSshHost(usize),
    /// Close the wizard without doing anything.
    Cancelled,
    /// Carry the wizard out.
    Submit,
}

pub enum PromptStepV {
    Stay,
    Status(Seq<char>),
    PickSshHost(usize),
    Cancelled,
    Submit,
}

impl View for PromptStep {
    type V = PromptStepV;

    open spec fn view(&self) -> PromptStepV {
        match self {
            PromptStep::Stay => PromptStepV::Stay,
            PromptStep::Status(s) => PromptStepV::Status(s@),
            PromptStep::PickSshHost(i) => PromptStepV::PickSshHost(*i),
            PromptStep::Cancelled => PromptStepV::Cancelled,
            PromptStep::Submit => PromptStepV::Submit,
        }
    }
}

/// The first field whose label names the database host as the ssh host
/// sees it.
pub open spec fn far_host_field(fs: Seq<FieldV>) -> Option<int>
    decreases fs.len(),
{
    if fs.len() == 0 {
        None
    } else if has_sub(fs[0].label, "as that machine sees it"@) {
        Some(0)
    } else {
        match far_host_field(fs.drop_first()) {
            Some(i) => Some(i + 1),
            None => None,
        }
    }
}

/// `p` with field `i` holding `value`.
pub open spec fn with_value(p: PromptV, i: int, value: Seq<char>) -> PromptV {
    PromptV { fields: p.fields.update(i, FieldV { value, ..p.fields[i] }), ..p }
}

/// `p` with field `i` on answer `c`.
pub open spec fn with_choice(p: PromptV, i: int, c: usize) -> PromptV {
    PromptV { fields: p.fields.update(i, FieldV { choice: c, ..p.fields[i] }), ..p }
}

/// Leaving the ssh-host field settles what the far end of the forward means:
/// a database on the ssh host itself is reached on that machine's loopback.
/// A hop typed by hand reaches the same conclusion as one picked.
pub open spec fn leave_spec(p: PromptV, config: Seq<char>) -> (PromptV, Option<Seq<char>>) {
    let f = p.fields[p.idx as int];
    if !has_sub(f.label, "ssh host"@) {
        (p, None)
    } else {
        match far_host_field(p.fields) {
            None => (p, None),
            Some(j) => {
                let was = p.fields[j].value;
                let now = forward_target_spec(config, f.value, was);
                if now == was {
                    (p, None)
                } else {
                    (
                        with_value(p, j, now),
                        Some(
                            "the database is on "@ + f.value
                                + " itself, so the forward points at its 127.0.0.1"@,
                        ),
                    )
                }
            },
        }
    }
}

pub open spec fn moved(p: PromptV, dir: int, config: Seq<char>) -> (PromptV, PromptStepV) {
    let (q, said) = leave_spec(p, config);
    (
        PromptV { idx: step_spec(q.idx as int, dir, q.fields.len() as int) as usize, ..q },
        match said {
            Some(m) => PromptStepV::Status(m),
            None => PromptStepV::Stay,
        },
    )
}

/// Whether a key moves to the next field: Tab and Down, and the Control
/// chords, since plain h/j/k/l are typed into a text field.
pub open spec fn goes_next(k: KeyPress) -> bool {
    k.code == Key::Tab || k.code == Key::Down || (k.ctrl && (k.code == Key::Char('j') || k.code
        == Key::Char('l') || k.code == Key::Right))
}

pub open spec fn goes_back(k: KeyPress) -> bool {
    k.code == Key::BackTab || k.code == Key::Up || (k.ctrl && (k.code == Key::Char('k') || k.code
        == Key::Left))
}

/// What a key does to an open wizard.
pub open spec fn prompt_key_spec(p: PromptV, k: KeyPress, config: Seq<char>) -> (PromptV, PromptStepV) {
    let i = p.idx as int;
    let f = p.fields[i];
    let is_choice = f.kind is Choice;
    let n: int = match f.kind {
        KindV::Choice(o) => o.len() as int,
        _ => 1,
    };
    if k.ctrl && k.code == Key::Char('o') {
        if has_sub(f.label, "ssh host"@) {
            (p, PromptStepV::PickSshHost(p.idx))
        } else {
            (p, PromptStepV::Stay)
        }
    } else if is_choice && (k.code == Key::Right || k.code == Key::Char('l')) {
        (with_choice(p, i, ((f.choice + 1) % n) as usize), PromptStepV::Stay)
    } else if is_choice && (k.code == Key::Left || k.code == Key::Char('h')) {
        (with_choice(p, i, ((f.choice + n - 1) % n) as usize), PromptStepV::Stay)
    } else if goes_next(k) {
        moved(p, 1, config)
    } else if goes_back(k) {
        moved(p, -1, config)
    } else if k.code == Key::Esc || (k.ctrl && k.code == Key::Char('c')) {
        (p, PromptStepV::Cancelled)
    } else if k.code == Key::Enter {
        if p.idx + 1 == p.fields.len() {
            (p, PromptStepV::Submit)
        } else {
            moved(p, 1, config)
        }
    } else if k.code == Key::Backspace {
        if is_choice || f.value.len() == 0 {
            (p, PromptStepV::Stay)
        } else {
            (with_value(p, i, f.value.drop_last()), PromptStepV::Stay)
        }
    } else if k.code is Char && !k.ctrl {
        if is_choice {
            (p, PromptStepV::Stay)
        } else {
            (with_value(p, i, f.value.push(k.code->Char_0)), PromptStepV::Stay)
        }
    } else {
        (p, PromptStepV::Stay)
    }
}

fn far_host_at(fields: &Vec<Field>) -> (r: Option<usize>)
    ensures
        match r {
            Some(j) => far_host_field(crate::forms::field_views(fields@)) == Some(j as int) && j
                < fields@.len(),
            None => far_host_field(crate::forms::field_views(fields@)) is None,
        },
{
    let ghost fv = crate::forms::field_views(fields@);
    let want = chars_of("as that machine sees it");
    let mut i: usize = 0;
    assert(fv.skip(0) =~= fv);
    while i < fields.len()
        invariant
            i <= fields@.len(),
            fv == crate::forms::field_views(fields@),
            want@ == "as that machine sees it"@,
            far_host_field(fv) == (match far_host_field(fv.skip(i as int)) {
                Some(j) => Some(j + i),
                None => None,
            }),
        decreases fields@.len() - i,
    {
        let l = chars_of(fields[i].label.as_str());
        assert(fv.skip(i as int)[0] == fields@[i as int]@);
        assert(fv.skip(i as int).drop_first() =~= fv.skip(i + 1));
        if crate::engines::pg::find_sub(l.as_slice(), want.as_slice()) {
            return Some(i);
        }
        i = i + 1;
    }
    assert(fv.skip(i as int) =~= Seq::<FieldV>::empty());
    None
}

fn set_value(p: &mut Prompt, i: usize, value: String)
    requires
        i < old(p).fields@.len(),
    ensures
        final(p)@ == with_value(old(p)@, i as int, value@),
        final(p).fields@.len() == old(p).fields@.len(),
{
    p.fields[i].value = value;
    assert(final(p)@.fields =~= with_value(old(p)@, i as int, value@).fields);
}

impl Prompt {
    /// Leave the field the cursor is on; see `leave_spec`.
    fn leave_field(&mut self, config: &str) -> (r: Option<String>)
        requires
            well_formed(old(self)@),
            plain(config@),
        ensures
            (final(self)@, match r {
                Some(m) => Some(m@),
                None => None,
            }) == leave_spec(old(self)@, config@),
            well_formed(final(self)@),
    {
        let label = chars_of(self.fields[self.idx].label.as_str());
        let hop = chars_of("ssh host");
        if !crate::engines::pg::find_sub(label.as_slice(), hop.as_slice()) {
            return None;
        }
        let j = match far_host_at(&self.fields) {
            Some(j) => j,
            None => return None,
        };
        let via = self.fields[self.idx].value.clone();
        let was = self.fields[j].value.clone();
        let now = forward_target(config, via.as_str(), was.as_str());
        let a = chars_of(now.as_str());
        let b = chars_of(was.as_str());
        if crate::text::seq_eq(a.as_slice(), b.as_slice()) {
            return None;
        }
        set_value(self, j, now);
        let mut m = chars_of("the database is on ");
        crate::text::extend(&mut m, chars_of(via.as_str()).as_slice());
        crate::text::extend(&mut m, chars_of(" itself, so the forward points at its 127.0.0.1").as_slice());
        Some(string_of(m.as_slice()))
    }

    fn go(&mut self, dir: isize, config: &str) -> (r: PromptStep)
        requires
            well_formed(old(self)@),
            plain(config@),
            dir == 1 || dir == -1,
        ensures
            (final(self)@, r@) == moved(old(self)@, dir as int, config@),
            well_formed(final(self)@),
    {
        let said = self.leave_field(config);
        self.idx = self.step(dir);
        match said {
            Some(m) => PromptStep::Status(m),
            None => PromptStep::Stay,
        }
    }

    /// What a key does to this wizard; see `prompt_key_spec`. The ssh config's
    /// text decides whether a database sits on the hop itself.
    pub fn on_key(&mut self, key: KeyPress, config: &str) -> (r: PromptStep)
        requires
            well_formed(old(self)@),
            plain(config@),
        ensures
            (final(self)@, r@) == prompt_key_spec(old(self)@, key, config@),
            well_formed(final(self)@),
    {
        let i = self.idx;
        let label = chars_of(self.fields[i].label.as_str());
        if key.ctrl && key.code == Key::Char('o') {
            let hop = chars_of("ssh host");
            if crate::engines::pg::find_sub(label.as_slice(), hop.as_slice()) {
                return PromptStep::PickSshHost(i);
            }
            return PromptStep::Stay;
        }
        let n: usize = match &self.fields[i].kind {
            Kind::Choice(o) => o.len(),
            _ => 1,
        };
        let is_choice = self.fields[i].is_choice();
        assert(self@.fields[i as int] == self.fields@[i as int]@);
        if is_choice && (key.code == Key::Right || key.code == Key::Char('l')) {
            let c = (self.fields[i].choice + 1) % n;
            self.fields[i].choice = c;
            assert(self@.fields =~= with_choice(old(self)@, i as int, c).fields);
            return PromptStep::Stay;
        }
        if is_choice && (key.code == Key::Left || key.code == Key::Char('h')) {
            let was = self.fields[i].choice;
            let c = if was == 0 {
                n - 1
            } else {
                was - 1
            };
            proof {
                let m = n as int;
                if was == 0 {
                    vstd::arithmetic::div_mod::lemma_small_mod((m - 1) as nat, m as nat);
                } else {
                    vstd::arithmetic::div_mod::lemma_mod_add_multiples_vanish(was - 1, m);
                    vstd::arithmetic::div_mod::lemma_small_mod((was - 1) as nat, m as nat);
                }
                assert(c == (was + m - 1) % m);
            }
            self.fields[i].choice = c;
            assert(self@.fields =~= with_choice(old(self)@, i as int, c).fields);
            return PromptStep::Stay;
        }
        let next = key.code == Key::Tab || key.code == Key::Down || (key.ctrl && (key.code
            == Key::Char('j') || key.code == Key::Char('l') || key.code == Key::Right));
        let back = key.code == Key::BackTab || key.code == Key::Up || (key.ctrl && (key.code
            == Key::Char('k') || key.code == Key::Left));
        if next {
            return self.go(1, config);
        }
        if back {
            return self.go(-1, config);
        }
        if key.code == Key::Esc || (key.ctrl && key.code == Key::Char('c')) {
            return PromptStep::Cancelled;
        }
        if key.code == Key::Enter {
            if self.on_last_field() {
                return PromptStep::Submit;
            }
            return self.go(1, config);
        }
        if key.code == Key::Backspace {
            if !is_choice {
                let mut v = chars_of(self.fields[i].value.as_str());
                if v.len() > 0 {
                    v.pop();
                    assert(v@ =~= old(self)@.fields[i as int].value.drop_last());
                    set_value(self, i, string_of(v.as_slice()));
                }
            }
            return PromptStep::Stay;
        }
        match key.code {
            Key::Char(c) => {
                if !key.ctrl && !is_choice {
                    let mut v = self.fields[i].value.clone();
                    push_char(&mut v, c);
                    set_value(self, i, v);
                }
            },
            _ => {},
        }
        PromptStep::Stay
    }
}

/// What a submitted wizard stands for: the one write or command it asks
/// for, or why it cannot go yet.
pub enum Submission {
    /// A field the action cannot go without is blank; the wizard stays open.
    Refused(String),
    /// Write the connection, replacing the block named `original` when it was
    /// edited. `renamed` holds the old and new keys when the name changed, so
    /// whatever is remembered under the old one can move with it.
    SaveConn { original: Option<String>, conn: NewConn, renamed: Option<(String, String)> },
    /// Write a `.pgpass` line standing on its four fields.
    SetPgPassword { host: String, port: String, database: String, user: String, password: String },
    /// Write a password into the connection's own `[client...]` group.
    SetMyPassword { name: String, password: String },
    /// Keep sqlcmd's password for connection `name` in `~/.esqlpass`, and
    /// turn on the sqlcmd passwords setting that hands it over.
    SetMsPassword { name: String, password: String },
    /// Open `ssh -N -L local:target:port via`, remembered for `key`.
    OpenTunnel { key: String, via: String, target: String, port: String, local: String },
    /// Change one setting.
    SetSetting { key: String, label: String, value: String },
    /// Write a saved query, replacing `original` when it was renamed.
    SaveSnippet { original: Option<String>, name: String, sql: String },
    /// Move `.pgpass` entry `idx` to these match fields, keeping its secret.
    RekeyPassword { idx: usize, host: String, port: String, database: String, user: String },
}

pub enum SubmissionV {
    Refused(Seq<char>),
    SaveConn { original: Option<Seq<char>>, conn: NewConnV, renamed: Option<(Seq<char>, Seq<char>)> },
    SetPgPassword { host: Seq<char>, port: Seq<char>, database: Seq<char>, user: Seq<char>, password: Seq<char> },
    SetMyPassword { name: Seq<char>, password: Seq<char> },
    SetMsPassword { name: Seq<char>, password: Seq<char> },
    OpenTunnel { key: Seq<char>, via: Seq<char>, target: Seq<char>, port: Seq<char>, local: Seq<char> },
    SetSetting { key: Seq<char>, label: Seq<char>, value: Seq<char> },
    SaveSnippet { original: Option<Seq<char>>, name: Seq<char>, sql: Seq<char> },
    RekeyPassword { idx: usize, host: Seq<char>, port: Seq<char>, database: Seq<char>, user: Seq<char> },
}

pub open spec fn sopt(o: Option<String>) -> Option<Seq<char>> {
    match o {
        Some(s) => Some(s@),
        None => None,
    }
}

impl View for Submission {
    type V = SubmissionV;

    open spec fn view(&self) -> SubmissionV {
        match self {
            Submission::Refused(m) => SubmissionV::Refused(m@),
            Submission::SaveConn { original, conn, renamed } => SubmissionV::SaveConn {
                original: sopt(*original),
                conn: conn@,
                renamed: match renamed {
                    Some((a, b)) => Some((a@, b@)),
                    None => None,
                },
            },
            Submission::SetPgPassword { host, port, database, user, password } =>
                SubmissionV::SetPgPassword {
                host: host@,
                port: port@,
                database: database@,
                user: user@,
                password: password@,
            },
            Submission::SetMyPassword { name, password } => SubmissionV::SetMyPassword {
                name: name@,
                password: password@,
            },
            Submission::SetMsPassword { name, password } => SubmissionV::SetMsPassword {
                name: name@,
                password: password@,
            },
            Submission::OpenTunnel { key, via, target, port, local } => SubmissionV::OpenTunnel {
                key: key@,
                via: via@,
                target: target@,
                port: port@,
                local: local@,
            },
            Submission::SetSetting { key, label, value } => SubmissionV::SetSetting {
                key: key@,
                label: label@,
                value: value@,
            },
            Submission::SaveSnippet { original, name, sql } => SubmissionV::SaveSnippet {
                original: sopt(*original),
                name: name@,
                sql: sql@,
            },
            Submission::RekeyPassword { idx, host, port, database, user } =>
                SubmissionV::RekeyPassword {
                idx: *idx,
                host: host@,
                port: port@,
                database: database@,
                user: user@,
            },
        }
    }
}

/// Every pair but those whose key is `key`, ignoring case.
pub open spec fn drop_key(extra: Seq<(Seq<char>, Seq<char>)>, key: Seq<char>) -> Seq<(Seq<char>, Seq<char>)>
    decreases extra.len(),
{
    if extra.len() == 0 {
        seq![]
    } else if crate::text::eq_ic(extra.last().0, key) {
        drop_key(extra.drop_last(), key)
    } else {
        drop_key(extra.drop_last(), key).push(extra.last())
    }
}

/// The connection being edited, found by engine and name.
pub open spec fn existing_spec(conns: Seq<ConnV>, engine: Engine, name: Seq<char>) -> Option<ConnV>
    decreases conns.len(),
{
    if conns.len() == 0 {
        None
    } else if conns[0].engine == engine && conns[0].name == name {
        Some(conns[0])
    } else {
        existing_spec(conns.drop_first(), engine, name)
    }
}

/// The keys a saved connection carries: everything the block had that the
/// wizard did not ask about, then the answers of the cycled fields that
/// engine owns. A cycled field on its first answer removes its key.
pub open spec fn submitted_extra(p: PromptV, engine: Engine, kept: Seq<(Seq<char>, Seq<char>)>) -> Seq<(Seq<char>, Seq<char>)> {
    let at: int = if p.fields.len() > 5 {
        p.fields[5].choice as int
    } else {
        0
    };
    let on = chose(p, "Read only"@);
    match engine {
        Engine::Pg => {
            let e = drop_key(kept, "sslmode"@);
            let e2 = if at > 0 {
                e.push(("sslmode"@, sslmodes()[at]))
            } else {
                e
            };
            set_read_only_spec(e2, on)
        },
        Engine::MsSql => {
            let e = drop_key(kept, "trust_cert"@);
            if at > 0 {
                e.push(("trust_cert"@, "yes"@))
            } else {
                e
            }
        },
        Engine::Sqlite => {
            let e = drop_key(kept, "readonly"@);
            if on {
                e.push(("readonly"@, "yes"@))
            } else {
                e
            }
        },
        Engine::MySql => kept,
    }
}

/// What a submitted wizard asks for, given the saved connections.
pub open spec fn submission_spec(p: PromptV, conns: Seq<ConnV>) -> SubmissionV {
    match p.action {
        ActionV::AddConn { engine } => conn_submission(p, engine, None, conns),
        ActionV::EditConn { engine, original } => conn_submission(p, engine, Some(original), conns),
        ActionV::SetPassword { engine, name } => {
            let password = v(p, p.fields.len() - 1);
            if password.len() == 0 {
                SubmissionV::Refused("a password is required (Esc cancels)"@)
            } else if engine == Engine::Pg {
                SubmissionV::SetPgPassword {
                    host: v(p, 0),
                    port: v(p, 1),
                    database: v(p, 2),
                    user: v(p, 3),
                    password,
                }
            } else if engine == Engine::MsSql {
                SubmissionV::SetMsPassword { name, password }
            } else {
                SubmissionV::SetMyPassword { name, password }
            }
        },
        ActionV::Forward { key } => if v(p, 0).len() == 0 {
            SubmissionV::Refused("tunnel: an ssh host to tunnel through is required"@)
        } else if v(p, 1).len() == 0 {
            SubmissionV::Refused("tunnel: the database host is required"@)
        } else if v(p, 2).len() == 0 {
            SubmissionV::Refused("tunnel: the database port is required"@)
        } else {
            SubmissionV::OpenTunnel {
                key,
                via: v(p, 0),
                target: v(p, 1),
                port: v(p, 2),
                local: if v(p, 3).len() == 0 {
                    v(p, 2)
                } else {
                    v(p, 3)
                },
            }
        },
        ActionV::EditSetting { key, label } => SubmissionV::SetSetting {
            key,
            label,
            value: if v(p, 0).len() == 0 {
                p.fields[0].default
            } else {
                v(p, 0)
            },
        },
        ActionV::Snippet { original } => if v(p, 0).len() == 0 {
            SubmissionV::Refused("a name is required"@)
        } else if v(p, 1).len() == 0 {
            SubmissionV::Refused("a query is required"@)
        } else {
            SubmissionV::SaveSnippet { original, name: v(p, 0), sql: v(p, 1) }
        },
        ActionV::EditPassword { idx } => SubmissionV::RekeyPassword {
            idx,
            host: v(p, 0),
            port: v(p, 1),
            database: v(p, 2),
            user: v(p, 3),
        },
    }
}

pub open spec fn conn_submission(p: PromptV, engine: Engine, original: Option<Seq<char>>, conns: Seq<ConnV>) -> SubmissionV {
    if v(p, 0).len() == 0 {
        SubmissionV::Refused("a name is required"@)
    } else if engine == Engine::Sqlite && v(p, 1).len() == 0 {
        SubmissionV::Refused("a database file is required"@)
    } else {
        let kept = match original {
            Some(o) => match existing_spec(conns, engine, o) {
                Some(c) => c.extra,
                None => seq![],
            },
            None => seq![],
        };
        let extra = submitted_extra(p, engine, kept);
        let conn = if engine == Engine::Sqlite {
            NewConnV {
                engine,
                name: v(p, 0),
                host: seq![],
                port: seq![],
                database: v(p, 1),
                user: seq![],
                extra,
            }
        } else {
            NewConnV {
                engine,
                name: v(p, 0),
                host: v(p, 1),
                port: v(p, 2),
                database: v(p, 3),
                user: v(p, 4),
                extra,
            }
        };
        SubmissionV::SaveConn {
            original,
            conn,
            renamed: match original {
                Some(o) => Some((slug_of(engine) + ":"@ + o, slug_of(engine) + ":"@ + v(p, 0))),
                None => None,
            },
        }
    }
}

fn without_key(extra: &[(String, String)], key: &str) -> (r: Vec<(String, String)>)
    ensures
        kviews(r@) == drop_key(kviews(extra@), key@),
{
    let k = chars_of(key);
    let mut r: Vec<(String, String)> = Vec::new();
    let mut i: usize = 0;
    while i < extra.len()
        invariant
            i <= extra@.len(),
            k@ == key@,
            kviews(r@) == drop_key(kviews(extra@).take(i as int), key@),
        decreases extra@.len() - i,
    {
        let name = chars_of(extra[i].0.as_str());
        assert(kviews(extra@).take(i + 1).drop_last() =~= kviews(extra@).take(i as int));
        assert(kviews(extra@)[i as int] == (extra@[i as int].0@, extra@[i as int].1@));
        if !crate::text::eq_ignore_case(name.as_slice(), k.as_slice()) {
            let ghost before = kviews(r@);
            r.push((extra[i].0.clone(), extra[i].1.clone()));
            assert(kviews(r@) =~= before.push(kviews(extra@)[i as int]));
        }
        i = i + 1;
    }
    assert(kviews(extra@).take(extra@.len() as int) =~= kviews(extra@));
    r
}

fn existing<'a>(conns: &'a Vec<Conn>, engine: Engine, name: &str) -> (r: Option<&'a Conn>)
    ensures
        match r {
            Some(c) => existing_spec(crate::engines::conn_views(conns@), engine, name@) == Some(c@),
            None => existing_spec(crate::engines::conn_views(conns@), engine, name@) is None,
        },
{
    let ghost cv = crate::engines::conn_views(conns@);
    let n = chars_of(name);
    let mut i: usize = 0;
    assert(cv.skip(0) =~= cv);
    while i < conns.len()
        invariant
            i <= conns@.len(),
            cv == crate::engines::conn_views(conns@),
            n@ == name@,
            existing_spec(cv, engine, name@) == existing_spec(cv.skip(i as int), engine, name@),
        decreases conns@.len() - i,
    {
        assert(cv.skip(i as int)[0] == conns@[i as int]@);
        assert(cv.skip(i as int).drop_first() =~= cv.skip(i + 1));
        let m = chars_of(conns[i].name.as_str());
        if conns[i].engine == engine && crate::text::seq_eq(m.as_slice(), n.as_slice()) {
            return Some(&conns[i]);
        }
        i = i + 1;
    }
    assert(cv.skip(i as int) =~= Seq::<ConnV>::empty());
    None
}

impl Prompt {
    fn val(&self, i: usize) -> (r: String)
        requires
            i < self.fields@.len(),
        ensures
            r@ == v(self@, i as int),
    {
        let c = chars_of(self.fields[i].value.as_str());
        string_of(crate::text::trimmed(c.as_slice()).as_slice())
    }

    fn chose_label(&self, label: &str) -> (r: bool)
        ensures
            r == chose(self@, label@),
    {
        let l = chars_of(label);
        let mut i: usize = 0;
        while i < self.fields.len()
            invariant
                i <= self.fields@.len(),
                l@ == label@,
                forall|j: int|
                    0 <= j < i ==> !((#[trigger] self@.fields[j]).label == label@
                        && self@.fields[j].choice > 0),
            decreases self.fields@.len() - i,
        {
            let f = chars_of(self.fields[i].label.as_str());
            assert(self@.fields[i as int] == self.fields@[i as int]@);
            if crate::text::seq_eq(f.as_slice(), l.as_slice()) && self.fields[i].choice > 0 {
                return true;
            }
            i = i + 1;
        }
        false
    }

    fn conn_submission(&self, engine: Engine, original: Option<String>, conns: &Vec<Conn>) -> (r: Submission)
        requires
            well_formed(self@),
            crate::forms::conn_engine(self@.action) == Some(engine),
        ensures
            r@ == conn_submission(self@, engine, sopt(original), crate::engines::conn_views(conns@)),
    {
        let name = self.val(0);
        if name.as_str().is_empty() {
            return Submission::Refused("a name is required".to_string());
        }
        if engine == Engine::Sqlite && self.val(1).as_str().is_empty() {
            return Submission::Refused("a database file is required".to_string());
        }
        let kept: Vec<(String, String)> = match &original {
            Some(o) => match existing(conns, engine, o.as_str()) {
                Some(c) => crate::engines::copy_pairs(c.extra.as_slice()),
                None => Vec::new(),
            },
            None => Vec::new(),
        };
        let ghost kv = kviews(kept@);
        let at: usize = if self.fields.len() > 5 {
            self.fields[5].choice
        } else {
            0
        };
        let on = self.chose_label("Read only");
        let extra = match engine {
            Engine::Pg => {
                let mut e = without_key(kept.as_slice(), "sslmode");
                if at > 0 {
                    let modes = ["(unset)", "prefer", "require", "verify-ca", "verify-full", "disable"];
                    proof {
                        reveal_strlit("(unset)");
                        reveal_strlit("prefer");
                        reveal_strlit("require");
                        reveal_strlit("verify-ca");
                        reveal_strlit("verify-full");
                        reveal_strlit("disable");
                    }
                    assert(modes@.map_values(|s: &str| s@) =~= sslmodes());
                    let ghost before = kviews(e@);
                    assert(self@.fields[5] == self.fields@[5]@);
                    e.push(("sslmode".to_string(), modes[at].to_string()));
                    assert(kviews(e@) =~= before.push(("sslmode"@, sslmodes()[at as int])));
                }
                crate::engines::pg::set_read_only(&mut e, on);
                e
            },
            Engine::MsSql => {
                let mut e = without_key(kept.as_slice(), "trust_cert");
                if at > 0 {
                    let ghost before = kviews(e@);
                    e.push(("trust_cert".to_string(), "yes".to_string()));
                    assert(kviews(e@) =~= before.push(("trust_cert"@, "yes"@)));
                }
                e
            },
            Engine::Sqlite => {
                let mut e = without_key(kept.as_slice(), "readonly");
                if on {
                    let ghost before = kviews(e@);
                    e.push(("readonly".to_string(), "yes".to_string()));
                    assert(kviews(e@) =~= before.push(("readonly"@, "yes"@)));
                }
                e
            },
            Engine::MySql => kept,
        };
        let renamed = match &original {
            Some(o) => {
                let mut a = chars_of(engine.slug());
                crate::text::extend(&mut a, chars_of(":").as_slice());
                let mut b = chars_of(engine.slug());
                crate::text::extend(&mut b, chars_of(":").as_slice());
                crate::text::extend(&mut a, chars_of(o.as_str()).as_slice());
                crate::text::extend(&mut b, chars_of(name.as_str()).as_slice());
                Some((string_of(a.as_slice()), string_of(b.as_slice())))
            },
            None => None,
        };
        let conn = if engine == Engine::Sqlite {
            NewConn {
                engine,
                name,
                host: String::new(),
                port: String::new(),
                database: self.val(1),
                user: String::new(),
                extra,
            }
        } else {
            NewConn {
                engine,
                name,
                host: self.val(1),
                port: self.val(2),
                database: self.val(3),
                user: self.val(4),
                extra,
            }
        };
        let ghost kept_spec = match sopt(original) {
            Some(o) => match existing_spec(crate::engines::conn_views(conns@), engine, o) {
                Some(c) => c.extra,
                None => seq![],
            },
            None => seq![],
        };
        assert(kv == kept_spec);
        assert(kviews(conn.extra@) == submitted_extra(self@, engine, kept_spec));
        Submission::SaveConn { original, conn, renamed }
    }

    /// What this wizard asks for when submitted; see `submission_spec`.
    pub fn submission(&self, conns: &Vec<Conn>) -> (r: Submission)
        requires
            well_formed(self@),
        ensures
            r@ == submission_spec(self@, crate::engines::conn_views(conns@)),
    {
        match &self.action {
            Action::AddConn { engine } => self.conn_submission(*engine, None, conns),
            Action::EditConn { engine, original } => self.conn_submission(*engine, Some(original.clone()), conns),
            Action::SetPassword { engine, name } => {
                let password = self.val(self.fields.len() - 1);
                if password.as_str().is_empty() {
                    Submission::Refused("a password is required (Esc cancels)".to_string())
                } else if *engine == Engine::Pg {
                    Submission::SetPgPassword {
                        host: self.val(0),
                        port: self.val(1),
                        database: self.val(2),
                        user: self.val(3),
                        password,
                    }
                } else if *engine == Engine::MsSql {
                    Submission::SetMsPassword { name: name.clone(), password }
                } else {
                    Submission::SetMyPassword { name: name.clone(), password }
                }
            },
            Action::Forward { key } => {
                let via = self.val(0);
                let target = self.val(1);
                let port = self.val(2);
                if via.as_str().is_empty() {
                    return Submission::Refused("tunnel: an ssh host to tunnel through is required".to_string());
                }
                if target.as_str().is_empty() {
                    return Submission::Refused("tunnel: the database host is required".to_string());
                }
                if port.as_str().is_empty() {
                    return Submission::Refused("tunnel: the database port is required".to_string());
                }
                let l = self.val(3);
                let local = if l.as_str().is_empty() {
                    port.clone()
                } else {
                    l
                };
                Submission::OpenTunnel { key: key.clone(), via, target, port, local }
            },
            Action::EditSetting { key, label } => {
                let typed = self.val(0);
                let value = if typed.as_str().is_empty() {
                    self.fields[0].default.clone()
                } else {
                    typed
                };
                Submission::SetSetting { key: key.clone(), label: label.clone(), value }
            },
            Action::Snippet { original } => {
                let name = self.val(0);
                if name.as_str().is_empty() {
                    return Submission::Refused("a name is required".to_string());
                }
                let sql = self.val(1);
                if sql.as_str().is_empty() {
                    return Submission::Refused("a query is required".to_string());
                }
                Submission::SaveSnippet { original: original.clone(), name, sql }
            },
            Action::EditPassword { idx } => Submission::RekeyPassword {
                idx: *idx,
                host: self.val(0),
                port: self.val(1),
                database: self.val(2),
                user: self.val(3),
            },
        }
    }
}

// ---------------------------------------------------------------------------
// yes/no gates and offered fixes
// ---------------------------------------------------------------------------

/// What a yes/no modal does on yes.
pub enum ConfirmAction {
    DeleteConn { engine: Engine, name: String },
    ForgetPassword(Cred),
    DeleteSnippet { name: String },
    /// Offered after an authentication failure: open the password wizard.
    SavePassword { key: String },
    /// Point a connection at the near end of a forward that already exists.
    RepointConn { key: String, local: String },
    OpenTunnel { key: String },
    /// Offered when the server was reached but the database or role is wrong.
    FixConn { key: String },
    /// Offered when the client itself is missing: run the machine's own
    /// package manager.
    InstallClient { engine: Engine },
    /// Offered by `p` on a SQL Server connection while sqlcmd passwords are
    /// off: turn them on and open the password wizard.
    KeepSqlcmdPassword { key: String },
}

pub enum ConfirmActionV {
    DeleteConn { engine: Engine, name: Seq<char> },
    ForgetPassword(CredV),
    DeleteSnippet { name: Seq<char> },
    SavePassword { key: Seq<char> },
    RepointConn { key: Seq<char>, local: Seq<char> },
    OpenTunnel { key: Seq<char> },
    FixConn { key: Seq<char> },
    InstallClient { engine: Engine },
    KeepSqlcmdPassword { key: Seq<char> },
}

impl View for ConfirmAction {
    type V = ConfirmActionV;

    open spec fn view(&self) -> ConfirmActionV {
        match self {
            ConfirmAction::DeleteConn { engine, name } => ConfirmActionV::DeleteConn { engine: *engine, name: name@ },
            ConfirmAction::ForgetPassword(c) => ConfirmActionV::ForgetPassword(c@),
            ConfirmAction::DeleteSnippet { name } => ConfirmActionV::DeleteSnippet { name: name@ },
            ConfirmAction::SavePassword { key } => ConfirmActionV::SavePassword { key: key@ },
            ConfirmAction::RepointConn { key, local } => ConfirmActionV::RepointConn { key: key@, local: local@ },
            ConfirmAction::OpenTunnel { key } => ConfirmActionV::OpenTunnel { key: key@ },
            ConfirmAction::FixConn { key } => ConfirmActionV::FixConn { key: key@ },
            ConfirmAction::InstallClient { engine } => ConfirmActionV::InstallClient { engine: *engine },
            ConfirmAction::KeepSqlcmdPassword { key } => ConfirmActionV::KeepSqlcmdPassword { key: key@ },
        }
    }
}

/// A yes/no modal. A gate guards something that cannot be undone and starts
/// on No; an offer is the app volunteering the next step after something
/// failed, and starts on Yes.
pub struct Confirm {
    pub title: String,
    pub message: String,
    pub action: ConfirmAction,
    /// Which button is selected.
    pub yes: bool,
    /// A gate in front of something irreversible, rather than an offer.
    pub danger: bool,
}

pub struct ConfirmV {
    pub title: Seq<char>,
    pub message: Seq<char>,
    pub action: ConfirmActionV,
    pub yes: bool,
    pub danger: bool,
}

impl View for Confirm {
    type V = ConfirmV;

    open spec fn view(&self) -> ConfirmV {
        ConfirmV { title: self.title@, message: self.message@, action: self.action@, yes: self.yes, danger: self.danger }
    }
}

pub open spec fn gate(title: Seq<char>, message: Seq<char>, action: ConfirmActionV) -> ConfirmV {
    ConfirmV { title, message, action, yes: false, danger: true }
}

pub open spec fn offered(title: Seq<char>, message: Seq<char>, action: ConfirmActionV) -> ConfirmV {
    ConfirmV { title, message, action, yes: true, danger: false }
}

impl Confirm {
    /// A gate: starts on No, so a reflex Enter never fires it.
    pub fn new(title: String, message: String, action: ConfirmAction) -> (r: Confirm)
        ensures
            r@ == gate(title@, message@, action@),
    {
        Confirm { title, message, action, yes: false, danger: true }
    }

    /// An offer: starts on Yes, since it was asked for by pressing Enter.
    pub fn offer(title: String, message: String, action: ConfirmAction) -> (r: Confirm)
        ensures
            r@ == offered(title@, message@, action@),
    {
        Confirm { title, message, action, yes: true, danger: false }
    }
}

/// How a key leaves a yes/no modal.
#[derive(Clone, Copy, PartialEq, Eq, Debug, Structural)]
pub enum ConfirmStep {
    /// Still open.
    Stay,
    /// Closed without doing anything.
    Cancelled,
    /// Closed, and its action goes ahead.
    Proceed,
}

/// `y` proceeds, `n` or Esc cancels, the horizontal keys and Tab move
/// between the buttons, Enter takes the selected one, and anything else is
/// ignored so a stray key cannot dismiss the modal.
pub open spec fn confirm_key_spec(c: ConfirmV, k: Key) -> (ConfirmV, ConfirmStep) {
    if k == Key::Left || k == Key::Right || k == Key::Char('h') || k == Key::Char('l') || k
        == Key::Tab || k == Key::BackTab {
        (ConfirmV { yes: !c.yes, ..c }, ConfirmStep::Stay)
    } else if k == Key::Char('n') || k == Key::Char('N') || k == Key::Esc {
        (c, ConfirmStep::Cancelled)
    } else if k == Key::Char('y') || k == Key::Char('Y') {
        (c, ConfirmStep::Proceed)
    } else if k == Key::Enter {
        (c, if c.yes {
            ConfirmStep::Proceed
        } else {
            ConfirmStep::Cancelled
        })
    } else {
        (c, ConfirmStep::Stay)
    }
}

impl Confirm {
    pub fn on_key(&mut self, k: KeyPress) -> (r: ConfirmStep)
        ensures
            (final(self)@, r) == confirm_key_spec(old(self)@, k.code),
    {
        let c = k.code;
        if c == Key::Left || c == Key::Right || c == Key::Char('h') || c == Key::Char('l') || c
            == Key::Tab || c == Key::BackTab {
            self.yes = !self.yes;
            ConfirmStep::Stay
        } else if c == Key::Char('n') || c == Key::Char('N') || c == Key::Esc {
            ConfirmStep::Cancelled
        } else if c == Key::Char('y') || c == Key::Char('Y') {
            ConfirmStep::Proceed
        } else if c == Key::Enter {
            if self.yes {
                ConfirmStep::Proceed
            } else {
                ConfirmStep::Cancelled
            }
        } else {
            ConfirmStep::Stay
        }
    }
}

/// What a confirmed action comes to.
pub enum Resolution {
    Nothing,
    Status(String),
    /// Delete this connection's block.
    DeleteConn(Conn),
    /// Remove this stored password.
    Forget(Cred),
    /// Delete the snippet with this name.
    DeleteSnippet(String),
    /// Open this wizard, every field already filled in.
    OpenPrompt(Prompt),
    /// Run this command with the terminal handed over.
    Run { argv: Vec<String>, label: String },
    /// Turn on sqlcmd passwords in the settings, then open this wizard.
    KeepSqlcmdPasswords(Prompt),
}

pub enum ResolutionV {
    Nothing,
    Status(Seq<char>),
    DeleteConn(ConnV),
    Forget(CredV),
    DeleteSnippet(Seq<char>),
    OpenPrompt(PromptV),
    Run { argv: Seq<Seq<char>>, label: Seq<char> },
    KeepSqlcmdPasswords(PromptV),
}

impl View for Resolution {
    type V = ResolutionV;

    open spec fn view(&self) -> ResolutionV {
        match self {
            Resolution::Nothing => ResolutionV::Nothing,
            Resolution::Status(m) => ResolutionV::Status(m@),
            Resolution::DeleteConn(c) => ResolutionV::DeleteConn(c@),
            Resolution::Forget(c) => ResolutionV::Forget(c@),
            Resolution::DeleteSnippet(n) => ResolutionV::DeleteSnippet(n@),
            Resolution::OpenPrompt(p) => ResolutionV::OpenPrompt(p@),
            Resolution::Run { argv, label } => ResolutionV::Run { argv: views(argv@), label: label@ },
            Resolution::KeepSqlcmdPasswords(p) => ResolutionV::KeepSqlcmdPasswords(p@),
        }
    }
}

/// A connection's key: its engine's slug, a colon, its name.
pub open spec fn key_of(c: ConnV) -> Seq<char> {
    slug_of(c.engine) + ":"@ + c.name
}

/// The first connection with this key.
pub open spec fn conn_by_key(conns: Seq<ConnV>, key: Seq<char>) -> Option<ConnV>
    decreases conns.len(),
{
    if conns.len() == 0 {
        None
    } else if key_of(conns[0]) == key {
        Some(conns[0])
    } else {
        conn_by_key(conns.drop_first(), key)
    }
}

/// The edit wizard with the two fields a repoint moves already filled in:
/// the host becomes the loopback and the port the forward's near end.
pub open spec fn repoint_spec(c: ConnV, local: Seq<char>) -> PromptV {
    let p = crate::forms::edit_conn_spec(c);
    with_value(with_value(p, 1, "127.0.0.1"@), 2, local)
}

/// What a confirmed action comes to, given the saved connections, the
/// settings, the recorded forwards, the ssh config and the package manager.
pub open spec fn resolve_spec(
    a: ConfirmActionV,
    conns: Seq<ConnV>,
    s: crate::settings::SettingsV,
    recorded: Seq<(Seq<char>, crate::vias::ViaV)>,
    config: Seq<char>,
    manager: Option<PackageManager>,
) -> ResolutionV {
    match a {
        ConfirmActionV::DeleteConn { engine, name } => match existing_spec(conns, engine, name) {
            Some(c) => ResolutionV::DeleteConn(c),
            None => ResolutionV::Status("'"@ + name + "' is already gone"@),
        },
        ConfirmActionV::ForgetPassword(c) => ResolutionV::Forget(c),
        ConfirmActionV::DeleteSnippet { name } => ResolutionV::DeleteSnippet(name),
        ConfirmActionV::SavePassword { key } => match conn_by_key(conns, key) {
            Some(c) => ResolutionV::OpenPrompt(crate::forms::password_spec(c)),
            None => ResolutionV::Nothing,
        },
        ConfirmActionV::RepointConn { key, local } => match conn_by_key(conns, key) {
            Some(c) => ResolutionV::OpenPrompt(repoint_spec(c, local)),
            None => ResolutionV::Nothing,
        },
        ConfirmActionV::OpenTunnel { key } => match conn_by_key(conns, key) {
            Some(c) => ResolutionV::OpenPrompt(crate::forms::forward_spec(c, s, recorded, config)),
            None => ResolutionV::Nothing,
        },
        ConfirmActionV::FixConn { key } => match conn_by_key(conns, key) {
            Some(c) => ResolutionV::OpenPrompt(crate::forms::edit_conn_spec(c)),
            None => ResolutionV::Nothing,
        },
        ConfirmActionV::KeepSqlcmdPassword { key } => match conn_by_key(conns, key) {
            Some(c) => ResolutionV::KeepSqlcmdPasswords(crate::forms::password_spec(c)),
            None => ResolutionV::Nothing,
        },
        ConfirmActionV::InstallClient { engine } => match install_argv_spec(engine, manager) {
            Some(argv) => ResolutionV::Run { argv, label: shell_join_spec(argv) },
            None => ResolutionV::Status(
                default_client_of(engine) + ": "@ + install_hint_spec(engine, manager),
            ),
        },
    }
}

pub(crate) fn by_key<'a>(conns: &'a Vec<Conn>, key: &str) -> (r: Option<&'a Conn>)
    ensures
        match r {
            Some(c) => conn_by_key(crate::engines::conn_views(conns@), key@) == Some(c@),
            None => conn_by_key(crate::engines::conn_views(conns@), key@) is None,
        },
{
    let ghost cv = crate::engines::conn_views(conns@);
    let k = chars_of(key);
    let mut i: usize = 0;
    assert(cv.skip(0) =~= cv);
    while i < conns.len()
        invariant
            i <= conns@.len(),
            cv == crate::engines::conn_views(conns@),
            k@ == key@,
            conn_by_key(cv, key@) == conn_by_key(cv.skip(i as int), key@),
        decreases conns@.len() - i,
    {
        assert(cv.skip(i as int)[0] == conns@[i as int]@);
        assert(cv.skip(i as int).drop_first() =~= cv.skip(i + 1));
        let ck = chars_of(conns[i].key().as_str());
        if crate::text::seq_eq(ck.as_slice(), k.as_slice()) {
            return Some(&conns[i]);
        }
        i = i + 1;
    }
    assert(cv.skip(i as int) =~= Seq::<ConnV>::empty());
    None
}

/// What a confirmed action comes to; see `resolve_spec`.
pub fn resolve(
    a: ConfirmAction,
    conns: &Vec<Conn>,
    s: &crate::settings::Settings,
    recorded: &Vec<(String, crate::vias::Via)>,
    config: &str,
    manager: Option<PackageManager>,
) -> (r: Resolution)
    requires
        plain(config@),
    ensures
        r@ == resolve_spec(a@, crate::engines::conn_views(conns@), s@, crate::vias::pair_views(recorded@), config@, manager),
{
    match a {
        ConfirmAction::DeleteConn { engine, name } => match existing(conns, engine, name.as_str()) {
            Some(c) => Resolution::DeleteConn(crate::engines::copy_conn(c)),
            None => {
                let mut m = chars_of("'");
                crate::text::extend(&mut m, chars_of(name.as_str()).as_slice());
                crate::text::extend(&mut m, chars_of("' is already gone").as_slice());
                Resolution::Status(string_of(m.as_slice()))
            },
        },
        ConfirmAction::ForgetPassword(c) => Resolution::Forget(c),
        ConfirmAction::DeleteSnippet { name } => Resolution::DeleteSnippet(name),
        ConfirmAction::SavePassword { key } => match by_key(conns, key.as_str()) {
            Some(c) => Resolution::OpenPrompt(Prompt::password(c)),
            None => Resolution::Nothing,
        },
        ConfirmAction::RepointConn { key, local } => match by_key(conns, key.as_str()) {
            Some(c) => {
                let mut p = Prompt::edit_conn(c);
                set_value(&mut p, 1, "127.0.0.1".to_string());
                set_value(&mut p, 2, local);
                Resolution::OpenPrompt(p)
            },
            None => Resolution::Nothing,
        },
        ConfirmAction::OpenTunnel { key } => match by_key(conns, key.as_str()) {
            Some(c) => Resolution::OpenPrompt(Prompt::forward(c, s, recorded, config)),
            None => Resolution::Nothing,
        },
        ConfirmAction::FixConn { key } => match by_key(conns, key.as_str()) {
            Some(c) => Resolution::OpenPrompt(Prompt::edit_conn(c)),
            None => Resolution::Nothing,
        },
        ConfirmAction::KeepSqlcmdPassword { key } => match by_key(conns, key.as_str()) {
            Some(c) => Resolution::KeepSqlcmdPasswords(Prompt::password(c)),
            None => Resolution::Nothing,
        },
        ConfirmAction::InstallClient { engine } => match crate::engines::install_argv(engine, manager) {
            Some(argv) => {
                let label = shell_join(argv.as_slice());
                Resolution::Run { argv, label }
            },
            None => {
                let mut m = chars_of(engine.default_client());
                crate::text::extend(&mut m, chars_of(": ").as_slice());
                crate::text::extend(&mut m, chars_of(crate::engines::install_hint(engine, manager).as_str()).as_slice());
                Resolution::Status(string_of(m.as_slice()))
            },
        },
    }
}

// ---------------------------------------------------------------------------
// offers, and the keys of each tab
// ---------------------------------------------------------------------------

/// What the toolbox knows about the machine it runs on, read once by the
/// loop around it.
pub struct Machine {
    pub settings: crate::settings::Settings,
    /// The package manager this machine has, if a known one.
    pub manager: Option<PackageManager>,
    /// The forwards remembered per connection.
    pub recorded: Vec<(String, crate::vias::Via)>,
    /// The text of `~/.ssh/config`.
    pub ssh_config: String,
    /// What `$PGSERVICEFILE` and `$PGPASSFILE` hold.
    pub pgservicefile: Option<String>,
    pub pgpassfile: Option<String>,
    pub home: String,
    pub config_dir: String,
}

pub struct MachineV {
    pub settings: crate::settings::SettingsV,
    pub manager: Option<PackageManager>,
    pub recorded: Seq<(Seq<char>, crate::vias::ViaV)>,
    pub ssh_config: Seq<char>,
    pub pgservicefile: Option<Seq<char>>,
    pub pgpassfile: Option<Seq<char>>,
    pub home: Seq<char>,
    pub config_dir: Seq<char>,
}

impl View for Machine {
    type V = MachineV;

    open spec fn view(&self) -> MachineV {
        MachineV {
            settings: self.settings@,
            manager: self.manager,
            recorded: crate::vias::pair_views(self.recorded@),
            ssh_config: self.ssh_config@,
            pgservicefile: sopt(self.pgservicefile),
            pgpassfile: sopt(self.pgpassfile),
            home: self.home@,
            config_dir: self.config_dir@,
        }
    }
}

fn str_opt(o: &Option<String>) -> (r: Option<&str>)
    ensures
        opt_view(r) == sopt(*o),
{
    match o {
        Some(s) => Some(s.as_str()),
        None => None,
    }
}

/// What a key on one of the tabs comes to.
pub enum Outcome {
    Nothing,
    Status(String),
    Prompt(Prompt),
    Confirm(Confirm),
    /// Open this connection: bring back the forward it depends on, then hand
    /// the terminal to this command.
    Open { conn: Conn, argv: Vec<String>, label: String },
    /// Ask which engine a new connection is for.
    PickEngine,
    /// Ask which connection a new password is for.
    PickPasswordTarget,
    /// Put this on the clipboard.
    Copy(String),
    /// Open this file in the user's editor, backed up first.
    EditFile(String),
    /// Stop the forward with this pid.
    Kill(u32),
    /// Move this setting to its next answer, and save.
    CycleSetting { key: String },
    /// Put this setting back, and save.
    ResetSetting { key: String },
    /// Read this tab's files again.
    Reload,
}

pub enum OutcomeV {
    Nothing,
    Status(Seq<char>),
    Prompt(PromptV),
    Confirm(ConfirmV),
    Open { conn: ConnV, argv: Seq<Seq<char>>, label: Seq<char> },
    PickEngine,
    PickPasswordTarget,
    Copy(Seq<char>),
    EditFile(Seq<char>),
    Kill(u32),
    CycleSetting { key: Seq<char> },
    ResetSetting { key: Seq<char> },
    Reload,
}

impl View for Outcome {
    type V = OutcomeV;

    open spec fn view(&self) -> OutcomeV {
        match self {
            Outcome::Nothing => OutcomeV::Nothing,
            Outcome::Status(m) => OutcomeV::Status(m@),
            Outcome::Prompt(p) => OutcomeV::Prompt(p@),
            Outcome::Confirm(c) => OutcomeV::Confirm(c@),
            Outcome::Open { conn, argv, label } => OutcomeV::Open { conn: conn@, argv: views(argv@), label: label@ },
            Outcome::PickEngine => OutcomeV::PickEngine,
            Outcome::PickPasswordTarget => OutcomeV::PickPasswordTarget,
            Outcome::Copy(t) => OutcomeV::Copy(t@),
            Outcome::EditFile(p) => OutcomeV::EditFile(p@),
            Outcome::Kill(pid) => OutcomeV::Kill(*pid),
            Outcome::CycleSetting { key } => OutcomeV::CycleSetting { key: key@ },
            Outcome::ResetSetting { key } => OutcomeV::ResetSetting { key: key@ },
            Outcome::Reload => OutcomeV::Reload,
        }
    }
}

/// The client a connection needs is not on the path. Only the default
/// client is offered: somebody who pointed the setting at a wrapper wants
/// that, and installing the stock package would not be what they asked for.
pub open spec fn install_offer_spec(engine: Engine, s: crate::settings::SettingsV, m: Option<PackageManager>) -> OutcomeV {
    let configured = client_argv_spec(engine, s)[0];
    if configured != default_client_of(engine) {
        OutcomeV::Status("'"@ + configured + "' is not on PATH (Settings · "@ + label_of(engine) + " with)"@)
    } else {
        match install_argv_spec(engine, m) {
            None => OutcomeV::Status(
                configured + " is not installed, and I do not recognise this machine's package manager: "@
                    + install_hint_spec(engine, m),
            ),
            Some(argv) => OutcomeV::Confirm(
                offered(
                    configured + " is not installed"@,
                    "easysql is a front end: it needs the real "@ + configured
                        + " to hand the terminal to, and cargo could not have installed it. Run `"@
                        + shell_join_spec(argv)
                        + "` now? sudo will ask for your password, and the package manager will show what it is about to install."@,
                    ConfirmActionV::InstallClient { engine },
                ),
            ),
        }
    }
}

pub fn install_offer(engine: Engine, s: &crate::settings::Settings, m: Option<PackageManager>) -> (r: Outcome)
    ensures
        r@ == install_offer_spec(engine, s@, m),
{
    let argv0 = engine.client_argv(s);
    assert(views(argv0@).len() == argv0@.len());
    assert(client_argv_spec(engine, s@).len() > 0);
    assert(views(argv0@)[0] == argv0@[0]@);
    let configured = argv0[0].clone();
    let c = chars_of(configured.as_str());
    let d = chars_of(engine.default_client());
    if !crate::text::seq_eq(c.as_slice(), d.as_slice()) {
        let mut t = chars_of("'");
        crate::text::extend(&mut t, c.as_slice());
        crate::text::extend(&mut t, chars_of("' is not on PATH (Settings · ").as_slice());
        crate::text::extend(&mut t, chars_of(engine.label()).as_slice());
        crate::text::extend(&mut t, chars_of(" with)").as_slice());
        return Outcome::Status(string_of(t.as_slice()));
    }
    match crate::engines::install_argv(engine, m) {
        None => {
            let mut t = c.clone();
            crate::text::extend(&mut t, chars_of(" is not installed, and I do not recognise this machine's package manager: ").as_slice());
            crate::text::extend(&mut t, chars_of(crate::engines::install_hint(engine, m).as_str()).as_slice());
            assert(c@ == configured@);
            Outcome::Status(string_of(t.as_slice()))
        },
        Some(argv) => {
            let mut title = chars_of(configured.as_str());
            crate::text::extend(&mut title, chars_of(" is not installed").as_slice());
            let mut t = chars_of("easysql is a front end: it needs the real ");
            crate::text::extend(&mut t, chars_of(configured.as_str()).as_slice());
            crate::text::extend(&mut t, chars_of(" to hand the terminal to, and cargo could not have installed it. Run `").as_slice());
            crate::text::extend(&mut t, chars_of(shell_join(argv.as_slice()).as_str()).as_slice());
            crate::text::extend(&mut t, chars_of("` now? sudo will ask for your password, and the package manager will show what it is about to install.").as_slice());
            Outcome::Confirm(Confirm::offer(string_of(title.as_slice()), string_of(t.as_slice()), ConfirmAction::InstallClient { engine }))
        },
    }
}

/// The step that would actually get you in, after a failed open: the
/// client's own words lead, then the offer.
pub open spec fn fix_offer_spec(c: ConnV, said: Seq<char>, fix: Fix, carrying: Option<Seq<char>>) -> ConfirmV {
    let key = key_of(c);
    match fix {
        Fix::Password => offered(
            "the server wants a password"@,
            said + ". easysql can save one where "@ + (if c.engine == Engine::Pg {
                "~/.pgpass"@
            } else {
                "~/.my.cnf"@
            }) + " looks for it, so this never asks again. Save a password now?"@,
            ConfirmActionV::SavePassword { key },
        ),
        Fix::Tunnel => match carrying {
            Some(local) => offered(
                "a tunnel to it is already open"@,
                said + ". There is already a forward carrying "@ + c.host + ":"@ + port_or_default_spec(c)
                    + ", reachable here as localhost:"@ + local
                    + ", but this connection still points at the far address. Repoint it now?"@,
                ConfirmActionV::RepointConn { key, local },
            ),
            None => offered(
                "nothing answered there"@,
                said + ". A database like this is usually only reachable from inside the network, through a machine that is. Open an ssh tunnel to it now?"@,
                ConfirmActionV::OpenTunnel { key },
            ),
        },
        Fix::Name => offered(
            "the server does not know that name"@,
            said + ". Edit the connection now?"@,
            ConfirmActionV::FixConn { key },
        ),
    }
}

pub fn fix_offer(c: &Conn, failure: Failure, carrying: Option<String>) -> (r: Confirm)
    ensures
        r@ == fix_offer_spec(c@, failure.said@, failure.fix, sopt(carrying)),
{
    let key = c.key();
    let mut t = chars_of(failure.said.as_str());
    match failure.fix {
        Fix::Password => {
            crate::text::extend(&mut t, chars_of(". easysql can save one where ").as_slice());
            crate::text::extend(&mut t, chars_of(if c.engine == Engine::Pg {
                "~/.pgpass"
            } else {
                "~/.my.cnf"
            }).as_slice());
            crate::text::extend(&mut t, chars_of(" looks for it, so this never asks again. Save a password now?").as_slice());
            Confirm::offer("the server wants a password".to_string(), string_of(t.as_slice()), ConfirmAction::SavePassword { key })
        },
        Fix::Tunnel => match carrying {
            Some(local) => {
                crate::text::extend(&mut t, chars_of(". There is already a forward carrying ").as_slice());
                crate::text::extend(&mut t, chars_of(c.host.as_str()).as_slice());
                crate::text::extend(&mut t, chars_of(":").as_slice());
                crate::text::extend(&mut t, chars_of(c.port_or_default().as_str()).as_slice());
                crate::text::extend(&mut t, chars_of(", reachable here as localhost:").as_slice());
                crate::text::extend(&mut t, chars_of(local.as_str()).as_slice());
                crate::text::extend(&mut t, chars_of(", but this connection still points at the far address. Repoint it now?").as_slice());
                Confirm::offer("a tunnel to it is already open".to_string(), string_of(t.as_slice()), ConfirmAction::RepointConn { key, local })
            },
            None => {
                crate::text::extend(&mut t, chars_of(". A database like this is usually only reachable from inside the network, through a machine that is. Open an ssh tunnel to it now?").as_slice());
                Confirm::offer("nothing answered there".to_string(), string_of(t.as_slice()), ConfirmAction::OpenTunnel { key })
            },
        },
        Fix::Name => {
            crate::text::extend(&mut t, chars_of(". Edit the connection now?").as_slice());
            Confirm::offer("the server does not know that name".to_string(), string_of(t.as_slice()), ConfirmAction::FixConn { key })
        },
    }
}

/// Whether a live forward carries exactly this connection's host and port:
/// its far end is that host, or the loopback of the very machine it hops
/// through when that machine is the host.
pub open spec fn carries(t: Tunnel, c: ConnV, config: Seq<char>) -> Option<Seq<char>> {
    match ports_spec(t.spec@) {
        Some((open, target, onward)) => {
            let same_host = crate::text::eq_ic(target, c.host) || (crate::sshhosts::same_machine_spec(
                config,
                t.host@,
                c.host,
            ) && (target == "127.0.0.1"@ || target == "localhost"@));
            if t.kind == 'L' && same_host && onward == port_or_default_spec(c) {
                Some(open)
            } else {
                None
            }
        },
        None => None,
    }
}

/// The local port of the first live forward carrying this connection: what
/// stops the toolbox offering to dig a tunnel it has already dug.
pub open spec fn carrying_spec(ts: Seq<Tunnel>, c: ConnV, config: Seq<char>) -> Option<Seq<char>>
    decreases ts.len(),
{
    if ts.len() == 0 {
        None
    } else {
        match carries(ts[0], c, config) {
            Some(p) => Some(p),
            None => carrying_spec(ts.drop_first(), c, config),
        }
    }
}

pub fn tunnel_carrying(tunnels: &Vec<Tunnel>, c: &Conn, config: &str) -> (r: Option<String>)
    requires
        plain(config@),
    ensures
        sopt(r) == carrying_spec(tunnels@, c@, config@),
{
    let port = chars_of(c.port_or_default().as_str());
    let host = chars_of(c.host.as_str());
    let lo = chars_of("127.0.0.1");
    let lh = chars_of("localhost");
    let mut i: usize = 0;
    assert(tunnels@.skip(0) =~= tunnels@);
    while i < tunnels.len()
        invariant
            i <= tunnels@.len(),
            plain(config@),
            port@ == port_or_default_spec(c@),
            host@ == c@.host,
            lo@ == "127.0.0.1"@,
            lh@ == "localhost"@,
            carrying_spec(tunnels@, c@, config@) == carrying_spec(tunnels@.skip(i as int), c@, config@),
        decreases tunnels@.len() - i,
    {
        assert(tunnels@.skip(i as int)[0] == tunnels@[i as int]);
        assert(tunnels@.skip(i as int).drop_first() =~= tunnels@.skip(i + 1));
        let t = &tunnels[i];
        match t.ports() {
            Some((open, target, onward)) => {
                let tg = chars_of(target.as_str());
                let ow = chars_of(onward.as_str());
                let same_host = crate::text::eq_ignore_case(tg.as_slice(), host.as_slice())
                    || (crate::sshhosts::is_same_machine(config, t.host.as_str(), c.host.as_str())
                    && (crate::text::seq_eq(tg.as_slice(), lo.as_slice())
                    || crate::text::seq_eq(tg.as_slice(), lh.as_slice())));
                if t.kind == 'L' && same_host && crate::text::seq_eq(ow.as_slice(), port.as_slice()) {
                    return Some(open);
                }
            },
            None => {},
        }
        i = i + 1;
    }
    assert(tunnels@.skip(i as int) =~= Seq::<Tunnel>::empty());
    None
}

/// What `p` offers on a SQL Server connection while sqlcmd passwords are off.
pub open spec fn sqlcmd_offer_text(name: Seq<char>) -> Seq<char> {
    "sqlcmd has no password file of its own, so it asks every time. Keep the one for '"@ + name
        + "' in ~/.esqlpass (chmod 600), handed over in SQLCMDPASSWORD and never on its command line? This turns on sqlcmd passwords in Settings."@
}

/// What a key on the Connections tab does to the selected connection.
pub open spec fn conns_key_spec(k: Key, sel: Option<ConnV>, installed: bool, m: MachineV) -> OutcomeV {
    if k == Key::Char('c') {
        OutcomeV::PickEngine
    } else if k == Key::Char('r') {
        OutcomeV::Reload
    } else {
        match sel {
            None => OutcomeV::Nothing,
            Some(c) => {
                let argv = crate::engines::connect_argv_spec(c, m.settings, None, m.home);
                if k == Key::Enter {
                    if !installed {
                        install_offer_spec(c.engine, m.settings, m.manager)
                    } else {
                        OutcomeV::Open { conn: c, argv, label: shell_join_spec(argv) }
                    }
                } else if k == Key::Char('e') {
                    OutcomeV::Prompt(crate::forms::edit_conn_spec(c))
                } else if k == Key::Char('d') {
                    OutcomeV::Confirm(
                        gate(
                            "delete connection"@,
                            "Delete '"@ + c.name + "' from "@ + collapse_in(
                                m.home,
                                store_spec(c.engine, m.pgservicefile, m.home, m.config_dir),
                            )
                                + "? The database itself is untouched; this only forgets how to reach it."@,
                            ConfirmActionV::DeleteConn { engine: c.engine, name: c.name },
                        ),
                    )
                } else if k == Key::Char('p') {
                    if c.engine == Engine::Sqlite {
                        OutcomeV::Status("a sqlite file has no password"@)
                    } else if c.engine == Engine::MsSql && !m.settings.mssql_passwords {
                        OutcomeV::Confirm(offered("keep sqlcmd's password?"@, sqlcmd_offer_text(c.name), ConfirmActionV::KeepSqlcmdPassword { key: key_of(c) }))
                    } else {
                        OutcomeV::Prompt(crate::forms::password_spec(c))
                    }
                } else if k == Key::Char('t') {
                    if c.engine == Engine::Sqlite {
                        OutcomeV::Status("a sqlite file is already local; there is nothing to tunnel"@)
                    } else {
                        OutcomeV::Prompt(crate::forms::forward_spec(c, m.settings, m.recorded, m.ssh_config))
                    }
                } else if k == Key::Char('y') {
                    OutcomeV::Copy(shell_join_spec(argv))
                } else if k == Key::Char('Y') {
                    OutcomeV::Copy(crate::engines::url_spec(c))
                } else {
                    OutcomeV::Nothing
                }
            },
        }
    }
}

pub fn conns_key(k: Key, sel: Option<&Conn>, installed: bool, m: &Machine) -> (r: Outcome)
    requires
        plain(m.ssh_config@),
    ensures
        r@ == conns_key_spec(k, crate::forms::conn_view(sel), installed, m@),
{
    if k == Key::Char('c') {
        return Outcome::PickEngine;
    }
    if k == Key::Char('r') {
        return Outcome::Reload;
    }
    let c = match sel {
        None => return Outcome::Nothing,
        Some(c) => c,
    };
    let s = &m.settings;
    if k == Key::Enter {
        if !installed {
            return install_offer(c.engine, s, m.manager);
        }
        let argv = c.connect_argv_in(s, None, m.home.as_str());
        let label = shell_join(argv.as_slice());
        return Outcome::Open { conn: crate::engines::copy_conn(c), argv, label };
    }
    if k == Key::Char('e') {
        return Outcome::Prompt(Prompt::edit_conn(c));
    }
    if k == Key::Char('d') {
        let store = c.engine.store_in(str_opt(&m.pgservicefile), m.home.as_str(), m.config_dir.as_str());
        let mut t = chars_of("Delete '");
        crate::text::extend(&mut t, chars_of(c.name.as_str()).as_slice());
        crate::text::extend(&mut t, chars_of("' from ").as_slice());
        crate::text::extend(&mut t, chars_of(collapse_tilde_in(m.home.as_str(), store.as_str()).as_str()).as_slice());
        crate::text::extend(&mut t, chars_of("? The database itself is untouched; this only forgets how to reach it.").as_slice());
        return Outcome::Confirm(Confirm::new(
            "delete connection".to_string(),
            string_of(t.as_slice()),
            ConfirmAction::DeleteConn { engine: c.engine, name: c.name.clone() },
        ));
    }
    if k == Key::Char('p') {
        if c.engine == Engine::Sqlite {
            return Outcome::Status("a sqlite file has no password".to_string());
        }
        if c.engine == Engine::MsSql && !m.settings.mssql_passwords {
            let mut t = chars_of("sqlcmd has no password file of its own, so it asks every time. Keep the one for '");
            crate::text::extend(&mut t, chars_of(c.name.as_str()).as_slice());
            crate::text::extend(
                &mut t,
                chars_of("' in ~/.esqlpass (chmod 600), handed over in SQLCMDPASSWORD and never on its command line? This turns on sqlcmd passwords in Settings.").as_slice(),
            );
            return Outcome::Confirm(Confirm::offer(
                "keep sqlcmd's password?".to_string(),
                string_of(t.as_slice()),
                ConfirmAction::KeepSqlcmdPassword { key: c.key() },
            ));
        }
        return Outcome::Prompt(Prompt::password(c));
    }
    if k == Key::Char('t') {
        if c.engine == Engine::Sqlite {
            return Outcome::Status("a sqlite file is already local; there is nothing to tunnel".to_string());
        }
        return Outcome::Prompt(Prompt::forward(c, s, &m.recorded, m.ssh_config.as_str()));
    }
    if k == Key::Char('y') {
        let argv = c.connect_argv_in(s, None, m.home.as_str());
        return Outcome::Copy(shell_join(argv.as_slice()));
    }
    if k == Key::Char('Y') {
        return Outcome::Copy(c.url());
    }
    Outcome::Nothing
}

/// What a key on the Passwords tab does to the selected stored password.
pub open spec fn passwords_key_spec(k: Key, sel: Option<CredV>, m: MachineV) -> OutcomeV {
    if k == Key::Char('c') {
        OutcomeV::PickPasswordTarget
    } else if k == Key::Char('r') {
        OutcomeV::Reload
    } else {
        match sel {
            None => OutcomeV::Nothing,
            Some(cred) => if k == Key::Char('d') || k == Key::Char('x') {
                OutcomeV::Confirm(
                    gate(
                        "forget password"@,
                        "Remove the password for "@ + cred.user + " from "@
                            + crate::creds::where_stored_spec(cred, m.pgpassfile, m.home)
                            + "? easysql never read it and cannot put it back."@,
                        ConfirmActionV::ForgetPassword(cred),
                    ),
                )
            } else if k == Key::Char('e') {
                match cred.source {
                    crate::creds::SourceV::Pgpass(idx) => OutcomeV::Prompt(
                        crate::forms::edit_password_spec(cred, idx as usize),
                    ),
                    crate::creds::SourceV::MyCnf(name) => OutcomeV::Status(
                        "this password lives in [client"@ + name + "]: edit the connection instead"@,
                    ),
                }
            } else if k == Key::Char('o') {
                OutcomeV::EditFile(
                    match cred.source {
                        crate::creds::SourceV::Pgpass(_) => crate::creds::pgpass_path_spec(m.pgpassfile, m.home),
                        crate::creds::SourceV::MyCnf(_) => crate::engines::mysql::cnf_path_spec(m.home),
                    },
                )
            } else {
                OutcomeV::Nothing
            },
        }
    }
}

pub fn passwords_key(k: Key, sel: Option<&Cred>, m: &Machine) -> (r: Outcome)
    ensures
        r@ == passwords_key_spec(k, match sel {
            Some(c) => Some(c@),
            None => None,
        }, m@),
{
    if k == Key::Char('c') {
        return Outcome::PickPasswordTarget;
    }
    if k == Key::Char('r') {
        return Outcome::Reload;
    }
    let cred = match sel {
        None => return Outcome::Nothing,
        Some(c) => c,
    };
    if k == Key::Char('d') || k == Key::Char('x') {
        let mut t = chars_of("Remove the password for ");
        crate::text::extend(&mut t, chars_of(cred.user.as_str()).as_slice());
        crate::text::extend(&mut t, chars_of(" from ").as_slice());
        crate::text::extend(&mut t, chars_of(cred.where_stored_in(str_opt(&m.pgpassfile), m.home.as_str()).as_str()).as_slice());
        crate::text::extend(&mut t, chars_of("? easysql never read it and cannot put it back.").as_slice());
        return Outcome::Confirm(Confirm::new(
            "forget password".to_string(),
            string_of(t.as_slice()),
            ConfirmAction::ForgetPassword(crate::creds::copy_cred(cred)),
        ));
    }
    if k == Key::Char('e') {
        match &cred.source {
            crate::creds::Source::Pgpass(idx) => return Outcome::Prompt(Prompt::edit_password(cred, *idx)),
            crate::creds::Source::MyCnf(name) => {
                let mut t = chars_of("this password lives in [client");
                crate::text::extend(&mut t, chars_of(name.as_str()).as_slice());
                crate::text::extend(&mut t, chars_of("]: edit the connection instead").as_slice());
                return Outcome::Status(string_of(t.as_slice()));
            },
        }
    }
    if k == Key::Char('o') {
        let path = match &cred.source {
            crate::creds::Source::Pgpass(_) => match &m.pgpassfile {
                Some(p) => p.clone(),
                None => crate::ini::join_path_of(m.home.as_str(), ".pgpass"),
            },
            crate::creds::Source::MyCnf(_) => crate::ini::join_path_of(m.home.as_str(), ".my.cnf"),
        };
        return Outcome::EditFile(path);
    }
    Outcome::Nothing
}

/// What a key on the Snippets tab does to the selected saved query.
pub open spec fn snippets_key_spec(k: Key, sel: Option<(Seq<char>, Seq<char>, Seq<char>)>) -> OutcomeV {
    if k == Key::Char('c') {
        OutcomeV::Prompt(crate::forms::snippet_spec(None))
    } else if k == Key::Char('r') {
        OutcomeV::Reload
    } else {
        match sel {
            None => OutcomeV::Nothing,
            Some((name, sql, path)) => if k == Key::Char('e') {
                OutcomeV::Prompt(crate::forms::snippet_spec(Some((name, sql))))
            } else if k == Key::Char('o') {
                OutcomeV::EditFile(path)
            } else if k == Key::Char('d') || k == Key::Char('x') {
                OutcomeV::Confirm(
                    gate(
                        "delete snippet"@,
                        "Delete '"@ + name + "'? The file goes with it."@,
                        ConfirmActionV::DeleteSnippet { name },
                    ),
                )
            } else {
                OutcomeV::Nothing
            },
        }
    }
}

pub fn snippets_key(k: Key, sel: Option<&crate::snippets::Snippet>) -> (r: Outcome)
    ensures
        r@ == snippets_key_spec(k, match sel {
            Some(s) => Some((s.name@, s.sql@, s.path@)),
            None => None,
        }),
{
    if k == Key::Char('c') {
        return Outcome::Prompt(Prompt::snippet(None));
    }
    if k == Key::Char('r') {
        return Outcome::Reload;
    }
    let s = match sel {
        None => return Outcome::Nothing,
        Some(s) => s,
    };
    if k == Key::Char('e') {
        return Outcome::Prompt(Prompt::snippet(Some(s)));
    }
    if k == Key::Char('o') {
        return Outcome::EditFile(s.path.clone());
    }
    if k == Key::Char('d') || k == Key::Char('x') {
        let mut t = chars_of("Delete '");
        crate::text::extend(&mut t, chars_of(s.name.as_str()).as_slice());
        crate::text::extend(&mut t, chars_of("'? The file goes with it.").as_slice());
        return Outcome::Confirm(Confirm::new(
            "delete snippet".to_string(),
            string_of(t.as_slice()),
            ConfirmAction::DeleteSnippet { name: s.name.clone() },
        ));
    }
    Outcome::Nothing
}

/// What a key on the Tunnels tab does to the selected forward.
pub open spec fn tunnels_key_spec(k: Key, pid: Option<u32>) -> OutcomeV {
    if k == Key::Char('r') {
        OutcomeV::Reload
    } else if k == Key::Char('d') || k == Key::Char('x') {
        match pid {
            Some(p) => OutcomeV::Kill(p),
            None => OutcomeV::Nothing,
        }
    } else {
        OutcomeV::Nothing
    }
}

pub fn tunnels_key(k: Key, pid: Option<u32>) -> (r: Outcome)
    ensures
        r@ == tunnels_key_spec(k, pid),
{
    if k == Key::Char('r') {
        Outcome::Reload
    } else if k == Key::Char('d') || k == Key::Char('x') {
        match pid {
            Some(p) => Outcome::Kill(p),
            None => Outcome::Nothing,
        }
    } else {
        Outcome::Nothing
    }
}

/// What a key on the Settings tab does to the selected row: a cycled
/// setting changes in place, a typed one opens a one-field wizard.
pub open spec fn settings_key_spec(k: Key, row: Option<(Seq<char>, Seq<char>, Seq<char>, Seq<char>, Seq<char>, bool)>) -> OutcomeV {
    if k == Key::Char('r') {
        OutcomeV::Reload
    } else {
        match row {
            None => OutcomeV::Nothing,
            Some((key, label, help, value, default, cycled)) => if k == Key::Enter || k == Key::Char('e') {
                if cycled {
                    OutcomeV::CycleSetting { key }
                } else {
                    OutcomeV::Prompt(crate::forms::edit_setting_spec(key, label, help, value, default))
                }
            } else if k == Key::Char('d') {
                OutcomeV::ResetSetting { key }
            } else {
                OutcomeV::Nothing
            },
        }
    }
}

pub open spec fn row_view(r: crate::settings::Row) -> (Seq<char>, Seq<char>, Seq<char>, Seq<char>, Seq<char>, bool) {
    (r.key@, r.label@, r.help@, r.value@, r.default@, r.choices is Some)
}

pub fn settings_key(k: Key, row: Option<&crate::settings::Row>) -> (r: Outcome)
    ensures
        r@ == settings_key_spec(k, match row {
            Some(x) => Some(row_view(*x)),
            None => None,
        }),
{
    if k == Key::Char('r') {
        return Outcome::Reload;
    }
    let x = match row {
        None => return Outcome::Nothing,
        Some(x) => x,
    };
    if k == Key::Enter || k == Key::Char('e') {
        if x.choices.is_some() {
            return Outcome::CycleSetting { key: x.key.to_string() };
        }
        return Outcome::Prompt(Prompt::edit_setting(x));
    }
    if k == Key::Char('d') {
        return Outcome::ResetSetting { key: x.key.to_string() };
    }
    Outcome::Nothing
}

// ---------------------------------------------------------------------------
// tabs, lists, and where a key goes
// ---------------------------------------------------------------------------

/// The toolbox's tabs, in their left-to-right order.
#[derive(Clone, Copy, PartialEq, Eq, Debug, Structural)]
pub enum Tab {
    Connections,
    Passwords,
    Tunnels,
    Snippets,
    Settings,
}

pub open spec fn tab_index(t: Tab) -> int {
    match t {
        Tab::Connections => 0,
        Tab::Passwords => 1,
        Tab::Tunnels => 2,
        Tab::Snippets => 3,
        Tab::Settings => 4,
    }
}

pub open spec fn tab_at(i: int) -> Tab {
    if i == 0 {
        Tab::Connections
    } else if i == 1 {
        Tab::Passwords
    } else if i == 2 {
        Tab::Tunnels
    } else if i == 3 {
        Tab::Snippets
    } else {
        Tab::Settings
    }
}

impl Tab {
    /// The tab's label.
    pub fn title(self) -> (r: &'static str)
        ensures
            r@ == match self {
                Tab::Connections => "Connections"@,
                Tab::Passwords => "Passwords"@,
                Tab::Tunnels => "Tunnels (ssh -L)"@,
                Tab::Snippets => "Snippets"@,
                Tab::Settings => "Settings"@,
            },
    {
        match self {
            Tab::Connections => "Connections",
            Tab::Passwords => "Passwords",
            Tab::Tunnels => "Tunnels (ssh -L)",
            Tab::Snippets => "Snippets",
            Tab::Settings => "Settings",
        }
    }

    /// The tab `delta` steps along, wrapping at either end.
    pub fn cycle(self, delta: i32) -> (r: Tab)
        ensures
            r == tab_at((tab_index(self) + delta) % 5),
    {
        let i: i64 = match self {
            Tab::Connections => 0,
            Tab::Passwords => 1,
            Tab::Tunnels => 2,
            Tab::Snippets => 3,
            Tab::Settings => 4,
        };
        let x: i64 = i + delta as i64;
        let m: i64 = x % 5;
        let n: i64 = if m < 0 {
            m + 5
        } else {
            m
        };
        proof {
            assert(n == x % 5) by {
                vstd::arithmetic::div_mod::lemma_fundamental_div_mod(x as int, 5);
            }
        }
        if n == 0 {
            Tab::Connections
        } else if n == 1 {
            Tab::Passwords
        } else if n == 2 {
            Tab::Tunnels
        } else if n == 3 {
            Tab::Snippets
        } else {
            Tab::Settings
        }
    }
}

/// A list's selection after moving `delta` rows, wrapping; an empty list
/// keeps what it had.
pub open spec fn moved_selection(sel: Option<usize>, len: int, delta: int) -> Option<usize> {
    if len == 0 {
        sel
    } else {
        let cur: int = match sel {
            Some(i) => i as int,
            None => 0,
        };
        Some(((cur + delta) % len) as usize)
    }
}

pub fn move_state(sel: Option<usize>, len: usize, delta: i32) -> (r: Option<usize>)
    requires
        len <= i32::MAX,
        i32::MIN <= (match sel {
            Some(i) => i as int,
            None => 0,
        }) + delta <= i32::MAX,
    ensures
        r == moved_selection(sel, len as int, delta as int),
        len > 0 ==> (r matches Some(i) && i < len),
{
    if len == 0 {
        return sel;
    }
    let cur: usize = match sel {
        Some(i) => i,
        None => 0,
    };
    let ghost m = len as int;
    if delta >= 0 {
        let d = delta as usize;
        Some((cur + d) % len)
    } else {
        let d: usize = (-(delta as i64)) as usize;
        if cur >= d {
            proof {
                assert(cur - d == cur + delta);
            }
            Some((cur - d) % len)
        } else {
            let a = d - cur;
            let back = a % len;
            let n = (len - back) % len;
            proof {
                vstd::arithmetic::div_mod::lemma_sub_mod_noop_right(m, a as int, m);
                vstd::arithmetic::div_mod::lemma_mod_add_multiples_vanish(-(a as int), m);
                assert(-(a as int) == cur + delta);
            }
            Some(n)
        }
    }
}

/// A selection kept in range as a list fills or empties.
pub open spec fn clamped(sel: Option<usize>, len: int) -> Option<usize> {
    if len == 0 {
        None
    } else {
        let cur: int = match sel {
            Some(i) => i as int,
            None => 0,
        };
        Some(if cur < len - 1 {
            cur as usize
        } else {
            (len - 1) as usize
        })
    }
}

pub fn clamp(sel: Option<usize>, len: usize) -> (r: Option<usize>)
    ensures
        r == clamped(sel, len as int),
{
    if len == 0 {
        None
    } else {
        let cur = match sel {
            Some(i) => i,
            None => 0,
        };
        Some(if cur < len - 1 {
            cur
        } else {
            len - 1
        })
    }
}

/// Where an app-wide key goes, outside a modal and a search.
#[derive(Clone, Copy, PartialEq, Eq, Debug, Structural)]
pub enum Nav {
    Quit,
    Help,
    StartSearch,
    ClearFilter,
    CycleTab(i32),
    Move(i32),
    /// A leftover Control chord: navigation intent, never an action.
    Ignore,
    /// The tab's own keys decide.
    TabKey,
}

/// Ctrl-C always quits; views are the horizontal axis and the list the
/// vertical one, arrows and vim keys alike; `/` filters and Esc undoes a
/// filter.
pub open spec fn nav_spec(k: KeyPress, query_empty: bool) -> Nav {
    let c = k.code;
    if k.ctrl && c == Key::Char('c') {
        Nav::Quit
    } else if c == Key::Char('q') && !k.ctrl {
        Nav::Quit
    } else if c == Key::Char('?') && !k.ctrl {
        Nav::Help
    } else if c == Key::Char('/') && !k.ctrl {
        Nav::StartSearch
    } else if c == Key::Esc && !query_empty {
        Nav::ClearFilter
    } else if c == Key::Tab || c == Key::Right || c == Key::Char('l') {
        Nav::CycleTab(1)
    } else if c == Key::BackTab || c == Key::Left || c == Key::Char('h') {
        Nav::CycleTab(-1i32)
    } else if c == Key::Down || c == Key::Char('j') {
        Nav::Move(1)
    } else if c == Key::Up || c == Key::Char('k') {
        Nav::Move(-1i32)
    } else if k.ctrl {
        Nav::Ignore
    } else {
        Nav::TabKey
    }
}

pub fn nav(k: KeyPress, query_empty: bool) -> (r: Nav)
    ensures
        r == nav_spec(k, query_empty),
{
    let c = k.code;
    if k.ctrl && c == Key::Char('c') {
        Nav::Quit
    } else if c == Key::Char('q') && !k.ctrl {
        Nav::Quit
    } else if c == Key::Char('?') && !k.ctrl {
        Nav::Help
    } else if c == Key::Char('/') && !k.ctrl {
        Nav::StartSearch
    } else if c == Key::Esc && !query_empty {
        Nav::ClearFilter
    } else if c == Key::Tab || c == Key::Right || c == Key::Char('l') {
        Nav::CycleTab(1)
    } else if c == Key::BackTab || c == Key::Left || c == Key::Char('h') {
        Nav::CycleTab(-1i32)
    } else if c == Key::Down || c == Key::Char('j') {
        Nav::Move(1)
    } else if c == Key::Up || c == Key::Char('k') {
        Nav::Move(-1i32)
    } else if k.ctrl {
        Nav::Ignore
    } else {
        Nav::TabKey
    }
}

/// What a key does while a `/` filter is being typed: printable keys go into
/// the query, the arrows still move, Enter keeps the filter and Esc drops it.
#[derive(Clone, Copy, PartialEq, Eq, Debug, Structural)]
pub enum SearchStep {
    Quit,
    Drop,
    Keep,
    Pop,
    Move(i32),
    Push(char),
    Ignore,
}

pub open spec fn search_spec(k: KeyPress) -> SearchStep {
    let c = k.code;
    if k.ctrl && c == Key::Char('c') {
        SearchStep::Quit
    } else if c == Key::Esc {
        SearchStep::Drop
    } else if c == Key::Enter {
        SearchStep::Keep
    } else if c == Key::Backspace {
        SearchStep::Pop
    } else if c == Key::Down {
        SearchStep::Move(1)
    } else if c == Key::Up {
        SearchStep::Move(-1i32)
    } else if c is Char && !k.ctrl {
        SearchStep::Push(c->Char_0)
    } else {
        SearchStep::Ignore
    }
}

pub fn search(k: KeyPress) -> (r: SearchStep)
    ensures
        r == search_spec(k),
{
    let c = k.code;
    if k.ctrl && c == Key::Char('c') {
        return SearchStep::Quit;
    }
    match c {
        Key::Esc => SearchStep::Drop,
        Key::Enter => SearchStep::Keep,
        Key::Backspace => SearchStep::Pop,
        Key::Down => SearchStep::Move(1),
        Key::Up => SearchStep::Move(-1i32),
        Key::Char(ch) => if !k.ctrl {
            SearchStep::Push(ch)
        } else {
            SearchStep::Ignore
        },
        _ => SearchStep::Ignore,
    }
}

/// Which part of the toolbox a key belongs to: the help screen, an open
/// modal, a filter being typed, or the tabs.
#[derive(Clone, Copy, PartialEq, Eq, Debug, Structural)]
pub enum Route {
    CloseHelp,
    Ignore,
    Confirm,
    Picker,
    Prompt,
    Search,
    Nav,
}

pub open spec fn route_spec(k: Key, help: bool, confirm: bool, picker: bool, prompt: bool, searching: bool) -> Route {
    if help {
        if k == Key::Char('?') || k == Key::Esc || k == Key::Char('q') {
            Route::CloseHelp
        } else {
            Route::Ignore
        }
    } else if confirm {
        Route::Confirm
    } else if picker {
        Route::Picker
    } else if prompt {
        Route::Prompt
    } else if searching {
        Route::Search
    } else {
        Route::Nav
    }
}

pub fn route(k: Key, help: bool, confirm: bool, picker: bool, prompt: bool, searching: bool) -> (r: Route)
    ensures
        r == route_spec(k, help, confirm, picker, prompt, searching),
{
    if help {
        if k == Key::Char('?') || k == Key::Esc || k == Key::Char('q') {
            Route::CloseHelp
        } else {
            Route::Ignore
        }
    } else if confirm {
        Route::Confirm
    } else if picker {
        Route::Picker
    } else if prompt {
        Route::Prompt
    } else if searching {
        Route::Search
    } else {
        Route::Nav
    }
}

// ---------------------------------------------------------------------------
// what the keys promise
// ---------------------------------------------------------------------------

/// A gate starts on No, so a reflex Enter never fires the destructive thing
/// it guards; an offer starts on Yes, so Enter takes the step it offers.
pub proof fn lemma_enter_on_a_fresh_modal(title: Seq<char>, message: Seq<char>, a: ConfirmActionV)
    ensures
        confirm_key_spec(gate(title, message, a), Key::Enter).1 == ConfirmStep::Cancelled,
        confirm_key_spec(offered(title, message, a), Key::Enter).1 == ConfirmStep::Proceed,
{
}

/// Moving between the buttons twice puts the selection back where it was.
pub proof fn lemma_buttons_toggle_back(c: ConfirmV, k: Key)
    requires
        k == Key::Left || k == Key::Right || k == Key::Char('h') || k == Key::Char('l') || k
            == Key::Tab || k == Key::BackTab,
    ensures
        confirm_key_spec(confirm_key_spec(c, k).0, k).0 == c,
        confirm_key_spec(c, k).1 == ConfirmStep::Stay,
{
}

/// Backspace takes back the character just typed into a text field.
pub proof fn lemma_backspace_undoes_typing(p: PromptV, ch: char, config: Seq<char>)
    requires
        well_formed(p),
        !(p.fields[p.idx as int].kind is Choice),
    ensures
        ({
            let typed = prompt_key_spec(p, KeyPress { code: Key::Char(ch), ctrl: false }, config).0;
            prompt_key_spec(typed, KeyPress { code: Key::Backspace, ctrl: false }, config).0 == p
        }),
{
    let i = p.idx as int;
    let typed = prompt_key_spec(p, KeyPress { code: Key::Char(ch), ctrl: false }, config).0;
    assert(typed == with_value(p, i, p.fields[i].value.push(ch)));
    assert(typed.fields[i].value.drop_last() =~= p.fields[i].value);
    let back = prompt_key_spec(typed, KeyPress { code: Key::Backspace, ctrl: false }, config).0;
    assert(back.fields =~= p.fields);
}

/// A step to the next tab and one back lands on the tab you were on.
pub proof fn lemma_tab_back_undoes_tab(t: Tab, delta: int)
    ensures
        tab_at((tab_index(tab_at((tab_index(t) + delta) % 5)) - delta) % 5) == t,
{
    let x = (tab_index(t) + delta) % 5;
    assert(tab_index(tab_at(x)) == x);
    crate::forms::lemma_step_back_undoes_step(tab_index(t), delta, 5);
    assert(crate::forms::step_spec(crate::forms::step_spec(tab_index(t), delta, 5), -delta, 5) == tab_index(t));
}

// ---------------------------------------------------------------------------
// picking a value the app already knows
// ---------------------------------------------------------------------------

/// What a picked value is for.
#[derive(Clone, Copy, PartialEq, Eq, Debug, Structural)]
pub enum PickerAction {
    /// Which engine a new connection is for; the value is the engine's slug.
    NewConnEngine,
    /// Which connection a password unlocks; the value is the connection's key.
    PasswordFor,
    /// Write the chosen value into the open wizard's field at this index.
    FillField { field: usize },
}

/// A list to pick from: `items` is what you read, `values` what the action
/// receives, and they differ whenever a readable row would be a useless
/// machine answer.
pub struct Picker {
    pub title: String,
    pub items: Vec<String>,
    pub values: Vec<String>,
    pub idx: usize,
    pub action: PickerAction,
}

pub struct PickerV {
    pub title: Seq<char>,
    pub items: Seq<Seq<char>>,
    pub values: Seq<Seq<char>>,
    pub idx: usize,
    pub action: PickerAction,
}

impl View for Picker {
    type V = PickerV;

    open spec fn view(&self) -> PickerV {
        PickerV {
            title: self.title@,
            items: views(self.items@),
            values: views(self.values@),
            idx: self.idx,
            action: self.action,
        }
    }
}

/// A picker whose rows are read one way and answer another.
pub open spec fn keyed_spec(title: Seq<char>, rows: Seq<(Seq<char>, Seq<char>)>, action: PickerAction) -> PickerV {
    PickerV {
        title,
        items: rows.map_values(|r: (Seq<char>, Seq<char>)| r.0),
        values: rows.map_values(|r: (Seq<char>, Seq<char>)| r.1),
        idx: 0,
        action,
    }
}

/// What a key did to an open picker.
#[derive(Clone, Copy, PartialEq, Eq, Debug, Structural)]
pub enum PickerStep {
    /// Handled in place.
    Stay,
    /// Closed with nothing picked, saying so.
    Cancelled,
    /// Closed because there was nothing to pick from.
    Gone,
    /// The row under the cursor is the answer.
    Submit,
}

/// What a key does to a picker: Esc or Ctrl-c closes it, the list keys move
/// round it, Enter picks, and an empty list simply closes.
pub open spec fn picker_key_spec(p: PickerV, k: KeyPress) -> (PickerV, PickerStep) {
    let len = p.items.len();
    if len == 0 {
        (p, PickerStep::Gone)
    } else if k.code == Key::Esc || (k.code == Key::Char('c') && k.ctrl) {
        (p, PickerStep::Cancelled)
    } else if k.code == Key::Down || k.code == Key::Char('j') {
        (PickerV { idx: ((p.idx + 1) % (len as int)) as usize, ..p }, PickerStep::Stay)
    } else if k.code == Key::Up || k.code == Key::Char('k') {
        (PickerV { idx: ((p.idx + len - 1) % (len as int)) as usize, ..p }, PickerStep::Stay)
    } else if k.code == Key::Enter {
        (p, PickerStep::Submit)
    } else {
        (p, PickerStep::Stay)
    }
}

impl Picker {
    /// A picker whose rows are their own answer.
    pub fn plain(title: String, items: Vec<String>, action: PickerAction) -> (r: Picker)
        ensures
            r@ == (PickerV { title: title@, items: views(items@), values: views(items@), idx: 0, action }),
    {
        let mut values: Vec<String> = Vec::new();
        let mut i: usize = 0;
        while i < items.len()
            invariant
                i <= items@.len(),
                views(values@) == views(items@).take(i as int),
            decreases items@.len() - i,
        {
            let ghost prev = views(values@);
            values.push(items[i].clone());
            assert(views(values@) =~= prev.push(items@[i as int]@));
            i = i + 1;
            assert(views(items@).take(i as int) =~= views(items@).take(i - 1).push(items@[i - 1]@));
        }
        assert(views(items@).take(items@.len() as int) =~= views(items@));
        Picker { title, items, values, idx: 0, action }
    }

    /// A picker whose rows read one way and answer another: `(shown, value)`.
    pub fn keyed(title: String, rows: Vec<(String, String)>, action: PickerAction) -> (r: Picker)
        ensures
            r@ == keyed_spec(title@, kviews(rows@), action),
    {
        let ghost rv = kviews(rows@);
        let mut items: Vec<String> = Vec::new();
        let mut values: Vec<String> = Vec::new();
        let mut i: usize = 0;
        while i < rows.len()
            invariant
                i <= rows@.len(),
                rv == kviews(rows@),
                views(items@) == rv.map_values(|r: (Seq<char>, Seq<char>)| r.0).take(i as int),
                views(values@) == rv.map_values(|r: (Seq<char>, Seq<char>)| r.1).take(i as int),
            decreases rows@.len() - i,
        {
            let ghost pi = views(items@);
            let ghost pv_ = views(values@);
            items.push(rows[i].0.clone());
            values.push(rows[i].1.clone());
            assert(views(items@) =~= pi.push(rows@[i as int].0@));
            assert(views(values@) =~= pv_.push(rows@[i as int].1@));
            i = i + 1;
            assert(rv.map_values(|r: (Seq<char>, Seq<char>)| r.0).take(i as int) =~= rv.map_values(
                |r: (Seq<char>, Seq<char>)| r.0,
            ).take(i - 1).push(rows@[i - 1].0@));
            assert(rv.map_values(|r: (Seq<char>, Seq<char>)| r.1).take(i as int) =~= rv.map_values(
                |r: (Seq<char>, Seq<char>)| r.1,
            ).take(i - 1).push(rows@[i - 1].1@));
        }
        assert(rv.map_values(|r: (Seq<char>, Seq<char>)| r.0).take(rows@.len() as int) =~= rv.map_values(
            |r: (Seq<char>, Seq<char>)| r.0,
        ));
        assert(rv.map_values(|r: (Seq<char>, Seq<char>)| r.1).take(rows@.len() as int) =~= rv.map_values(
            |r: (Seq<char>, Seq<char>)| r.1,
        ));
        Picker { title, items, values, idx: 0, action }
    }

    /// What a key does; see `picker_key_spec`. The cursor stays on a row.
    pub fn on_key(&mut self, k: KeyPress) -> (r: PickerStep)
        requires
            old(self).items@.len() > 0 ==> old(self).idx < old(self).items@.len(),
        ensures
            (final(self)@, r) == picker_key_spec(old(self)@, k),
            final(self).items@.len() > 0 ==> final(self).idx < final(self).items@.len(),
            final(self).items@.len() == old(self).items@.len(),
            final(self).values@.len() == old(self).values@.len(),
    {
        let len = self.items.len();
        if len == 0 {
            return PickerStep::Gone;
        }
        let down = k.code == Key::Down || k.code == Key::Char('j');
        let up = k.code == Key::Up || k.code == Key::Char('k');
        if k.code == Key::Esc || (k.code == Key::Char('c') && k.ctrl) {
            PickerStep::Cancelled
        } else if down {
            self.idx = if self.idx + 1 >= len {
                0
            } else {
                self.idx + 1
            };
            proof {
                let l = len as int;
                let i = old(self).idx as int;
                if i + 1 >= l {
                    assert(i + 1 == l);
                    vstd::arithmetic::div_mod::lemma_mod_self_0(l);
                } else {
                    vstd::arithmetic::div_mod::lemma_small_mod((i + 1) as nat, l as nat);
                }
            }
            PickerStep::Stay
        } else if up {
            self.idx = if self.idx == 0 {
                len - 1
            } else {
                self.idx - 1
            };
            proof {
                let l = len as int;
                let i = old(self).idx as int;
                if i == 0 {
                    vstd::arithmetic::div_mod::lemma_small_mod((l - 1) as nat, l as nat);
                } else {
                    vstd::arithmetic::div_mod::lemma_mod_add_multiples_vanish(i - 1, l);
                    vstd::arithmetic::div_mod::lemma_small_mod((i - 1) as nat, l as nat);
                    assert(i + l - 1 == (i - 1) + l);
                }
            }
            PickerStep::Stay
        } else if k.code == Key::Enter {
            PickerStep::Submit
        } else {
            PickerStep::Stay
        }
    }

    /// The value of the row under the cursor.
    pub fn choice(&self) -> (r: Option<String>)
        ensures
            match r {
                Some(v) => self.idx < self@.values.len() && v@ == self@.values[self.idx as int],
                None => self.idx >= self@.values.len(),
            },
    {
        if self.idx < self.values.len() {
            Some(self.values[self.idx].clone())
        } else {
            None
        }
    }
}

/// Writing a picked value into a wizard's field. Picking the ssh host
/// decides what the far end of the forward means, so the field naming the
/// database host as that machine sees it is settled again, and the change is
/// said.
pub open spec fn fill_spec(p: PromptV, field: int, choice: Seq<char>, config: Seq<char>) -> (PromptV, Option<Seq<char>>) {
    let p1 = if 0 <= field < p.fields.len() {
        with_value(p, field, choice)
    } else {
        p
    };
    match far_host_field(p1.fields) {
        None => (p1, None),
        Some(j) => {
            let was = p1.fields[j].value;
            let now = forward_target_spec(config, choice, was);
            if now == was {
                (p1, None)
            } else {
                (
                    with_value(p1, j, now),
                    Some("the database is on "@ + choice + " itself, so the forward points at its 127.0.0.1"@),
                )
            }
        },
    }
}

impl Prompt {
    /// Write a picked value into field `field`; see `fill_spec`. The ssh
    /// config's text decides whether a database sits on the hop itself.
    pub fn fill(&mut self, field: usize, choice: &str, config: &str) -> (r: Option<String>)
        requires
            well_formed(old(self)@),
            plain(config@),
        ensures
            (final(self)@, match r {
                Some(m) => Some(m@),
                None => None,
            }) == fill_spec(old(self)@, field as int, choice@, config@),
            well_formed(final(self)@),
    {
        if field < self.fields.len() {
            set_value(self, field, choice.to_string());
            assert(well_formed(self@)) by {
                assert(self@.fields.len() == old(self)@.fields.len());
                assert forall|i: int| 0 <= i < self@.fields.len() implies self@.fields[i].kind
                    == old(self)@.fields[i].kind && self@.fields[i].choice == old(self)@.fields[i].choice
                    && self@.fields[i].label == old(self)@.fields[i].label by {}
            }
        }
        let ghost p1 = self@;
        let j = match far_host_at(&self.fields) {
            Some(j) => j,
            None => return None,
        };
        let was = self.fields[j].value.clone();
        let now = forward_target(config, choice, was.as_str());
        let a = chars_of(now.as_str());
        let b = chars_of(was.as_str());
        if crate::text::seq_eq(a.as_slice(), b.as_slice()) {
            return None;
        }
        set_value(self, j, now);
        assert(well_formed(self@)) by {
            assert forall|i: int| 0 <= i < self@.fields.len() implies self@.fields[i].kind
                == p1.fields[i].kind && self@.fields[i].choice == p1.fields[i].choice
                && self@.fields[i].label == p1.fields[i].label by {}
        }
        let mut m = chars_of("the database is on ");
        crate::text::extend(&mut m, chars_of(choice).as_slice());
        crate::text::extend(&mut m, chars_of(" itself, so the forward points at its 127.0.0.1").as_slice());
        Some(string_of(m.as_slice()))
    }
}

/// The wizard a picked engine or connection opens: the add wizard for an
/// engine, the password wizard for a connection. A value that names neither
/// opens nothing, and a field being filled is the open wizard's business.
pub open spec fn picked_spec(
    action: PickerAction,
    choice: Seq<char>,
    conns: Seq<ConnV>,
    pgservicefile: Option<Seq<char>>,
    home: Seq<char>,
    config_dir: Seq<char>,
) -> Option<PromptV> {
    match action {
        PickerAction::NewConnEngine => match crate::engines::from_slug_spec(choice) {
            Some(e) => Some(
                crate::forms::add_conn_spec(e, store_spec(e, pgservicefile, home, config_dir), home),
            ),
            None => None,
        },
        PickerAction::PasswordFor => match conn_by_key(conns, choice) {
            Some(c) => Some(crate::forms::password_spec(c)),
            None => None,
        },
        PickerAction::FillField { .. } => None,
    }
}

pub fn picked(
    action: PickerAction,
    choice: &str,
    conns: &Vec<Conn>,
    pgservicefile: Option<&str>,
    home: &str,
    config_dir: &str,
) -> (r: Option<Prompt>)
    ensures
        match r {
            Some(p) => picked_spec(
                action,
                choice@,
                crate::engines::conn_views(conns@),
                opt_view(pgservicefile),
                home@,
                config_dir@,
            ) == Some(p@) && well_formed(p@),
            None => picked_spec(
                action,
                choice@,
                crate::engines::conn_views(conns@),
                opt_view(pgservicefile),
                home@,
                config_dir@,
            ) is None,
        },
{
    match action {
        PickerAction::NewConnEngine => match Engine::from_slug(choice) {
            Some(e) => Some(Prompt::add_conn_in(e, pgservicefile, home, config_dir)),
            None => None,
        },
        PickerAction::PasswordFor => match by_key(conns, choice) {
            Some(c) => Some(Prompt::password(c)),
            None => None,
        },
        PickerAction::FillField { .. } => None,
    }
}

/// One row of the engine picker: the engine, its client, and, when the
/// client is not installed, the package that brings it (the part nobody can
/// guess), or that there is none on this machine. Its value is the slug.
pub open spec fn engine_row_spec(e: Engine, installed: bool, manager: Option<PackageManager>) -> (
    Seq<char>,
    Seq<char>,
) {
    let tail = if installed {
        Seq::<char>::empty()
    } else {
        match (match manager {
            Some(m) => crate::engines::package_of(m, e),
            None => None,
        }) {
            Some(pkg) => "needs "@ + pkg,
            None => "no "@ + default_client_of(e) + " on this machine"@,
        }
    };
    (
        crate::screen::pad_spec(label_of(e), 9) + " "@ + crate::screen::pad_spec(default_client_of(e), 8)
            + tail,
        slug_of(e),
    )
}

/// The engine picker behind `c` on the Connections tab: every engine, in the
/// house order. `installed` says, by engine, whether its client is here.
pub fn pick_engine(installed: &[bool], manager: Option<PackageManager>) -> (r: Picker)
    requires
        installed@.len() == 4,
    ensures
        r@ == keyed_spec(
            "Which database?"@,
            Seq::new(
                4,
                |i: int| engine_row_spec(crate::engines::engine_order()[i], installed@[i], manager),
            ),
            PickerAction::NewConnEngine,
        ),
{
    let es = crate::engines::all_engines();
    let ghost want = Seq::new(
        4,
        |i: int| engine_row_spec(crate::engines::engine_order()[i], installed@[i], manager),
    );
    let mut rows: Vec<(String, String)> = Vec::new();
    let mut i: usize = 0;
    while i < es.len()
        invariant
            i <= 4,
            es@ == crate::engines::engine_order(),
            installed@.len() == 4,
            want == Seq::new(
                4,
                |k: int| engine_row_spec(crate::engines::engine_order()[k], installed@[k], manager),
            ),
            kviews(rows@) == want.take(i as int),
        decreases 4 - i,
    {
        let e = es[i];
        let mut shown = chars_of(crate::screen::pad(e.label(), 9).as_str());
        crate::text::extend(&mut shown, chars_of(" ").as_slice());
        crate::text::extend(&mut shown, chars_of(crate::screen::pad(e.default_client(), 8).as_str()).as_slice());
        if !installed[i] {
            match crate::engines::install_package(e, manager) {
                Some(pkg) => {
                    crate::text::extend(&mut shown, chars_of("needs ").as_slice());
                    crate::text::extend(&mut shown, chars_of(pkg).as_slice());
                },
                None => {
                    crate::text::extend(&mut shown, chars_of("no ").as_slice());
                    crate::text::extend(&mut shown, chars_of(e.default_client()).as_slice());
                    crate::text::extend(&mut shown, chars_of(" on this machine").as_slice());
                },
            }
        }
        let ghost sv = shown@;
        let ghost prev = kviews(rows@);
        rows.push((string_of(shown.as_slice()), e.slug().to_string()));
        assert(kviews(rows@) =~= prev.push((sv, slug_of(e))));
        assert(want[i as int] == (sv, slug_of(e)));
        i = i + 1;
        assert(want.take(i as int) =~= want.take(i - 1).push(want[i - 1]));
    }
    assert(want.take(4) =~= want);
    Picker::keyed("Which database?".to_string(), rows, PickerAction::NewConnEngine)
}

/// The rows of the password picker: only the connections whose client reads
/// a password file of its own (a SQLite file has nothing to unlock, and
/// sqlcmd asks for itself), each as engine, name and target, answering with
/// its key.
pub open spec fn target_rows(cs: Seq<ConnV>, home: Seq<char>) -> Seq<(Seq<char>, Seq<char>)>
    decreases cs.len(),
{
    if cs.len() == 0 {
        seq![]
    } else {
        let rest = target_rows(cs.drop_last(), home);
        let c = cs.last();
        if crate::engines::stores_password_spec(c.engine) {
            rest.push(
                (
                    crate::screen::pad_spec(label_of(c.engine), 9) + " "@ + crate::screen::pad_spec(c.name, 16)
                        + " "@ + crate::engines::target_spec(c, home),
                    key_of(c),
                ),
            )
        } else {
            rest
        }
    }
}

/// Which connection a new password is for; when no connection can hold one,
/// what to say instead.
pub fn pick_password_target(conns: &Vec<Conn>, home: &str) -> (r: Result<Picker, String>)
    ensures
        ({
            let rows = target_rows(crate::engines::conn_views(conns@), home@);
            match r {
                Ok(p) => rows.len() > 0 && p@ == keyed_spec(
                    "Which connection is this password for?"@,
                    rows,
                    PickerAction::PasswordFor,
                ),
                Err(m) => rows.len() == 0 && m@
                    == "no connections to save a password for yet (press c on Connections)"@,
            }
        }),
{
    let ghost cv = crate::engines::conn_views(conns@);
    let mut rows: Vec<(String, String)> = Vec::new();
    let mut i: usize = 0;
    while i < conns.len()
        invariant
            i <= conns@.len(),
            cv == crate::engines::conn_views(conns@),
            kviews(rows@) == target_rows(cv.take(i as int), home@),
        decreases conns@.len() - i,
    {
        let c = &conns[i];
        assert(cv.take(i + 1).drop_last() =~= cv.take(i as int));
        assert(cv.take(i + 1).last() == c@);
        if c.engine.stores_password() {
            let mut shown = chars_of(crate::screen::pad(c.engine.label(), 9).as_str());
            crate::text::extend(&mut shown, chars_of(" ").as_slice());
            crate::text::extend(&mut shown, chars_of(crate::screen::pad(c.name.as_str(), 16).as_str()).as_slice());
            crate::text::extend(&mut shown, chars_of(" ").as_slice());
            crate::text::extend(&mut shown, chars_of(c.target_in(home).as_str()).as_slice());
            let ghost sv = shown@;
            let k = c.key();
            let ghost kv = k@;
            let ghost prev = kviews(rows@);
            rows.push((string_of(shown.as_slice()), k));
            assert(kviews(rows@) =~= prev.push((sv, kv)));
        }
        i = i + 1;
    }
    assert(cv.take(conns@.len() as int) =~= cv);
    if rows.len() == 0 {
        return Err("no connections to save a password for yet (press c on Connections)".to_string());
    }
    Ok(Picker::keyed("Which connection is this password for?".to_string(), rows, PickerAction::PasswordFor))
}

/// In a picker, a step up undoes a step down, round the ends of the list.
pub proof fn lemma_picker_up_undoes_down(p: PickerV)
    requires
        p.items.len() > 0,
        p.idx < p.items.len(),
        p.items.len() <= usize::MAX,
    ensures
        picker_key_spec(
            picker_key_spec(p, KeyPress { code: Key::Down, ctrl: false }).0,
            KeyPress { code: Key::Up, ctrl: false },
        ).0 == p,
{
    let l = p.items.len() as int;
    let i = p.idx as int;
    let d = picker_key_spec(p, KeyPress { code: Key::Down, ctrl: false }).0;
    if i + 1 < l {
        vstd::arithmetic::div_mod::lemma_small_mod((i + 1) as nat, l as nat);
        assert(d.idx == i + 1);
        vstd::arithmetic::div_mod::lemma_mod_add_multiples_vanish(i, l);
        vstd::arithmetic::div_mod::lemma_small_mod(i as nat, l as nat);
        assert(d.idx + l - 1 == i + l);
    } else {
        vstd::arithmetic::div_mod::lemma_mod_self_0(l);
        assert(d.idx == 0);
        vstd::arithmetic::div_mod::lemma_small_mod((l - 1) as nat, l as nat);
    }
}

} // verus!
