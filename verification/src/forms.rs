//! The wizards, as data: a list of fields, what kind each one is, how the
//! cursor steps through them, and the command or line a form shows it will run
//! or write. Nothing here draws; it is what the drawing reads.

use crate::creds::{Cred, CredV};
use crate::engines::pg::or_empty;
use crate::engines::pg::set_read_only_spec;
use crate::engines::{connect_argv_spec, connect_env_spec, default_port_of, label_of, port_or_default_spec, slug_of, store_spec, Conn, ConnV, Engine};
use crate::ini::{
    collapse_in, collapse_tilde_in, config_dir, home, key_index, kviews, lemma_key_index,
    lemma_key_index_props, lookup, opt_view,
};
use crate::settings::{Row, SettingsV, Settings};
use crate::snippets::{summary_spec, Snippet};
use crate::sshhosts::{is_same_machine, plain, same_machine_spec};
use crate::text::{chars_of, ends_with, eq_ic, extend, join, string_of, trim, trimmed, views};
use crate::widgets::{shell_join_display_in, shell_join_display_spec, with_env, with_env_spec};
use crate::vias::{default_host, default_host_spec, pair_views, Via};
use vstd::prelude::*;

verus! {

/// What kind of answer a field takes.
pub enum Kind {
    Text,
    /// A fixed set of answers cycled in place. Nothing is typed here.
    Choice(Vec<String>),
    /// A typed value that is never painted back: the one field that carries a
    /// password. It goes straight into the file the client reads.
    Secret,
}

pub enum KindV {
    Text,
    Choice(Seq<Seq<char>>),
    Secret,
}

impl View for Kind {
    type V = KindV;

    open spec fn view(&self) -> KindV {
        match self {
            Kind::Text => KindV::Text,
            Kind::Choice(o) => KindV::Choice(views(o@)),
            Kind::Secret => KindV::Secret,
        }
    }
}

/// One editable line in a wizard: a label in the left column, a value in the
/// right. `default` is what a blank field submits and stands in as the dim
/// example until something is typed.
pub struct Field {
    pub label: String,
    pub default: String,
    /// The dim example shown while the field is empty: what the field wants,
    /// not what it is called.
    pub hint: String,
    pub value: String,
    pub kind: Kind,
    /// Which option a `Choice` field has selected.
    pub choice: usize,
    /// Marked with a `*`: the submit path refuses to go without it.
    pub required: bool,
}

pub struct FieldV {
    pub label: Seq<char>,
    pub default: Seq<char>,
    pub hint: Seq<char>,
    pub value: Seq<char>,
    pub kind: KindV,
    pub choice: usize,
    pub required: bool,
}

impl View for Field {
    type V = FieldV;

    open spec fn view(&self) -> FieldV {
        FieldV {
            label: self.label@,
            default: self.default@,
            hint: self.hint@,
            value: self.value@,
            kind: self.kind@,
            choice: self.choice,
            required: self.required,
        }
    }
}

pub open spec fn field_views(v: Seq<Field>) -> Seq<FieldV> {
    v.map_values(|f: Field| f@)
}

/// A typed field with a default and a starting value.
pub open spec fn text_field(label: Seq<char>, default: Seq<char>, value: Seq<char>) -> FieldV {
    FieldV {
        label,
        default,
        hint: seq![],
        value,
        kind: KindV::Text,
        choice: 0,
        required: false,
    }
}

/// `f` with the `*`.
pub open spec fn marked_required(f: FieldV) -> FieldV {
    FieldV { required: true, ..f }
}

/// `f` with a dim example.
pub open spec fn with_hint(f: FieldV, hint: Seq<char>) -> FieldV {
    FieldV { hint, ..f }
}

/// A cycled answer starting on the option at `at`, or the last one.
pub open spec fn choice_field(label: Seq<char>, options: Seq<Seq<char>>, at: usize) -> FieldV {
    let last: usize = if options.len() == 0 {
        0
    } else {
        (options.len() - 1) as usize
    };
    FieldV {
        label,
        default: seq![],
        hint: seq![],
        value: seq![],
        kind: KindV::Choice(options),
        choice: if at < last {
            at
        } else {
            last
        },
        required: false,
    }
}

/// What stands in the value column while the field is empty: what a blank
/// submits, then what it wants typed.
pub open spec fn placeholder_spec(f: FieldV) -> Seq<char> {
    if f.default.len() > 0 && f.hint.len() > 0 {
        f.default + "  "@ + f.hint
    } else if f.default.len() > 0 {
        f.default
    } else {
        f.hint
    }
}

/// Whether a field can be painted: a cycled answer that is not a two-way
/// toggle shows the option it is on, so it must be on one.
pub open spec fn paintable(f: FieldV) -> bool {
    match f.kind {
        KindV::Choice(o) => o.len() == 2 || f.choice < o.len(),
        _ => true,
    }
}

/// What the wizard paints for a field's value.
pub open spec fn display_spec(f: FieldV) -> Seq<char> {
    match f.kind {
        KindV::Text => f.value,
        KindV::Choice(o) => if o.len() == 2 {
            " "@ + o[0] + "    "@ + o[1] + " "@
        } else {
            "‹ "@ + o[f.choice as int] + " ›"@
        },
        KindV::Secret => Seq::new(f.value.len(), |i: int| '•'),
    }
}

fn strings_from(v: &[&str]) -> (r: Vec<String>)
    ensures
        views(r@) == v@.map_values(|s: &str| s@),
{
    let mut r: Vec<String> = Vec::new();
    let mut i: usize = 0;
    while i < v.len()
        invariant
            i <= v@.len(),
            views(r@) == v@.map_values(|s: &str| s@).take(i as int),
        decreases v@.len() - i,
    {
        let ghost prev = views(r@);
        r.push(v[i].to_string());
        assert(views(r@) =~= prev.push(v@[i as int]@));
        i = i + 1;
        assert(v@.map_values(|s: &str| s@).take(i as int) =~= v@.map_values(|s: &str| s@).take(
            i - 1,
        ).push(v@[i - 1]@));
    }
    assert(v@.map_values(|s: &str| s@).take(v@.len() as int) =~= v@.map_values(|s: &str| s@));
    r
}

impl Field {
    pub fn new(label: &str, default: &str) -> (r: Field)
        ensures
            r@ == text_field(label@, default@, seq![]),
    {
        Field {
            label: label.to_string(),
            default: default.to_string(),
            hint: String::new(),
            value: String::new(),
            kind: Kind::Text,
            choice: 0,
            required: false,
        }
    }

    /// A field that starts pre-filled with `value`, for the edit wizard.
    pub fn filled(label: &str, value: &str) -> (r: Field)
        ensures
            r@ == text_field(label@, seq![], value@),
    {
        Field {
            label: label.to_string(),
            default: String::new(),
            hint: String::new(),
            value: value.to_string(),
            kind: Kind::Text,
            choice: 0,
            required: false,
        }
    }

    pub fn secret(label: &str) -> (r: Field)
        ensures
            r@ == (FieldV { kind: KindV::Secret, ..text_field(label@, seq![], seq![]) }),
    {
        Field {
            label: label.to_string(),
            default: String::new(),
            hint: String::new(),
            value: String::new(),
            kind: Kind::Secret,
            choice: 0,
            required: false,
        }
    }

    /// The submit path refuses a blank here, so it gets the `*`.
    pub fn required(self) -> (r: Field)
        ensures
            r@ == marked_required(self@),
    {
        let mut f = self;
        f.required = true;
        f
    }

    /// The dim example shown while the field is empty.
    pub fn hint(self, hint: &str) -> (r: Field)
        ensures
            r@ == with_hint(self@, hint@),
    {
        let mut f = self;
        f.hint = hint.to_string();
        f
    }

    /// What stands in the value column while the field is empty.
    pub fn placeholder(&self) -> (r: String)
        ensures
            r@ == placeholder_spec(self@),
    {
        let d = self.default.as_str();
        let h = self.hint.as_str();
        if !d.is_empty() && !h.is_empty() {
            let mut v = chars_of(d);
            extend(&mut v, chars_of("  ").as_slice());
            extend(&mut v, chars_of(h).as_slice());
            string_of(v.as_slice())
        } else if !d.is_empty() {
            self.default.clone()
        } else {
            self.hint.clone()
        }
    }

    /// A cycled answer, starting on the option at `at`.
    pub fn choice(label: &str, options: &[&str], at: usize) -> (r: Field)
        ensures
            r@ == choice_field(label@, options@.map_values(|s: &str| s@), at),
    {
        let opts = strings_from(options);
        let last: usize = if options.len() == 0 {
            0
        } else {
            options.len() - 1
        };
        Field {
            label: label.to_string(),
            default: String::new(),
            hint: String::new(),
            value: String::new(),
            kind: Kind::Choice(opts),
            choice: if at < last {
                at
            } else {
                last
            },
            required: false,
        }
    }

    /// What the wizard paints for this field's value.
    pub fn display(&self) -> (r: String)
        requires
            paintable(self@),
        ensures
            r@ == display_spec(self@),
    {
        match &self.kind {
            Kind::Text => self.value.clone(),
            Kind::Choice(options) => {
                if options.len() == 2 {
                    let mut v = chars_of(" ");
                    extend(&mut v, chars_of(options[0].as_str()).as_slice());
                    extend(&mut v, chars_of("    ").as_slice());
                    extend(&mut v, chars_of(options[1].as_str()).as_slice());
                    extend(&mut v, chars_of(" ").as_slice());
                    string_of(v.as_slice())
                } else {
                    let mut v = chars_of("‹ ");
                    extend(&mut v, chars_of(options[self.choice].as_str()).as_slice());
                    extend(&mut v, chars_of(" ›").as_slice());
                    string_of(v.as_slice())
                }
            },
            Kind::Secret => {
                let n = chars_of(self.value.as_str()).len();
                let mut v: Vec<char> = Vec::new();
                while v.len() < n
                    invariant
                        v.len() <= n,
                        v@ == Seq::new(v.len() as nat, |i: int| '•'),
                    decreases n - v.len(),
                {
                    v.push('•');
                    assert(v@ =~= Seq::new(v.len() as nat, |i: int| '•'));
                }
                string_of(v.as_slice())
            },
        }
    }

    pub fn is_choice(&self) -> (r: bool)
        ensures
            r == (self@.kind is Choice),
    {
        match &self.kind {
            Kind::Choice(_) => true,
            _ => false,
        }
    }
}

/// What a wizard does once submitted. Each variant owns whatever it needs.
#[derive(Clone)]
pub enum Action {
    AddConn { engine: Engine },
    EditConn { engine: Engine, original: String },
    /// Write a password into the file that engine's client reads. `name` is
    /// the connection whose group takes it (MySQL); a `.pgpass` line stands
    /// on its own four fields.
    SetPassword { engine: Engine, name: String },
    /// Write a saved query. `original` is set when renaming an existing one.
    Snippet { original: Option<String> },
    /// Move a `.pgpass` entry to different match fields, keeping its secret.
    EditPassword { idx: usize },
    /// Open an `ssh -L` for the connection with this key.
    Forward { key: String },
    /// Change one typed setting.
    EditSetting { key: String, label: String },
}

pub enum ActionV {
    AddConn { engine: Engine },
    EditConn { engine: Engine, original: Seq<char> },
    SetPassword { engine: Engine, name: Seq<char> },
    Snippet { original: Option<Seq<char>> },
    EditPassword { idx: usize },
    Forward { key: Seq<char> },
    EditSetting { key: Seq<char>, label: Seq<char> },
}

impl View for Action {
    type V = ActionV;

    open spec fn view(&self) -> ActionV {
        match self {
            Action::AddConn { engine } => ActionV::AddConn { engine: *engine },
            Action::EditConn { engine, original } => ActionV::EditConn {
                engine: *engine,
                original: original@,
            },
            Action::SetPassword { engine, name } => ActionV::SetPassword {
                engine: *engine,
                name: name@,
            },
            Action::Snippet { original } => ActionV::Snippet {
                original: match original {
                    Some(o) => Some(o@),
                    None => None,
                },
            },
            Action::EditPassword { idx } => ActionV::EditPassword { idx: *idx },
            Action::Forward { key } => ActionV::Forward { key: key@ },
            Action::EditSetting { key, label } => ActionV::EditSetting {
                key: key@,
                label: label@,
            },
        }
    }
}

/// A modal wizard: a titled stack of fields, the one the cursor is on, and
/// the action to run on submit.
pub struct Prompt {
    pub title: String,
    pub fields: Vec<Field>,
    pub idx: usize,
    pub action: Action,
}

pub struct PromptV {
    pub title: Seq<char>,
    pub fields: Seq<FieldV>,
    pub idx: usize,
    pub action: ActionV,
}

impl View for Prompt {
    type V = PromptV;

    open spec fn view(&self) -> PromptV {
        PromptV {
            title: self.title@,
            fields: field_views(self.fields@),
            idx: self.idx,
            action: self.action@,
        }
    }
}

/// The fields a connection form reads by position: a name and a file for
/// SQLite; a name, host, port, database and user otherwise, and for Postgres
/// the encryption choice after them.
pub open spec fn conn_shape(fs: Seq<FieldV>, engine: Engine) -> bool {
    if engine == Engine::Sqlite {
        fs.len() >= 2
    } else if engine == Engine::Pg {
        fs.len() >= 6 && fs[5].kind == KindV::Choice(sslmodes())
    } else {
        fs.len() >= 5
    }
}

/// Every cycled field has an answer to be on, and is on one.
pub open spec fn choices_ok(fs: Seq<FieldV>) -> bool {
    forall|i: int|
        0 <= i < fs.len() ==> match (#[trigger] fs[i]).kind {
            KindV::Choice(o) => 0 < o.len() && fs[i].choice < o.len(),
            _ => true,
        }
}

/// The fields each action reads by position are there, the cursor is on a
/// field, and every cycled field is on one of its answers.
pub open spec fn well_formed(p: PromptV) -> bool {
    &&& choices_ok(p.fields)
    &&& p.idx < p.fields.len()
    &&& p.fields.len() <= usize::MAX / 2
    &&& match p.action {
        ActionV::AddConn { engine } => conn_shape(p.fields, engine),
        ActionV::EditConn { engine, .. } => conn_shape(p.fields, engine),
        ActionV::SetPassword { engine, .. } => engine == Engine::Pg ==> p.fields.len() >= 4,
        ActionV::EditPassword { .. } => p.fields.len() >= 4,
        ActionV::Forward { .. } => p.fields.len() >= 4,
        ActionV::Snippet { .. } => p.fields.len() >= 2,
        _ => true,
    }
}

/// What `sslmode` can be, in libpq's own words, with "leave it alone" first so
/// a connection that never mentioned SSL does not silently gain an opinion.
pub open spec fn sslmodes() -> Seq<Seq<char>> {
    seq!["(unset)"@, "prefer"@, "require"@, "verify-ca"@, "verify-full"@, "disable"@]
}

/// What SQL Server's certificate answer can be. Validating is first because it
/// is `sqlcmd`'s own default.
pub open spec fn trust_cert_options() -> Seq<Seq<char>> {
    seq!["validate"@, "trust it (-C)"@]
}

/// Whether every session on a connection refuses writes; "no" first so a new
/// connection is writable unless somebody decides otherwise.
pub open spec fn read_only_options() -> Seq<Seq<char>> {
    seq!["no"@, "yes"@]
}

/// Where `v` first stands among `opts`.
pub open spec fn position(opts: Seq<Seq<char>>, v: Seq<char>) -> Option<int>
    decreases opts.len(),
{
    if opts.len() == 0 {
        None
    } else if opts[0] == v {
        Some(0)
    } else {
        match position(opts.drop_first(), v) {
            Some(i) => Some(i + 1),
            None => None,
        }
    }
}

pub open spec fn conn_view(from: Option<&Conn>) -> Option<ConnV> {
    match from {
        Some(c) => Some(c@),
        None => None,
    }
}

/// What the block being edited says under `key`, or nothing.
pub open spec fn extra_of(from: Option<ConnV>, key: Seq<char>) -> Seq<char> {
    match from {
        Some(c) => or_empty(lookup(c.extra, key)),
        None => seq![],
    }
}

/// A field of the connection being edited, or empty for a new one.
pub open spec fn pick(from: Option<ConnV>, f: spec_fn(ConnV) -> Seq<char>) -> Seq<char> {
    match from {
        Some(c) => f(c),
        None => seq![],
    }
}

/// The read-only toggle, starting on what the file already says.
pub open spec fn read_only_field_spec(from: Option<ConnV>) -> FieldV {
    choice_field(
        "Read only"@,
        read_only_options(),
        if from matches Some(c) && crate::engines::conn_read_only(c) {
            1
        } else {
            0
        },
    )
}

pub open spec fn name_field(v: Seq<char>) -> FieldV {
    with_hint(marked_required(text_field("Name"@, seq![], v)), "what you type after esql"@)
}

/// The fields that describe a connection, which differ by engine because a
/// SQLite database is a file with no host, port, user or transport to secure.
pub open spec fn conn_fields_spec(engine: Engine, from: Option<ConnV>) -> Seq<FieldV> {
    let name = name_field(pick(from, |c: ConnV| c.name));
    if engine == Engine::Sqlite {
        seq![
            name,
            marked_required(text_field("Database file"@, seq![], pick(from, |c: ConnV| c.database))),
            read_only_field_spec(from),
        ]
    } else {
        let base = seq![
            name,
            with_hint(text_field("Host"@, seq![], pick(from, |c: ConnV| c.host)), "IP or DNS name"@),
            text_field("Port"@, default_port_of(engine), pick(from, |c: ConnV| c.port)),
            text_field("Database"@, seq![], pick(from, |c: ConnV| c.database)),
            text_field("User"@, seq![], pick(from, |c: ConnV| c.user)),
        ];
        match engine {
            Engine::Pg => base + seq![
                choice_field(
                    "Encryption"@,
                    sslmodes(),
                    match position(sslmodes(), extra_of(from, "sslmode"@)) {
                        Some(i) => i as usize,
                        None => 0,
                    },
                ),
                read_only_field_spec(from),
            ],
            Engine::MsSql => base + seq![
                choice_field(
                    "Certificate"@,
                    trust_cert_options(),
                    if extra_of(from, "trust_cert"@) == "yes"@ {
                        1
                    } else {
                        0
                    },
                ),
            ],
            _ => base,
        }
    }
}

/// The first value under `key` (ignoring case), or empty.
pub fn value_of(extra: &[(String, String)], key: &str) -> (r: String)
    ensures
        r@ == or_empty(lookup(kviews(extra@), key@)),
{
    let k = chars_of(key);
    let mut i: usize = 0;
    while i < extra.len()
        invariant
            i <= extra@.len(),
            k@ == key@,
            forall|j: int|
                0 <= j < i ==> !crate::text::eq_ic(#[trigger] kviews(extra@)[j].0, key@),
        decreases extra@.len() - i,
    {
        let name = chars_of(extra[i].0.as_str());
        assert(kviews(extra@)[i as int].0 == name@);
        if crate::text::eq_ignore_case(name.as_slice(), k.as_slice()) {
            proof {
                lemma_key_index(kviews(extra@), key@, i as int);
            }
            return extra[i].1.clone();
        }
        i = i + 1;
    }
    proof {
        lemma_key_index(kviews(extra@), key@, i as int);
    }
    String::new()
}

fn position_of(opts: &[&str], v: &str) -> (r: Option<usize>)
    ensures
        match r {
            Some(i) => position(opts@.map_values(|s: &str| s@), v@) == Some(i as int),
            None => position(opts@.map_values(|s: &str| s@), v@) is None,
        },
{
    let ghost o = opts@.map_values(|s: &str| s@);
    let w = chars_of(v);
    let mut i: usize = 0;
    while i < opts.len()
        invariant
            i <= opts@.len(),
            o == opts@.map_values(|s: &str| s@),
            w@ == v@,
            forall|j: int| 0 <= j < i ==> o[j] != v@,
        decreases opts@.len() - i,
    {
        let a = chars_of(opts[i]);
        if crate::text::seq_eq(a.as_slice(), w.as_slice()) {
            proof {
                lemma_position(o, v@, i as int);
            }
            return Some(i);
        }
        i = i + 1;
    }
    proof {
        lemma_position(o, v@, i as int);
    }
    None
}

proof fn lemma_position(opts: Seq<Seq<char>>, v: Seq<char>, i: int)
    requires
        0 <= i <= opts.len(),
        forall|j: int| 0 <= j < i ==> opts[j] != v,
    ensures
        i < opts.len() && opts[i] == v ==> position(opts, v) == Some(i),
        i == opts.len() ==> position(opts, v) is None,
    decreases i,
{
    if i > 0 {
        lemma_position(opts.drop_first(), v, i - 1);
    }
}

/// The read-only toggle, starting on what the file already says.
fn read_only_field(from: Option<&Conn>) -> (r: Field)
    ensures
        r@ == read_only_field_spec(conn_view(from)),
{
    let on = match from {
        Some(c) => c.read_only(),
        None => false,
    };
    let opts = ["no", "yes"];
    proof {
        reveal_strlit("no");
        reveal_strlit("yes");
    }
    assert(opts@.map_values(|s: &str| s@) =~= read_only_options());
    Field::choice("Read only", &opts, if on {
        1
    } else {
        0
    })
}

pub fn conn_fields(engine: Engine, from: Option<&Conn>) -> (r: Vec<Field>)
    ensures
        field_views(r@) == conn_fields_spec(engine, conn_view(from)),
{
    let ghost fv = conn_view(from);
    let name = match from {
        Some(c) => c.name.clone(),
        None => String::new(),
    };
    let database = match from {
        Some(c) => c.database.clone(),
        None => String::new(),
    };
    assert(name@ == pick(fv, |c: ConnV| c.name));
    assert(database@ == pick(fv, |c: ConnV| c.database));
    let name_f = Field::filled("Name", name.as_str()).required().hint("what you type after esql");
    if engine == Engine::Sqlite {
        let r = vec![
            name_f,
            Field::filled("Database file", database.as_str()).required(),
            read_only_field(from),
        ];
        assert(field_views(r@) =~= conn_fields_spec(engine, fv));
        return r;
    }
    let host = match from {
        Some(c) => c.host.clone(),
        None => String::new(),
    };
    let port = match from {
        Some(c) => c.port.clone(),
        None => String::new(),
    };
    let user = match from {
        Some(c) => c.user.clone(),
        None => String::new(),
    };
    assert(host@ == pick(fv, |c: ConnV| c.host));
    assert(port@ == pick(fv, |c: ConnV| c.port));
    assert(user@ == pick(fv, |c: ConnV| c.user));
    let mut r = vec![
        name_f,
        Field::filled("Host", host.as_str()).hint("IP or DNS name"),
        Field {
            label: "Port".to_string(),
            default: engine.default_port().to_string(),
            hint: String::new(),
            value: port,
            kind: Kind::Text,
            choice: 0,
            required: false,
        },
        Field::filled("Database", database.as_str()),
        Field::filled("User", user.as_str()),
    ];
    match engine {
        Engine::Pg => {
            let mode = match from {
                Some(c) => value_of(c.extra.as_slice(), "sslmode"),
                None => String::new(),
            };
            assert(mode@ == extra_of(fv, "sslmode"@));
            let modes = ["(unset)", "prefer", "require", "verify-ca", "verify-full", "disable"];
            proof {
                reveal_strlit("(unset)");
                reveal_strlit("prefer");
                reveal_strlit("require");
                reveal_strlit("verify-ca");
                reveal_strlit("verify-full");
                reveal_strlit("disable");
            }
            assert(modes@.map_values(|s: &str| s@) =~= sslmodes());
            let at = match position_of(&modes, mode.as_str()) {
                Some(i) => i,
                None => 0,
            };
            r.push(Field::choice("Encryption", &modes, at));
            r.push(read_only_field(from));
        },
        Engine::MsSql => {
            let t = match from {
                Some(c) => value_of(c.extra.as_slice(), "trust_cert"),
                None => String::new(),
            };
            assert(t@ == extra_of(fv, "trust_cert"@));
            let yes = chars_of("yes");
            let tv = chars_of(t.as_str());
            let at: usize = if crate::text::seq_eq(tv.as_slice(), yes.as_slice()) {
                1
            } else {
                0
            };
            let opts = ["validate", "trust it (-C)"];
            proof {
                reveal_strlit("validate");
                reveal_strlit("trust it (-C)");
            }
            assert(opts@.map_values(|s: &str| s@) =~= trust_cert_options());
            r.push(Field::choice("Certificate", &opts, at));
        },
        _ => {},
    }
    assert(field_views(r@) =~= conn_fields_spec(engine, fv));
    r
}

fn append(v: &mut Vec<char>, s: &str)
    ensures
        final(v)@ == old(v)@ + s@,
{
    extend(v, chars_of(s).as_slice());
}

pub open spec fn add_conn_spec(engine: Engine, store: Seq<char>, home: Seq<char>) -> PromptV {
    PromptV {
        title: "Add a "@ + label_of(engine) + " connection to "@ + collapse_in(home, store),
        fields: conn_fields_spec(engine, None),
        idx: 0,
        action: ActionV::AddConn { engine },
    }
}

pub open spec fn edit_conn_spec(c: ConnV) -> PromptV {
    PromptV {
        title: "edit "@ + label_of(c.engine) + " connection '"@ + c.name + "'"@,
        fields: conn_fields_spec(c.engine, Some(c)),
        idx: 0,
        action: ActionV::EditConn { engine: c.engine, original: c.name },
    }
}

pub open spec fn password_field() -> FieldV {
    with_hint(
        marked_required(FieldV { kind: KindV::Secret, ..text_field("Password"@, seq![], seq![]) }),
        "never shown, never in an argv"@,
    )
}

/// The password wizard. Postgres gets the four fields a `.pgpass` line
/// matches on, pre-filled from the connection, the database widened to `*`
/// because a role's password is the same on every database of its server.
/// MySQL keeps its password inside the connection's own group, so there is
/// nothing to match and nothing to ask.
pub open spec fn password_spec(c: ConnV) -> PromptV {
    PromptV {
        title: "save the password for '"@ + c.name + "'"@,
        fields: if c.engine == Engine::Pg {
            seq![
                text_field("Host"@, seq![], if c.host.len() == 0 { "localhost"@ } else { c.host }),
                text_field("Port"@, seq![], port_or_default_spec(c)),
                text_field("Database"@, seq![], "*"@),
                text_field("User"@, seq![], c.user),
                password_field(),
            ]
        } else {
            seq![password_field()]
        },
        idx: 0,
        action: ActionV::SetPassword { engine: c.engine, name: c.name },
    }
}

/// What the far end of a `-L` should say: the host in the spec is resolved by
/// the ssh host, so when the database sits on that very machine the answer is
/// its loopback; anywhere else the address stays as it was.
pub open spec fn forward_target_spec(config: Seq<char>, via: Seq<char>, db_host: Seq<char>) -> Seq<char> {
    if db_host.len() == 0 {
        "localhost"@
    } else if same_machine_spec(config, via, db_host) {
        "127.0.0.1"@
    } else {
        db_host
    }
}

/// The ssh host a tunnel goes through: the setting when it is set, else the
/// one this connection, or every recorded forward, already uses.
pub open spec fn forward_via(c: ConnV, s: SettingsV, recorded: Seq<(Seq<char>, crate::vias::ViaV)>) -> Seq<char> {
    if s.tunnel_host.len() == 0 {
        or_empty(default_host_spec(recorded, slug_of(c.engine) + ":"@ + c.name))
    } else {
        s.tunnel_host
    }
}

pub open spec fn forward_spec(
    c: ConnV,
    s: SettingsV,
    recorded: Seq<(Seq<char>, crate::vias::ViaV)>,
    config: Seq<char>,
) -> PromptV {
    let via = forward_via(c, s, recorded);
    PromptV {
        title: "reach "@ + c.name + " through an ssh host (ssh -L)"@,
        fields: seq![
            with_hint(marked_required(text_field("Tunnel through"@, seq![], via)), "an ssh host"@),
            marked_required(text_field("Database host"@, seq![], forward_target_spec(config, via, c.host))),
            marked_required(text_field("Database port"@, seq![], port_or_default_spec(c))),
            with_hint(text_field("Local port"@, "= database port"@, seq![]), "where you'll reach it"@),
        ],
        idx: 0,
        action: ActionV::Forward { key: slug_of(c.engine) + ":"@ + c.name },
    }
}

pub open spec fn edit_password_spec(cred: CredV, idx: usize) -> PromptV {
    PromptV {
        title: "which connection is "@ + cred.user + "'s password for?"@,
        fields: seq![
            text_field("Host"@, seq![], cred.host),
            text_field("Port"@, seq![], cred.port),
            text_field("Database"@, seq![], cred.database),
            text_field("User"@, seq![], cred.user),
        ],
        idx: 0,
        action: ActionV::EditPassword { idx },
    }
}

pub open spec fn snippet_spec(from: Option<(Seq<char>, Seq<char>)>) -> PromptV {
    PromptV {
        title: match from {
            Some((name, _)) => "Edit the snippet '"@ + name + "'"@,
            None => "New saved query"@,
        },
        fields: seq![
            with_hint(
                marked_required(text_field("Name"@, seq![], match from { Some((n, _)) => n, None => seq![] })),
                "typed after the connection, as :name"@,
            ),
            with_hint(
                marked_required(text_field("SQL"@, seq![], match from { Some((_, q)) => summary_spec(q), None => seq![] })),
                "one line - o opens $EDITOR for a longer one"@,
            ),
        ],
        idx: 0,
        action: ActionV::Snippet { original: match from { Some((n, _)) => Some(n), None => None } },
    }
}

pub open spec fn edit_setting_spec(key: Seq<char>, label: Seq<char>, help: Seq<char>, value: Seq<char>, default: Seq<char>) -> PromptV {
    PromptV {
        title: "setting: "@ + label,
        fields: seq![text_field(help, default, value)],
        idx: 0,
        action: ActionV::EditSetting { key, label },
    }
}

/// What the far end of a `-L` should say, given the ssh config's text.
pub fn forward_target(config: &str, via: &str, db_host: &str) -> (r: String)
    requires
        plain(config@),
    ensures
        r@ == forward_target_spec(config@, via@, db_host@),
{
    if db_host.is_empty() {
        return "localhost".to_string();
    }
    if is_same_machine(config, via, db_host) {
        return "127.0.0.1".to_string();
    }
    db_host.to_string()
}

impl Prompt {
    /// The add wizard, titled with the file it writes as `~` shows it.
    pub fn add_conn_in(engine: Engine, pgservicefile: Option<&str>, home: &str, config: &str) -> (r: Prompt)
        ensures
            r@ == add_conn_spec(engine, store_spec(engine, opt_view(pgservicefile), home@, config@), home@),
            well_formed(r@),
    {
        let store = engine.store_in(pgservicefile, home, config);
        let mut t = chars_of("Add a ");
        append(&mut t, engine.label());
        append(&mut t, " connection to ");
        append(&mut t, collapse_tilde_in(home, store.as_str()).as_str());
        Prompt {
            title: string_of(t.as_slice()),
            fields: conn_fields(engine, None),
            idx: 0,
            action: Action::AddConn { engine },
        }
    }

    /// The add wizard on this machine.
    pub fn add_conn(engine: Engine, pgservicefile: Option<&str>) -> (r: Prompt)
        ensures
            exists|h: Seq<char>, c: Seq<char>|
                r@ == add_conn_spec(engine, store_spec(engine, opt_view(pgservicefile), h, c), h),
            well_formed(r@),
    {
        let h = home();
        let c = config_dir();
        Prompt::add_conn_in(engine, pgservicefile, h.as_str(), c.as_str())
    }

    pub fn edit_conn(c: &Conn) -> (r: Prompt)
        ensures
            r@ == edit_conn_spec(c@),
            well_formed(r@),
    {
        let mut t = chars_of("edit ");
        append(&mut t, c.engine.label());
        append(&mut t, " connection '");
        append(&mut t, c.name.as_str());
        append(&mut t, "'");
        Prompt {
            title: string_of(t.as_slice()),
            fields: conn_fields(c.engine, Some(c)),
            idx: 0,
            action: Action::EditConn { engine: c.engine, original: c.name.clone() },
        }
    }

    pub fn password(c: &Conn) -> (r: Prompt)
        ensures
            r@ == password_spec(c@),
            well_formed(r@),
    {
        let secret = Field::secret("Password").required().hint("never shown, never in an argv");
        let fields = if c.engine == Engine::Pg {
            let port = c.port_or_default();
            vec![
                Field::filled("Host", if c.host.as_str().is_empty() {
                    "localhost"
                } else {
                    c.host.as_str()
                }),
                Field::filled("Port", port.as_str()),
                Field::filled("Database", "*"),
                Field::filled("User", c.user.as_str()),
                secret,
            ]
        } else {
            vec![secret]
        };
        let mut t = chars_of("save the password for '");
        append(&mut t, c.name.as_str());
        append(&mut t, "'");
        let r = Prompt {
            title: string_of(t.as_slice()),
            fields,
            idx: 0,
            action: Action::SetPassword { engine: c.engine, name: c.name.clone() },
        };
        assert(r@.fields =~= password_spec(c@).fields);
        r
    }

    /// The tunnel wizard, opened against a connection so every field already
    /// knows its answer, given the recorded forwards and the ssh config.
    pub fn forward(c: &Conn, s: &Settings, recorded: &Vec<(String, Via)>, config: &str) -> (r: Prompt)
        requires
            plain(config@),
        ensures
            r@ == forward_spec(c@, s@, pair_views(recorded@), config@),
            well_formed(r@),
    {
        let key = c.key();
        let via = if s.tunnel_host.as_str().is_empty() {
            match default_host(recorded, key.as_str()) {
                Some(h) => h,
                None => String::new(),
            }
        } else {
            s.tunnel_host.clone()
        };
        assert(via@ == forward_via(c@, s@, pair_views(recorded@)));
        let db_host = forward_target(config, via.as_str(), c.host.as_str());
        let port = c.port_or_default();
        let mut t = chars_of("reach ");
        append(&mut t, c.name.as_str());
        append(&mut t, " through an ssh host (ssh -L)");
        let r = Prompt {
            title: string_of(t.as_slice()),
            fields: vec![
                Field::filled("Tunnel through", via.as_str()).required().hint("an ssh host"),
                Field::filled("Database host", db_host.as_str()).required(),
                Field::filled("Database port", port.as_str()).required(),
                Field::new("Local port", "= database port").hint("where you'll reach it"),
            ],
            idx: 0,
            action: Action::Forward { key },
        };
        assert(r@.fields =~= forward_spec(c@, s@, pair_views(recorded@), config@).fields);
        r
    }

    /// Change which connection a saved password answers for, without asking
    /// for the password again.
    pub fn edit_password(cred: &Cred, idx: usize) -> (r: Prompt)
        ensures
            r@ == edit_password_spec(cred@, idx),
            well_formed(r@),
    {
        let mut t = chars_of("which connection is ");
        append(&mut t, cred.user.as_str());
        append(&mut t, "'s password for?");
        let r = Prompt {
            title: string_of(t.as_slice()),
            fields: vec![
                Field::filled("Host", cred.host.as_str()),
                Field::filled("Port", cred.port.as_str()),
                Field::filled("Database", cred.database.as_str()),
                Field::filled("User", cred.user.as_str()),
            ],
            idx: 0,
            action: Action::EditPassword { idx },
        };
        assert(r@.fields =~= edit_password_spec(cred@, idx).fields);
        r
    }

    /// Name a saved query and give it its SQL, on one line.
    pub fn snippet(from: Option<&Snippet>) -> (r: Prompt)
        ensures
            r@ == snippet_spec(match from {
                Some(s) => Some((s.name@, s.sql@)),
                None => None,
            }),
            well_formed(r@),
    {
        let (title, name, sql, original) = match from {
            Some(s) => {
                let mut t = chars_of("Edit the snippet '");
                append(&mut t, s.name.as_str());
                append(&mut t, "'");
                (string_of(t.as_slice()), s.name.clone(), s.summary(), Some(s.name.clone()))
            },
            None => ("New saved query".to_string(), String::new(), String::new(), None),
        };
        let r = Prompt {
            title,
            fields: vec![
                Field::filled("Name", name.as_str()).required().hint(
                    "typed after the connection, as :name",
                ),
                Field::filled("SQL", sql.as_str()).required().hint(
                    "one line - o opens $EDITOR for a longer one",
                ),
            ],
            idx: 0,
            action: Action::Snippet { original },
        };
        assert(r@.fields =~= snippet_spec(match from {
            Some(s) => Some((s.name@, s.sql@)),
            None => None,
        }).fields);
        r
    }

    /// A one-field wizard for a typed setting, pre-filled with what it is now.
    pub fn edit_setting(row: &Row) -> (r: Prompt)
        ensures
            r@ == edit_setting_spec(row.key@, row.label@, row.help@, row.value@, row.default@),
            well_formed(r@),
    {
        let mut field = Field::filled(row.help, row.value.as_str());
        field.default = row.default.clone();
        let mut t = chars_of("setting: ");
        append(&mut t, row.label);
        let r = Prompt {
            title: string_of(t.as_slice()),
            fields: vec![field],
            idx: 0,
            action: Action::EditSetting { key: row.key.to_string(), label: row.label.to_string() },
        };
        assert(r@.fields =~= edit_setting_spec(row.key@, row.label@, row.help@, row.value@, row.default@).fields);
        r
    }
}

/// The one line of guidance a form carries under its fields, or empty.
pub open spec fn note_spec(p: PromptV) -> Seq<char> {
    match p.action {
        ActionV::SetPassword { .. } => if p.fields.len() > 1 {
            "* in a field matches any host, port, database or user"@
        } else {
            seq![]
        },
        ActionV::EditPassword { .. } => if p.fields.len() > 1 {
            "* in a field matches any host, port, database or user"@
        } else {
            seq![]
        },
        ActionV::Forward { .. } => "ctrl-o picks the ssh host · the database host is what that machine sees"@,
        _ => seq![],
    }
}

/// The field `dir` steps from `idx` in a form of `len` fields, wrapping.
pub open spec fn step_spec(idx: int, dir: int, len: int) -> int {
    (idx + dir) % len
}

/// A field's value as the submit path reads it.
pub open spec fn v(p: PromptV, i: int) -> Seq<char> {
    trim(p.fields[i].value)
}

/// The engine a connection form is for.
pub open spec fn conn_engine(a: ActionV) -> Option<Engine> {
    match a {
        ActionV::AddConn { engine } => Some(engine),
        ActionV::EditConn { engine, .. } => Some(engine),
        _ => None,
    }
}

/// What a connection form will open, spelled out from the fields as they
/// stand, with the port it will be reached on.
pub open spec fn resolves_to_spec(p: PromptV) -> Option<(Seq<char>, Seq<char>)> {
    match conn_engine(p.action) {
        Some(engine) => if engine == Engine::Sqlite || v(p, 1).len() == 0 {
            None
        } else {
            let port = if v(p, 2).len() == 0 {
                default_port_of(engine)
            } else {
                v(p, 2)
            };
            let who = if v(p, 4).len() == 0 {
                seq![]
            } else {
                v(p, 4) + "@"@
            };
            let db = if v(p, 3).len() == 0 {
                seq![]
            } else {
                "/"@ + v(p, 3)
            };
            Some((who + v(p, 1) + ":"@ + port + db, port))
        },
        None => None,
    }
}

/// Whether some field with this label has a choice past the first.
pub open spec fn chose(p: PromptV, label: Seq<char>) -> bool {
    exists|i: int| 0 <= i < p.fields.len() && (#[trigger] p.fields[i]).label == label && p.fields[i].choice > 0
}

/// The keys a draft carries: the choices that change the argv or the
/// environment. Encryption lives only in the service block, so it is left out.
pub open spec fn draft_extra(p: PromptV, engine: Engine) -> Seq<(Seq<char>, Seq<char>)> {
    let cert: Seq<(Seq<char>, Seq<char>)> = if engine == Engine::MsSql && chose(p, "Certificate"@) {
        seq![("trust_cert"@, "yes"@)]
    } else {
        seq![]
    };
    if chose(p, "Read only"@) {
        match engine {
            Engine::Pg => set_read_only_spec(cert, true),
            Engine::Sqlite => cert.push(("readonly"@, "yes"@)),
            _ => cert,
        }
    } else {
        cert
    }
}

/// The connection a form would save, as far as what runs is concerned.
pub open spec fn draft_spec(p: PromptV) -> Option<ConnV> {
    match conn_engine(p.action) {
        Some(engine) => if v(p, 0).len() == 0 {
            None
        } else {
            Some(
                ConnV {
                    engine,
                    name: v(p, 0),
                    host: if engine == Engine::Sqlite { seq![] } else { v(p, 1) },
                    port: if engine == Engine::Sqlite { seq![] } else { v(p, 2) },
                    database: if engine == Engine::Sqlite { v(p, 1) } else { v(p, 3) },
                    user: if engine == Engine::Sqlite { seq![] } else { v(p, 4) },
                    extra: draft_extra(p, engine),
                },
            )
        },
        None => None,
    }
}

/// The command a connection draft runs, as the preview shows it.
pub open spec fn conn_preview(c: ConnV, s: SettingsV, pgoptions: Option<Seq<char>>, home: Seq<char>) -> Seq<char> {
    "esql "@ + c.name + "   →   "@ + with_env_spec(
        connect_env_spec(c, s, pgoptions),
        shell_join_display_spec(home, connect_argv_spec(c, s, None, home)),
    )
}

/// The exact command a wizard will run, or the shape of the line it will
/// write, rebuilt from the fields as they stand. Never a secret.
pub open spec fn preview_spec(p: PromptV, s: SettingsV, pgoptions: Option<Seq<char>>, home: Seq<char>) -> Option<Seq<char>> {
    match p.action {
        ActionV::AddConn { .. } => match draft_spec(p) {
            Some(c) => Some(conn_preview(c, s, pgoptions, home)),
            None => None,
        },
        ActionV::EditConn { .. } => match draft_spec(p) {
            Some(c) => Some(conn_preview(c, s, pgoptions, home)),
            None => None,
        },
        ActionV::Snippet { .. } => if v(p, 0).len() == 0 {
            None
        } else {
            Some("esql <connection> :"@ + v(p, 0))
        },
        ActionV::EditPassword { .. } => Some(
            "~/.pgpass   "@ + v(p, 0) + ":"@ + v(p, 1) + ":"@ + v(p, 2) + ":"@ + v(p, 3) + ":•••• (kept)"@,
        ),
        ActionV::SetPassword { engine, name } => Some(
            if engine == Engine::Pg {
                "~/.pgpass   "@ + v(p, 0) + ":"@ + v(p, 1) + ":"@ + v(p, 2) + ":"@ + v(p, 3) + ":••••"@
            } else {
                "~/.my.cnf   [client"@ + name + "]  password=••••"@
            },
        ),
        ActionV::Forward { .. } => if v(p, 0).len() == 0 {
            None
        } else {
            let local = if v(p, 3).len() == 0 {
                v(p, 2)
            } else {
                v(p, 3)
            };
            Some("ssh -N -L "@ + local + ":"@ + v(p, 1) + ":"@ + v(p, 2) + " "@ + v(p, 0))
        },
        ActionV::EditSetting { .. } => None,
    }
}

/// The columns a label cell eats: the label, its star, and the colon.
pub open spec fn label_width_spec(f: FieldV) -> int {
    f.label.len() + if f.required {
        1int
    } else {
        0
    } + 1
}

/// The widest label cell of a form.
pub open spec fn widest(fs: Seq<FieldV>) -> int
    decreases fs.len(),
{
    if fs.len() == 0 {
        0
    } else {
        let w = widest(fs.drop_last());
        let l = label_width_spec(fs.last());
        if l > w {
            l
        } else {
            w
        }
    }
}

/// Where a form's values start: past its widest label, but never left of
/// the fixed column, and never so far right that one long label shoves
/// every value off the box.
pub open spec fn value_column_spec(fs: Seq<FieldV>) -> int {
    let want = widest(fs) + 2;
    if want < 14 {
        14
    } else if want > 22 {
        22
    } else {
        want
    }
}

/// A label short enough that measuring it cannot overflow.
pub open spec fn measurable(f: FieldV) -> bool {
    f.label.len() + 4 <= usize::MAX
}

fn trim_str(s: &str) -> (r: String)
    ensures
        r@ == trim(s@),
{
    let c = chars_of(s);
    string_of(trimmed(c.as_slice()).as_slice())
}

impl Prompt {
    /// The one line of guidance a form carries under its fields.
    pub fn note(&self) -> (r: &'static str)
        ensures
            r@ == note_spec(self@),
    {
        proof {
            reveal_strlit("* in a field matches any host, port, database or user");
            reveal_strlit("ctrl-o picks the ssh host · the database host is what that machine sees");
            reveal_strlit("");
        }
        match &self.action {
            Action::SetPassword { .. } | Action::EditPassword { .. } => {
                if self.fields.len() > 1 {
                    "* in a field matches any host, port, database or user"
                } else {
                    ""
                }
            },
            Action::Forward { .. } => "ctrl-o picks the ssh host · the database host is what that machine sees",
            _ => "",
        }
    }

    /// The next field in `dir` (+1/-1), wrapping.
    pub fn step(&self, dir: isize) -> (r: usize)
        requires
            well_formed(self@),
        ensures
            r == step_spec(self.idx as int, dir as int, self.fields@.len() as int),
            r < self.fields@.len(),
    {
        let len = self.fields.len();
        let ghost m = len as int;
        if dir >= 0 {
            let d = dir as usize;
            let r = (self.idx + d % len) % len;
            proof {
                vstd::arithmetic::div_mod::lemma_add_mod_noop_right(self.idx as int, d as int, m);
                vstd::arithmetic::div_mod::lemma_small_mod((self.idx + d % len) as nat % len as nat, len as nat);
            }
            r
        } else {
            let rest = (-(dir + 1)) as usize;
            let back = (rest % len + 1) % len;
            let r = (self.idx + len - back) % len;
            proof {
                vstd::arithmetic::div_mod::lemma_add_mod_noop_right(1, rest as int, m);
                assert(back == (-dir) % m);
                vstd::arithmetic::div_mod::lemma_mod_add_multiples_vanish(self.idx - back, m);
                vstd::arithmetic::div_mod::lemma_sub_mod_noop_right(self.idx as int, -dir, m);
            }
            r
        }
    }

    /// True on the last field, so Enter submits rather than moving on.
    pub fn on_last_field(&self) -> (r: bool)
        requires
            well_formed(self@),
        ensures
            r == (self.idx + 1 == self.fields@.len()),
    {
        self.idx + 1 == self.fields.len()
    }

    fn value_at(&self, i: usize) -> (r: String)
        requires
            i < self.fields@.len(),
        ensures
            r@ == v(self@, i as int),
    {
        trim_str(self.fields[i].value.as_str())
    }

    /// What a connection form will open, spelled out from the fields as they
    /// stand: the line that moves while the argv, which names only the
    /// service, stays put.
    pub fn resolves_to(&self) -> (r: Option<(String, String)>)
        requires
            well_formed(self@),
        ensures
            match r {
                Some((a, b)) => resolves_to_spec(self@) == Some((a@, b@)),
                None => resolves_to_spec(self@) is None,
            },
    {
        let engine = match &self.action {
            Action::AddConn { engine } => *engine,
            Action::EditConn { engine, .. } => *engine,
            _ => return None,
        };
        if engine == Engine::Sqlite {
            return None;
        }
        let host = self.value_at(1);
        if host.as_str().is_empty() {
            return None;
        }
        let p = self.value_at(2);
        let port = if p.as_str().is_empty() {
            engine.default_port().to_string()
        } else {
            p
        };
        let db = self.value_at(3);
        let user = self.value_at(4);
        let mut out: Vec<char> = Vec::new();
        if !user.as_str().is_empty() {
            append(&mut out, user.as_str());
            append(&mut out, "@");
        }
        append(&mut out, host.as_str());
        append(&mut out, ":");
        append(&mut out, port.as_str());
        if !db.as_str().is_empty() {
            append(&mut out, "/");
            append(&mut out, db.as_str());
        }
        let ghost who = if user@.len() == 0 {
            Seq::<char>::empty()
        } else {
            user@ + "@"@
        };
        let ghost tail = if db@.len() == 0 {
            Seq::<char>::empty()
        } else {
            "/"@ + db@
        };
        assert(out@ =~= who + host@ + ":"@ + port@ + tail);
        Some((string_of(out.as_slice()), port))
    }

    fn chose(&self, label: &str) -> (r: bool)
        ensures
            r == chose(self@, label@),
    {
        let l = chars_of(label);
        let mut i: usize = 0;
        while i < self.fields.len()
            invariant
                i <= self.fields@.len(),
                l@ == label@,
                forall|j: int|
                    0 <= j < i ==> !((#[trigger] self@.fields[j]).label == label@ && self@.fields[j].choice
                        > 0),
            decreases self.fields@.len() - i,
        {
            let f = chars_of(self.fields[i].label.as_str());
            assert(self@.fields[i as int] == self.fields@[i as int]@);
            if crate::text::seq_eq(f.as_slice(), l.as_slice()) && self.fields[i].choice > 0 {
                return true;
            }
            i = i + 1;
        }
        false
    }

    /// The connection this form would save, as far as what runs is concerned:
    /// the typed fields plus the choices that change the argv or the
    /// environment.
    pub fn draft_conn(&self) -> (r: Option<Conn>)
        requires
            well_formed(self@),
        ensures
            match r {
                Some(c) => draft_spec(self@) == Some(c@),
                None => draft_spec(self@) is None,
            },
    {
        let engine = match &self.action {
            Action::AddConn { engine } => *engine,
            Action::EditConn { engine, .. } => *engine,
            _ => return None,
        };
        let name = self.value_at(0);
        if name.as_str().is_empty() {
            return None;
        }
        let mut extra: Vec<(String, String)> = Vec::new();
        if engine == Engine::MsSql && self.chose("Certificate") {
            extra.push(("trust_cert".to_string(), "yes".to_string()));
        }
        assert(kviews(extra@) =~= (if engine == Engine::MsSql && chose(self@, "Certificate"@) {
            seq![("trust_cert"@, "yes"@)]
        } else {
            Seq::<(Seq<char>, Seq<char>)>::empty()
        }));
        if self.chose("Read only") {
            match engine {
                Engine::Pg => crate::engines::pg::set_read_only(&mut extra, true),
                Engine::Sqlite => {
                    let ghost before = kviews(extra@);
                    extra.push(("readonly".to_string(), "yes".to_string()));
                    assert(kviews(extra@) =~= before.push(("readonly"@, "yes"@)));
                },
                _ => {},
            }
        }
        let c = if engine == Engine::Sqlite {
            Conn {
                engine,
                name,
                host: String::new(),
                port: String::new(),
                database: self.value_at(1),
                user: String::new(),
                extra,
            }
        } else {
            Conn {
                engine,
                name,
                host: self.value_at(1),
                port: self.value_at(2),
                database: self.value_at(3),
                user: self.value_at(4),
                extra,
            }
        };
        Some(c)
    }

    /// The exact command this wizard will run, or the exact line it will
    /// write, given what `PGOPTIONS` holds and the home directory a path is
    /// shown under. What a connection form shows is built by the same calls
    /// Enter makes.
    pub fn command_preview_in(&self, s: &Settings, pgoptions: Option<&str>, home: &str) -> (r: Option<String>)
        requires
            well_formed(self@),
        ensures
            match r {
                Some(t) => preview_spec(self@, s@, opt_view(pgoptions), home@) == Some(t@),
                None => preview_spec(self@, s@, opt_view(pgoptions), home@) is None,
            },
    {
        match &self.action {
            Action::AddConn { .. } | Action::EditConn { .. } => {
                let c = match self.draft_conn() {
                    Some(c) => c,
                    None => return None,
                };
                let argv = c.connect_argv_in(s, None, home);
                let shown = shell_join_display_in(home, argv.as_slice());
                let line = with_env(c.connect_env(s, pgoptions).as_slice(), shown);
                let mut t = chars_of("esql ");
                append(&mut t, c.name.as_str());
                append(&mut t, "   →   ");
                append(&mut t, line.as_str());
                Some(string_of(t.as_slice()))
            },
            Action::Snippet { .. } => {
                let name = self.value_at(0);
                if name.as_str().is_empty() {
                    None
                } else {
                    let mut t = chars_of("esql <connection> :");
                    append(&mut t, name.as_str());
                    Some(string_of(t.as_slice()))
                }
            },
            Action::EditPassword { .. } => {
                let mut t = chars_of("~/.pgpass   ");
                append(&mut t, self.value_at(0).as_str());
                append(&mut t, ":");
                append(&mut t, self.value_at(1).as_str());
                append(&mut t, ":");
                append(&mut t, self.value_at(2).as_str());
                append(&mut t, ":");
                append(&mut t, self.value_at(3).as_str());
                append(&mut t, ":•••• (kept)");
                Some(string_of(t.as_slice()))
            },
            Action::SetPassword { engine, name } => {
                if *engine == Engine::Pg {
                    let mut t = chars_of("~/.pgpass   ");
                    append(&mut t, self.value_at(0).as_str());
                    append(&mut t, ":");
                    append(&mut t, self.value_at(1).as_str());
                    append(&mut t, ":");
                    append(&mut t, self.value_at(2).as_str());
                    append(&mut t, ":");
                    append(&mut t, self.value_at(3).as_str());
                    append(&mut t, ":••••");
                    Some(string_of(t.as_slice()))
                } else {
                    let mut t = chars_of("~/.my.cnf   [client");
                    append(&mut t, name.as_str());
                    append(&mut t, "]  password=••••");
                    Some(string_of(t.as_slice()))
                }
            },
            Action::Forward { .. } => {
                let via = self.value_at(0);
                if via.as_str().is_empty() {
                    return None;
                }
                let db_host = self.value_at(1);
                let db_port = self.value_at(2);
                let l = self.value_at(3);
                let local = if l.as_str().is_empty() {
                    db_port.clone()
                } else {
                    l
                };
                let mut t = chars_of("ssh -N -L ");
                append(&mut t, local.as_str());
                append(&mut t, ":");
                append(&mut t, db_host.as_str());
                append(&mut t, ":");
                append(&mut t, db_port.as_str());
                append(&mut t, " ");
                append(&mut t, via.as_str());
                Some(string_of(t.as_slice()))
            },
            Action::EditSetting { .. } => None,
        }
    }

    /// The exact command this wizard will run on this machine.
    pub fn command_preview(&self, s: &Settings, pgoptions: Option<&str>) -> (r: Option<String>)
        requires
            well_formed(self@),
        ensures
            exists|h: Seq<char>|
                match r {
                    Some(t) => preview_spec(self@, s@, opt_view(pgoptions), h) == Some(t@),
                    None => preview_spec(self@, s@, opt_view(pgoptions), h) is None,
                },
    {
        let h = home();
        let r = self.command_preview_in(s, pgoptions, h.as_str());
        assert(match r {
            Some(t) => preview_spec(self@, s@, opt_view(pgoptions), h@) == Some(t@),
            None => preview_spec(self@, s@, opt_view(pgoptions), h@) is None,
        });
        r
    }
}

/// The columns a label cell eats.
pub fn label_width(field: &Field) -> (r: usize)
    requires
        measurable(field@),
    ensures
        r == label_width_spec(field@),
{
    let n = chars_of(field.label.as_str()).len();
    n + if field.required {
        1
    } else {
        0
    } + 1
}

/// Where this form's values start.
pub fn value_column(fields: &[Field]) -> (r: usize)
    requires
        forall|i: int| 0 <= i < fields@.len() ==> measurable(#[trigger] fields@[i]@),
    ensures
        r == value_column_spec(field_views(fields@)),
{
    let ghost fv = field_views(fields@);
    let mut w: usize = 0;
    let mut i: usize = 0;
    while i < fields.len()
        invariant
            i <= fields@.len(),
            fv == field_views(fields@),
            forall|j: int| 0 <= j < fields@.len() ==> measurable(#[trigger] fields@[j]@),
            w == widest(fv.take(i as int)),
            w + 2 <= usize::MAX,
        decreases fields@.len() - i,
    {
        assert(fv.take(i + 1).drop_last() =~= fv.take(i as int));
        assert(fv[i as int] == fields@[i as int]@);
        let l = label_width(&fields[i]);
        if l > w {
            w = l;
        }
        i = i + 1;
    }
    assert(fv.take(fields@.len() as int) =~= fv);
    let want = w + 2;
    if want < 14 {
        14
    } else if want > 22 {
        22
    } else {
        want
    }
}

/// At most one key of a block is `key`, ignoring case.
pub open spec fn one_key(extra: Seq<(Seq<char>, Seq<char>)>, key: Seq<char>) -> bool {
    forall|i: int, j: int|
        0 <= i < extra.len() && 0 <= j < extra.len() && eq_ic(#[trigger] extra[i].0, key) && eq_ic(
            #[trigger] extra[j].0,
            key,
        ) ==> i == j
}

/// Whether every field the connection form shows is already as the submit
/// path reads it, with no space at either end.
pub open spec fn settled(c: ConnV) -> bool {
    &&& trim(c.name) == c.name
    &&& trim(c.host) == c.host
    &&& trim(c.port) == c.port
    &&& trim(c.database) == c.database
    &&& trim(c.user) == c.user
}

proof fn lemma_first_is_the_pair(extra: Seq<(Seq<char>, Seq<char>)>, key: Seq<char>, value: Seq<char>)
    requires
        one_key(extra, key),
        value.len() > 0,
    ensures
        (or_empty(lookup(extra, key)) == value) == crate::engines::has_pair(extra, key, value),
{
    lemma_key_index_props(extra, key);
    match key_index(extra, key) {
        Some(i) => {
            if crate::engines::has_pair(extra, key, value) {
                let j = choose|j: int|
                    0 <= j < extra.len() && eq_ic(#[trigger] extra[j].0, key) && extra[j].1 == value;
                assert(i == j);
            }
        },
        None => {
            assert(or_empty(lookup(extra, key)).len() == 0);
        },
    }
}

proof fn lemma_join_ends_with(parts: Seq<Seq<char>>, last: Seq<char>, sep: Seq<char>)
    ensures
        ends_with(join(parts.push(last), sep), last),
{
    let all = parts.push(last);
    if parts.len() == 0 {
        assert(all.len() == 1);
        assert(join(all, sep) == last);
        assert(last.skip(0) =~= last);
    } else {
        assert(all.drop_last() =~= parts);
        let j = join(all, sep);
        assert(j == join(parts, sep) + sep + last);
        assert(j.skip(j.len() - last.len()) =~= last);
    }
}

/// The form preview is the argv Enter runs: editing a saved connection whose
/// fields are already trimmed, and whose block names the certificate key at
/// most once, drafts a connection with the very argv the saved one opens,
/// and the preview ends with that argv as shown.
pub proof fn lemma_preview_is_what_enter_runs(
    c: ConnV,
    s: SettingsV,
    pgoptions: Option<Seq<char>>,
    home: Seq<char>,
)
    requires
        c.name.len() > 0,
        settled(c),
        c.engine == Engine::MsSql ==> one_key(c.extra, "trust_cert"@),
    ensures
        draft_spec(edit_conn_spec(c)) matches Some(d) && connect_argv_spec(d, s, None, home)
            == connect_argv_spec(c, s, None, home),
        preview_spec(edit_conn_spec(c), s, pgoptions, home) matches Some(t) && ends_with(
            t,
            shell_join_display_spec(home, connect_argv_spec(c, s, None, home)),
        ),
{
    let p = edit_conn_spec(c);
    reveal_strlit("yes");
    reveal_strlit("Read only");
    reveal_strlit("Certificate");
    let d = draft_spec(p).unwrap();
    assert(d.name == c.name);
    if c.engine == Engine::Sqlite {
        assert(d.database == c.database);
        let ro = crate::engines::conn_read_only(c);
        if ro {
            assert(p.fields[2].choice == 1);
            assert(chose(p, "Read only"@));
            assert(d.extra =~= seq![("readonly"@, "yes"@)]);
            assert(eq_ic(d.extra[0].0, "readonly"@));
            assert(crate::engines::has_pair(d.extra, "readonly"@, "yes"@));
        } else {
            assert(!chose(p, "Read only"@));
            assert(d.extra =~= Seq::<(Seq<char>, Seq<char>)>::empty());
        }
        assert(crate::engines::conn_read_only(d) == ro);
    } else if c.engine == Engine::MsSql {
        lemma_first_is_the_pair(c.extra, "trust_cert"@, "yes"@);
        let t = crate::engines::mssql::trusts_cert_spec(c);
        if t {
            assert(p.fields[5].choice == 1);
            assert(chose(p, "Certificate"@));
            assert(d.extra =~= seq![("trust_cert"@, "yes"@)]);
            assert(eq_ic(d.extra[0].0, "trust_cert"@));
            assert(crate::engines::has_pair(d.extra, "trust_cert"@, "yes"@));
        } else {
            assert forall|i: int| 0 <= i < p.fields.len() implies (#[trigger] p.fields[i]).choice == 0 by {}
            assert(!chose(p, "Certificate"@));
            assert(d.extra =~= Seq::<(Seq<char>, Seq<char>)>::empty());
        }
        assert(crate::engines::mssql::trusts_cert_spec(d) == t);
        assert(crate::engines::mssql::flags_spec(d, None) == crate::engines::mssql::flags_spec(c, None));
    }
    assert(connect_argv_spec(d, s, None, home) == connect_argv_spec(c, s, None, home));
    let shown = shell_join_display_spec(home, connect_argv_spec(c, s, None, home));
    let env = connect_env_spec(d, s, pgoptions);
    let pieces = env.map_values(|q: (Seq<char>, Seq<char>)| q.0 + seq!['='] + crate::widgets::quote_arg(q.1));
    lemma_join_ends_with(pieces, shown, seq![' ']);
    let w = with_env_spec(env, shown);
    let t = conn_preview(d, s, pgoptions, home);
    assert(t == ("esql "@ + d.name + "   →   "@) + w);
    assert(t.skip(t.len() - shown.len()) =~= w.skip(w.len() - shown.len()));
}

/// Stepping back by as much as one stepped forward lands on the field the
/// cursor started on, however far the step wrapped.
pub proof fn lemma_step_back_undoes_step(idx: int, dir: int, len: int)
    requires
        0 <= idx < len,
    ensures
        step_spec(step_spec(idx, dir, len), -dir, len) == idx,
{
    let x = idx + dir;
    vstd::arithmetic::div_mod::lemma_sub_mod_noop_right(x % len, dir, len);
    vstd::arithmetic::div_mod::lemma_sub_mod_noop(x, dir, len);
    vstd::arithmetic::div_mod::lemma_small_mod(idx as nat, len as nat);
}

} // verus!
