//! What each part of the screen says: the rows of every tab, the detail panel
//! beside them, the status line, and the lines of a form. Each piece of text
//! carries a tone; turning tones into colours and drawing the boxes is the
//! terminal's side, outside.

use crate::connect::{byte_len, lemma_byte_len_prefix, utf8_width};
use crate::engines::{
    default_client_of, label_of, port_or_default_spec, stores_password_spec, Conn, ConnV, Engine,
};
use crate::history::{ago, ago_spec};
use crate::ini::{collapse_in, collapse_tilde_in, kviews};
use crate::reach::Reach;
use crate::settings::{Settings, SettingsV};
use crate::text::{chars_of, cviews, dec, dec_of, extend, join, join_of, seq_eq, slice_to_vec, string_of};
use crate::tunnels::{ports_spec, Entry};
use crate::vias::{command_of, points_at_it, points_at_spec, Via, ViaV};
use crate::widgets::{shell_join_display_in, shell_join_display_spec};
use vstd::prelude::*;

verus! {

/// How a piece of text is shown.
#[derive(Clone, Copy, PartialEq, Eq, Debug, Structural)]
pub enum Tone {
    Plain,
    Dim,
    Bold,
    /// Cyan and bold: a heading, the field being typed in, a filter's slash.
    Heading,
    Green,
    Yellow,
    Red,
    Cyan,
    /// The name of a connection that opens read-only.
    ReadOnly,
    /// Black on cyan, bold: the picked answer of a toggle.
    Picked,
    /// Black on red, bold: the picked answer of a gate before a loss.
    PickedDanger,
    /// Dark and dim: a box's key line.
    Hint,
}

/// A run of text in one tone.
pub struct Piece {
    pub text: String,
    pub tone: Tone,
}

pub struct PieceV {
    pub text: Seq<char>,
    pub tone: Tone,
}

impl View for Piece {
    type V = PieceV;

    open spec fn view(&self) -> PieceV {
        PieceV { text: self.text@, tone: self.tone }
    }
}

/// One line of the screen.
pub struct Line {
    pub pieces: Vec<Piece>,
}

pub open spec fn piece_views(p: Seq<Piece>) -> Seq<PieceV> {
    p.map_values(|x: Piece| x@)
}

impl View for Line {
    type V = Seq<PieceV>;

    open spec fn view(&self) -> Seq<PieceV> {
        piece_views(self.pieces@)
    }
}

pub open spec fn line_views(v: Seq<Line>) -> Seq<Seq<PieceV>> {
    v.map_values(|l: Line| l@)
}

pub open spec fn pv(text: Seq<char>, tone: Tone) -> PieceV {
    PieceV { text, tone }
}

/// A line of one piece.
pub open spec fn one(text: Seq<char>, tone: Tone) -> Seq<PieceV> {
    seq![pv(text, tone)]
}

/// An empty line.
pub open spec fn blank() -> Seq<PieceV> {
    Seq::<PieceV>::empty()
}

pub fn piece(text: String, tone: Tone) -> (r: Piece)
    ensures
        r@ == pv(text@, tone),
{
    Piece { text, tone }
}

pub fn line1(text: String, tone: Tone) -> (r: Line)
    ensures
        r@ == one(text@, tone),
{
    let mut pieces: Vec<Piece> = Vec::new();
    pieces.push(Piece { text, tone });
    let r = Line { pieces };
    assert(r@ =~= one(r.pieces@[0].text@, tone));
    r
}

pub fn blank_line() -> (r: Line)
    ensures
        r@ == blank(),
{
    let r = Line { pieces: Vec::new() };
    assert(r@ =~= blank());
    r
}

fn push_line(out: &mut Vec<Line>, l: Line)
    ensures
        line_views(final(out)@) == line_views(old(out)@).push(l@),
{
    let ghost lv = l@;
    out.push(l);
    assert(line_views(out@) =~= line_views(old(out)@).push(lv));
}

fn push_piece(out: &mut Vec<Piece>, p: Piece)
    ensures
        piece_views(final(out)@) == piece_views(old(out)@).push(p@),
{
    let ghost v = p@;
    out.push(p);
    assert(piece_views(out@) =~= piece_views(old(out)@).push(v));
}

// ---------------------------------------------------------------------------
// fitting text to a column
// ---------------------------------------------------------------------------

/// `n` spaces.
pub open spec fn spaces(n: int) -> Seq<char> {
    Seq::new(if n > 0 { n as nat } else { 0 }, |i: int| ' ')
}

fn push_spaces(v: &mut Vec<char>, n: usize)
    ensures
        final(v)@ == old(v)@ + spaces(n as int),
{
    let mut i: usize = 0;
    while i < n
        invariant
            i <= n,
            v@ == old(v)@ + spaces(i as int),
        decreases n - i,
    {
        v.push(' ');
        i = i + 1;
        assert(v@ =~= old(v)@ + spaces(i as int));
    }
}

/// Cut to at most `w` characters without padding, an ellipsis marking the
/// cut: a trailing column that simply disappears when there is no room.
pub open spec fn fit_end_spec(s: Seq<char>, w: int) -> Seq<char> {
    if s.len() <= w {
        s
    } else if w < 2 {
        seq![]
    } else {
        s.take(w - 1).push('…')
    }
}

pub fn fit_end(s: &str, w: usize) -> (r: String)
    ensures
        r@ == fit_end_spec(s@, w as int),
{
    let c = chars_of(s);
    if c.len() <= w {
        return s.to_string();
    }
    if w < 2 {
        return String::new();
    }
    let mut out = slice_to_vec(c.as_slice(), 0, w - 1);
    out.push('…');
    assert(out@ =~= s@.take(w - 1).push('…'));
    string_of(out.as_slice())
}

/// Padded to exactly `w` characters, or cut with an ellipsis rather than
/// overflowing into the next column.
pub open spec fn fit_spec(s: Seq<char>, w: int) -> Seq<char> {
    if s.len() <= w {
        s + spaces(w - s.len())
    } else {
        s.take(if w >= 1 { w - 1 } else { 0 }).push('…')
    }
}

pub fn fit(s: &str, w: usize) -> (r: String)
    ensures
        r@ == fit_spec(s@, w as int),
{
    let c = chars_of(s);
    if c.len() <= w {
        let mut v = c;
        let n = w - v.len();
        push_spaces(&mut v, n);
        return string_of(v.as_slice());
    }
    let keep = if w >= 1 { w - 1 } else { 0 };
    let mut out = slice_to_vec(c.as_slice(), 0, keep);
    out.push('…');
    assert(out@ =~= s@.take(keep as int).push('…'));
    string_of(out.as_slice())
}

/// A fitted column is exactly as wide as asked for, whatever it holds (given
/// room for the ellipsis), and a trailing one is never wider.
pub proof fn lemma_fit_width(s: Seq<char>, w: int)
    requires
        w >= 1,
    ensures
        fit_spec(s, w).len() == w,
        fit_end_spec(s, w).len() <= w,
{
}

/// Padded on the right to at least `w` characters, as `{:w$}` pads.
pub open spec fn pad_spec(s: Seq<char>, w: int) -> Seq<char> {
    s + spaces(w - s.len())
}

pub fn pad(s: &str, w: usize) -> (r: String)
    ensures
        r@ == pad_spec(s@, w as int),
{
    let mut v = chars_of(s);
    if v.len() < w {
        let n = w - v.len();
        push_spaces(&mut v, n);
    } else {
        assert(spaces(w - s@.len()) =~= Seq::<char>::empty());
        assert(v@ =~= s@ + spaces(w - s@.len()));
    }
    string_of(v.as_slice())
}

/// A text's length in UTF-8 bytes, counted no further than `cap`.
pub fn byte_len_upto(s: &str, cap: usize) -> (r: usize)
    ensures
        r == if byte_len(s@) < cap {
            byte_len(s@)
        } else {
            cap as nat
        },
{
    if cap == 0 {
        return 0;
    }
    let c = chars_of(s);
    let mut n: usize = 0;
    let mut i: usize = 0;
    assert(s@.take(0) =~= Seq::<char>::empty());
    while i < c.len()
        invariant
            i <= c@.len(),
            c@ == s@,
            n == byte_len(s@.take(i as int)),
            n < cap,
        decreases c@.len() - i,
    {
        assert(s@.take(i + 1).drop_last() =~= s@.take(i as int));
        let ch = c[i];
        let w: usize = if (ch as u32) < 0x80 {
            1
        } else if (ch as u32) < 0x800 {
            2
        } else if (ch as u32) < 0x10000 {
            3
        } else {
            4
        };
        assert(w == utf8_width(ch));
        if w >= cap - n {
            proof {
                lemma_byte_len_prefix(s@, i + 1);
            }
            return cap;
        }
        n = n + w;
        i = i + 1;
    }
    assert(s@.take(c@.len() as int) =~= s@);
    n
}

// ---------------------------------------------------------------------------
// small pieces every pane uses
// ---------------------------------------------------------------------------

/// The message for an empty pane, or nothing when there are rows to draw. An
/// empty list and a filter that matched nothing are different problems, so
/// they get different words.
pub open spec fn nothing_here_spec(total: int, shown: int, query: Seq<char>, when_empty: Seq<char>) -> Option<
    Seq<char>,
> {
    if total == 0 {
        Some(when_empty)
    } else if shown == 0 {
        Some("Nothing matches '"@ + query + "'.\nEsc clears the filter."@)
    } else {
        None
    }
}

pub fn nothing_here(total: usize, shown: usize, query: &str, when_empty: &str) -> (r: Option<
    String,
>)
    ensures
        crate::ini::opt_sview(r) == nothing_here_spec(total as int, shown as int, query@, when_empty@),
{
    if total == 0 {
        Some(when_empty.to_string())
    } else if shown == 0 {
        let mut v = chars_of("Nothing matches '");
        extend(&mut v, chars_of(query).as_slice());
        extend(&mut v, chars_of("'.\nEsc clears the filter.").as_slice());
        Some(string_of(v.as_slice()))
    } else {
        None
    }
}

/// A pane's title: ` Name (n) `, or ` Name (shown/total) ` while a filter
/// hides some rows.
pub open spec fn counted_spec(name: Seq<char>, shown: nat, total: nat) -> Seq<char> {
    if shown == total {
        " "@ + name + " ("@ + dec(total) + ") "@
    } else {
        " "@ + name + " ("@ + dec(shown) + "/"@ + dec(total) + ") "@
    }
}

pub fn counted(name: &str, shown: usize, total: usize) -> (r: String)
    ensures
        r@ == counted_spec(name@, shown as nat, total as nat),
{
    let mut v = chars_of(" ");
    extend(&mut v, chars_of(name).as_slice());
    extend(&mut v, chars_of(" (").as_slice());
    if shown != total {
        extend(&mut v, dec_of(shown as u64).as_slice());
        extend(&mut v, chars_of("/").as_slice());
    }
    extend(&mut v, dec_of(total as u64).as_slice());
    extend(&mut v, chars_of(") ").as_slice());
    string_of(v.as_slice())
}

/// The dot in front of a connection: filled and coloured once its port has
/// answered, hollow while it is being asked; yellow when the port is only
/// closed because the tunnel it needs is not open; and nothing for a file.
pub open spec fn reach_mark_spec(reach: Option<Reach>, networked: bool, sleeping_via: bool) -> PieceV {
    if sleeping_via && (reach == Some(Reach::Down) || reach matches Some(Reach::Up(_))) {
        pv("●"@, Tone::Yellow)
    } else if !networked {
        pv(" "@, Tone::Plain)
    } else {
        match reach {
            Some(Reach::Up(_)) => pv("●"@, Tone::Green),
            Some(Reach::Down) => pv("●"@, Tone::Red),
            _ => pv("○"@, Tone::Dim),
        }
    }
}

pub fn reach_mark(reach: Option<Reach>, networked: bool, sleeping_via: bool) -> (r: Piece)
    ensures
        r@ == reach_mark_spec(reach, networked, sleeping_via),
{
    let closed_or_up = match reach {
        Some(Reach::Down) => true,
        Some(Reach::Up(_)) => true,
        _ => false,
    };
    if sleeping_via && closed_or_up {
        return piece("●".to_string(), Tone::Yellow);
    }
    if !networked {
        return piece(" ".to_string(), Tone::Plain);
    }
    match reach {
        Some(Reach::Up(_)) => piece("●".to_string(), Tone::Green),
        Some(Reach::Down) => piece("●".to_string(), Tone::Red),
        _ => piece("○".to_string(), Tone::Dim),
    }
}

/// The detail panel's line about a server's port. A closed port in front of a
/// tunnel that is not open says so, since one keypress fixes it.
pub open spec fn reach_line_spec(reach: Option<Reach>, sleeping: Option<Seq<char>>) -> Seq<PieceV> {
    if reach == Some(Reach::Down) && sleeping is Some {
        one(
            "● tunnel to "@ + sleeping->0 + " is not open · Enter reopens it and connects"@,
            Tone::Yellow,
        )
    } else {
        match reach {
            Some(Reach::Up(ms)) => if ms == 0 {
                one("● up · answered instantly"@, Tone::Green)
            } else {
                one("● up · answered in "@ + dec(ms as nat) + " ms"@, Tone::Green)
            },
            Some(Reach::Down) => one("● down · nothing listening on that port"@, Tone::Red),
            Some(Reach::Probing) => one("○ checking the port…"@, Tone::Dim),
            None => one("○ not checked (r to check)"@, Tone::Dim),
        }
    }
}

pub fn reach_line(reach: Option<Reach>, sleeping: Option<&str>) -> (r: Line)
    ensures
        r@ == reach_line_spec(reach, crate::ini::opt_view(sleeping)),
{
    if let (Some(Reach::Down), Some(host)) = (reach, sleeping) {
        let mut v = chars_of("● tunnel to ");
        extend(&mut v, chars_of(host).as_slice());
        extend(&mut v, chars_of(" is not open · Enter reopens it and connects").as_slice());
        return line1(string_of(v.as_slice()), Tone::Yellow);
    }
    match reach {
        Some(Reach::Up(ms)) => if ms == 0 {
            line1("● up · answered instantly".to_string(), Tone::Green)
        } else {
            let mut v = chars_of("● up · answered in ");
            extend(&mut v, dec_of(ms).as_slice());
            extend(&mut v, chars_of(" ms").as_slice());
            line1(string_of(v.as_slice()), Tone::Green)
        },
        Some(Reach::Down) => line1("● down · nothing listening on that port".to_string(), Tone::Red),
        Some(Reach::Probing) => line1("○ checking the port…".to_string(), Tone::Dim),
        None => line1("○ not checked (r to check)".to_string(), Tone::Dim),
    }
}

/// The dim, fixed-width label column that keeps every value aligned: eleven
/// columns (counted in bytes), and a label that fills them still gets one
/// space after it.
pub open spec fn label_spec(name: Seq<char>) -> Seq<char> {
    name + spaces(if byte_len(name) >= 11 { 1 } else { 11 - byte_len(name) })
}

/// One `label   value` row, the label dim so the value reads first.
pub open spec fn row_spec(name: Seq<char>, value: Seq<char>) -> Seq<PieceV> {
    seq![pv(label_spec(name), Tone::Dim), pv(value, Tone::Plain)]
}

pub fn row(name: &str, value: String) -> (r: Line)
    ensures
        r@ == row_spec(name@, value@),
{
    let b = byte_len_upto(name, 11);
    let n: usize = if b >= 11 { 1 } else { 11 - b };
    let mut v = chars_of(name);
    push_spaces(&mut v, n);
    let mut pieces: Vec<Piece> = Vec::new();
    push_piece(&mut pieces, piece(string_of(v.as_slice()), Tone::Dim));
    push_piece(&mut pieces, piece(value, Tone::Plain));
    let r = Line { pieces };
    assert(r@ =~= row_spec(name@, r.pieces@[1].text@));
    r
}

// ---------------------------------------------------------------------------
// the detail panel beside the Connections list
// ---------------------------------------------------------------------------

/// What the panel is told about a connection besides the connection itself:
/// gathered from the probes, the history, the disk and the running forwards.
pub struct ConnFacts {
    pub reach: Option<Reach>,
    /// The ssh host of a recorded forward that is not open, when there is one.
    pub sleeping: Option<String>,
    /// When it was last opened from here, and how many times in all.
    pub opened: Option<(u64, u32)>,
    pub now: u64,
    /// For a file connection: whether the file is there.
    pub file_exists: bool,
    pub has_password: bool,
    /// The recorded forward, and whether something is carrying it now.
    pub via: Option<(Via, bool)>,
    /// The file the connection is defined in.
    pub store: String,
    pub home: String,
}

pub struct ConnFactsV {
    pub reach: Option<Reach>,
    pub sleeping: Option<Seq<char>>,
    pub opened: Option<(u64, u32)>,
    pub now: u64,
    pub file_exists: bool,
    pub has_password: bool,
    pub via: Option<(ViaV, bool)>,
    pub store: Seq<char>,
    pub home: Seq<char>,
}

impl View for ConnFacts {
    type V = ConnFactsV;

    open spec fn view(&self) -> ConnFactsV {
        ConnFactsV {
            reach: self.reach,
            sleeping: crate::ini::opt_sview(self.sleeping),
            opened: self.opened,
            now: self.now,
            file_exists: self.file_exists,
            has_password: self.has_password,
            via: match self.via {
                Some((v, live)) => Some((v@, live)),
                None => None,
            },
            store: self.store@,
            home: self.home@,
        }
    }
}

/// The line about when it was last opened.
pub open spec fn opened_line(opened: Option<(u64, u32)>, now: u64) -> Seq<PieceV> {
    match opened {
        Some((last, count)) => one(
            "last "@ + ago_spec(last, now) + " · opened "@ + dec(count as nat) + " time"@ + (if count
                == 1 {
                ""@
            } else {
                "s"@
            }),
            Tone::Dim,
        ),
        None => one("never opened from here"@, Tone::Dim),
    }
}

/// The rows of a server connection's fields, each only when it has a value,
/// then the keys carried from its block.
pub open spec fn field_rows(c: ConnV) -> Seq<Seq<PieceV>> {
    let f = |l: Seq<char>, v: Seq<char>|
        if v.len() > 0 {
            seq![row_spec(l, v)]
        } else {
            Seq::<Seq<PieceV>>::empty()
        };
    f("Host"@, c.host) + f("Port"@, port_or_default_spec(c)) + f("Database"@, c.database) + f(
        "User"@,
        c.user,
    ) + c.extra.map_values(|kv: (Seq<char>, Seq<char>)| row_spec(kv.0, kv.1))
}

/// Where the password comes from.
pub open spec fn password_line(c: ConnV, has_password: bool) -> Seq<PieceV> {
    if !stores_password_spec(c.engine) {
        one(default_client_of(c.engine) + " asks for the password itself"@, Tone::Dim)
    } else if has_password {
        one("password on file (the client reads it itself)"@, Tone::Green)
    } else {
        one("no password saved (p saves one)"@, Tone::Dim)
    }
}

/// The body of the panel: a file's path and whether it is there, or a
/// server's fields and where its password comes from.
pub open spec fn body_lines(c: ConnV, f: ConnFactsV) -> Seq<Seq<PieceV>> {
    if c.engine == Engine::Sqlite {
        seq![
            row_spec("File"@, collapse_in(f.home, c.database)),
            if f.file_exists {
                one("● the file is there"@, Tone::Green)
            } else {
                one("● no such file yet (sqlite3 would create it)"@, Tone::Yellow)
            },
        ]
    } else {
        field_rows(c) + seq![blank(), password_line(c, f.has_password)]
    }
}

/// The forwards running for this connection's host and port, as
/// `localhost:<open> via <host>`.
pub open spec fn forwards_to(ts: Seq<Entry>, host: Seq<char>, port: Seq<char>) -> Seq<Seq<char>>
    decreases ts.len(),
{
    if ts.len() == 0 {
        seq![]
    } else {
        let rest = forwards_to(ts.drop_last(), host, port);
        let t = ts.last();
        match ports_spec(t.spec@) {
            Some((open, target, p)) => if target == host && p == port {
                rest.push("localhost:"@ + open + " via "@ + t.host@)
            } else {
                rest
            },
            None => rest,
        }
    }
}

pub open spec fn tunnel_rows(ts: Seq<Entry>, c: ConnV) -> Seq<Seq<PieceV>> {
    let hits = forwards_to(ts, c.host, port_or_default_spec(c));
    if hits.len() == 0 {
        seq![]
    } else {
        seq![blank(), row_spec("Tunnels"@, join(hits, ", "@))]
    }
}

/// The recorded forward, whether it is open, and whether the connection
/// actually points at it.
pub open spec fn via_rows(c: ConnV, via: Option<(ViaV, bool)>) -> Seq<Seq<PieceV>> {
    match via {
        Some((v, live)) => seq![
            blank(),
            row_spec("Needs tunnel"@, "through "@ + v.host),
            one(
                if live {
                    "  open now"@
                } else {
                    "  not open: Enter reopens it, "@ + command_of(v)
                },
                Tone::Dim,
            ),
        ] + if points_at_spec(c, v) {
            Seq::<Seq<PieceV>>::empty()
        } else {
            seq![
                one(
                    "  but this connects to "@ + c.host + ":"@ + port_or_default_spec(c)
                        + ", not localhost:"@ + v.local + " - e to repoint it"@,
                    Tone::Yellow,
                ),
            ]
        },
        None => seq![],
    }
}

/// The panel for the selected connection: what it is, whether it is up, when
/// it was last opened, what it is made of, which forwards serve it, what it
/// needs, where it is defined and the command Enter runs.
pub open spec fn conn_lines_spec(
    c: Option<ConnV>,
    f: ConnFactsV,
    ts: Seq<Entry>,
    s: SettingsV,
) -> Seq<Seq<PieceV>> {
    match c {
        None => seq![one("nothing selected"@, Tone::Dim)],
        Some(c) => seq![one(c.name, Tone::Heading), one(label_of(c.engine), Tone::Dim), blank()]
            + (if c.engine != Engine::Sqlite {
            seq![reach_line_spec(f.reach, f.sleeping)]
        } else {
            Seq::<Seq<PieceV>>::empty()
        }) + seq![opened_line(f.opened, f.now), blank()] + body_lines(c, f) + tunnel_rows(ts, c)
            + via_rows(c, f.via) + seq![
            blank(),
            row_spec("Defined in"@, collapse_in(f.home, f.store)),
            blank(),
            one(
                shell_join_display_spec(
                    f.home,
                    crate::engines::connect_argv_spec(c, s, None, f.home),
                ),
                Tone::Green,
            ),
            one("esql "@ + c.name, Tone::Dim),
        ],
    }
}

fn opened_line_of(opened: Option<(u64, u32)>, now: u64) -> (r: Line)
    ensures
        r@ == opened_line(opened, now),
{
    match opened {
        Some((last, count)) => {
            let mut v = chars_of("last ");
            extend(&mut v, chars_of(ago(last, now).as_str()).as_slice());
            extend(&mut v, chars_of(" · opened ").as_slice());
            extend(&mut v, dec_of(count as u64).as_slice());
            extend(&mut v, chars_of(" time").as_slice());
            if count == 1 {
                extend(&mut v, chars_of("").as_slice());
            } else {
                extend(&mut v, chars_of("s").as_slice());
            }
            line1(string_of(v.as_slice()), Tone::Dim)
        },
        None => line1("never opened from here".to_string(), Tone::Dim),
    }
}

fn push_field_row(out: &mut Vec<Line>, label: &str, value: String)
    ensures
        line_views(final(out)@) == line_views(old(out)@) + (if value@.len() > 0 {
            seq![row_spec(label@, value@)]
        } else {
            Seq::<Seq<PieceV>>::empty()
        }),
{
    if chars_of(value.as_str()).len() > 0 {
        push_line(out, row(label, value));
    } else {
        assert(line_views(out@) =~= line_views(old(out)@) + Seq::<Seq<PieceV>>::empty());
    }
}

fn push_field_rows(out: &mut Vec<Line>, c: &Conn)
    ensures
        line_views(final(out)@) == line_views(old(out)@) + field_rows(c@),
{
    let ghost start = line_views(out@);
    push_field_row(out, "Host", c.host.clone());
    push_field_row(out, "Port", c.port_or_default());
    push_field_row(out, "Database", c.database.clone());
    push_field_row(out, "User", c.user.clone());
    let ghost fixed = line_views(out@);
    let ghost ex = kviews(c.extra@).map_values(|kv: (Seq<char>, Seq<char>)| row_spec(kv.0, kv.1));
    let mut i: usize = 0;
    while i < c.extra.len()
        invariant
            i <= c.extra@.len(),
            ex == kviews(c.extra@).map_values(|kv: (Seq<char>, Seq<char>)| row_spec(kv.0, kv.1)),
            line_views(out@) == fixed + ex.take(i as int),
        decreases c.extra@.len() - i,
    {
        push_line(out, row(c.extra[i].0.as_str(), c.extra[i].1.clone()));
        i = i + 1;
        assert(ex.take(i as int) =~= ex.take(i - 1).push(ex[i - 1]));
    }
    assert(ex.take(c.extra@.len() as int) =~= ex);
    assert(line_views(out@) =~= start + field_rows(c@));
}

fn password_line_of(c: &Conn, has_password: bool) -> (r: Line)
    ensures
        r@ == password_line(c@, has_password),
{
    if !c.engine.stores_password() {
        let mut v = chars_of(c.engine.default_client());
        extend(&mut v, chars_of(" asks for the password itself").as_slice());
        line1(string_of(v.as_slice()), Tone::Dim)
    } else if has_password {
        line1("password on file (the client reads it itself)".to_string(), Tone::Green)
    } else {
        line1("no password saved (p saves one)".to_string(), Tone::Dim)
    }
}

fn push_body(out: &mut Vec<Line>, c: &Conn, f: &ConnFacts)
    ensures
        line_views(final(out)@) == line_views(old(out)@) + body_lines(c@, f@),
{
    let ghost start = line_views(out@);
    if c.engine == Engine::Sqlite {
        push_line(out, row("File", collapse_tilde_in(f.home.as_str(), c.database.as_str())));
        if f.file_exists {
            push_line(out, line1("● the file is there".to_string(), Tone::Green));
        } else {
            push_line(
                out,
                line1("● no such file yet (sqlite3 would create it)".to_string(), Tone::Yellow),
            );
        }
        assert(line_views(out@) =~= start + body_lines(c@, f@));
    } else {
        push_field_rows(out, c);
        push_line(out, blank_line());
        push_line(out, password_line_of(c, f.has_password));
        assert(line_views(out@) =~= start + body_lines(c@, f@));
    }
}

fn forwards_of(ts: &[Entry], host: &str, port: &str) -> (r: Vec<Vec<char>>)
    ensures
        cviews(r@) == forwards_to(ts@, host@, port@),
{
    let mut r: Vec<Vec<char>> = Vec::new();
    let h = chars_of(host);
    let p = chars_of(port);
    let mut i: usize = 0;
    while i < ts.len()
        invariant
            i <= ts@.len(),
            h@ == host@,
            p@ == port@,
            cviews(r@) == forwards_to(ts@.take(i as int), host@, port@),
        decreases ts@.len() - i,
    {
        let ghost prev = cviews(r@);
        assert(ts@.take(i + 1).drop_last() =~= ts@.take(i as int));
        assert(ts@.take(i + 1).last() == ts@[i as int]);
        match ts[i].ports() {
            Some((open, target, tp)) => {
                let tc = chars_of(target.as_str());
                let pc = chars_of(tp.as_str());
                if seq_eq(tc.as_slice(), h.as_slice()) && seq_eq(pc.as_slice(), p.as_slice()) {
                    let mut v = chars_of("localhost:");
                    extend(&mut v, chars_of(open.as_str()).as_slice());
                    extend(&mut v, chars_of(" via ").as_slice());
                    extend(&mut v, chars_of(ts[i].host.as_str()).as_slice());
                    let ghost vv = v@;
                    r.push(v);
                    assert(cviews(r@) =~= prev.push(vv));
                }
            },
            None => {},
        }
        i = i + 1;
    }
    assert(ts@.take(ts@.len() as int) =~= ts@);
    r
}

fn push_tunnel_rows(out: &mut Vec<Line>, ts: &[Entry], c: &Conn)
    ensures
        line_views(final(out)@) == line_views(old(out)@) + tunnel_rows(ts@, c@),
{
    let port = c.port_or_default();
    let hits = forwards_of(ts, c.host.as_str(), port.as_str());
    if hits.len() > 0 {
        push_line(out, blank_line());
        let sep = chars_of(", ");
        let joined = join_of(&hits, sep.as_slice());
        push_line(out, row("Tunnels", string_of(joined.as_slice())));
    } else {
        assert(line_views(out@) =~= line_views(old(out)@) + tunnel_rows(ts@, c@));
    }
}

fn push_via_rows(out: &mut Vec<Line>, c: &Conn, via: &Option<(Via, bool)>)
    ensures
        line_views(final(out)@) == line_views(old(out)@) + via_rows(
            c@,
            match via {
                Some((v, live)) => Some((v@, *live)),
                None => None,
            },
        ),
{
    let ghost start = line_views(out@);
    match via {
        Some((v, live)) => {
            push_line(out, blank_line());
            let mut t = chars_of("through ");
            extend(&mut t, chars_of(v.host.as_str()).as_slice());
            push_line(out, row("Needs tunnel", string_of(t.as_slice())));
            if *live {
                push_line(out, line1("  open now".to_string(), Tone::Dim));
            } else {
                let mut w = chars_of("  not open: Enter reopens it, ");
                extend(&mut w, chars_of(v.command().as_str()).as_slice());
                push_line(out, line1(string_of(w.as_slice()), Tone::Dim));
            }
            if !points_at_it(c, v) {
                let mut w = chars_of("  but this connects to ");
                extend(&mut w, chars_of(c.host.as_str()).as_slice());
                extend(&mut w, chars_of(":").as_slice());
                extend(&mut w, chars_of(c.port_or_default().as_str()).as_slice());
                extend(&mut w, chars_of(", not localhost:").as_slice());
                extend(&mut w, chars_of(v.local.as_str()).as_slice());
                extend(&mut w, chars_of(" - e to repoint it").as_slice());
                push_line(out, line1(string_of(w.as_slice()), Tone::Yellow));
            }
            assert(line_views(out@) =~= start + via_rows(c@, Some((v@, *live))));
        },
        None => {
            assert(line_views(out@) =~= start + via_rows(c@, None));
        },
    }
}

/// The detail panel for the selected connection.
pub fn conn_lines(c: Option<&Conn>, f: &ConnFacts, ts: &[Entry], s: &Settings) -> (r: Vec<Line>)
    ensures
        line_views(r@) == conn_lines_spec(
            match c {
                Some(c) => Some(c@),
                None => None,
            },
            f@,
            ts@,
            s@,
        ),
{
    let mut out: Vec<Line> = Vec::new();
    match c {
        None => {
            push_line(&mut out, line1("nothing selected".to_string(), Tone::Dim));
            assert(line_views(out@) =~= seq![one("nothing selected"@, Tone::Dim)]);
        },
        Some(c) => {
            push_line(&mut out, line1(c.name.clone(), Tone::Heading));
            push_line(&mut out, line1(c.engine.label().to_string(), Tone::Dim));
            push_line(&mut out, blank_line());
            let ghost a = line_views(out@);
            if c.engine.networked() {
                let sl = match &f.sleeping {
                    Some(h) => Some(h.as_str()),
                    None => None,
                };
                push_line(&mut out, reach_line(f.reach, sl));
            }
            let ghost b = line_views(out@);
            push_line(&mut out, opened_line_of(f.opened, f.now));
            push_line(&mut out, blank_line());
            let ghost c2 = line_views(out@);
            push_body(&mut out, c, f);
            let ghost d = line_views(out@);
            push_tunnel_rows(&mut out, ts, c);
            let ghost e = line_views(out@);
            push_via_rows(&mut out, c, &f.via);
            let ghost g = line_views(out@);
            push_line(&mut out, blank_line());
            push_line(
                &mut out,
                row("Defined in", collapse_tilde_in(f.home.as_str(), f.store.as_str())),
            );
            push_line(&mut out, blank_line());
            let argv = c.connect_argv_in(s, None, f.home.as_str());
            push_line(&mut out, line1(shell_join_display_in(f.home.as_str(), argv.as_slice()), Tone::Green));
            let mut q = chars_of("esql ");
            extend(&mut q, chars_of(c.name.as_str()).as_slice());
            push_line(&mut out, line1(string_of(q.as_slice()), Tone::Dim));
            proof {
                let cv = c@;
                let fv = f@;
                assert(a =~= seq![one(cv.name, Tone::Heading), one(label_of(cv.engine), Tone::Dim), blank()]);
                assert(b =~= a + (if cv.engine != Engine::Sqlite {
                    seq![reach_line_spec(fv.reach, fv.sleeping)]
                } else {
                    Seq::<Seq<PieceV>>::empty()
                }));
                assert(c2 =~= b + seq![opened_line(fv.opened, fv.now), blank()]);
            }
            assert(line_views(out@) =~= conn_lines_spec(Some(c@), f@, ts@, s@));
        },
    }
    out
}

// ---------------------------------------------------------------------------
// the rows of the Connections tab
// ---------------------------------------------------------------------------

/// A length counted in bytes, as far as a `usize` goes.
pub open spec fn capped(n: nat) -> nat {
    if n < usize::MAX {
        n
    } else {
        usize::MAX as nat
    }
}

/// The largest of some numbers, or zero for none.
pub open spec fn max_of(ns: Seq<nat>) -> nat
    decreases ns.len(),
{
    if ns.len() == 0 {
        0
    } else {
        let m = max_of(ns.drop_last());
        if ns.last() > m {
            ns.last()
        } else {
            m
        }
    }
}

pub open spec fn sat_add(a: nat, b: nat) -> nat {
    if a + b <= usize::MAX {
        a + b
    } else {
        usize::MAX as nat
    }
}

pub open spec fn sat_sub(a: nat, b: nat) -> nat {
    if a >= b {
        (a - b) as nat
    } else {
        0
    }
}

/// What a Connections row is told besides the connection itself.
#[derive(Clone, Copy)]
pub struct RowFacts {
    pub reach: Option<Reach>,
    /// A recorded forward that is not open.
    pub sleeping: bool,
    /// When it was last opened from here.
    pub last: Option<u64>,
    /// Whether its client is installed.
    pub installed: bool,
    pub has_password: bool,
}

/// The column widths of the Connections rows on screen: the widest name, the
/// widest engine label, and the widest target - but no more than 38, and no
/// more than what is left once every column that must survive has had its
/// share (and never under 12). Widths are counted in bytes.
pub open spec fn conn_widths_spec(cs: Seq<ConnV>, home: Seq<char>, area_w: nat) -> (nat, nat, nat) {
    let nw = max_of(cs.map_values(|c: ConnV| capped(byte_len(c.name))));
    let ew = max_of(cs.map_values(|c: ConnV| capped(byte_len(label_of(c.engine)))));
    let tmax = max_of(
        cs.map_values(|c: ConnV| capped(byte_len(crate::engines::target_spec(c, home)))),
    );
    let usable = sat_sub(area_w, 4);
    let fixed = sat_add(sat_add(nw, ew), 26);
    let room = if sat_sub(usable, fixed) > 12 {
        sat_sub(usable, fixed)
    } else {
        12
    };
    let t38 = if tmax < 38 {
        tmax
    } else {
        38
    };
    (nw, ew, if t38 < room {
        t38
    } else {
        room
    })
}

/// One Connections row: the reach dot, the name (in the read-only colour
/// when it opens read-only), the engine, the target cut to its column, what
/// decides whether Enter just works (no client, or a saved password), and
/// how long ago it was opened.
pub open spec fn conn_row_spec(
    c: ConnV,
    f: RowFacts,
    now: u64,
    home: Seq<char>,
    nw: nat,
    ew: nat,
    tw: nat,
) -> Seq<PieceV> {
    let (flag, flag_tone) = if !f.installed {
        ("no client"@, Tone::Red)
    } else if f.has_password {
        ("pw"@, Tone::Green)
    } else {
        (""@, Tone::Plain)
    };
    seq![
        reach_mark_spec(f.reach, c.engine != Engine::Sqlite, f.sleeping),
        pv(" "@, Tone::Plain),
        pv(pad_spec(c.name, nw as int), if crate::engines::conn_read_only(c) {
            Tone::ReadOnly
        } else {
            Tone::Bold
        }),
        pv("  "@, Tone::Plain),
        pv(pad_spec(label_of(c.engine), ew as int), Tone::Cyan),
        pv("  "@, Tone::Plain),
        pv(fit_spec(crate::engines::target_spec(c, home), tw as int), Tone::Dim),
        pv("  "@, Tone::Plain),
        pv(pad_spec(flag, 9), flag_tone),
        pv(
            match f.last {
                Some(t) => ago_spec(t, now),
                None => Seq::<char>::empty(),
            },
            Tone::Dim,
        ),
    ]
}

fn max_step(m: usize, n: usize) -> (r: usize)
    ensures
        r == if n > m {
            n
        } else {
            m
        },
{
    if n > m {
        n
    } else {
        m
    }
}

/// The column widths of the rows on screen.
pub fn conn_widths(cs: &[Conn], home: &str, area_w: u16) -> (r: (usize, usize, usize))
    ensures
        (r.0 as nat, r.1 as nat, r.2 as nat) == conn_widths_spec(
            crate::engines::conn_views(cs@),
            home@,
            area_w as nat,
        ),
{
    let ghost cv = crate::engines::conn_views(cs@);
    let ghost ns = cv.map_values(|c: ConnV| capped(byte_len(c.name)));
    let ghost es = cv.map_values(|c: ConnV| capped(byte_len(label_of(c.engine))));
    let ghost ts = cv.map_values(
        |c: ConnV| capped(byte_len(crate::engines::target_spec(c, home@))),
    );
    let mut nw: usize = 0;
    let mut ew: usize = 0;
    let mut tmax: usize = 0;
    let mut i: usize = 0;
    while i < cs.len()
        invariant
            i <= cs@.len(),
            cv == crate::engines::conn_views(cs@),
            ns == cv.map_values(|c: ConnV| capped(byte_len(c.name))),
            es == cv.map_values(|c: ConnV| capped(byte_len(label_of(c.engine)))),
            ts == cv.map_values(|c: ConnV| capped(byte_len(crate::engines::target_spec(c, home@)))),
            nw == max_of(ns.take(i as int)),
            ew == max_of(es.take(i as int)),
            tmax == max_of(ts.take(i as int)),
        decreases cs@.len() - i,
    {
        assert(ns.take(i + 1).drop_last() =~= ns.take(i as int));
        assert(es.take(i + 1).drop_last() =~= es.take(i as int));
        assert(ts.take(i + 1).drop_last() =~= ts.take(i as int));
        assert(cv[i as int] == cs@[i as int]@);
        nw = max_step(nw, byte_len_upto(cs[i].name.as_str(), usize::MAX));
        ew = max_step(ew, byte_len_upto(cs[i].engine.label(), usize::MAX));
        let t = cs[i].target_in(home);
        tmax = max_step(tmax, byte_len_upto(t.as_str(), usize::MAX));
        i = i + 1;
    }
    assert(ns.take(cs@.len() as int) =~= ns);
    assert(es.take(cs@.len() as int) =~= es);
    assert(ts.take(cs@.len() as int) =~= ts);
    let usable = (area_w as usize).saturating_sub(4);
    let fixed = nw.saturating_add(ew).saturating_add(26);
    let room = usable.saturating_sub(fixed);
    let room = if room > 12 {
        room
    } else {
        12
    };
    let t38 = if tmax < 38 {
        tmax
    } else {
        38
    };
    (nw, ew, if t38 < room {
        t38
    } else {
        room
    })
}

/// One Connections row.
pub fn conn_row(
    c: &Conn,
    f: RowFacts,
    now: u64,
    home: &str,
    nw: usize,
    ew: usize,
    tw: usize,
) -> (r: Line)
    ensures
        r@ == conn_row_spec(c@, f, now, home@, nw as nat, ew as nat, tw as nat),
{
    let (flag, flag_tone) = if !f.installed {
        ("no client", Tone::Red)
    } else if f.has_password {
        ("pw", Tone::Green)
    } else {
        ("", Tone::Plain)
    };
    let name_tone = if c.read_only() {
        Tone::ReadOnly
    } else {
        Tone::Bold
    };
    let age = match f.last {
        Some(t) => ago(t, now),
        None => String::new(),
    };
    let mut pieces: Vec<Piece> = Vec::new();
    push_piece(&mut pieces, reach_mark(f.reach, c.engine.networked(), f.sleeping));
    push_piece(&mut pieces, piece(" ".to_string(), Tone::Plain));
    push_piece(&mut pieces, piece(pad(c.name.as_str(), nw), name_tone));
    push_piece(&mut pieces, piece("  ".to_string(), Tone::Plain));
    push_piece(&mut pieces, piece(pad(c.engine.label(), ew), Tone::Cyan));
    push_piece(&mut pieces, piece("  ".to_string(), Tone::Plain));
    push_piece(&mut pieces, piece(fit(c.target_in(home).as_str(), tw), Tone::Dim));
    push_piece(&mut pieces, piece("  ".to_string(), Tone::Plain));
    push_piece(&mut pieces, piece(pad(flag, 9), flag_tone));
    push_piece(&mut pieces, piece(age, Tone::Dim));
    let r = Line { pieces };
    assert(r@ =~= conn_row_spec(c@, f, now, home@, nw as nat, ew as nat, tw as nat));
    r
}

// ---------------------------------------------------------------------------
// the panes
// ---------------------------------------------------------------------------

/// What a tab's pane shows: a message when there is nothing to list, or its
/// rows, each under the pane's title.
pub enum Pane {
    Message { title: String, text: String },
    List { title: String, rows: Vec<Line> },
}

pub enum PaneV {
    Message { title: Seq<char>, text: Seq<char> },
    List { title: Seq<char>, rows: Seq<Seq<PieceV>> },
}

impl View for Pane {
    type V = PaneV;

    open spec fn view(&self) -> PaneV {
        match self {
            Pane::Message { title, text } => PaneV::Message { title: title@, text: text@ },
            Pane::List { title, rows } => PaneV::List { title: title@, rows: line_views(rows@) },
        }
    }
}

/// A pane of `rows`, or the message for an empty one.
pub open spec fn pane_spec(
    name: Seq<char>,
    shown: nat,
    total: nat,
    query: Seq<char>,
    when_empty: Seq<char>,
    rows: Seq<Seq<PieceV>>,
) -> PaneV {
    match nothing_here_spec(total as int, shown as int, query, when_empty) {
        Some(m) => PaneV::Message { title: counted_spec(name, 0, 0), text: m },
        None => PaneV::List { title: counted_spec(name, shown, total), rows },
    }
}

/// What an empty Connections tab says; on a machine with no client either,
/// it says that too, before Enter finds it out.
pub open spec fn no_conns_text(installed_any: bool) -> Seq<char> {
    "No saved connections yet.\nPress `c` to add one: postgres, mysql or sqlite."@ + if installed_any {
        ""@
    } else {
        "\n\nNo database client is installed here yet either. easysql is a front end,\nso cargo could not bring one: press Enter on a connection and it offers\nto install the right one for this machine."@
    }
}

/// The Connections pane: `cs` are the rows the filter lets through, `total`
/// how many there are in all.
pub open spec fn conn_pane_spec(
    cs: Seq<ConnV>,
    fs: Seq<RowFacts>,
    total: nat,
    query: Seq<char>,
    installed_any: bool,
    now: u64,
    home: Seq<char>,
    area_w: nat,
) -> PaneV {
    let (nw, ew, tw) = conn_widths_spec(cs, home, area_w);
    pane_spec(
        "Connections"@,
        cs.len(),
        total,
        query,
        no_conns_text(installed_any),
        Seq::new(cs.len(), |i: int| conn_row_spec(cs[i], fs[i], now, home, nw, ew, tw)),
    )
}

pub fn conn_pane(
    cs: &[Conn],
    fs: &[RowFacts],
    total: usize,
    query: &str,
    installed_any: bool,
    now: u64,
    home: &str,
    area_w: u16,
) -> (r: Pane)
    requires
        fs@.len() == cs@.len(),
    ensures
        r@ == conn_pane_spec(
            crate::engines::conn_views(cs@),
            fs@,
            total as nat,
            query@,
            installed_any,
            now,
            home@,
            area_w as nat,
        ),
{
    let mut text = chars_of("No saved connections yet.\nPress `c` to add one: postgres, mysql or sqlite.");
    if installed_any {
        extend(&mut text, chars_of("").as_slice());
    } else {
        extend(
            &mut text,
            chars_of(
                "\n\nNo database client is installed here yet either. easysql is a front end,\nso cargo could not bring one: press Enter on a connection and it offers\nto install the right one for this machine.",
            ).as_slice(),
        );
    }
    let when_empty = string_of(text.as_slice());
    match nothing_here(total, cs.len(), query, when_empty.as_str()) {
        Some(m) => Pane::Message { title: counted("Connections", 0, 0), text: m },
        None => {
            let (nw, ew, tw) = conn_widths(cs, home, area_w);
            let ghost cv = crate::engines::conn_views(cs@);
            let mut rows: Vec<Line> = Vec::new();
            let mut i: usize = 0;
            while i < cs.len()
                invariant
                    i <= cs@.len(),
                    fs@.len() == cs@.len(),
                    cv == crate::engines::conn_views(cs@),
                    line_views(rows@) == Seq::new(
                        i as nat,
                        |k: int| conn_row_spec(cv[k], fs@[k], now, home@, nw as nat, ew as nat, tw as nat),
                    ),
                decreases cs@.len() - i,
            {
                assert(cv[i as int] == cs@[i as int]@);
                push_line(&mut rows, conn_row(&cs[i], fs[i], now, home, nw, ew, tw));
                i = i + 1;
                assert(line_views(rows@) =~= Seq::new(
                    i as nat,
                    |k: int| conn_row_spec(cv[k], fs@[k], now, home@, nw as nat, ew as nat, tw as nat),
                ));
            }
            Pane::List { title: counted("Connections", cs.len(), total), rows }
        },
    }
}

/// The Passwords pane: each saved password described, and never the secret,
/// only the fact that there is one.
pub open spec fn cred_pane_spec(cs: Seq<crate::creds::CredV>, total: nat, query: Seq<char>) -> PaneV {
    pane_spec(
        "Passwords"@,
        cs.len(),
        total,
        query,
        "No saved passwords.\nPress `c`, or `p` on a connection, to save one where its client already looks:\n~/.pgpass for postgres, ~/.my.cnf for mysql."@,
        Seq::new(
            cs.len(),
            |i: int|
                seq![
                    pv(crate::creds::describe_spec(cs[i]), Tone::Bold),
                    pv("  "@, Tone::Plain),
                    pv("••••••"@, Tone::Green),
                ],
        ),
    )
}

pub fn cred_pane(cs: &[crate::creds::Cred], total: usize, query: &str) -> (r: Pane)
    ensures
        r@ == cred_pane_spec(crate::creds::cred_views(cs@), total as nat, query@),
{
    let when_empty = "No saved passwords.\nPress `c`, or `p` on a connection, to save one where its client already looks:\n~/.pgpass for postgres, ~/.my.cnf for mysql.";
    match nothing_here(total, cs.len(), query, when_empty) {
        Some(m) => Pane::Message { title: counted("Passwords", 0, 0), text: m },
        None => {
            let ghost cv = crate::creds::cred_views(cs@);
            let mut rows: Vec<Line> = Vec::new();
            let mut i: usize = 0;
            while i < cs.len()
                invariant
                    i <= cs@.len(),
                    cv == crate::creds::cred_views(cs@),
                    line_views(rows@) == Seq::new(
                        i as nat,
                        |k: int|
                            seq![
                                pv(crate::creds::describe_spec(cv[k]), Tone::Bold),
                                pv("  "@, Tone::Plain),
                                pv("••••••"@, Tone::Green),
                            ],
                    ),
                decreases cs@.len() - i,
            {
                assert(cv[i as int] == cs@[i as int]@);
                let mut pieces: Vec<Piece> = Vec::new();
                push_piece(&mut pieces, piece(cs[i].describe(), Tone::Bold));
                push_piece(&mut pieces, piece("  ".to_string(), Tone::Plain));
                push_piece(&mut pieces, piece("••••••".to_string(), Tone::Green));
                let l = Line { pieces };
                assert(l@ =~= seq![
                    pv(crate::creds::describe_spec(cv[i as int]), Tone::Bold),
                    pv("  "@, Tone::Plain),
                    pv("••••••"@, Tone::Green),
                ]);
                push_line(&mut rows, l);
                i = i + 1;
                assert(line_views(rows@) =~= Seq::new(
                    i as nat,
                    |k: int|
                        seq![
                            pv(crate::creds::describe_spec(cv[k]), Tone::Bold),
                            pv("  "@, Tone::Plain),
                            pv("••••••"@, Tone::Green),
                        ],
                ));
            }
            Pane::List { title: counted("Passwords", cs.len(), total), rows }
        },
    }
}

/// The Snippets pane: each saved query's name, the `:name` that runs it, and
/// its first lines cut to what is left of the row. Names are given at most 20
/// columns (counted in bytes).
pub open spec fn snippet_pane_spec(
    ss: Seq<crate::snippets::Snippet>,
    total: nat,
    query: Seq<char>,
    area_w: nat,
) -> PaneV {
    let widest = max_of(ss.map_values(|x: crate::snippets::Snippet| capped(byte_len(x.name@))));
    let nw = if widest < 20 {
        widest
    } else {
        20
    };
    let room = sat_sub(area_w, nw + 20);
    pane_spec(
        "Snippets"@,
        ss.len(),
        total,
        query,
        "No saved queries.\nPress `c` to write one, then run it against any connection\nwith `esql <name> :<snippet>`."@,
        Seq::new(
            ss.len(),
            |i: int|
                seq![
                    pv(pad_spec(ss[i].name@, nw as int), Tone::Bold),
                    pv("  "@, Tone::Plain),
                    pv(pad_spec(":"@ + ss[i].name@, 12), Tone::Cyan),
                    pv("  "@, Tone::Plain),
                    pv(fit_end_spec(crate::snippets::summary_spec(ss[i].sql@), room as int), Tone::Dim),
                ],
        ),
    )
}

pub fn snippet_pane(ss: &[crate::snippets::Snippet], total: usize, query: &str, area_w: u16) -> (r:
    Pane)
    ensures
        r@ == snippet_pane_spec(ss@, total as nat, query@, area_w as nat),
{
    let when_empty = "No saved queries.\nPress `c` to write one, then run it against any connection\nwith `esql <name> :<snippet>`.";
    match nothing_here(total, ss.len(), query, when_empty) {
        Some(m) => Pane::Message { title: counted("Snippets", 0, 0), text: m },
        None => {
            let ghost ns = ss@.map_values(
                |x: crate::snippets::Snippet| capped(byte_len(x.name@)),
            );
            let mut widest: usize = 0;
            let mut i: usize = 0;
            while i < ss.len()
                invariant
                    i <= ss@.len(),
                    ns == ss@.map_values(|x: crate::snippets::Snippet| capped(byte_len(x.name@))),
                    widest == max_of(ns.take(i as int)),
                decreases ss@.len() - i,
            {
                assert(ns.take(i + 1).drop_last() =~= ns.take(i as int));
                widest = max_step(widest, byte_len_upto(ss[i].name.as_str(), usize::MAX));
                i = i + 1;
            }
            assert(ns.take(ss@.len() as int) =~= ns);
            let nw: usize = if widest < 20 {
                widest
            } else {
                20
            };
            let room = (area_w as usize).saturating_sub(nw + 20);
            let ghost want = Seq::new(
                ss@.len(),
                |k: int|
                    seq![
                        pv(pad_spec(ss@[k].name@, nw as int), Tone::Bold),
                        pv("  "@, Tone::Plain),
                        pv(pad_spec(":"@ + ss@[k].name@, 12), Tone::Cyan),
                        pv("  "@, Tone::Plain),
                        pv(
                            fit_end_spec(crate::snippets::summary_spec(ss@[k].sql@), room as int),
                            Tone::Dim,
                        ),
                    ],
            );
            let mut rows: Vec<Line> = Vec::new();
            let mut i: usize = 0;
            while i < ss.len()
                invariant
                    i <= ss@.len(),
                    want.len() == ss@.len(),
                    forall|k: int| 0 <= k < ss@.len() ==> #[trigger] want[k] == seq![
                        pv(pad_spec(ss@[k].name@, nw as int), Tone::Bold),
                        pv("  "@, Tone::Plain),
                        pv(pad_spec(":"@ + ss@[k].name@, 12), Tone::Cyan),
                        pv("  "@, Tone::Plain),
                        pv(
                            fit_end_spec(crate::snippets::summary_spec(ss@[k].sql@), room as int),
                            Tone::Dim,
                        ),
                    ],
                    line_views(rows@) == want.take(i as int),
                decreases ss@.len() - i,
            {
                let mut colon = chars_of(":");
                extend(&mut colon, chars_of(ss[i].name.as_str()).as_slice());
                let mut pieces: Vec<Piece> = Vec::new();
                push_piece(&mut pieces, piece(pad(ss[i].name.as_str(), nw), Tone::Bold));
                push_piece(&mut pieces, piece("  ".to_string(), Tone::Plain));
                push_piece(&mut pieces, piece(pad(string_of(colon.as_slice()).as_str(), 12), Tone::Cyan));
                push_piece(&mut pieces, piece("  ".to_string(), Tone::Plain));
                push_piece(&mut pieces, piece(fit_end(ss[i].summary().as_str(), room), Tone::Dim));
                let l = Line { pieces };
                assert(l@ =~= want[i as int]);
                push_line(&mut rows, l);
                i = i + 1;
                assert(want.take(i as int) =~= want.take(i - 1).push(want[i - 1]));
            }
            assert(want.take(ss@.len() as int) =~= want);
            Pane::List { title: counted("Snippets", ss.len(), total), rows }
        },
    }
}

/// Who a tunnel was dug for, resolved back to a saved connection rather than
/// shown as its raw key; a key that names none is called out, since the
/// connection was deleted or renamed outside easysql.
pub open spec fn owner_text_spec(owner: Option<Seq<char>>, conns: Seq<ConnV>) -> Seq<char> {
    match owner {
        None => seq![],
        Some(key) => match crate::toolbox::conn_by_key(conns, key) {
            Some(c) => "   for "@ + c.name + " ("@ + label_of(c.engine) + ")"@,
            None => "   for a connection that no longer exists"@,
        },
    }
}

/// One Tunnels row: the tunnel's own line, then dimmed whom it is for, cut
/// to what is left of the row inside the pane's borders.
pub open spec fn tunnel_row_spec(body: Seq<char>, owner: Option<Seq<char>>, conns: Seq<ConnV>, area_w: nat) -> Seq<
    PieceV,
> {
    seq![
        pv(body, Tone::Plain),
        pv(fit_end_spec(owner_text_spec(owner, conns), sat_sub(sat_sub(area_w, 4), body.len()) as int), Tone::Dim),
    ]
}

/// The Tunnels pane: each row is a tunnel's line and the key of the
/// connection it was opened for, if any.
pub open spec fn tunnel_pane_spec(
    rows: Seq<(Seq<char>, Option<Seq<char>>)>,
    conns: Seq<ConnV>,
    total: nat,
    query: Seq<char>,
    area_w: nat,
) -> PaneV {
    pane_spec(
        "Tunnels"@,
        rows.len(),
        total,
        query,
        "No tunnels yet.\nOpen one from the Connections tab with `t`, for a database\nyou can only reach from inside the network."@,
        Seq::new(rows.len(), |i: int| tunnel_row_spec(rows[i].0, rows[i].1, conns, area_w)),
    )
}

pub open spec fn tunnel_row_views(rows: Seq<(String, Option<String>)>) -> Seq<(Seq<char>, Option<Seq<char>>)> {
    rows.map_values(|r: (String, Option<String>)| (r.0@, crate::ini::opt_sview(r.1)))
}

fn owner_text(owner: &Option<String>, conns: &Vec<Conn>) -> (r: String)
    ensures
        r@ == owner_text_spec(crate::ini::opt_sview(*owner), crate::engines::conn_views(conns@)),
{
    match owner {
        None => String::new(),
        Some(key) => match crate::toolbox::by_key(conns, key.as_str()) {
            Some(c) => {
                let mut v = chars_of("   for ");
                extend(&mut v, chars_of(c.name.as_str()).as_slice());
                extend(&mut v, chars_of(" (").as_slice());
                extend(&mut v, chars_of(c.engine.label()).as_slice());
                extend(&mut v, chars_of(")").as_slice());
                string_of(v.as_slice())
            },
            None => "   for a connection that no longer exists".to_string(),
        },
    }
}

pub fn tunnel_pane(rows: &[(String, Option<String>)], conns: &Vec<Conn>, total: usize, query: &str, area_w: u16) -> (r:
    Pane)
    ensures
        r@ == tunnel_pane_spec(
            tunnel_row_views(rows@),
            crate::engines::conn_views(conns@),
            total as nat,
            query@,
            area_w as nat,
        ),
{
    let when_empty = "No tunnels yet.\nOpen one from the Connections tab with `t`, for a database\nyou can only reach from inside the network.";
    match nothing_here(total, rows.len(), query, when_empty) {
        Some(m) => Pane::Message { title: counted("Tunnels", 0, 0), text: m },
        None => {
            let ghost rv = tunnel_row_views(rows@);
            let ghost cv = crate::engines::conn_views(conns@);
            let room = (area_w as usize).saturating_sub(4);
            let mut out: Vec<Line> = Vec::new();
            let mut i: usize = 0;
            while i < rows.len()
                invariant
                    i <= rows@.len(),
                    rv == tunnel_row_views(rows@),
                    cv == crate::engines::conn_views(conns@),
                    room == sat_sub(area_w as nat, 4),
                    line_views(out@) == Seq::new(
                        i as nat,
                        |k: int| tunnel_row_spec(rv[k].0, rv[k].1, cv, area_w as nat),
                    ),
                decreases rows@.len() - i,
            {
                assert(rv[i as int] == (rows@[i as int].0@, crate::ini::opt_sview(rows@[i as int].1)));
                let body = chars_of(rows[i].0.as_str());
                let owner = owner_text(&rows[i].1, conns);
                let mut pieces: Vec<Piece> = Vec::new();
                push_piece(&mut pieces, piece(rows[i].0.clone(), Tone::Plain));
                push_piece(&mut pieces, piece(fit_end(owner.as_str(), room.saturating_sub(body.len())), Tone::Dim));
                let l = Line { pieces };
                assert(l@ =~= tunnel_row_spec(rv[i as int].0, rv[i as int].1, cv, area_w as nat));
                push_line(&mut out, l);
                i = i + 1;
                assert(line_views(out@) =~= Seq::new(
                    i as nat,
                    |k: int| tunnel_row_spec(rv[k].0, rv[k].1, cv, area_w as nat),
                ));
            }
            Pane::List { title: counted("Tunnels", rows.len(), total), rows: out }
        },
    }
}

pub open spec fn group_label_spec(g: crate::settings::Group) -> Seq<char> {
    match g {
        crate::settings::Group::Behaviour => "behaviour"@,
        crate::settings::Group::Default => "defaults"@,
    }
}

/// The group a Settings row names: only on the first row of its group, so
/// the two kinds read as two blocks without a header you can land on.
pub open spec fn group_shown(rs: Seq<crate::settings::Row>, i: int) -> Seq<char> {
    if i > 0 && rs[i - 1].group == rs[i].group {
        Seq::<char>::empty()
    } else {
        group_label_spec(rs[i].group)
    }
}

/// The Settings pane: group, label and value in columns sized to what is on
/// screen (counted in bytes), a value you chose picked out from one that
/// came with the program, and the help cut to what is left of the row.
pub open spec fn settings_pane_spec(
    rs: Seq<crate::settings::Row>,
    total: nat,
    query: Seq<char>,
    area_w: nat,
) -> PaneV {
    let w = max_of(rs.map_values(|r: crate::settings::Row| capped(byte_len(r.label@))));
    let vw = max_of(rs.map_values(|r: crate::settings::Row| capped(byte_len(r.value@))));
    let gw = max_of(
        rs.map_values(|r: crate::settings::Row| capped(byte_len(group_label_spec(r.group)))),
    );
    let room = sat_sub(area_w, sat_add(sat_add(sat_add(gw, w), vw), 10));
    pane_spec(
        "Settings"@,
        rs.len(),
        total,
        query,
        "No settings."@,
        Seq::new(
            rs.len(),
            |i: int|
                seq![
                    pv(pad_spec(group_shown(rs, i), gw as int), Tone::Dim),
                    pv("  "@, Tone::Plain),
                    pv(pad_spec(rs[i].label@, w as int), Tone::Bold),
                    pv("  "@, Tone::Plain),
                    pv(pad_spec(rs[i].value@, vw as int), if rs[i].value@ == rs[i].default@ {
                        Tone::Plain
                    } else {
                        Tone::Heading
                    }),
                    pv("  "@, Tone::Plain),
                    pv(fit_end_spec(rs[i].help@, room as int), Tone::Dim),
                ],
        ),
    )
}

pub fn settings_pane(rs: &[crate::settings::Row], total: usize, query: &str, area_w: u16) -> (r:
    Pane)
    ensures
        r@ == settings_pane_spec(rs@, total as nat, query@, area_w as nat),
{
    match nothing_here(total, rs.len(), query, "No settings.") {
        Some(m) => Pane::Message { title: counted("Settings", 0, 0), text: m },
        None => {
            let ghost ls = rs@.map_values(|r: crate::settings::Row| capped(byte_len(r.label@)));
            let ghost vs = rs@.map_values(|r: crate::settings::Row| capped(byte_len(r.value@)));
            let ghost gs = rs@.map_values(
                |r: crate::settings::Row| capped(byte_len(group_label_spec(r.group))),
            );
            let mut w: usize = 0;
            let mut vw: usize = 0;
            let mut gw: usize = 0;
            let mut i: usize = 0;
            while i < rs.len()
                invariant
                    i <= rs@.len(),
                    ls == rs@.map_values(|r: crate::settings::Row| capped(byte_len(r.label@))),
                    vs == rs@.map_values(|r: crate::settings::Row| capped(byte_len(r.value@))),
                    gs == rs@.map_values(
                        |r: crate::settings::Row| capped(byte_len(group_label_spec(r.group))),
                    ),
                    w == max_of(ls.take(i as int)),
                    vw == max_of(vs.take(i as int)),
                    gw == max_of(gs.take(i as int)),
                decreases rs@.len() - i,
            {
                assert(ls.take(i + 1).drop_last() =~= ls.take(i as int));
                assert(vs.take(i + 1).drop_last() =~= vs.take(i as int));
                assert(gs.take(i + 1).drop_last() =~= gs.take(i as int));
                w = max_step(w, byte_len_upto(rs[i].label, usize::MAX));
                vw = max_step(vw, byte_len_upto(rs[i].value.as_str(), usize::MAX));
                gw = max_step(gw, byte_len_upto(rs[i].group.label(), usize::MAX));
                i = i + 1;
            }
            assert(ls.take(rs@.len() as int) =~= ls);
            assert(vs.take(rs@.len() as int) =~= vs);
            assert(gs.take(rs@.len() as int) =~= gs);
            let room = (area_w as usize).saturating_sub(
                gw.saturating_add(w).saturating_add(vw).saturating_add(10),
            );
            let ghost want = Seq::new(
                rs@.len(),
                |k: int|
                    seq![
                        pv(pad_spec(group_shown(rs@, k), gw as int), Tone::Dim),
                        pv("  "@, Tone::Plain),
                        pv(pad_spec(rs@[k].label@, w as int), Tone::Bold),
                        pv("  "@, Tone::Plain),
                        pv(pad_spec(rs@[k].value@, vw as int), if rs@[k].value@
                            == rs@[k].default@ {
                            Tone::Plain
                        } else {
                            Tone::Heading
                        }),
                        pv("  "@, Tone::Plain),
                        pv(fit_end_spec(rs@[k].help@, room as int), Tone::Dim),
                    ],
            );
            let mut rows: Vec<Line> = Vec::new();
            let mut i: usize = 0;
            while i < rs.len()
                invariant
                    i <= rs@.len(),
                    want.len() == rs@.len(),
                    forall|k: int| 0 <= k < rs@.len() ==> #[trigger] want[k] == seq![
                        pv(pad_spec(group_shown(rs@, k), gw as int), Tone::Dim),
                        pv("  "@, Tone::Plain),
                        pv(pad_spec(rs@[k].label@, w as int), Tone::Bold),
                        pv("  "@, Tone::Plain),
                        pv(pad_spec(rs@[k].value@, vw as int), if rs@[k].value@
                            == rs@[k].default@ {
                            Tone::Plain
                        } else {
                            Tone::Heading
                        }),
                        pv("  "@, Tone::Plain),
                        pv(fit_end_spec(rs@[k].help@, room as int), Tone::Dim),
                    ],
                    line_views(rows@) == want.take(i as int),
                decreases rs@.len() - i,
            {
                let same_group = i > 0 && match (rs[i - 1].group, rs[i].group) {
                    (crate::settings::Group::Behaviour, crate::settings::Group::Behaviour) => true,
                    (crate::settings::Group::Default, crate::settings::Group::Default) => true,
                    _ => false,
                };
                let group: &str = if same_group {
                    ""
                } else {
                    rs[i].group.label()
                };
                proof {
                    if same_group {
                        reveal_strlit("");
                        assert(group@ =~= group_shown(rs@, i as int));
                    }
                }
                let value_tone = if rs[i].is_default() {
                    Tone::Plain
                } else {
                    Tone::Heading
                };
                let mut pieces: Vec<Piece> = Vec::new();
                push_piece(&mut pieces, piece(pad(group, gw), Tone::Dim));
                push_piece(&mut pieces, piece("  ".to_string(), Tone::Plain));
                push_piece(&mut pieces, piece(pad(rs[i].label, w), Tone::Bold));
                push_piece(&mut pieces, piece("  ".to_string(), Tone::Plain));
                push_piece(&mut pieces, piece(pad(rs[i].value.as_str(), vw), value_tone));
                push_piece(&mut pieces, piece("  ".to_string(), Tone::Plain));
                push_piece(&mut pieces, piece(fit_end(rs[i].help, room), Tone::Dim));
                let l = Line { pieces };
                assert(l@ =~= want[i as int]);
                push_line(&mut rows, l);
                i = i + 1;
                assert(want.take(i as int) =~= want.take(i - 1).push(want[i - 1]));
            }
            assert(want.take(rs@.len() as int) =~= want);
            Pane::List { title: counted("Settings", rs.len(), total), rows }
        },
    }
}

// ---------------------------------------------------------------------------
// the lines of a form
// ---------------------------------------------------------------------------

/// One answer of a two-way toggle: the house button, filled when picked.
pub open spec fn chip_spec(label: Seq<char>, picked: bool) -> PieceV {
    pv(" "@ + label + " "@, if picked {
        Tone::Picked
    } else {
        Tone::Dim
    })
}

pub open spec fn cursor_mark(active: bool) -> Seq<char> {
    if active {
        "▸ "@
    } else {
        "  "@
    }
}

pub open spec fn star_of(f: crate::forms::FieldV) -> Seq<char> {
    if f.required {
        "*"@
    } else {
        Seq::<char>::empty()
    }
}

pub open spec fn label_tone(active: bool) -> Tone {
    if active {
        Tone::Heading
    } else {
        Tone::Dim
    }
}

/// The gap between a label cell and the value column: at least one space.
pub open spec fn field_gap(f: crate::forms::FieldV, col: int) -> int {
    if col - crate::forms::label_width_spec(f) > 1 {
        col - crate::forms::label_width_spec(f)
    } else {
        1
    }
}

/// The mark, the label, its star (which keeps its colour while the label
/// dims) and the colon that pads out to the value column.
pub open spec fn field_head_spec(f: crate::forms::FieldV, active: bool, col: int) -> Seq<PieceV> {
    seq![
        pv(cursor_mark(active), Tone::Plain),
        pv(f.label, label_tone(active)),
        pv(star_of(f), Tone::Red),
        pv(":"@ + spaces(field_gap(f, col)), label_tone(active)),
    ]
}

/// The value: a toggle's two buttons, a cycled answer in the colour of what
/// will be submitted, a typed value with the cursor after it, or, while
/// empty, the dim example.
pub open spec fn field_tail_spec(f: crate::forms::FieldV, active: bool) -> Seq<PieceV> {
    let value = crate::forms::display_spec(f);
    match f.kind {
        crate::forms::KindV::Choice(o) => if o.len() == 2 {
            seq![chip_spec(o[0], f.choice == 0), pv("  "@, Tone::Plain), chip_spec(o[1], f.choice == 1)]
        } else {
            seq![pv(value, if active {
                Tone::Heading
            } else {
                Tone::Cyan
            })]
        },
        _ => if value.len() == 0 {
            seq![pv(if active {
                "█ "@
            } else {
                Seq::<char>::empty()
            }, Tone::Plain), pv(crate::forms::placeholder_spec(f), Tone::Dim)]
        } else {
            seq![pv(value, Tone::Plain), pv(if active {
                "█"@
            } else {
                Seq::<char>::empty()
            }, Tone::Plain)]
        },
    }
}

/// A field's line as plain text, for sizing the box: with the example while
/// the value is empty.
pub open spec fn field_text_spec(f: crate::forms::FieldV, active: bool, col: int) -> Seq<char> {
    let value = crate::forms::display_spec(f);
    cursor_mark(active) + f.label + star_of(f) + ":"@ + spaces(field_gap(f, col)) + value + if !(
    f.kind is Choice) && value.len() == 0 {
        crate::forms::placeholder_spec(f)
    } else {
        Seq::<char>::empty()
    }
}

fn push_chip(out: &mut Vec<Piece>, label: &str, picked: bool)
    ensures
        piece_views(final(out)@) == piece_views(old(out)@).push(chip_spec(label@, picked)),
{
    let mut v = chars_of(" ");
    extend(&mut v, chars_of(label).as_slice());
    extend(&mut v, chars_of(" ").as_slice());
    push_piece(out, piece(string_of(v.as_slice()), if picked {
        Tone::Picked
    } else {
        Tone::Dim
    }));
}

fn empty_str() -> (r: String)
    ensures
        r@ == Seq::<char>::empty(),
{
    let r = String::new();
    r
}

fn field_head(f: &crate::forms::Field, active: bool, col: usize) -> (r: (Vec<Piece>, Vec<char>))
    requires
        crate::forms::measurable(f@),
    ensures
        piece_views(r.0@) == field_head_spec(f@, active, col as int),
        r.1@ == cursor_mark(active) + f@.label + star_of(f@) + ":"@ + spaces(field_gap(f@, col as int)),
{
    let mark = if active {
        "▸ "
    } else {
        "  "
    };
    let star = if f.required {
        "*".to_string()
    } else {
        empty_str()
    };
    let tone = if active {
        Tone::Heading
    } else {
        Tone::Dim
    };
    let lw = crate::forms::label_width(f);
    let gap = if col > lw && col - lw > 1 {
        col - lw
    } else {
        1
    };
    let mut colon = chars_of(":");
    push_spaces(&mut colon, gap);
    let mut text = chars_of(mark);
    extend(&mut text, chars_of(f.label.as_str()).as_slice());
    extend(&mut text, chars_of(star.as_str()).as_slice());
    extend(&mut text, colon.as_slice());
    let mut pieces: Vec<Piece> = Vec::new();
    push_piece(&mut pieces, piece(mark.to_string(), Tone::Plain));
    push_piece(&mut pieces, piece(f.label.clone(), tone));
    push_piece(&mut pieces, piece(star, Tone::Red));
    push_piece(&mut pieces, piece(string_of(colon.as_slice()), tone));
    assert(piece_views(pieces@) =~= field_head_spec(f@, active, col as int));
    (pieces, text)
}

fn push_field_tail(out: &mut Vec<Piece>, f: &crate::forms::Field, active: bool)
    requires
        crate::forms::paintable(f@),
    ensures
        piece_views(final(out)@) == piece_views(old(out)@) + field_tail_spec(f@, active),
{
    let ghost start = piece_views(out@);
    let value = f.display();
    let is_pair = match &f.kind {
        crate::forms::Kind::Choice(options) => options.len() == 2,
        _ => false,
    };
    if is_pair {
        match &f.kind {
            crate::forms::Kind::Choice(options) => {
                push_chip(out, options[0].as_str(), f.choice == 0);
                push_piece(out, piece("  ".to_string(), Tone::Plain));
                push_chip(out, options[1].as_str(), f.choice == 1);
            },
            _ => {},
        }
    } else if f.is_choice() {
        push_piece(out, piece(value, if active {
            Tone::Heading
        } else {
            Tone::Cyan
        }));
    } else if chars_of(value.as_str()).len() == 0 {
        push_piece(out, piece(if active {
            "█ ".to_string()
        } else {
            empty_str()
        }, Tone::Plain));
        push_piece(out, piece(f.placeholder(), Tone::Dim));
    } else {
        push_piece(out, piece(value, Tone::Plain));
        push_piece(out, piece(if active {
            "█".to_string()
        } else {
            empty_str()
        }, Tone::Plain));
    }
    assert(piece_views(out@) =~= start + field_tail_spec(f@, active));
}

/// A field's line, and its plain text for sizing the box.
pub fn field_line(f: &crate::forms::Field, active: bool, col: usize) -> (r: (Line, String))
    requires
        crate::forms::paintable(f@),
        crate::forms::measurable(f@),
    ensures
        r.0@ == field_head_spec(f@, active, col as int) + field_tail_spec(f@, active),
        r.1@ == field_text_spec(f@, active, col as int),
{
    let (mut pieces, mut text) = field_head(f, active, col);
    push_field_tail(&mut pieces, f, active);
    let value = f.display();
    extend(&mut text, chars_of(value.as_str()).as_slice());
    let ghost before = text@;
    if !f.is_choice() && chars_of(value.as_str()).len() == 0 {
        extend(&mut text, chars_of(f.placeholder().as_str()).as_slice());
    } else {
        assert(text@ =~= before + Seq::<char>::empty());
    }
    (Line { pieces }, string_of(text.as_slice()))
}

/// The first forward that is up, local, and opened on `port`: the one
/// carrying a connection pointed at that port, by its ssh host.
pub open spec fn carrier(ts: Seq<Entry>, port: Seq<char>) -> Option<Seq<char>>
    decreases ts.len(),
{
    if ts.len() == 0 {
        None
    } else {
        let t = ts[0];
        if ports_spec(t.spec@) matches Some((open, _, _)) && t.live is Some && t.kind == 'L' && open
            == port {
            Some(t.host@)
        } else {
            carrier(ts.drop_first(), port)
        }
    }
}

/// The key line of a form, with the star explained when a field has one.
pub open spec fn form_hint(fs: Seq<crate::forms::FieldV>) -> Seq<char> {
    "↑↓ tab move · ←→ choose · enter next/submit · esc cancel"@ + if exists|i: int|
        0 <= i < fs.len() && (#[trigger] fs[i]).required {
        " · * required"@
    } else {
        Seq::<char>::empty()
    }
}

/// The lines of a form's box, and each as plain text for sizing it: a line
/// per field; the form's note; the command Enter would run; where that
/// command connects, and the forward carrying it when one is; and the key
/// line.
pub open spec fn prompt_lines_spec(
    p: crate::forms::PromptV,
    ts: Seq<Entry>,
    s: SettingsV,
    pgoptions: Option<Seq<char>>,
    home: Seq<char>,
) -> (Seq<Seq<PieceV>>, Seq<Seq<char>>) {
    let col = crate::forms::value_column_spec(p.fields);
    let n = p.fields.len();
    let fl = Seq::new(
        n,
        |i: int| field_head_spec(p.fields[i], i == p.idx, col) + field_tail_spec(p.fields[i], i == p.idx),
    );
    let ft = Seq::new(n, |i: int| field_text_spec(p.fields[i], i == p.idx, col));
    let note = crate::forms::note_spec(p);
    let (nl, nt) = if note.len() > 0 {
        (seq![blank(), one(note, Tone::Dim)], seq![Seq::<char>::empty(), note])
    } else {
        (Seq::<Seq<PieceV>>::empty(), Seq::<Seq<char>>::empty())
    };
    let (pl, pt) = match crate::forms::preview_spec(p, s, pgoptions, home) {
        Some(cmd) => (
            seq![blank(), seq![pv("  runs  "@, Tone::Dim), pv(cmd, Tone::Green)]],
            seq![Seq::<char>::empty(), "  runs  "@ + cmd],
        ),
        None => (Seq::<Seq<PieceV>>::empty(), Seq::<Seq<char>>::empty()),
    };
    let (rl, rt) = match crate::forms::resolves_to_spec(p) {
        Some((target, port)) => {
            let line = "        "@ + target + match carrier(ts, port) {
                Some(h) => "   · through the tunnel to "@ + h,
                None => Seq::<char>::empty(),
            };
            (seq![one(line, Tone::Dim)], seq![line])
        },
        None => (Seq::<Seq<PieceV>>::empty(), Seq::<Seq<char>>::empty()),
    };
    let hint = form_hint(p.fields);
    (
        fl + nl + pl + rl + seq![blank(), one(hint, Tone::Hint)],
        ft + nt + pt + rt + seq![Seq::<char>::empty(), hint],
    )
}

fn carrier_of(ts: &[Entry], port: &str) -> (r: Option<String>)
    ensures
        crate::ini::opt_sview(r) == carrier(ts@, port@),
{
    let p = chars_of(port);
    let mut i: usize = 0;
    assert(ts@.skip(0) =~= ts@);
    while i < ts.len()
        invariant
            i <= ts@.len(),
            p@ == port@,
            carrier(ts@, port@) == carrier(ts@.skip(i as int), port@),
        decreases ts@.len() - i,
    {
        assert(ts@.skip(i as int)[0] == ts@[i as int]);
        assert(ts@.skip(i as int).drop_first() =~= ts@.skip(i + 1));
        let t = &ts[i];
        if let Some((open, _, _)) = t.ports() {
            let o = chars_of(open.as_str());
            if t.on() && t.kind == 'L' && seq_eq(o.as_slice(), p.as_slice()) {
                return Some(t.host.clone());
            }
        }
        i = i + 1;
    }
    None
}

fn push_text(out: &mut Vec<String>, t: String)
    ensures
        crate::text::views(final(out)@) == crate::text::views(old(out)@).push(t@),
{
    let ghost v = t@;
    out.push(t);
    assert(crate::text::views(out@) =~= crate::text::views(old(out)@).push(v));
}

/// The lines of a form's box, and each as plain text for sizing it.
pub fn prompt_lines(
    p: &crate::forms::Prompt,
    ts: &[Entry],
    s: &Settings,
    pgoptions: Option<&str>,
    home: &str,
) -> (r: (Vec<Line>, Vec<String>))
    requires
        crate::forms::well_formed(p@),
        forall|i: int| 0 <= i < p@.fields.len() ==> crate::forms::measurable(#[trigger] p@.fields[i]),
    ensures
        (line_views(r.0@), crate::text::views(r.1@)) == prompt_lines_spec(
            p@,
            ts@,
            s@,
            crate::ini::opt_view(pgoptions),
            home@,
        ),
{
    let ghost pv_ = p@;
    let ghost want = prompt_lines_spec(pv_, ts@, s@, crate::ini::opt_view(pgoptions), home@);
    assert forall|i: int| 0 <= i < p.fields@.len() implies crate::forms::measurable(
        #[trigger] p.fields@[i]@,
    ) by {
        assert(p@.fields[i] == p.fields@[i]@);
    }
    let col = crate::forms::value_column(p.fields.as_slice());
    let ghost n = p.fields@.len();
    let ghost fl = Seq::new(
        n,
        |i: int|
            field_head_spec(pv_.fields[i], i == pv_.idx, col as int) + field_tail_spec(
                pv_.fields[i],
                i == pv_.idx,
            ),
    );
    let ghost ft = Seq::new(n, |i: int| field_text_spec(pv_.fields[i], i == pv_.idx, col as int));
    let mut lines: Vec<Line> = Vec::new();
    let mut texts: Vec<String> = Vec::new();
    let mut i: usize = 0;
    while i < p.fields.len()
        invariant
            i <= p.fields@.len(),
            n == p.fields@.len(),
            pv_ == p@,
            crate::forms::well_formed(pv_),
            forall|k: int| 0 <= k < p@.fields.len() ==> crate::forms::measurable(#[trigger] p@.fields[k]),
            fl == Seq::new(
                n,
                |k: int|
                    field_head_spec(pv_.fields[k], k == pv_.idx, col as int) + field_tail_spec(
                        pv_.fields[k],
                        k == pv_.idx,
                    ),
            ),
            ft == Seq::new(n, |k: int| field_text_spec(pv_.fields[k], k == pv_.idx, col as int)),
            line_views(lines@) == fl.take(i as int),
            crate::text::views(texts@) == ft.take(i as int),
        decreases p.fields@.len() - i,
    {
        assert(pv_.fields[i as int] == p.fields@[i as int]@);
        assert(crate::forms::measurable(pv_.fields[i as int]));
        assert(crate::forms::paintable(p.fields@[i as int]@)) by {
            assert(crate::forms::choices_ok(pv_.fields));
            let f = pv_.fields[i as int];
            match f.kind {
                crate::forms::KindV::Choice(o) => {},
                _ => {},
            }
        }
        let (l, t) = field_line(&p.fields[i], i == p.idx, col);
        push_line(&mut lines, l);
        push_text(&mut texts, t);
        i = i + 1;
        assert(fl.take(i as int) =~= fl.take(i - 1).push(fl[i - 1]));
        assert(ft.take(i as int) =~= ft.take(i - 1).push(ft[i - 1]));
    }
    assert(fl.take(n as int) =~= fl);
    assert(ft.take(n as int) =~= ft);
    let note = p.note();
    if chars_of(note).len() > 0 {
        push_line(&mut lines, blank_line());
        push_text(&mut texts, empty_str());
        push_line(&mut lines, line1(note.to_string(), Tone::Dim));
        push_text(&mut texts, note.to_string());
    }
    let ghost after_note = (line_views(lines@), crate::text::views(texts@));
    match p.command_preview_in(s, pgoptions, home) {
        Some(cmd) => {
            push_line(&mut lines, blank_line());
            push_text(&mut texts, empty_str());
            let mut runs = chars_of("  runs  ");
            extend(&mut runs, chars_of(cmd.as_str()).as_slice());
            push_text(&mut texts, string_of(runs.as_slice()));
            let mut pieces: Vec<Piece> = Vec::new();
            push_piece(&mut pieces, piece("  runs  ".to_string(), Tone::Dim));
            let ghost cv = cmd@;
            push_piece(&mut pieces, piece(cmd, Tone::Green));
            let l = Line { pieces };
            assert(l@ =~= seq![pv("  runs  "@, Tone::Dim), pv(cv, Tone::Green)]);
            push_line(&mut lines, l);
        },
        None => {},
    }
    let ghost after_preview = (line_views(lines@), crate::text::views(texts@));
    match p.resolves_to() {
        Some((target, port)) => {
            let mut line = chars_of("        ");
            extend(&mut line, chars_of(target.as_str()).as_slice());
            match carrier_of(ts, port.as_str()) {
                Some(h) => {
                    extend(&mut line, chars_of("   · through the tunnel to ").as_slice());
                    extend(&mut line, chars_of(h.as_str()).as_slice());
                },
                None => {},
            }
            let ghost lv = line@;
            push_text(&mut texts, string_of(line.as_slice()));
            push_line(&mut lines, line1(string_of(line.as_slice()), Tone::Dim));
            proof {
                let ghost_target = target@;
                assert(lv == "        "@ + ghost_target + match carrier(ts@, port@) {
                    Some(h) => "   · through the tunnel to "@ + h,
                    None => Seq::<char>::empty(),
                });
            }
        },
        None => {},
    }
    let ghost after_target = (line_views(lines@), crate::text::views(texts@));
    let mut hint = chars_of("↑↓ tab move · ←→ choose · enter next/submit · esc cancel");
    let mut any = false;
    let mut j: usize = 0;
    while j < p.fields.len()
        invariant
            j <= p.fields@.len(),
            any == exists|k: int| 0 <= k < j && (#[trigger] p@.fields[k]).required,
        decreases p.fields@.len() - j,
    {
        assert(p@.fields[j as int] == p.fields@[j as int]@);
        if p.fields[j].required {
            any = true;
        }
        j = j + 1;
    }
    if any {
        extend(&mut hint, chars_of(" · * required").as_slice());
    }
    push_line(&mut lines, blank_line());
    push_text(&mut texts, empty_str());
    push_line(&mut lines, line1(string_of(hint.as_slice()), Tone::Hint));
    push_text(&mut texts, string_of(hint.as_slice()));
    proof {
        let col_s = crate::forms::value_column_spec(pv_.fields);
        assert(col as int == col_s);
        let note_s = crate::forms::note_spec(pv_);
        let (nl, nt) = if note_s.len() > 0 {
            (seq![blank(), one(note_s, Tone::Dim)], seq![Seq::<char>::empty(), note_s])
        } else {
            (Seq::<Seq<PieceV>>::empty(), Seq::<Seq<char>>::empty())
        };
        assert(after_note.0 =~= fl + nl);
        assert(after_note.1 =~= ft + nt);
        let (pl, pt) = match crate::forms::preview_spec(pv_, s@, crate::ini::opt_view(pgoptions), home@) {
            Some(cmd) => (
                seq![blank(), seq![pv("  runs  "@, Tone::Dim), pv(cmd, Tone::Green)]],
                seq![Seq::<char>::empty(), "  runs  "@ + cmd],
            ),
            None => (Seq::<Seq<PieceV>>::empty(), Seq::<Seq<char>>::empty()),
        };
        assert(after_preview.0 =~= fl + nl + pl);
        assert(after_preview.1 =~= ft + nt + pt);
        let (rl, rt) = match crate::forms::resolves_to_spec(pv_) {
            Some((target, port)) => {
                let line = "        "@ + target + match carrier(ts@, port) {
                    Some(h) => "   · through the tunnel to "@ + h,
                    None => Seq::<char>::empty(),
                };
                (seq![one(line, Tone::Dim)], seq![line])
            },
            None => (Seq::<Seq<PieceV>>::empty(), Seq::<Seq<char>>::empty()),
        };
        assert(after_target.0 =~= fl + nl + pl + rl);
        assert(after_target.1 =~= ft + nt + pt + rt);
        assert(hint@ == form_hint(pv_.fields));
    }
    assert(line_views(lines@) =~= want.0);
    assert(crate::text::views(texts@) =~= want.1);
    (lines, texts)
}

// ---------------------------------------------------------------------------
// the status line
// ---------------------------------------------------------------------------

/// The key hints of a tab: its own actions only.
pub open spec fn hints_of(t: crate::toolbox::Tab) -> Seq<char> {
    match t {
        crate::toolbox::Tab::Connections => "↵ open · c new · e edit · d del · p password · t tunnel · y yank · Y url · r refresh · / find · ? help"@,
        crate::toolbox::Tab::Passwords => "c new · e edit · o open the file · d forget · r refresh · / find · ? help"@,
        crate::toolbox::Tab::Tunnels => "d kill · r refresh · / find · ? help"@,
        crate::toolbox::Tab::Snippets => "c new · e edit · o open the file · d delete · r reload · / find · ? help"@,
        crate::toolbox::Tab::Settings => "↵ change · d back to default · r reload · ? help"@,
    }
}

pub fn hints(t: crate::toolbox::Tab) -> (r: &'static str)
    ensures
        r@ == hints_of(t),
{
    match t {
        crate::toolbox::Tab::Connections => "↵ open · c new · e edit · d del · p password · t tunnel · y yank · Y url · r refresh · / find · ? help",
        crate::toolbox::Tab::Passwords => "c new · e edit · o open the file · d forget · r refresh · / find · ? help",
        crate::toolbox::Tab::Tunnels => "d kill · r refresh · / find · ? help",
        crate::toolbox::Tab::Snippets => "c new · e edit · o open the file · d delete · r reload · / find · ? help",
        crate::toolbox::Tab::Settings => "↵ change · d back to default · r reload · ? help",
    }
}

/// The bottom line: while `/` is typed, the query and how many rows match;
/// otherwise the last action's result while it is fresh (green for what
/// worked, yellow for what did not, never red); otherwise the tab's hints,
/// behind a committed filter so the hidden rows are explained.
pub open spec fn status_spec(
    searching: bool,
    query: Seq<char>,
    matched: nat,
    live: Option<Seq<char>>,
    failed: bool,
    tab: crate::toolbox::Tab,
) -> Seq<PieceV> {
    if searching {
        seq![
            pv(" /"@, Tone::Heading),
            pv(query, Tone::Bold),
            pv("█"@, Tone::Plain),
            pv("   "@ + dec(matched) + " match   ↵ keep · Esc clear"@, Tone::Dim),
        ]
    } else {
        match live {
            Some(msg) => one(" "@ + msg, if failed {
                Tone::Yellow
            } else {
                Tone::Green
            }),
            None => one(
                " "@ + if query.len() == 0 {
                    hints_of(tab)
                } else {
                    "/"@ + query + "  (Esc clears) · "@ + hints_of(tab)
                },
                Tone::Dim,
            ),
        }
    }
}

pub fn status(
    searching: bool,
    query: &str,
    matched: usize,
    live: Option<&str>,
    failed: bool,
    tab: crate::toolbox::Tab,
) -> (r: Line)
    ensures
        r@ == status_spec(searching, query@, matched as nat, crate::ini::opt_view(live), failed, tab),
{
    if searching {
        let mut tail = chars_of("   ");
        extend(&mut tail, dec_of(matched as u64).as_slice());
        extend(&mut tail, chars_of(" match   ↵ keep · Esc clear").as_slice());
        let mut pieces: Vec<Piece> = Vec::new();
        push_piece(&mut pieces, piece(" /".to_string(), Tone::Heading));
        push_piece(&mut pieces, piece(query.to_string(), Tone::Bold));
        push_piece(&mut pieces, piece("█".to_string(), Tone::Plain));
        push_piece(&mut pieces, piece(string_of(tail.as_slice()), Tone::Dim));
        let r = Line { pieces };
        assert(r@ =~= status_spec(searching, query@, matched as nat, crate::ini::opt_view(live), failed, tab));
        return r;
    }
    match live {
        Some(msg) => {
            let mut v = chars_of(" ");
            extend(&mut v, chars_of(msg).as_slice());
            line1(string_of(v.as_slice()), if failed {
                Tone::Yellow
            } else {
                Tone::Green
            })
        },
        None => {
            let mut v = chars_of(" ");
            if chars_of(query).len() > 0 {
                extend(&mut v, chars_of("/").as_slice());
                extend(&mut v, chars_of(query).as_slice());
                extend(&mut v, chars_of("  (Esc clears) · ").as_slice());
                extend(&mut v, chars_of(hints(tab)).as_slice());
                assert(v@ =~= " "@ + ("/"@ + query@ + "  (Esc clears) · "@ + hints_of(tab)));
            } else {
                extend(&mut v, chars_of(hints(tab)).as_slice());
            }
            line1(string_of(v.as_slice()), Tone::Dim)
        },
    }
}

// ---------------------------------------------------------------------------
// a yes/no box
// ---------------------------------------------------------------------------

/// A Yes or No button: the picked one filled with the box's colour (red for
/// a gate before a loss), the other dim.
pub open spec fn button_spec(label: Seq<char>, picked: bool, danger: bool) -> PieceV {
    pv(" "@ + label + " "@, if !picked {
        Tone::Dim
    } else if danger {
        Tone::PickedDanger
    } else {
        Tone::Picked
    })
}

/// A yes/no box's lines: the message, a blank, and the two buttons with the
/// keys that move between them.
pub open spec fn confirm_lines_spec(c: crate::toolbox::ConfirmV) -> Seq<Seq<PieceV>> {
    seq![
        one(c.message, Tone::Plain),
        blank(),
        seq![
            button_spec("Yes (y)"@, c.yes, c.danger),
            pv("  "@, Tone::Plain),
            button_spec("No (n)"@, !c.yes, c.danger),
            pv("   ←/→ then Enter"@, Tone::Dim),
        ],
    ]
}

fn push_button(out: &mut Vec<Piece>, label: &str, picked: bool, danger: bool)
    ensures
        piece_views(final(out)@) == piece_views(old(out)@).push(button_spec(label@, picked, danger)),
{
    let mut v = chars_of(" ");
    extend(&mut v, chars_of(label).as_slice());
    extend(&mut v, chars_of(" ").as_slice());
    let tone = if !picked {
        Tone::Dim
    } else if danger {
        Tone::PickedDanger
    } else {
        Tone::Picked
    };
    push_piece(out, piece(string_of(v.as_slice()), tone));
}

pub fn confirm_lines(c: &crate::toolbox::Confirm) -> (r: Vec<Line>)
    ensures
        line_views(r@) == confirm_lines_spec(c@),
{
    let mut out: Vec<Line> = Vec::new();
    push_line(&mut out, line1(c.message.clone(), Tone::Plain));
    push_line(&mut out, blank_line());
    let mut pieces: Vec<Piece> = Vec::new();
    push_button(&mut pieces, "Yes (y)", c.yes, c.danger);
    push_piece(&mut pieces, piece("  ".to_string(), Tone::Plain));
    push_button(&mut pieces, "No (n)", !c.yes, c.danger);
    push_piece(&mut pieces, piece("   ←/→ then Enter".to_string(), Tone::Dim));
    let l = Line { pieces };
    assert(l@ =~= seq![
        button_spec("Yes (y)"@, c.yes, c.danger),
        pv("  "@, Tone::Plain),
        button_spec("No (n)"@, !c.yes, c.danger),
        pv("   ←/→ then Enter"@, Tone::Dim),
    ]);
    push_line(&mut out, l);
    assert(line_views(out@) =~= confirm_lines_spec(c@));
    out
}

/// A yes/no box's width and height on a screen: two thirds of its width,
/// kept between 34 and 74 columns, and tall enough for the wrapped message
/// inside borders and padding, a blank and the buttons, but no taller than
/// the screen. Sized in a terminal's own 16-bit units, so a screen is at
/// most 992 columns wide and a message wraps to fewer than 65530 rows.
pub open spec fn confirm_size_spec(area_w: nat, area_h: nat, message: Seq<char>) -> (nat, nat) {
    let third = area_w * 66 / 100;
    let width: nat = if third < 34 {
        34
    } else if third > 74 {
        74
    } else {
        third
    };
    let inner = sat_sub(width, 6);
    let rows = crate::widgets::wrapped_spec(message, inner);
    let height = rows + 6;
    (width, if height < area_h {
        height
    } else {
        area_h
    })
}

pub fn confirm_size(area_w: u16, area_h: u16, message: &str) -> (r: (u16, u16))
    requires
        area_w <= 992,
        message@.len() + 2 <= usize::MAX,
        crate::widgets::wrapped_spec(message@, sat_sub(confirm_size_spec(area_w as nat, area_h as nat, message@).0, 6)) + 6 <= u16::MAX,
    ensures
        (r.0 as nat, r.1 as nat) == confirm_size_spec(area_w as nat, area_h as nat, message@),
{
    let third = area_w * 66 / 100;
    let width: u16 = if third < 34 {
        34
    } else if third > 74 {
        74
    } else {
        third
    };
    let inner = width.saturating_sub(6) as usize;
    let rows = crate::widgets::wrapped_line_count(message, inner);
    let height = rows as u16 + 6;
    (width, if height < area_h {
        height
    } else {
        area_h
    })
}

// ---------------------------------------------------------------------------
// the detail panel beside the Passwords and Settings lists
// ---------------------------------------------------------------------------

/// The names of the connections a saved password unlocks, in list order.
pub open spec fn unlocked(cr: crate::creds::CredV, cs: Seq<ConnV>) -> Seq<Seq<char>>
    decreases cs.len(),
{
    if cs.len() == 0 {
        seq![]
    } else {
        let rest = unlocked(cr, cs.drop_last());
        if crate::creds::covers_spec(cr, cs.last()) {
            rest.push(cs.last().name)
        } else {
            rest
        }
    }
}

/// The panel for the selected password: what it is for, where it is kept,
/// which connections it actually unlocks (a `*` covers more than the one it
/// was made for), and that the secret itself is never read back.
pub open spec fn cred_lines_spec(
    c: Option<crate::creds::CredV>,
    cs: Seq<ConnV>,
    pgpassfile: Option<Seq<char>>,
    home: Seq<char>,
) -> Seq<Seq<PieceV>> {
    match c {
        None => seq![one("nothing selected"@, Tone::Dim)],
        Some(c) => {
            let names = unlocked(c, cs);
            seq![
                one(c.user, Tone::Heading),
                one(label_of(c.engine), Tone::Dim),
                blank(),
                row_spec("Host"@, c.host),
                row_spec("Port"@, c.port),
                row_spec("Database"@, c.database),
                row_spec("User"@, c.user),
                blank(),
                row_spec("Stored in"@, crate::creds::where_stored_spec(c, pgpassfile, home)),
                blank(),
                if names.len() == 0 {
                    one("covers no saved connection"@, Tone::Dim)
                } else {
                    row_spec("Unlocks"@, join(names, ", "@))
                },
                blank(),
                one("the password itself is never read back, only written"@, Tone::Dim),
            ]
        },
    }
}

pub fn cred_lines(
    c: Option<&crate::creds::Cred>,
    cs: &[Conn],
    pgpassfile: Option<&str>,
    home: &str,
) -> (r: Vec<Line>)
    ensures
        line_views(r@) == cred_lines_spec(
            match c {
                Some(c) => Some(c@),
                None => None,
            },
            crate::engines::conn_views(cs@),
            crate::ini::opt_view(pgpassfile),
            home@,
        ),
{
    let mut out: Vec<Line> = Vec::new();
    match c {
        None => {
            push_line(&mut out, line1("nothing selected".to_string(), Tone::Dim));
            assert(line_views(out@) =~= seq![one("nothing selected"@, Tone::Dim)]);
        },
        Some(c) => {
            let ghost cv = crate::engines::conn_views(cs@);
            let mut names: Vec<Vec<char>> = Vec::new();
            let mut i: usize = 0;
            while i < cs.len()
                invariant
                    i <= cs@.len(),
                    cv == crate::engines::conn_views(cs@),
                    cviews(names@) == unlocked(c@, cv.take(i as int)),
                decreases cs@.len() - i,
            {
                assert(cv.take(i + 1).drop_last() =~= cv.take(i as int));
                assert(cv.take(i + 1).last() == cs@[i as int]@);
                if c.covers(&cs[i]) {
                    let ghost prev = cviews(names@);
                    names.push(chars_of(cs[i].name.as_str()));
                    assert(cviews(names@) =~= prev.push(cs@[i as int].name@));
                }
                i = i + 1;
            }
            assert(cv.take(cs@.len() as int) =~= cv);
            push_line(&mut out, line1(c.user.clone(), Tone::Heading));
            push_line(&mut out, line1(c.engine.label().to_string(), Tone::Dim));
            push_line(&mut out, blank_line());
            push_line(&mut out, row("Host", c.host.clone()));
            push_line(&mut out, row("Port", c.port.clone()));
            push_line(&mut out, row("Database", c.database.clone()));
            push_line(&mut out, row("User", c.user.clone()));
            push_line(&mut out, blank_line());
            push_line(&mut out, row("Stored in", c.where_stored_in(pgpassfile, home)));
            push_line(&mut out, blank_line());
            if names.len() == 0 {
                push_line(&mut out, line1("covers no saved connection".to_string(), Tone::Dim));
            } else {
                let sep = chars_of(", ");
                let joined = join_of(&names, sep.as_slice());
                push_line(&mut out, row("Unlocks", string_of(joined.as_slice())));
            }
            push_line(&mut out, blank_line());
            push_line(
                &mut out,
                line1("the password itself is never read back, only written".to_string(), Tone::Dim),
            );
            assert(line_views(out@) =~= cred_lines_spec(Some(c@), cv, crate::ini::opt_view(pgpassfile), home@));
        },
    }
    out
}

/// The panel for the selected setting: what it changes, its value and its
/// default, its choices when it has some, how to change it, the file it
/// lives in, and the line that holds it there.
pub open spec fn setting_lines_spec(
    r: Option<crate::settings::Row>,
    path: Seq<char>,
    home: Seq<char>,
) -> Seq<Seq<PieceV>> {
    match r {
        None => seq![one("nothing selected"@, Tone::Dim)],
        Some(r) => seq![one(r.label@, Tone::Heading), blank(), one(r.help@, Tone::Dim), blank(), row_spec("Now"@, r.value@), row_spec("Default"@, r.default@)]
            + match r.choices {
            Some(cs) => seq![row_spec("Choices"@, join(cs@.map_values(|x: &str| x@), " · "@))],
            None => Seq::<Seq<PieceV>>::empty(),
        } + seq![
            blank(),
            one(
                if r.choices is Some {
                    "↵ cycles it · d puts it back"@
                } else {
                    "↵ types it · d puts it back"@
                },
                Tone::Dim,
            ),
            blank(),
            one(collapse_in(home, path), Tone::Dim),
            row_spec("Key"@, r.key@ + " = "@ + r.value@),
        ],
    }
}

pub fn setting_lines(r: Option<&crate::settings::Row>, path: &str, home: &str) -> (out: Vec<Line>)
    ensures
        line_views(out@) == setting_lines_spec(
            match r {
                Some(r) => Some(*r),
                None => None,
            },
            path@,
            home@,
        ),
{
    let mut out: Vec<Line> = Vec::new();
    match r {
        None => {
            push_line(&mut out, line1("nothing selected".to_string(), Tone::Dim));
            assert(line_views(out@) =~= seq![one("nothing selected"@, Tone::Dim)]);
        },
        Some(r) => {
            push_line(&mut out, line1(r.label.to_string(), Tone::Heading));
            push_line(&mut out, blank_line());
            push_line(&mut out, line1(r.help.to_string(), Tone::Dim));
            push_line(&mut out, blank_line());
            push_line(&mut out, row("Now", r.value.clone()));
            push_line(&mut out, row("Default", r.default.clone()));
            let ghost head = line_views(out@);
            match &r.choices {
                Some(cs) => {
                    let mut parts: Vec<Vec<char>> = Vec::new();
                    let mut i: usize = 0;
                    while i < cs.len()
                        invariant
                            i <= cs@.len(),
                            cviews(parts@) == cs@.map_values(|x: &str| x@).take(i as int),
                        decreases cs@.len() - i,
                    {
                        let ghost prev = cviews(parts@);
                        parts.push(chars_of(cs[i]));
                        assert(cviews(parts@) =~= prev.push(cs@[i as int]@));
                        i = i + 1;
                        assert(cs@.map_values(|x: &str| x@).take(i as int) =~= cs@.map_values(
                            |x: &str| x@,
                        ).take(i - 1).push(cs@[i - 1]@));
                    }
                    assert(cs@.map_values(|x: &str| x@).take(cs@.len() as int) =~= cs@.map_values(
                        |x: &str| x@,
                    ));
                    let sep = chars_of(" · ");
                    let joined = join_of(&parts, sep.as_slice());
                    push_line(&mut out, row("Choices", string_of(joined.as_slice())));
                    push_line(&mut out, blank_line());
                    push_line(&mut out, line1("↵ cycles it · d puts it back".to_string(), Tone::Dim));
                },
                None => {
                    push_line(&mut out, blank_line());
                    push_line(&mut out, line1("↵ types it · d puts it back".to_string(), Tone::Dim));
                },
            }
            push_line(&mut out, blank_line());
            push_line(&mut out, line1(collapse_tilde_in(home, path), Tone::Dim));
            let mut k = chars_of(r.key);
            extend(&mut k, chars_of(" = ").as_slice());
            extend(&mut k, chars_of(r.value.as_str()).as_slice());
            push_line(&mut out, row("Key", string_of(k.as_slice())));
            assert(line_views(out@) =~= setting_lines_spec(Some(*r), path@, home@));
        },
    }
    out
}

// ---------------------------------------------------------------------------
// sizing the boxes
// ---------------------------------------------------------------------------

/// The rows some lines take once wrapped to `width`.
pub open spec fn rows_of(ts: Seq<Seq<char>>, width: nat) -> nat
    decreases ts.len(),
{
    if ts.len() == 0 {
        0
    } else {
        rows_of(ts.drop_last(), width) + crate::widgets::wrapped_spec(ts.last(), width)
    }
}

/// A form's box on a screen: the house width, and as tall as what its lines
/// wrap to (the count taken in the terminal's 16 bits) plus the chrome, no
/// taller than the screen.
pub open spec fn prompt_size_spec(texts: Seq<Seq<char>>, area_w: u16, area_h: u16) -> (u16, int) {
    let w = crate::widgets::box_width_spec(area_w);
    let rows = rows_of(texts, crate::widgets::box_inner_spec(w));
    (w, crate::widgets::box_height_spec(rows as u16, area_h))
}

pub fn prompt_size(texts: &Vec<String>, area_w: u16, area_h: u16) -> (r: (u16, u16))
    requires
        forall|i: int| 0 <= i < texts@.len() ==> (#[trigger] texts@[i])@.len() + 2 <= usize::MAX,
        rows_of(
            crate::text::views(texts@),
            crate::widgets::box_inner_spec(crate::widgets::box_width_spec(area_w)),
        ) <= usize::MAX,
    ensures
        (r.0, r.1 as int) == prompt_size_spec(crate::text::views(texts@), area_w, area_h),
{
    let w = crate::widgets::box_width(area_w);
    let inner = crate::widgets::box_inner_width(w);
    let ghost tv = crate::text::views(texts@);
    let mut rows: usize = 0;
    let mut i: usize = 0;
    while i < texts.len()
        invariant
            i <= texts@.len(),
            tv == crate::text::views(texts@),
            forall|k: int| 0 <= k < texts@.len() ==> (#[trigger] texts@[k])@.len() + 2 <= usize::MAX,
            rows_of(tv, inner as nat) <= usize::MAX,
            rows == rows_of(tv.take(i as int), inner as nat),
        decreases texts@.len() - i,
    {
        assert(tv.take(i + 1).drop_last() =~= tv.take(i as int));
        assert(tv.take(i + 1).last() == texts@[i as int]@);
        proof {
            lemma_rows_prefix(tv, i + 1, inner as nat);
        }
        let n = crate::widgets::wrapped_line_count(texts[i].as_str(), inner);
        rows = rows + n;
        i = i + 1;
    }
    assert(tv.take(texts@.len() as int) =~= tv);
    #[verifier::truncate]
    let r16 = rows as u16;
    (w, crate::widgets::box_height(r16, area_h))
}

proof fn lemma_rows_prefix(ts: Seq<Seq<char>>, i: int, width: nat)
    requires
        0 <= i <= ts.len(),
    ensures
        rows_of(ts.take(i), width) <= rows_of(ts, width),
    decreases ts.len() - i,
{
    if i < ts.len() {
        lemma_rows_prefix(ts, i + 1, width);
        assert(ts.take(i + 1).drop_last() =~= ts.take(i));
    } else {
        assert(ts.take(i) =~= ts);
    }
}

/// A picker's box on a screen: the house width, and tall enough for up to
/// ten rows of list (a longer list scrolls inside it) with a blank and the
/// key line below.
pub open spec fn picker_size_spec(items: nat, area_w: u16, area_h: u16) -> (u16, int) {
    let rows: nat = if items < 1 {
        1
    } else if items > 10 {
        10
    } else {
        items
    };
    (crate::widgets::box_width_spec(area_w), crate::widgets::box_height_spec((rows + 2) as u16, area_h))
}

pub fn picker_size(items: usize, area_w: u16, area_h: u16) -> (r: (u16, u16))
    ensures
        (r.0, r.1 as int) == picker_size_spec(items as nat, area_w, area_h),
{
    let rows: u16 = if items < 1 {
        1
    } else if items > 10 {
        10
    } else {
        items as u16
    };
    (crate::widgets::box_width(area_w), crate::widgets::box_height(rows + 2, area_h))
}

// ---------------------------------------------------------------------------
// the layout and the help box
// ---------------------------------------------------------------------------

/// The narrowest screen that still leaves a usable list beside the detail
/// panel.
pub const MIN_WIDTH_FOR_DETAIL: u16 = 96;

/// The detail panel's share of the width, in percent, when it is shown.
pub const DETAIL_PCT: u16 = 38;

/// Whether there is room for the detail panel: every tab has one, and the
/// width is what decides.
pub fn detail_fits(width: u16) -> (r: bool)
    ensures
        r == (width >= MIN_WIDTH_FOR_DETAIL),
{
    width >= MIN_WIDTH_FOR_DETAIL
}

/// The help box: what easysql is, the keys of every tab and of forms and
/// yes/no boxes, and which files the connections live in; then the key that
/// closes it.
pub open spec fn help_texts() -> Seq<Seq<char>> {
    seq![
        "easysql - saved connections, their passwords and their tunnels"@,
        ""@,
        "Move        j/k or ↑↓ list     h/l or ←→ switch view     (Ctrl+ works too)"@,
        "Global      / filter this list   ? help   q or Ctrl-c quit"@,
        ""@,
        "Connections ↵ open it in psql / mysql / sqlite3 (\\q comes back here)"@,
        "            c new / e edit / d delete   the block in the client's own file"@,
        "            p save its password (~/.pgpass · ~/.my.cnf, chmod 600)"@,
        "            t reach it through an ssh host (ssh -L)"@,
        "            y yank the command · Y yank the URL (never the password)"@,
        "            r reload · ● up · ● down · ● tunnel closed · ○ checking"@,
        "            pw = a password is saved for it"@,
        ""@,
        "Passwords   c save one for a connection · e re-point it · d forget it · r reload"@,
        "            o open the file in $EDITOR, which is the only way to reorder entries"@,
        "            easysql writes these files and never reads a password back"@,
        "Tunnels     ↵ on/off · d stop it (the background ssh -N)   r refresh"@,
        "Snippets    c new · e edit the SQL · o open the file · d delete · r reload"@,
        "            run one with `esql <connection> :<name>`; psql expands it too"@,
        "Settings    ↵ change it · d back to default · r reload the file"@,
        ""@,
        "In a form   type to fill (h/j/k/l are text!)"@,
        "            Ctrl-j/k · Ctrl-↑↓ · Tab move between fields · Esc cancel"@,
        "            Ctrl-o picks an ssh host on a tunnel's first field"@,
        "In a yes/no y confirm · n or Esc cancel · ←/→ then Enter"@,
        ""@,
        "Connections live in ~/.pg_service.conf, ~/.my.cnf and"@,
        "~/.config/easysql/sqlite.conf - the files your clients already read."@,
        ""@,
        "? esc close"@,
    ]
}

/// The help box's lines: the first one bold, the key line last.
pub open spec fn help_lines_spec() -> Seq<Seq<PieceV>> {
    let t = help_texts();
    Seq::new(
        t.len(),
        |i: int|
            if i == 0 {
                one(t[i], Tone::Bold)
            } else if i == t.len() - 1 {
                one(t[i], Tone::Hint)
            } else if t[i].len() == 0 {
                blank()
            } else {
                one(t[i], Tone::Plain)
            },
    )
}

pub fn help_lines() -> (r: Vec<Line>)
    ensures
        line_views(r@) == help_lines_spec(),
{
    let texts: Vec<&str> = vec![
        "easysql - saved connections, their passwords and their tunnels",
        "",
        "Move        j/k or ↑↓ list     h/l or ←→ switch view     (Ctrl+ works too)",
        "Global      / filter this list   ? help   q or Ctrl-c quit",
        "",
        "Connections ↵ open it in psql / mysql / sqlite3 (\\q comes back here)",
        "            c new / e edit / d delete   the block in the client's own file",
        "            p save its password (~/.pgpass · ~/.my.cnf, chmod 600)",
        "            t reach it through an ssh host (ssh -L)",
        "            y yank the command · Y yank the URL (never the password)",
        "            r reload · ● up · ● down · ● tunnel closed · ○ checking",
        "            pw = a password is saved for it",
        "",
        "Passwords   c save one for a connection · e re-point it · d forget it · r reload",
        "            o open the file in $EDITOR, which is the only way to reorder entries",
        "            easysql writes these files and never reads a password back",
        "Tunnels     ↵ on/off · d stop it (the background ssh -N)   r refresh",
        "Snippets    c new · e edit the SQL · o open the file · d delete · r reload",
        "            run one with `esql <connection> :<name>`; psql expands it too",
        "Settings    ↵ change it · d back to default · r reload the file",
        "",
        "In a form   type to fill (h/j/k/l are text!)",
        "            Ctrl-j/k · Ctrl-↑↓ · Tab move between fields · Esc cancel",
        "            Ctrl-o picks an ssh host on a tunnel's first field",
        "In a yes/no y confirm · n or Esc cancel · ←/→ then Enter",
        "",
        "Connections live in ~/.pg_service.conf, ~/.my.cnf and",
        "~/.config/easysql/sqlite.conf - the files your clients already read.",
        "",
        "? esc close",
    ];
    let ghost t = help_texts();
    assert(texts@.map_values(|x: &str| x@) =~= t);
    let mut out: Vec<Line> = Vec::new();
    let mut i: usize = 0;
    while i < texts.len()
        invariant
            i <= texts@.len(),
            texts@.len() == t.len(),
            texts@.map_values(|x: &str| x@) == t,
            t == help_texts(),
            help_lines_spec().len() == t.len(),
            line_views(out@) == help_lines_spec().take(i as int),
        decreases texts@.len() - i,
    {
        assert(texts@[i as int]@ == t[i as int]);
        let l = if i == 0 {
            line1(texts[i].to_string(), Tone::Bold)
        } else if i == texts.len() - 1 {
            line1(texts[i].to_string(), Tone::Hint)
        } else if chars_of(texts[i]).len() == 0 {
            blank_line()
        } else {
            line1(texts[i].to_string(), Tone::Plain)
        };
        assert(l@ == help_lines_spec()[i as int]);
        push_line(&mut out, l);
        i = i + 1;
        assert(help_lines_spec().take(i as int) =~= help_lines_spec().take(i - 1).push(
            help_lines_spec()[i - 1],
        ));
    }
    assert(help_lines_spec().take(texts@.len() as int) =~= help_lines_spec());
    out
}

} // verus!
