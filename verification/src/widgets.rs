//! The measuring and quoting the toolbox's boxes need, with no idea what they
//! draw: how many rows a wrapped text takes, how wide a box is on a screen,
//! and an argv rendered the way a shell would read it.

use crate::ini::{collapse_in, collapse_tilde_in, home};
use crate::text::{
    chars_of, copy, cviews, extend, has_char, has_prefix, is_whitespace, is_ws, join, join_of,
    slice_to_vec, split, split_of, starts_with, string_of, views,
};
use vstd::prelude::*;

verus! {

/// Narrowest a box may be, so a two-word message still reads as a box.
pub const BOX_MIN_W: u16 = 24;

/// Widest, so one long line does not stretch a box across a wide screen.
pub const BOX_MAX_W: u16 = 88;

/// Rows the chrome costs: two borders plus the single top padding row.
pub const BOX_CHROME_H: u16 = 3;

/// Columns the chrome costs: two borders plus two columns of padding a side.
pub const BOX_CHROME_W: u16 = 6;

/// How wide a box is on a screen this wide: four columns narrower, kept
/// between the smallest and the largest box.
pub open spec fn box_width_spec(screen_w: u16) -> u16 {
    if screen_w < 4 + BOX_MIN_W {
        BOX_MIN_W
    } else if screen_w - 4 > BOX_MAX_W {
        BOX_MAX_W
    } else {
        (screen_w - 4) as u16
    }
}

/// How wide a box is on a screen this wide.
pub fn box_width(screen_w: u16) -> (r: u16)
    ensures
        r == box_width_spec(screen_w),
{
    let w = if screen_w >= 4 {
        screen_w - 4
    } else {
        0
    };
    if w < BOX_MIN_W {
        BOX_MIN_W
    } else if w > BOX_MAX_W {
        BOX_MAX_W
    } else {
        w
    }
}

/// The columns a body actually gets, which is what it must be wrapped to:
/// the width less the chrome, and at least one.
pub open spec fn box_inner_spec(width: u16) -> nat {
    if width > BOX_CHROME_W + 1 {
        (width - BOX_CHROME_W) as nat
    } else {
        1
    }
}

pub fn box_inner_width(width: u16) -> (r: usize)
    ensures
        r == box_inner_spec(width),
{
    let w = if width >= BOX_CHROME_W {
        width - BOX_CHROME_W
    } else {
        0
    };
    if w < 1 {
        1
    } else {
        w as usize
    }
}

/// How tall a box holding `body_rows` wrapped rows is, capped at the screen:
/// the rows plus the chrome, at least one row of body, at most the screen.
pub open spec fn box_height_spec(body_rows: u16, screen_h: u16) -> int {
    let floor = BOX_CHROME_H + 1;
    let want = if body_rows + BOX_CHROME_H > u16::MAX {
        u16::MAX as int
    } else {
        body_rows + BOX_CHROME_H
    };
    let cap = if screen_h > floor {
        screen_h as int
    } else {
        floor as int
    };
    if want < floor {
        floor as int
    } else if want > cap {
        cap
    } else {
        want
    }
}

/// How tall a box holding `body_rows` wrapped rows is.
pub fn box_height(body_rows: u16, screen_h: u16) -> (r: u16)
    ensures
        r == box_height_spec(body_rows, screen_h),
{
    let floor: u16 = BOX_CHROME_H + 1;
    let want: u16 = body_rows.saturating_add(BOX_CHROME_H);
    let cap: u16 = if screen_h > floor {
        screen_h
    } else {
        floor
    };
    if want < floor {
        floor
    } else if want > cap {
        cap
    } else {
        want
    }
}

/// `rows` and `col` after a word that ends past the line has wrapped onto as
/// many rows as it needs.
pub open spec fn wrap_down(rows: nat, col: nat, width: nat) -> (nat, nat)
    decreases col,
{
    if width > 0 && col > width {
        wrap_down(rows + 1, (col - width) as nat, width)
    } else {
        (rows, col)
    }
}

/// The rows and the column after the words of a text, split on single
/// spaces, have been laid out at `width`.
pub open spec fn wrap_words(words: Seq<Seq<char>>, width: nat) -> (nat, nat)
    decreases words.len(),
{
    if words.len() == 0 {
        (1, 0)
    } else {
        let (rows, col) = wrap_words(words.drop_last(), width);
        let w = words.last().len();
        let need = if words.len() == 1 {
            w
        } else {
            col + 1 + w
        };
        let (r2, c2) = if need <= width {
            (rows, need)
        } else {
            (rows + 1, w)
        };
        wrap_down(r2, c2, width)
    }
}

/// How many rows `text` needs when word-wrapped to `width`, breaking on
/// single spaces as the drawing does. Used to size modal boxes.
pub open spec fn wrapped_spec(text: Seq<char>, width: nat) -> nat {
    if width == 0 {
        1
    } else {
        wrap_words(split(text, ' '), width).0
    }
}

/// The characters the pieces of a split take, each with the separator after
/// it.
pub open spec fn total(ws: Seq<Seq<char>>) -> int
    decreases ws.len(),
{
    if ws.len() == 0 {
        0
    } else {
        total(ws.drop_last()) + ws.last().len() + 1
    }
}

proof fn lemma_split_state_total(s: Seq<char>, sep: char)
    ensures
        total(crate::text::split_state(s, sep).0) + crate::text::split_state(s, sep).1.len()
            == s.len(),
    decreases s.len(),
{
    if s.len() > 0 {
        lemma_split_state_total(s.drop_last(), sep);
        let (done, cur) = crate::text::split_state(s.drop_last(), sep);
        if s.last() == sep {
            assert(done.push(cur).drop_last() =~= done);
        }
    }
}

proof fn lemma_total_prefix(ws: Seq<Seq<char>>, i: int)
    requires
        0 <= i <= ws.len(),
    ensures
        total(ws.take(i)) <= total(ws),
    decreases ws.len() - i,
{
    if i < ws.len() {
        lemma_total_prefix(ws, i + 1);
        assert(ws.take(i + 1).drop_last() =~= ws.take(i));
    } else {
        assert(ws.take(i) =~= ws);
    }
}

pub fn wrapped_line_count(text: &str, width: usize) -> (r: usize)
    requires
        text@.len() + 2 <= usize::MAX,
    ensures
        r == wrapped_spec(text@, width as nat),
{
    if width == 0 {
        return 1;
    }
    let t = chars_of(text);
    let parts = split_of(t.as_slice(), ' ');
    let ghost ws = cviews(parts@);
    proof {
        lemma_split_state_total(t@, ' ');
        let (done, cur) = crate::text::split_state(t@, ' ');
        assert(ws.drop_last() =~= done);
        assert(total(ws) == t@.len() + 1);
    }
    let mut rows: usize = 1;
    let mut col: usize = 0;
    let ghost mut used: int = 0;
    let mut i: usize = 0;
    while i < parts.len()
        invariant
            i <= parts@.len(),
            ws == cviews(parts@),
            total(ws) == t@.len() + 1,
            t@.len() + 2 <= usize::MAX,
            width > 0,
            (rows as nat, col as nat) == wrap_words(ws.take(i as int), width as nat),
            used == total(ws.take(i as int)),
            rows + col <= 1 + used,
        decreases parts@.len() - i,
    {
        assert(ws.take(i + 1).drop_last() =~= ws.take(i as int));
        assert(ws.take(i + 1).last() == parts@[i as int]@);
        proof {
            lemma_total_prefix(ws, i + 1);
        }
        let w = parts[i].len();
        let need: usize = if i == 0 {
            w
        } else {
            col + 1 + w
        };
        if need <= width {
            col = need;
        } else {
            rows = rows + 1;
            col = w;
        }
        proof {
            used = used + w + 1;
        }
        let ghost before = (rows as nat, col as nat);
        while col > width
            invariant
                width > 0,
                wrap_down(rows as nat, col as nat, width as nat) == wrap_down(
                    before.0,
                    before.1,
                    width as nat,
                ),
                rows + col <= 1 + used,
                used <= t@.len() + 1,
                t@.len() + 2 <= usize::MAX,
            decreases col,
        {
            rows = rows + 1;
            col = col - width;
        }
        i = i + 1;
    }
    assert(ws.take(parts@.len() as int) =~= ws);
    rows
}

// ---------------------------------------------------------------------------
// quoting an argv for a shell
// ---------------------------------------------------------------------------

/// The characters a shell reads as something other than a letter.
pub open spec fn shell_special(c: char) -> bool {
    is_ws(c) || c == '"' || c == '\'' || c == '\\' || c == '$' || c == '`' || c == ';' || c
        == '&' || c == '|' || c == '<' || c == '>' || c == '(' || c == ')' || c == '*' || c == '?'
        || c == '[' || c == ']' || c == '{' || c == '}' || c == '!' || c == '#' || c == '~'
}

/// Whether an argument has to be quoted to reach a command as itself.
pub open spec fn needs_quoting_spec(s: Seq<char>) -> bool {
    s.len() == 0 || exists|i: int| 0 <= i < s.len() && shell_special(#[trigger] s[i])
}

pub fn needs_quoting(s: &[char]) -> (r: bool)
    ensures
        r == needs_quoting_spec(s@),
{
    if s.len() == 0 {
        return true;
    }
    let mut i: usize = 0;
    while i < s.len()
        invariant
            i <= s@.len(),
            forall|j: int| 0 <= j < i ==> !shell_special(#[trigger] s@[j]),
        decreases s@.len() - i,
    {
        let c = s[i];
        if is_whitespace(c) || c == '"' || c == '\'' || c == '\\' || c == '$' || c == '`' || c
            == ';' || c == '&' || c == '|' || c == '<' || c == '>' || c == '(' || c == ')' || c
            == '*' || c == '?' || c == '[' || c == ']' || c == '{' || c == '}' || c == '!' || c
            == '#' || c == '~' {
            assert(shell_special(s@[i as int]));
            return true;
        }
        i = i + 1;
    }
    false
}

/// A quote closed, an escaped quote, and the quote reopened, for each `'`.
pub open spec fn close_quotes(s: Seq<char>) -> Seq<char>
    decreases s.len(),
{
    if s.len() == 0 {
        seq![]
    } else {
        close_quotes(s.drop_last()) + if s.last() == '\'' {
            seq!['\'', '\\', '\'', '\'']
        } else {
            seq![s.last()]
        }
    }
}

/// One argument as a shell takes it: single-quoted only when it needs to be.
pub open spec fn quote_arg(a: Seq<char>) -> Seq<char> {
    if needs_quoting_spec(a) {
        seq!['\''] + close_quotes(a) + seq!['\'']
    } else {
        a
    }
}

fn quote_arg_of(a: &[char]) -> (r: Vec<char>)
    ensures
        r@ == quote_arg(a@),
{
    if !needs_quoting(a) {
        return copy(a);
    }
    let mut r = vec!['\''];
    let ghost head = r@;
    let mut i: usize = 0;
    while i < a.len()
        invariant
            i <= a@.len(),
            head == seq!['\''],
            r@ == head + close_quotes(a@.take(i as int)),
        decreases a@.len() - i,
    {
        assert(a@.take(i + 1).drop_last() =~= a@.take(i as int));
        if a[i] == '\'' {
            r.push('\'');
            r.push('\\');
            r.push('\'');
            r.push('\'');
        } else {
            r.push(a[i]);
        }
        i = i + 1;
        assert(r@ =~= head + close_quotes(a@.take(i as int)));
    }
    assert(a@.take(a@.len() as int) =~= a@);
    r.push('\'');
    r
}

/// An argv as a shell would take it.
pub open spec fn shell_join_spec(argv: Seq<Seq<char>>) -> Seq<char> {
    join(argv.map_values(|a: Seq<char>| quote_arg(a)), seq![' '])
}

pub fn shell_join(argv: &[String]) -> (r: String)
    ensures
        r@ == shell_join_spec(views(argv@)),
{
    let ghost want = views(argv@).map_values(|a: Seq<char>| quote_arg(a));
    let mut parts: Vec<Vec<char>> = Vec::new();
    let mut i: usize = 0;
    while i < argv.len()
        invariant
            i <= argv@.len(),
            want == views(argv@).map_values(|a: Seq<char>| quote_arg(a)),
            cviews(parts@) == want.take(i as int),
        decreases argv@.len() - i,
    {
        let ghost before = cviews(parts@);
        parts.push(quote_arg_of(chars_of(argv[i].as_str()).as_slice()));
        assert(cviews(parts@) =~= before.push(want[i as int]));
        i = i + 1;
        assert(want.take(i as int) =~= want.take(i - 1).push(want[i - 1]));
    }
    assert(want.take(argv@.len() as int) =~= want);
    let sp = vec![' '];
    assert(sp@ =~= seq![' ']);
    string_of(join_of(&parts, sp.as_slice()).as_slice())
}

/// One argument as shown: a path under `home` with `~` in its place, and a
/// `~/...` left unquoted when the rest of it needs no quotes, since a quoted
/// `~` is a directory literally called `~` to every shell.
pub open spec fn shown_arg(home: Seq<char>, a: Seq<char>) -> Seq<char> {
    let c = collapse_in(home, a);
    if starts_with(c, seq!['~', '/']) && !needs_quoting_spec(c.skip(2)) {
        c
    } else {
        quote_arg(c)
    }
}

/// An argv rendered for a human to read, with `home` shown as `~`.
pub open spec fn shell_join_display_spec(home: Seq<char>, argv: Seq<Seq<char>>) -> Seq<char> {
    join(argv.map_values(|a: Seq<char>| shown_arg(home, a)), seq![' '])
}

pub fn shell_join_display_in(home: &str, argv: &[String]) -> (r: String)
    ensures
        r@ == shell_join_display_spec(home@, views(argv@)),
{
    let ghost want = views(argv@).map_values(|a: Seq<char>| shown_arg(home@, a));
    let mut parts: Vec<Vec<char>> = Vec::new();
    let tilde = vec!['~', '/'];
    assert(tilde@ =~= seq!['~', '/']);
    let mut i: usize = 0;
    while i < argv.len()
        invariant
            i <= argv@.len(),
            tilde@ == seq!['~', '/'],
            want == views(argv@).map_values(|a: Seq<char>| shown_arg(home@, a)),
            cviews(parts@) == want.take(i as int),
        decreases argv@.len() - i,
    {
        let c = chars_of(collapse_tilde_in(home, argv[i].as_str()).as_str());
        let keep = if has_prefix(c.as_slice(), tilde.as_slice()) {
            let rest = slice_to_vec(c.as_slice(), 2, c.len());
            assert(rest@ =~= c@.skip(2));
            !needs_quoting(rest.as_slice())
        } else {
            false
        };
        let shown = if keep {
            c
        } else {
            quote_arg_of(c.as_slice())
        };
        let ghost before = cviews(parts@);
        parts.push(shown);
        assert(cviews(parts@) =~= before.push(want[i as int]));
        i = i + 1;
        assert(want.take(i as int) =~= want.take(i - 1).push(want[i - 1]));
    }
    assert(want.take(argv@.len() as int) =~= want);
    let sp = vec![' '];
    assert(sp@ =~= seq![' ']);
    string_of(join_of(&parts, sp.as_slice()).as_slice())
}

/// An argv rendered for a human to read, with this machine's home as `~`.
/// Nothing that runs ever sees this string.
pub fn shell_join_display(argv: &[String]) -> (r: String)
    ensures
        exists|h: Seq<char>| r@ == shell_join_display_spec(h, views(argv@)),
{
    let h = home();
    let r = shell_join_display_in(h.as_str(), argv);
    assert(r@ == shell_join_display_spec(h@, views(argv@)));
    r
}

/// A connection's whole command as a shell would take it: its environment
/// first, then the already-joined argv. Without the environment a copied
/// line for a read-only Postgres connection opens a writable session in any
/// client that drops the service's own `options`.
pub open spec fn with_env_spec(env: Seq<(Seq<char>, Seq<char>)>, argv: Seq<char>) -> Seq<char> {
    join(
        env.map_values(|p: (Seq<char>, Seq<char>)| p.0 + seq!['='] + quote_arg(p.1)).push(argv),
        seq![' '],
    )
}

pub fn with_env(env: &[(String, String)], argv: String) -> (r: String)
    ensures
        r@ == with_env_spec(crate::ini::kviews(env@), argv@),
{
    let ghost want = crate::ini::kviews(env@).map_values(
        |p: (Seq<char>, Seq<char>)| p.0 + seq!['='] + quote_arg(p.1),
    );
    let mut parts: Vec<Vec<char>> = Vec::new();
    let mut i: usize = 0;
    while i < env.len()
        invariant
            i <= env@.len(),
            want == crate::ini::kviews(env@).map_values(
                |p: (Seq<char>, Seq<char>)| p.0 + seq!['='] + quote_arg(p.1),
            ),
            cviews(parts@) == want.take(i as int),
        decreases env@.len() - i,
    {
        let mut p = chars_of(env[i].0.as_str());
        p.push('=');
        extend(&mut p, quote_arg_of(chars_of(env[i].1.as_str()).as_slice()).as_slice());
        assert(crate::ini::kviews(env@)[i as int] == (env@[i as int].0@, env@[i as int].1@));
        assert(p@ == want[i as int]);
        let ghost before = cviews(parts@);
        parts.push(p);
        assert(cviews(parts@) =~= before.push(want[i as int]));
        i = i + 1;
        assert(want.take(i as int) =~= want.take(i - 1).push(want[i - 1]));
    }
    assert(want.take(env@.len() as int) =~= want);
    let ghost before = cviews(parts@);
    parts.push(chars_of(argv.as_str()));
    assert(cviews(parts@) =~= want.push(argv@));
    let sp = vec![' '];
    assert(sp@ =~= seq![' ']);
    string_of(join_of(&parts, sp.as_slice()).as_slice())
}

/// A rectangle of the screen, in the terminal's cells.
#[derive(Clone, Copy, PartialEq, Eq, Debug, Structural)]
pub struct Area {
    pub x: u16,
    pub y: u16,
    pub width: u16,
    pub height: u16,
}

/// A box of at most `w` by `h`, centered in `area`.
pub open spec fn box_area_spec(area: Area, w: u16, h: u16) -> Area {
    let w2 = if w < area.width {
        w
    } else {
        area.width
    };
    let h2 = if h < area.height {
        h
    } else {
        area.height
    };
    Area {
        x: (area.x + (area.width - w2) / 2) as u16,
        y: (area.y + (area.height - h2) / 2) as u16,
        width: w2,
        height: h2,
    }
}

/// A box of at most `w` by `h`, centered in `area`, which lies on the screen.
pub fn box_area(area: Area, w: u16, h: u16) -> (r: Area)
    requires
        area.x + area.width <= u16::MAX,
        area.y + area.height <= u16::MAX,
    ensures
        r == box_area_spec(area, w, h),
{
    let w2 = if w < area.width {
        w
    } else {
        area.width
    };
    let h2 = if h < area.height {
        h
    } else {
        area.height
    };
    Area {
        x: area.x + (area.width - w2) / 2,
        y: area.y + (area.height - h2) / 2,
        width: w2,
        height: h2,
    }
}

} // verus!
