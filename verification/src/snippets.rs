//! Saved queries, kept as plain `.sql` files and run against any connection.
//!
//! psql can already do this with `\set name '…'` in `~/.psqlrc`, but `\set`
//! exists in psql alone, so the shortcut lives one level out, at
//! `esql <connection> :<snippet>`, where easysql decides what runs and can hand
//! each client the flag it wants. A snippet is a file; its name is the file
//! stem. Listing the directory and writing the files happen outside; here are
//! the rules they follow.

use crate::text::{
    chars_of, cviews, extend, file_body, has_prefix, has_suffix, join, join_of, lines,
    lines_of, seq_eq, starts_with, string_of, trim, trim_end, trimmed, trimmed_end, ends_with,
    has_char, contains, lex_le, lex_le_of,
};
use vstd::prelude::*;

verus! {

/// `easysql/snippets` under the config directory: one `.sql` file per
/// saved query.
pub open spec fn dir_spec(config: Seq<char>) -> Seq<char> {
    crate::ini::join_path(crate::ini::join_path(config, "easysql"@), "snippets"@)
}

/// The snippets directory under the config directory `config`.
pub fn dir_in(config: &str) -> (r: String)
    ensures
        r@ == dir_spec(config@),
{
    let d = crate::ini::join_path_of(config, "easysql");
    crate::ini::join_path_of(d.as_str(), "snippets")
}

/// The snippets directory under this machine's config directory.
pub fn dir() -> (r: String)
    ensures
        exists|c: Seq<char>| r@ == dir_spec(c),
{
    let c = crate::ini::config_dir();
    dir_in(c.as_str())
}

/// `~/.psqlrc` under `home`, where psql reads the `\set` shortcuts.
pub open spec fn psqlrc_path_spec(home: Seq<char>) -> Seq<char> {
    crate::ini::join_path(home, ".psqlrc"@)
}

pub fn psqlrc_path_in(home: &str) -> (r: String)
    ensures
        r@ == psqlrc_path_spec(home@),
{
    crate::ini::join_path_of(home, ".psqlrc")
}

/// `~/.psqlrc` on this machine.
pub fn psqlrc_path() -> (r: String)
    ensures
        exists|h: Seq<char>| r@ == psqlrc_path_spec(h),
{
    let h = crate::ini::home();
    psqlrc_path_in(h.as_str())
}

#[derive(Clone, Debug, PartialEq, Eq)]
pub struct Snippet {
    pub name: String,
    pub sql: String,
    /// Where the file is, for `o` to open.
    pub path: String,
}

/// Whether a trimmed line of SQL is worth keeping on one line: not empty and
/// not a `--` comment.
pub open spec fn shown_line(l: Seq<char>) -> bool {
    l.len() > 0 && !starts_with(l, "--"@)
}

/// The lines of SQL that survive flattening, each trimmed.
pub open spec fn shown_lines(ls: Seq<Seq<char>>) -> Seq<Seq<char>>
    decreases ls.len(),
{
    if ls.len() == 0 {
        seq![]
    } else {
        let rest = shown_lines(ls.drop_last());
        let l = trim(ls.last());
        if shown_line(l) {
            rest.push(l)
        } else {
            rest
        }
    }
}

/// The SQL collapsed to one line: trimmed lines, comments and blanks gone,
/// joined by single spaces.
pub open spec fn summary_spec(sql: Seq<char>) -> Seq<char> {
    join(shown_lines(lines(sql)), seq![' '])
}

fn summary_of(sql: &[char]) -> (r: Vec<char>)
    ensures
        r@ == summary_spec(sql@),
{
    let ls = lines_of(sql);
    let dashes = chars_of("--");
    let mut kept: Vec<Vec<char>> = Vec::new();
    let mut i: usize = 0;
    while i < ls.len()
        invariant
            i <= ls@.len(),
            cviews(ls@) == lines(sql@),
            dashes@ == "--"@,
            cviews(kept@) == shown_lines(lines(sql@).take(i as int)),
        decreases ls@.len() - i,
    {
        let l = trimmed(ls[i].as_slice());
        assert(lines(sql@).take(i + 1).drop_last() =~= lines(sql@).take(i as int));
        assert(lines(sql@)[i as int] == ls@[i as int]@);
        if l.len() > 0 && !has_prefix(l.as_slice(), dashes.as_slice()) {
            let ghost prev = kept@;
            kept.push(l);
            assert(cviews(kept@) =~= cviews(prev).push(kept@.last()@));
        }
        i = i + 1;
    }
    assert(lines(sql@).take(ls@.len() as int) =~= lines(sql@));
    let sp = vec![' '];
    assert(sp@ =~= seq![' ']);
    join_of(&kept, sp.as_slice())
}

impl Snippet {
    /// The first line worth showing in a list, collapsed to one line.
    pub fn summary(&self) -> (r: String)
        ensures
            r@ == summary_spec(self.sql@),
    {
        let sql = chars_of(self.sql.as_str());
        let v = summary_of(sql.as_slice());
        string_of(v.as_slice())
    }
}

// ---------------------------------------------------------------------------
// listing
// ---------------------------------------------------------------------------

/// `v` with `x` placed after every element that sorts no later than it, which
/// keeps a sort stable.
pub open spec fn insert_sorted(v: Seq<Snippet>, x: Snippet) -> Seq<Snippet>
    decreases v.len(),
{
    if v.len() == 0 {
        seq![x]
    } else if lex_le(v.last().name@, x.name@) {
        v.push(x)
    } else {
        insert_sorted(v.drop_last(), x).push(v.last())
    }
}

/// The snippets sorted by name, stably.
pub open spec fn sort_by_name(v: Seq<Snippet>) -> Seq<Snippet>
    decreases v.len(),
{
    if v.len() == 0 {
        seq![]
    } else {
        insert_sorted(sort_by_name(v.drop_last()), v.last())
    }
}

fn insert_sorted_of(v: &mut Vec<Snippet>, x: Snippet)
    ensures
        final(v)@ == insert_sorted(old(v)@, x),
{
    let mut tail: Vec<Snippet> = Vec::new();
    let xn = chars_of(x.name.as_str());
    loop
        invariant_except_break
            insert_sorted(old(v)@, x) == insert_sorted(v@, x) + tail@.reverse(),
        invariant
            xn@ == x.name@,
        ensures
            insert_sorted(old(v)@, x) == v@ + tail@.reverse(),
        decreases v@.len(),
    {
        if v.len() == 0 {
            v.push(x);
            break;
        }
        let ln = chars_of(v[v.len() - 1].name.as_str());
        if lex_le_of(ln.as_slice(), xn.as_slice()) {
            v.push(x);
            break;
        }
        let last = v.pop().unwrap();
        let ghost t = tail@;
        tail.push(last);
        assert(tail@.reverse() =~= seq![last] + t.reverse());
    }
    let ghost base = v@;
    while tail.len() > 0
        invariant
            insert_sorted(old(v)@, x) == v@ + tail@.reverse(),
        decreases tail@.len(),
    {
        let y = tail.pop().unwrap();
        let ghost t = tail@;
        v.push(y);
        assert(t.push(y).reverse() =~= seq![y] + t.reverse());
        assert(v@ + t.reverse() =~= v@.drop_last() + (seq![y] + t.reverse()));
    }
    assert(v@ =~= v@ + tail@.reverse());
}

/// The snippets found in the directory, in the order the tab lists them: by
/// name, stably.
pub fn list(found: Vec<Snippet>) -> (r: Vec<Snippet>)
    ensures
        r@ == sort_by_name(found@),
{
    let mut r: Vec<Snippet> = Vec::new();
    let mut i: usize = 0;
    while i < found.len()
        invariant
            i <= found@.len(),
            r@ == sort_by_name(found@.take(i as int)),
        decreases found@.len() - i,
    {
        let x = dup(&found[i]);
        assert(found@.take(i + 1).drop_last() =~= found@.take(i as int));
        insert_sorted_of(&mut r, x);
        i = i + 1;
    }
    assert(found@.take(found@.len() as int) =~= found@);
    r
}

/// A copy of a snippet, field for field.
fn dup(s: &Snippet) -> (r: Snippet)
    ensures
        r == *s,
{
    Snippet { name: s.name.clone(), sql: s.sql.clone(), path: s.path.clone() }
}

/// The first snippet with this name.
pub open spec fn get_spec(list: Seq<Snippet>, name: Seq<char>) -> Option<Snippet>
    decreases list.len(),
{
    if list.len() == 0 {
        None
    } else if list[0].name@ == name {
        Some(list[0])
    } else {
        get_spec(list.drop_first(), name)
    }
}

pub fn get(list: &Vec<Snippet>, name: &str) -> (r: Option<Snippet>)
    ensures
        r == get_spec(list@, name@),
{
    let n = chars_of(name);
    let mut i: usize = 0;
    assert(list@.skip(0) =~= list@);
    while i < list.len()
        invariant
            i <= list@.len(),
            n@ == name@,
            get_spec(list@, name@) == get_spec(list@.skip(i as int), name@),
        decreases list@.len() - i,
    {
        let m = chars_of(list[i].name.as_str());
        assert(list@.skip(i as int)[0] == list@[i as int]);
        if seq_eq(m.as_slice(), n.as_slice()) {
            return Some(dup(&list[i]));
        }
        assert(list@.skip(i as int).drop_first() =~= list@.skip(i + 1));
        i = i + 1;
    }
    None
}

// ---------------------------------------------------------------------------
// saving
// ---------------------------------------------------------------------------

/// Why a snippet was not saved.
#[derive(Debug, PartialEq, Eq, Structural)]
pub enum NameError {
    /// Empty, with a slash or a backslash, or starting with a dot: the name
    /// is a file stem, and any of these would escape the directory or hide it.
    Refused,
}

impl NameError {
    pub fn message(&self) -> (r: &'static str)
        ensures
            r@ == "a snippet name cannot be empty, contain a slash, or start with a dot"@,
    {
        "a snippet name cannot be empty, contain a slash, or start with a dot"
    }
}

/// A name `save` refuses rather than sanitises.
pub open spec fn refused_name(n: Seq<char>) -> bool {
    n.len() == 0 || contains(n, '/') || contains(n, '\\') || n[0] == '.'
}

/// The file body a query is saved as: its text, with a final newline.
pub open spec fn body_spec(sql: Seq<char>) -> Seq<char> {
    if ends_with(sql, seq!['\n']) {
        sql
    } else {
        sql.push('\n')
    }
}

/// What `save` writes: the file name under the snippets directory and its
/// body. The name is trimmed first, and refused rather than sanitised when it
/// would escape the directory: a snippet called `../../.bashrc` is a mistake
/// worth stopping.
pub fn save(name: &str, sql: &str) -> (r: Result<(String, String), NameError>)
    ensures
        refused_name(trim(name@)) ==> r is Err,
        !refused_name(trim(name@)) ==> (r matches Ok((file, body)) && file@ == trim(name@)
            + ".sql"@ && body@ == body_spec(sql@)),
{
    let n = trimmed(chars_of(name).as_slice());
    if n.len() == 0 || has_char(n.as_slice(), '/') || has_char(n.as_slice(), '\\') || n[0]
        == '.' {
        return Err(NameError::Refused);
    }
    let mut file = n;
    extend(&mut file, chars_of(".sql").as_slice());
    let mut body = chars_of(sql);
    let nl = vec!['\n'];
    assert(nl@ =~= seq!['\n']);
    if !has_suffix(body.as_slice(), nl.as_slice()) {
        body.push('\n');
    }
    Ok((string_of(file.as_slice()), string_of(body.as_slice())))
}

// ---------------------------------------------------------------------------
// the psql half
// ---------------------------------------------------------------------------
//
// `\set tables '…'` in `~/.psqlrc` makes `:tables` expand at the prompt. The
// block is regenerated from the snippet files and never touches a line outside
// its markers, because a `.psqlrc` is usually somebody's own work.

pub const START: &'static str = "-- easysql:start (generated from ~/.config/easysql/snippets, do not edit)";

pub const END: &'static str = "-- easysql:end";

/// psql's escaping inside a single-quoted `\set` value: a backslash before
/// each backslash and each quote.
pub open spec fn escape_set(s: Seq<char>) -> Seq<char>
    decreases s.len(),
{
    if s.len() == 0 {
        seq![]
    } else {
        let c = s.last();
        escape_set(s.drop_last()) + (if c == '\\' || c == '\'' {
            seq!['\\', c]
        } else {
            seq![c]
        })
    }
}

/// The `\set` lines for these snippets; one whose SQL flattens to nothing
/// gets none.
pub open spec fn set_lines(snips: Seq<Snippet>) -> Seq<char>
    decreases snips.len(),
{
    if snips.len() == 0 {
        seq![]
    } else {
        let s = snips.last();
        let one = summary_spec(s.sql@);
        set_lines(snips.drop_last()) + (if one.len() == 0 {
            seq![]
        } else {
            "\\set "@ + s.name@ + " '"@ + escape_set(one) + "'\n"@
        })
    }
}

pub open spec fn block_spec(snips: Seq<Snippet>) -> Seq<char> {
    START@ + seq!['\n'] + set_lines(snips) + END@ + seq!['\n']
}

pub fn escape_set_of(s: &[char]) -> (r: Vec<char>)
    ensures
        r@ == escape_set(s@),
{
    let mut r: Vec<char> = Vec::new();
    let mut i: usize = 0;
    while i < s.len()
        invariant
            i <= s@.len(),
            r@ == escape_set(s@.take(i as int)),
        decreases s@.len() - i,
    {
        let c = s[i];
        assert(s@.take(i + 1).drop_last() =~= s@.take(i as int));
        if c == '\\' || c == '\'' {
            r.push('\\');
        }
        r.push(c);
        i = i + 1;
        assert(r@ =~= escape_set(s@.take(i as int)));
    }
    assert(s@.take(s@.len() as int) =~= s@);
    r
}

/// One `\set` per snippet, between the markers.
///
/// The SQL is flattened onto one line, because a `\set` value ends at the
/// newline. That is also why `--` comments have to go: on one line they would
/// swallow the rest of the query.
pub fn psqlrc_block(snips: &[Snippet]) -> (r: String)
    ensures
        r@ == block_spec(snips@),
{
    let mut out = chars_of(START);
    out.push('\n');
    let ghost head = out@;
    let mut i: usize = 0;
    while i < snips.len()
        invariant
            i <= snips@.len(),
            head == START@ + seq!['\n'],
            out@ == head + set_lines(snips@.take(i as int)),
        decreases snips@.len() - i,
    {
        let one = summary_of(chars_of(snips[i].sql.as_str()).as_slice());
        assert(snips@.take(i + 1).drop_last() =~= snips@.take(i as int));
        assert(snips@.take(i + 1).last() == snips@[i as int]);
        if one.len() > 0 {
            let ghost before = out@;
            extend(&mut out, chars_of("\\set ").as_slice());
            extend(&mut out, chars_of(snips[i].name.as_str()).as_slice());
            extend(&mut out, chars_of(" '").as_slice());
            extend(&mut out, escape_set_of(one.as_slice()).as_slice());
            extend(&mut out, chars_of("'\n").as_slice());
            assert(out@ =~= before + ("\\set "@ + snips@[i as int].name@ + " '"@ + escape_set(
                one@,
            ) + "'\n"@));
        }
        i = i + 1;
        assert(out@ =~= head + set_lines(snips@.take(i as int)));
    }
    assert(snips@.take(snips@.len() as int) =~= snips@);
    extend(&mut out, chars_of(END).as_slice());
    out.push('\n');
    assert(out@ =~= block_spec(snips@));
    string_of(out.as_slice())
}

/// Where splicing stands after some lines: what is written so far, whether
/// it is inside the old block, and whether the new block went in already.
pub open spec fn splice_state(ls: Seq<Seq<char>>, block: Seq<char>) -> (Seq<Seq<char>>, bool, bool)
    decreases ls.len(),
{
    if ls.len() == 0 {
        (seq![], false, false)
    } else {
        let (out, inside, replaced) = splice_state(ls.drop_last(), block);
        let line = ls.last();
        if starts_with(line, START@) {
            (out.push(trim_end(block)), true, true)
        } else if inside {
            (out, !(trim(line) == END@), replaced)
        } else {
            (out.push(line), inside, replaced)
        }
    }
}

/// The lines of the new file: the marked block replaced, or one appended
/// after a blank line when there was none.
pub open spec fn splice_lines(existing: Seq<char>, block: Seq<char>) -> Seq<Seq<char>> {
    let (out, _, replaced) = splice_state(lines(existing), block);
    if replaced {
        out
    } else {
        let spaced = if out.len() > 0 && trim(out.last()).len() != 0 {
            out.push(seq![])
        } else {
            out
        };
        spaced.push(trim_end(block))
    }
}

/// Replace the marked block, or append one if there is not already a block;
/// every other line is copied through verbatim.
pub fn splice(existing: &str, block: &str) -> (r: String)
    ensures
        r@ == join(splice_lines(existing@, block@), seq!['\n']).push('\n'),
{
    let ex = chars_of(existing);
    let ls = lines_of(ex.as_slice());
    let b = trimmed_end(chars_of(block).as_slice());
    let start = chars_of(START);
    let end = chars_of(END);
    let mut out: Vec<Vec<char>> = Vec::new();
    let mut inside = false;
    let mut replaced = false;
    let mut i: usize = 0;
    while i < ls.len()
        invariant
            i <= ls@.len(),
            cviews(ls@) == lines(existing@),
            b@ == trim_end(block@),
            start@ == START@,
            end@ == END@,
            (cviews(out@), inside, replaced) == splice_state(lines(existing@).take(i as int), block@),
        decreases ls@.len() - i,
    {
        let line = &ls[i];
        assert(lines(existing@).take(i + 1).drop_last() =~= lines(existing@).take(i as int));
        assert(lines(existing@)[i as int] == ls@[i as int]@);
        let ghost prev = cviews(out@);
        if has_prefix(line.as_slice(), start.as_slice()) {
            out.push(crate::text::copy(b.as_slice()));
            inside = true;
            replaced = true;
            assert(cviews(out@) =~= prev.push(b@));
        } else if inside {
            let t = trimmed(line.as_slice());
            if seq_eq(t.as_slice(), end.as_slice()) {
                inside = false;
            }
        } else {
            out.push(crate::text::copy(line.as_slice()));
            assert(cviews(out@) =~= prev.push(ls@[i as int]@));
        }
        i = i + 1;
    }
    assert(lines(existing@).take(ls@.len() as int) =~= lines(existing@));
    if !replaced {
        let last_blank = out.len() > 0 && crate::text::is_blank(out[out.len() - 1].as_slice());
        if out.len() > 0 && !last_blank {
            let ghost prev = cviews(out@);
            out.push(Vec::new());
            assert(cviews(out@) =~= prev.push(seq![]));
        }
        let ghost prev = cviews(out@);
        out.push(b);
        assert(cviews(out@) =~= prev.push(trim_end(block@)));
    }
    let nl = vec!['\n'];
    assert(nl@ =~= seq!['\n']);
    let mut body = join_of(&out, nl.as_slice());
    body.push('\n');
    string_of(body.as_slice())
}

/// The user's own lines of a `~/.psqlrc`: every line outside the marked
/// block, in order, with whether the reading is inside a block.
pub open spec fn own_state(ls: Seq<Seq<char>>) -> (Seq<Seq<char>>, bool)
    decreases ls.len(),
{
    if ls.len() == 0 {
        (seq![], false)
    } else {
        let (own, inside) = own_state(ls.drop_last());
        let line = ls.last();
        if starts_with(line, START@) {
            (own, true)
        } else if inside {
            (own, !(trim(line) == END@))
        } else {
            (own.push(line), inside)
        }
    }
}

pub open spec fn own_lines(ls: Seq<Seq<char>>) -> Seq<Seq<char>> {
    own_state(ls).0
}

/// `xs` with every element equal to `b` taken out.
pub open spec fn drop_all(xs: Seq<Seq<char>>, b: Seq<char>) -> Seq<Seq<char>>
    decreases xs.len(),
{
    if xs.len() == 0 {
        seq![]
    } else if xs.last() == b {
        drop_all(xs.drop_last(), b)
    } else {
        drop_all(xs.drop_last(), b).push(xs.last())
    }
}

proof fn lemma_splice_state_own(ls: Seq<Seq<char>>, block: Seq<char>)
    requires
        forall|i: int| 0 <= i < ls.len() ==> #[trigger] ls[i] != trim_end(block),
    ensures
        drop_all(splice_state(ls, block).0, trim_end(block)) == own_lines(ls),
        splice_state(ls, block).1 == own_state(ls).1,
        !splice_state(ls, block).2 ==> splice_state(ls, block).0 == own_lines(ls),
        !splice_state(ls, block).2 ==> splice_state(ls, block).0 == ls && !splice_state(ls, block).1,
    decreases ls.len(),
{
    if ls.len() > 0 {
        let init = ls.drop_last();
        assert forall|i: int| 0 <= i < init.len() implies #[trigger] init[i] != trim_end(block) by {
            assert(init[i] == ls[i]);
        }
        lemma_splice_state_own(init, block);
        let (out, inside, replaced) = splice_state(init, block);
        let line = ls.last();
        assert(ls[ls.len() - 1] != trim_end(block));
        if starts_with(line, START@) {
            assert(out.push(trim_end(block)).drop_last() =~= out);
        } else if !inside {
            assert(out.push(line).drop_last() =~= out);
            assert(out.push(line).last() == line);
        }
        if !splice_state(ls, block).2 {
            assert(!replaced);
            assert(!inside);
            assert(out == init);
            assert(init.push(line) =~= ls);
        }
    }
}

proof fn lemma_drop_all_no(xs: Seq<Seq<char>>, b: Seq<char>)
    requires
        forall|i: int| 0 <= i < xs.len() ==> #[trigger] xs[i] != b,
    ensures
        drop_all(xs, b) == xs,
    decreases xs.len(),
{
    if xs.len() > 0 {
        let init = xs.drop_last();
        assert forall|i: int| 0 <= i < init.len() implies #[trigger] init[i] != b by {
            assert(init[i] == xs[i]);
        }
        lemma_drop_all_no(init, b);
        assert(xs[xs.len() - 1] != b);
        assert(init.push(xs.last()) =~= xs);
    }
}

/// Your own lines in `~/.psqlrc` are left alone: splicing the block in keeps
/// every line outside the marked block, in order, and adds nothing but the
/// block itself and, when the block is appended to a file that does not end
/// in a blank line, one blank line before it.
pub proof fn lemma_splice_keeps_own_lines(existing: Seq<char>, block: Seq<char>)
    requires
        contains(trim_end(block), '\n'),
    ensures
        ({
            let out = splice_lines(existing, block);
            let own = own_lines(lines(existing));
            let replaced = splice_state(lines(existing), block).2;
            &&& out.contains(trim_end(block))
            &&& drop_all(out, trim_end(block)) == if replaced || own.len() == 0 || trim(own.last()).len() == 0 {
                own
            } else {
                own.push(seq![])
            }
        }),
{
    let ls = lines(existing);
    let b = trim_end(block);
    crate::text::lemma_lines_no_newline(existing);
    assert forall|i: int| 0 <= i < ls.len() implies #[trigger] ls[i] != b by {
        if ls[i] == b {
            assert(contains(ls[i], '\n'));
        }
    }
    lemma_splice_state_own(ls, block);
    let (out, inside, replaced) = splice_state(ls, block);
    if replaced {
        lemma_splice_state_replaced_has_block(ls, block);
    } else {
        let own = own_lines(ls);
        let spaced = if out.len() > 0 && trim(out.last()).len() != 0 {
            out.push(seq![])
        } else {
            out
        };
        let res = spaced.push(b);
        assert(res == splice_lines(existing, block));
        assert(res.last() == b);
        assert(res.drop_last() =~= spaced);
        assert(res[res.len() - 1] == b);
        assert(res.contains(b));
        assert(drop_all(res, b) == drop_all(spaced, b));
        if out.len() > 0 && trim(out.last()).len() != 0 {
            assert(spaced.drop_last() =~= out);
            assert(spaced.last() == Seq::<char>::empty());
            assert(Seq::<char>::empty() != b) by {
                let j = choose|j: int| 0 <= j < b.len() && b[j] == '\n';
                assert(b.len() > 0);
            }
            assert forall|i: int| 0 <= i < out.len() implies #[trigger] out[i] != b by {
                assert(out == ls);
                assert(ls[i] != b);
            }
            lemma_drop_all_no(out, b);
            assert(drop_all(spaced, b) == drop_all(out, b).push(seq![]));
            assert(drop_all(res, b) == own.push(seq![]));
        } else {
            assert forall|i: int| 0 <= i < out.len() implies #[trigger] out[i] != b by {
                assert(out == ls);
                assert(ls[i] != b);
            }
            lemma_drop_all_no(out, b);
        }
    }
}

proof fn lemma_splice_state_replaced_has_block(ls: Seq<Seq<char>>, block: Seq<char>)
    ensures
        splice_state(ls, block).2 ==> splice_state(ls, block).0.contains(trim_end(block)),
    decreases ls.len(),
{
    if ls.len() > 0 {
        lemma_splice_state_replaced_has_block(ls.drop_last(), block);
        let (out, inside, replaced) = splice_state(ls.drop_last(), block);
        let line = ls.last();
        if starts_with(line, START@) {
            assert(out.push(trim_end(block))[out.len() as int] == trim_end(block));
        } else if !inside && replaced {
            let j = choose|j: int| 0 <= j < out.len() && out[j] == trim_end(block);
            assert(out.push(line)[j] == trim_end(block));
        }
    }
}

/// What psql reads inside a single-quoted value: a backslash followed by
/// any character stands for that character.
pub open spec fn backslash_unescape(t: Seq<char>) -> Seq<char>
    decreases t.len(),
{
    if t.len() == 0 {
        seq![]
    } else if t[0] == '\\' && t.len() >= 2 {
        seq![t[1]] + backslash_unescape(t.skip(2))
    } else {
        seq![t[0]] + backslash_unescape(t.skip(1))
    }
}

proof fn lemma_unescape_after(s: Seq<char>, u: Seq<char>)
    ensures
        backslash_unescape(escape_set(s) + u) == s + backslash_unescape(u),
    decreases s.len(),
{
    if s.len() == 0 {
        assert(escape_set(s) + u =~= u);
        assert(s + backslash_unescape(u) =~= backslash_unescape(u));
    } else {
        let c = s.last();
        let init = s.drop_last();
        let piece: Seq<char> = if c == '\\' || c == '\'' {
            seq!['\\', c]
        } else {
            seq![c]
        };
        let pu = piece + u;
        assert(escape_set(s) + u =~= escape_set(init) + pu);
        lemma_unescape_after(init, pu);
        if c == '\\' || c == '\'' {
            assert(pu.skip(2) =~= u);
        } else {
            assert(pu.skip(1) =~= u);
        }
        assert(backslash_unescape(pu) =~= seq![c] + backslash_unescape(u));
        assert(init + (seq![c] + backslash_unescape(u)) =~= s + backslash_unescape(u));
    }
}

/// A value written into a `\set` line reads back as itself: undoing psql's
/// backslash escapes in what is written gives the text exactly, so every
/// backslash and every quote in a query survives.
pub proof fn lemma_set_value_reads_back(s: Seq<char>)
    ensures
        backslash_unescape(escape_set(s)) == s,
{
    lemma_unescape_after(s, seq![]);
    assert(escape_set(s) + Seq::<char>::empty() =~= escape_set(s));
    assert(s + Seq::<char>::empty() =~= s);
}

/// Nothing written into a `\set` value can end it early: every quote in it
/// follows a backslash that belongs to it.
pub proof fn lemma_set_value_quotes_escaped(s: Seq<char>)
    ensures
        forall|i: int| 0 <= i < escape_set(s).len() && #[trigger] escape_set(s)[i] == '\'' ==> i > 0 && escape_set(s)[i - 1] == '\\',
    decreases s.len(),
{
    if s.len() > 0 {
        lemma_set_value_quotes_escaped(s.drop_last());
        let a = escape_set(s.drop_last());
        let c = s.last();
        let t = escape_set(s);
        assert forall|i: int| 0 <= i < t.len() && #[trigger] t[i] == '\'' implies i > 0 && t[i - 1] == '\\' by {
            if i < a.len() {
                assert(t[i] == a[i]);
                assert(t[i - 1] == a[i - 1]);
            }
        }
    }
}

/// How many of `s`'s characters psql needs escaped in a quoted value:
/// its backslashes and its quotes.
pub open spec fn escaped_count(s: Seq<char>) -> nat
    decreases s.len(),
{
    if s.len() == 0 {
        0
    } else {
        escaped_count(s.drop_last()) + (if s.last() == '\\' || s.last() == '\'' {
            1nat
        } else {
            0nat
        })
    }
}

/// Escaping adds one backslash for each backslash and each quote, and no
/// other character: every other character, a letter after which a
/// backslash would mean something else to psql (`\n`, `\t`), is written as
/// it is.
pub proof fn lemma_set_value_escapes_only_those(s: Seq<char>)
    ensures
        escape_set(s).len() == s.len() + escaped_count(s),
        forall|i: int|
            0 <= i < s.len() && s[i] != '\\' && s[i] != '\'' ==> escape_set(s)[i + escaped_count(s.take(i))] == s[i]
                && (i + escaped_count(s.take(i)) == 0 || escape_set(s)[i + escaped_count(s.take(i)) - 1] != '\\'
                || (i > 0 && (s[i - 1] == '\\'))),
    decreases s.len(),
{
    if s.len() > 0 {
        let init = s.drop_last();
        lemma_set_value_escapes_only_those(init);
        let t = escape_set(s);
        let a = escape_set(init);
        assert forall|i: int|
            0 <= i < s.len() && s[i] != '\\' && s[i] != '\'' implies t[i + escaped_count(s.take(i))] == s[i]
                && (i + escaped_count(s.take(i)) == 0 || t[i + escaped_count(s.take(i)) - 1] != '\\'
                || (i > 0 && (s[i - 1] == '\\'))) by {
            if i < init.len() {
                lemma_count_prefix(init, i);
                assert(s.take(i) =~= init.take(i));
                assert(s[i] == init[i]);
                if i > 0 {
                    assert(s[i - 1] == init[i - 1]);
                }
                assert(t[i + escaped_count(s.take(i))] == a[i + escaped_count(init.take(i))]);
                if i + escaped_count(s.take(i)) > 0 {
                    assert(t[i + escaped_count(s.take(i)) - 1] == a[i + escaped_count(init.take(i)) - 1]);
                }
            } else {
                assert(s.take(i) =~= init);
                assert(t[i + escaped_count(init)] == s[i]);
                if i + escaped_count(init) > 0 {
                    assert(t[i + escaped_count(init) - 1] == a[i + escaped_count(init) - 1]);
                    if init.len() > 0 {
                        lemma_last_escaped_char(init);
                        assert(s[i - 1] == init.last());
                    }
                }
            }
        }
    }
}

proof fn lemma_count_prefix(x: Seq<char>, i: int)
    requires
        0 <= i < x.len(),
    ensures
        i + escaped_count(x.take(i)) < x.len() + escaped_count(x),
    decreases x.len(),
{
    if i < x.len() - 1 {
        lemma_count_prefix(x.drop_last(), i);
        assert(x.take(i) =~= x.drop_last().take(i));
    } else {
        assert(x.take(i) =~= x.drop_last());
    }
}

/// The last character of an escaped value is the value's own last
/// character, so a backslash there means the value ended in one.
proof fn lemma_last_escaped_char(s: Seq<char>)
    requires
        s.len() > 0,
    ensures
        escape_set(s).len() > 0,
        escape_set(s).last() == s.last(),
{
}

} // verus!
