//! Layout of table text: cell alignment, truncation, wrapping paths at
//! folder boundaries, and the framed lines and rules of bordered tables.

use vstd::prelude::*;
use crate::text::{
    all_white, chars_of, escape_free, lemma_escape_free_add, lemma_escape_free_parts, lemma_escape_free_push, push_repeat,
    push_text, repeat, text_all_white, text_string,
};
use crate::terminal::{Paint, painted, push_painted};

verus! {

// ---------------------------------------------------------------------------
// Cells
// ---------------------------------------------------------------------------

/// How a cell's text is placed in its column.
#[derive(Clone, Copy, Debug, PartialEq, Eq, Structural)]
pub enum Alignment {
    Left,
    Center,
    Right,
}

/// A column of the Unicode table: its header and alignment.
#[derive(Clone, Copy, Debug)]
pub struct ColumnSpec {
    pub header: &'static str,
    pub alignment: Alignment,
}

/// Headers of the Unicode table.
pub open spec fn unicode_header(i: int) -> Seq<char> {
    if i == 0 { "#"@ }
    else if i == 1 { "OK"@ }
    else if i == 2 { "PATH"@ }
    else if i == 3 { "TYPE"@ }
    else if i == 4 { "BIN"@ }
    else if i == 5 { "!BIN"@ }
    else if i == 6 { "SIZE"@ }
    else if i == 7 { "MODIFIED"@ }
    else { "DUP"@ }
}

/// Alignments of the Unicode table's columns.
pub open spec fn unicode_alignment(i: int) -> Alignment {
    if i == 2 || i == 8 { Alignment::Left } else if i == 3 { Alignment::Center } else { Alignment::Right }
}

/// The `index`-th column of the Unicode table.
pub fn unicode_column(index: usize) -> (c: ColumnSpec)
    requires
        index < 9,
    ensures
        c.header@ == unicode_header(index as int),
        c.alignment == unicode_alignment(index as int),
{
    if index == 0 {
        ColumnSpec { header: "#", alignment: Alignment::Right }
    } else if index == 1 {
        ColumnSpec { header: "OK", alignment: Alignment::Right }
    } else if index == 2 {
        ColumnSpec { header: "PATH", alignment: Alignment::Left }
    } else if index == 3 {
        ColumnSpec { header: "TYPE", alignment: Alignment::Center }
    } else if index == 4 {
        ColumnSpec { header: "BIN", alignment: Alignment::Right }
    } else if index == 5 {
        ColumnSpec { header: "!BIN", alignment: Alignment::Right }
    } else if index == 6 {
        ColumnSpec { header: "SIZE", alignment: Alignment::Right }
    } else if index == 7 {
        ColumnSpec { header: "MODIFIED", alignment: Alignment::Right }
    } else {
        ColumnSpec { header: "DUP", alignment: Alignment::Left }
    }
}

/// The padding that brings `len` characters up to `width`.
pub open spec fn padding(len: nat, width: nat) -> nat {
    if width > len { (width - len) as nat } else { 0 }
}

/// `cell` padded with spaces to `width` characters: on the right for left
/// alignment, on the left for right alignment, and split (the extra space on
/// the right) when centered. A wider cell is kept whole.
#[verifier::opaque]
pub open spec fn aligned(cell: Seq<char>, width: nat, alignment: Alignment) -> Seq<char> {
    let p = padding(cell.len(), width);
    match alignment {
        Alignment::Left => cell + repeat(' ', p),
        Alignment::Center => repeat(' ', p / 2) + cell + repeat(' ', (p - p / 2) as nat),
        Alignment::Right => repeat(' ', p) + cell,
    }
}

/// Appends `cell` aligned in `width` characters.
pub fn push_aligned(out: &mut Vec<char>, cell: &Vec<char>, width: usize, alignment: Alignment)
    ensures
        final(out)@ == old(out)@ + aligned(cell@, width as nat, alignment),
{
    let padding: usize = if width > cell.len() { width - cell.len() } else { 0 };
    let ghost start = out@;
    reveal(aligned);
    match alignment {
        Alignment::Left => {
            push_text(out, cell);
            push_repeat(out, ' ', padding);
        },
        Alignment::Center => {
            push_repeat(out, ' ', padding / 2);
            push_text(out, cell);
            push_repeat(out, ' ', padding - padding / 2);
        },
        Alignment::Right => {
            push_repeat(out, ' ', padding);
            push_text(out, cell);
        },
    }
    assert(out@ =~= start + aligned(cell@, width as nat, alignment));
}

/// `cell` padded with spaces to `width` characters in the given alignment.
pub fn aligned_cell(cell: &str, width: usize, alignment: Alignment) -> (r: String)
    ensures
        r@ == aligned(cell@, width as nat, alignment),
{
    let c = chars_of(cell);
    let mut out: Vec<char> = Vec::new();
    push_aligned(&mut out, &c, width, alignment);
    assert(out@ =~= aligned(cell@, width as nat, alignment));
    text_string(&out)
}

/// `value` cut to `width` characters: kept when it fits, else its first
/// `width - 1` characters and an ellipsis (just the ellipsis for a width of one or less).
pub open spec fn truncated(value: Seq<char>, width: nat) -> Seq<char> {
    if value.len() <= width {
        value
    } else if width <= 1 {
        seq!['…']
    } else {
        value.take(width - 1).push('…')
    }
}

/// `value` cut to `width` characters (see `truncated`).
pub fn truncate_to_width(value: &Vec<char>, width: usize) -> (r: Vec<char>)
    ensures
        r@ == truncated(value@, width as nat),
{
    let mut out: Vec<char> = Vec::new();
    if value.len() <= width {
        push_text(&mut out, value);
        assert(out@ =~= value@);
        return out;
    }
    if width <= 1 {
        out.push('…');
        assert(out@ =~= seq!['…']);
        return out;
    }
    let kept = width - 1;
    let mut i: usize = 0;
    while i < kept
        invariant
            kept < value.len(),
            i <= kept,
            out@ =~= value@.take(i as int),
        decreases kept - i,
    {
        out.push(value[i]);
        i = i + 1;
    }
    out.push('…');
    out
}

// ---------------------------------------------------------------------------
// Folder wrapping
// ---------------------------------------------------------------------------

/// The texts of a vector of character vectors.
pub open spec fn texts(v: Seq<Vec<char>>) -> Seq<Seq<char>> {
    v.map_values(|x: Vec<char>| x@)
}

/// All texts of `s` one after the other.
pub open spec fn concat_all(s: Seq<Seq<char>>) -> Seq<char>
    decreases s.len(),
{
    if s.len() == 0 { Seq::empty() } else { concat_all(s.drop_last()) + s.last() }
}

/// Splitting at `/`: the non-empty names finished so far and the name being read.
pub open spec fn parts_scan(s: Seq<char>) -> (Seq<Seq<char>>, Seq<char>)
    decreases s.len(),
{
    if s.len() == 0 {
        (Seq::empty(), Seq::empty())
    } else {
        let prev = parts_scan(s.drop_last());
        if s.last() == '/' {
            (if prev.1.len() > 0 { prev.0.push(prev.1) } else { prev.0 }, Seq::empty())
        } else {
            (prev.0, prev.1.push(s.last()))
        }
    }
}

/// The non-empty names between the slashes of a path, in order.
pub open spec fn path_parts(s: Seq<char>) -> Seq<Seq<char>> {
    let scan = parts_scan(s);
    if scan.1.len() > 0 { scan.0.push(scan.1) } else { scan.0 }
}

/// Whether a path ends with a slash.
pub open spec fn ends_with_slash(path: Seq<char>) -> bool {
    path.len() > 0 && path.last() == '/'
}

/// The component for a leading slash, if any.
pub open spec fn lead_component(path: Seq<char>) -> Seq<Seq<char>> {
    if path.len() > 0 && path[0] == '/' { seq![seq!['/']] } else { Seq::empty() }
}

/// Each name with a slash after it, but the last one when the path does not end with one.
pub open spec fn named_components(parts: Seq<Seq<char>>, trailing: bool) -> Seq<Seq<char>> {
    Seq::new(parts.len(), |i: int| if i + 1 < parts.len() || trailing { parts[i].push('/') } else { parts[i] })
}

/// The folder components of a path: `/` for a leading slash, then each name
/// with its slash (the last one only when the path ends with a slash); the
/// path itself when that leaves nothing.
pub open spec fn folder_components(path: Seq<char>) -> Seq<Seq<char>> {
    if path == seq!['/'] {
        seq![seq!['/']]
    } else {
        let comps = lead_component(path) + named_components(path_parts(path), ends_with_slash(path));
        if comps.len() == 0 { seq![path] } else { comps }
    }
}

/// Grouping components into lines: the finished lines and the current one.
/// A component goes on a new line when the current line is not empty and
/// would grow past `width` characters.
pub open spec fn wrap_scan(comps: Seq<Seq<char>>, width: nat) -> (Seq<Seq<char>>, Seq<char>)
    decreases comps.len(),
{
    if comps.len() == 0 {
        (Seq::empty(), Seq::empty())
    } else {
        let prev = wrap_scan(comps.drop_last(), width);
        let c = comps.last();
        if prev.1.len() > 0 && prev.1.len() + c.len() > width {
            (prev.0.push(prev.1), c)
        } else {
            (prev.0, prev.1 + c)
        }
    }
}

/// The lines of a path wrapped at folder boundaries to `width` characters.
pub open spec fn wrapped_lines(path: Seq<char>, width: nat) -> Seq<Seq<char>> {
    if path.len() == 0 {
        seq![Seq::<char>::empty()]
    } else if width == 0 {
        seq![path]
    } else {
        let scan = wrap_scan(folder_components(path), width);
        let lines = if scan.1.len() > 0 { scan.0.push(scan.1) } else { scan.0 };
        if lines.len() == 0 { seq![path] } else { lines }
    }
}

/// A copy of a text.
pub fn copy_text(v: &Vec<char>) -> (r: Vec<char>)
    ensures
        r@ == v@,
{
    let mut out: Vec<char> = Vec::new();
    push_text(&mut out, v);
    assert(out@ =~= v@);
    out
}

proof fn lemma_parts_scan_size(s: Seq<char>)
    ensures
        total_len(parts_scan(s).0) + parts_scan(s).0.len() + parts_scan(s).1.len()
            + (if s.len() > 0 && s[0] == '/' { 1nat } else { 0nat }) <= s.len(),
        forall|i: int| 0 <= i < parts_scan(s).0.len() ==> #[trigger] parts_scan(s).0[i].len() > 0,
    decreases s.len(),
{
    if s.len() > 0 {
        lemma_parts_scan_size(s.drop_last());
        let prev = parts_scan(s.drop_last());
        if s.last() == '/' && prev.1.len() > 0 {
            lemma_total_len_push(prev.0, prev.1);
        }
    }
}

/// The sum of the lengths of texts.
pub open spec fn total_len(s: Seq<Seq<char>>) -> nat
    decreases s.len(),
{
    if s.len() == 0 { 0 } else { total_len(s.drop_last()) + s.last().len() }
}

proof fn lemma_total_len_push(s: Seq<Seq<char>>, t: Seq<char>)
    ensures
        total_len(s.push(t)) == total_len(s) + t.len(),
        concat_all(s.push(t)) == concat_all(s) + t,
{
    assert(s.push(t).drop_last() =~= s);
}

proof fn lemma_concat_single(x: Seq<char>)
    ensures
        concat_all(seq![x]) == x,
        total_len(seq![x]) == x.len(),
{
    let one = seq![x];
    assert(one.drop_last() =~= Seq::<Seq<char>>::empty());
    assert(one.last() == x);
    assert(concat_all(one.drop_last()) == Seq::<char>::empty());
    assert(total_len(one.drop_last()) == 0);
    assert(Seq::<char>::empty() + x =~= x);
}

proof fn lemma_concat_len(s: Seq<Seq<char>>)
    ensures
        concat_all(s).len() == total_len(s),
    decreases s.len(),
{
    if s.len() > 0 {
        lemma_concat_len(s.drop_last());
    }
}

proof fn lemma_total_len_append(a: Seq<Seq<char>>, b: Seq<Seq<char>>)
    ensures
        total_len(a + b) == total_len(a) + total_len(b),
        concat_all(a + b) == concat_all(a) + concat_all(b),
    decreases b.len(),
{
    if b.len() == 0 {
        assert(a + b =~= a);
        assert(concat_all(a) + concat_all(b) =~= concat_all(a));
    } else {
        lemma_total_len_append(a, b.drop_last());
        assert((a + b).drop_last() =~= a + b.drop_last());
        assert(concat_all(a) + concat_all(b.drop_last()) + b.last() =~= concat_all(a) + (concat_all(b.drop_last()) + b.last()));
    }
}

/// The folder components of a path (see `folder_components`).
fn split_folder_components(path: &Vec<char>) -> (comps: Vec<Vec<char>>)
    ensures
        texts(comps@) == folder_components(path@),
        path@.len() > 0 ==> total_len(texts(comps@)) <= path@.len(),
        comps@.len() >= 1,
        forall|i: int| 0 <= i < comps@.len() ==> path@.len() > 0 ==> #[trigger] comps@[i]@.len() > 0,
{
    if path.len() == 1 && path[0] == '/' {
        assert(path@ =~= seq!['/']);
        let mut v: Vec<Vec<char>> = Vec::new();
        let mut slash: Vec<char> = Vec::new();
        slash.push('/');
        v.push(slash);
        assert(texts(v@) =~= seq![seq!['/']]);
        proof {
            assert(texts(v@).drop_last() =~= Seq::<Seq<char>>::empty());
            assert(total_len(texts(v@)) == total_len(Seq::<Seq<char>>::empty()) + 1);
            assert(v@[0]@ == texts(v@)[0]);
        }
        return v;
    }
    let mut done: Vec<Vec<char>> = Vec::new();
    let mut cur: Vec<char> = Vec::new();
    let mut i: usize = 0;
    while i < path.len()
        invariant
            i <= path.len(),
            (texts(done@), cur@) == parts_scan(path@.take(i as int)),
        decreases path.len() - i,
    {
        let c = path[i];
        proof {
            assert(path@.take(i + 1).drop_last() =~= path@.take(i as int));
        }
        if c == '/' {
            if cur.len() > 0 {
                let finished = copy_text(&cur);
                done.push(finished);
                cur = Vec::new();
                assert(texts(done@) =~= parts_scan(path@.take(i as int)).0.push(parts_scan(path@.take(i as int)).1));
            }
            assert(cur@ =~= Seq::<char>::empty());
        } else {
            cur.push(c);
        }
        i = i + 1;
    }
    assert(path@.take(path.len() as int) =~= path@);
    proof {
        lemma_parts_scan_size(path@);
    }
    if cur.len() > 0 {
        let finished = copy_text(&cur);
        done.push(finished);
        assert(texts(done@) =~= path_parts(path@));
        proof {
            lemma_total_len_push(parts_scan(path@).0, parts_scan(path@).1);
        }
    }
    let ghost parts = path_parts(path@);
    assert(texts(done@) == parts);
    let leading = path.len() > 0 && path[0] == '/';
    let trailing = path.len() > 0 && path[path.len() - 1] == '/';
    let mut comps: Vec<Vec<char>> = Vec::new();
    if leading {
        let mut slash: Vec<char> = Vec::new();
        slash.push('/');
        comps.push(slash);
    }
    let ghost lead: Seq<Seq<char>> = lead_component(path@);
    assert(texts(comps@) =~= lead);
    let ghost named = named_components(parts, trailing);
    assert(trailing == ends_with_slash(path@));
    let mut k: usize = 0;
    while k < done.len()
        invariant
            k <= done.len(),
            texts(done@) == parts,
            named == named_components(parts, trailing),
            texts(comps@) =~= lead + named.take(k as int),
        decreases done.len() - k,
    {
        let mut c = copy_text(&done[k]);
        assert(done@[k as int]@ == texts(done@)[k as int]);
        if k + 1 < done.len() || trailing {
            c.push('/');
        }
        assert(c@ == named[k as int]);
        let ghost before = texts(comps@);
        comps.push(c);
        proof {
            assert(named.take(k + 1) =~= named.take(k as int).push(named[k as int]));
            assert(texts(comps@) =~= before.push(c@));
        }
        k = k + 1;
    }
    assert(named.take(done.len() as int) =~= named);
    proof {
        assert(path@ != seq!['/']);
    }
    if comps.len() == 0 {
        let whole = copy_text(path);
        comps.push(whole);
        assert(texts(comps@) =~= seq![path@]);
        proof {
            assert(seq![path@].drop_last() =~= Seq::<Seq<char>>::empty());
            assert(total_len(texts(comps@)) == total_len(Seq::<Seq<char>>::empty()) + path@.len());
            assert(comps@[0]@ == texts(comps@)[0]);
        }
        return comps;
    }
    proof {
        lemma_components_size(path@);
        assert forall|i: int| 0 <= i < comps@.len() implies #[trigger] comps@[i]@.len() > 0 by {
            assert(comps@[i]@ == texts(comps@)[i]);
        }
    }
    assert(texts(comps@) =~= folder_components(path@));
    comps
}

proof fn lemma_named_size(parts: Seq<Seq<char>>, trailing: bool)
    ensures
        total_len(named_components(parts, trailing)) + (if !trailing && parts.len() > 0 { 1nat } else { 0nat })
            == total_len(parts) + parts.len(),
    decreases parts.len(),
{
    if parts.len() > 0 {
        let n = named_components(parts, trailing);
        lemma_named_size(parts.drop_last(), true);
        assert(n.drop_last() =~= named_components(parts.drop_last(), true));
    }
}

proof fn lemma_components_size(path: Seq<char>)
    requires
        path.len() > 0,
    ensures
        total_len(lead_component(path) + named_components(path_parts(path), ends_with_slash(path))) <= path.len(),
        forall|i: int| 0 <= i < (lead_component(path) + named_components(path_parts(path), ends_with_slash(path))).len()
            ==> #[trigger] (lead_component(path) + named_components(path_parts(path), ends_with_slash(path)))[i].len() > 0,
{
    let scan = parts_scan(path);
    let parts = path_parts(path);
    let trailing = ends_with_slash(path);
    let lead = lead_component(path);
    let named = named_components(parts, trailing);
    lemma_parts_scan_size(path);
    lemma_named_size(parts, trailing);
    lemma_total_len_append(lead, named);
    if scan.1.len() > 0 {
        lemma_total_len_push(scan.0, scan.1);
        // a name still being read at the end means the path does not end with a slash
        assert(!trailing);
        assert(total_len(parts) == total_len(scan.0) + scan.1.len());
        assert(total_len(named) + 1 == total_len(parts) + parts.len());
    } else {
        assert(parts == scan.0);
        assert(total_len(named) <= total_len(parts) + parts.len());
    }
    if lead.len() > 0 {
        assert(lead.drop_last() =~= Seq::<Seq<char>>::empty());
        assert(total_len(Seq::<Seq<char>>::empty()) == 0);
        assert(lead.last() =~= seq!['/']);
        assert(total_len(lead) == total_len(lead.drop_last()) + lead.last().len());
    } else {
        assert(total_len(lead) == 0);
    }
    assert forall|i: int| 0 <= i < (lead + named).len() implies #[trigger] (lead + named)[i].len() > 0 by {
        if i < lead.len() {
        } else {
            let k = i - lead.len();
            if k < scan.0.len() {
                assert(parts[k] == scan.0[k]);
            }
        }
    }
}

proof fn lemma_total_len_prefix(s: Seq<Seq<char>>, k: int)
    requires
        0 <= k <= s.len(),
    ensures
        total_len(s.take(k)) <= total_len(s),
    decreases s.len() - k,
{
    if k < s.len() {
        lemma_total_len_prefix(s, k + 1);
        assert(s.take(k + 1).drop_last() =~= s.take(k));
    } else {
        assert(s.take(k) =~= s);
    }
}

/// What the grouping keeps: the finished lines followed by the current one
/// give back all components, in order.
proof fn lemma_wrap_scan_concat(comps: Seq<Seq<char>>, width: nat)
    ensures
        concat_all(wrap_scan(comps, width).0) + wrap_scan(comps, width).1 == concat_all(comps),
        total_len(wrap_scan(comps, width).0) + wrap_scan(comps, width).1.len() == total_len(comps),
    decreases comps.len(),
{
    if comps.len() > 0 {
        let prev = wrap_scan(comps.drop_last(), width);
        lemma_wrap_scan_concat(comps.drop_last(), width);
        let c = comps.last();
        if prev.1.len() > 0 && prev.1.len() + c.len() > width {
            lemma_total_len_push(prev.0, prev.1);
        }
        assert(concat_all(prev.0) + prev.1 + c =~= concat_all(prev.0) + (prev.1 + c));
    }
}

/// The lines of a path wrapped at folder boundaries (see `wrapped_lines`).
pub fn wrap_chars(path: &Vec<char>, width: usize) -> (lines: Vec<Vec<char>>)
    ensures
        texts(lines@) == wrapped_lines(path@, width as nat),
        lines@.len() >= 1,
{
    let mut lines: Vec<Vec<char>> = Vec::new();
    if path.len() == 0 {
        lines.push(Vec::new());
        assert(texts(lines@) =~= seq![Seq::<char>::empty()]);
        return lines;
    }
    if width == 0 {
        lines.push(copy_text(path));
        assert(texts(lines@) =~= seq![path@]);
        return lines;
    }
    let comps = split_folder_components(path);
    let plen = path.len();
    let ghost cs = texts(comps@);
    let mut current: Vec<char> = Vec::new();
    let mut k: usize = 0;
    while k < comps.len()
        invariant
            k <= comps.len(),
            cs == texts(comps@),
            plen == path@.len(),
            total_len(cs) <= path@.len(),
            (texts(lines@), current@) == wrap_scan(cs.take(k as int), width as nat),
        decreases comps.len() - k,
    {
        proof {
            assert(cs.take(k + 1).drop_last() =~= cs.take(k as int));
            lemma_wrap_scan_concat(cs.take(k + 1), width as nat);
            lemma_wrap_scan_concat(cs.take(k as int), width as nat);
            lemma_total_len_prefix(cs, k + 1);
            assert(comps@[k as int]@ == cs[k as int]);
            assert(total_len(cs.take(k + 1)) == total_len(cs.take(k as int)) + cs[k as int].len());
            assert(path@.len() <= usize::MAX);
        }
        let c = copy_text(&comps[k]);
        let candidate = current.len() + c.len();
        if current.len() > 0 && candidate > width {
            let ghost before = texts(lines@);
            lines.push(current);
            current = c;
            assert(texts(lines@) =~= before.push(wrap_scan(cs.take(k as int), width as nat).1));
        } else {
            let ghost before = current@;
            push_text(&mut current, &c);
        }
        k = k + 1;
    }
    assert(cs.take(comps.len() as int) =~= cs);
    if current.len() > 0 {
        let ghost before = texts(lines@);
        lines.push(current);
        assert(texts(lines@) =~= before.push(wrap_scan(cs, width as nat).1));
    }
    if lines.len() == 0 {
        lines.push(copy_text(path));
        assert(texts(lines@) =~= seq![path@]);
    }
    lines
}

/// Splits a path into lines at folder boundaries so that each line stays
/// within `width` characters where the components allow it.
pub fn wrap_path_by_folder(path: &str, width: usize) -> (lines: Vec<String>)
    ensures
        lines@.map_values(|l: String| l@) == wrapped_lines(path@, width as nat),
{
    let p = chars_of(path);
    let wrapped = wrap_chars(&p, width);
    let mut out: Vec<String> = Vec::new();
    let mut i: usize = 0;
    while i < wrapped.len()
        invariant
            i <= wrapped.len(),
            texts(wrapped@) == wrapped_lines(path@, width as nat),
            out@.map_values(|l: String| l@) =~= texts(wrapped@).take(i as int),
        decreases wrapped.len() - i,
    {
        let line = text_string(&wrapped[i]);
        out.push(line);
        proof {
            assert(wrapped@[i as int]@ == texts(wrapped@)[i as int]);
            assert(texts(wrapped@).take(i + 1) =~= texts(wrapped@).take(i as int).push(texts(wrapped@)[i as int]));
        }
        i = i + 1;
    }
    assert(texts(wrapped@).take(wrapped.len() as int) =~= texts(wrapped@));
    out
}

// ---------------------------------------------------------------------------
// Framed lines and rules
// ---------------------------------------------------------------------------

/// How a row is colored: the header, or a data row that may show a problem.
#[derive(Clone, Copy, Debug, PartialEq, Eq, Structural)]
pub enum RowStyle {
    Header,
    Data { problem: bool },
}

/// The bordered tables: the Unicode one and the compact ASCII one.
#[derive(Clone, Copy, Debug, PartialEq, Eq, Structural)]
pub enum Frame {
    Unicode,
    Compact,
}

/// The vertical bar between cells.
pub open spec fn frame_bar(f: Frame) -> char {
    match f {
        Frame::Unicode => '│',
        Frame::Compact => '|',
    }
}

/// The alignment of column `i`: as declared for the Unicode table; the
/// compact table aligns the first column right and the others left.
pub open spec fn column_alignment(f: Frame, i: int) -> Alignment {
    match f {
        Frame::Unicode => unicode_alignment(i),
        Frame::Compact => if i == 0 { Alignment::Right } else { Alignment::Left },
    }
}

/// A cell (already padded) colored for its row: blank cells stay as they
/// are; headers are cyan; in data rows the first column is yellow and the
/// others red for a problem row, green otherwise.
#[verifier::opaque]
pub open spec fn styled_cell(cell: Seq<char>, index: int, use_colors: bool, rs: RowStyle) -> Seq<char> {
    if all_white(cell) {
        cell
    } else {
        match rs {
            RowStyle::Header => painted(use_colors, Paint::Cyan, cell),
            RowStyle::Data { problem } => if index == 0 {
                painted(use_colors, Paint::Yellow, cell)
            } else if problem {
                painted(use_colors, Paint::Red, cell)
            } else {
                painted(use_colors, Paint::Green, cell)
            },
        }
    }
}

/// The cells of a framed line: each as a space, the colored aligned cell, a space and a bar.
pub open spec fn framed_cells(f: Frame, cells: Seq<Seq<char>>, widths: Seq<usize>, use_colors: bool, rs: RowStyle) -> Seq<char>
    decreases cells.len(),
{
    if cells.len() == 0 {
        Seq::empty()
    } else {
        let n = cells.len() - 1;
        framed_cells(f, cells.drop_last(), widths, use_colors, rs) + seq![' ']
            + styled_cell(aligned(cells[n], widths[n] as nat, column_alignment(f, n)), n, use_colors, rs)
            + seq![' ', frame_bar(f)]
    }
}

/// A framed line of a bordered table: a bar, the cells, a line break.
pub open spec fn framed_line(f: Frame, cells: Seq<Seq<char>>, widths: Seq<usize>, use_colors: bool, rs: RowStyle) -> Seq<char> {
    seq![frame_bar(f)] + framed_cells(f, cells, widths, use_colors, rs) + seq!['\n']
}

/// Appends `cell` (already padded) colored for its row.
pub fn push_styled_cell(out: &mut Vec<char>, cell: &Vec<char>, index: usize, use_colors: bool, rs: RowStyle)
    ensures
        final(out)@ == old(out)@ + styled_cell(cell@, index as int, use_colors, rs),
{
    reveal(styled_cell);
    if text_all_white(cell) {
        push_text(out, cell);
        return;
    }
    match rs {
        RowStyle::Header => push_painted(out, use_colors, Paint::Cyan, cell),
        RowStyle::Data { problem } => {
            if index == 0 {
                push_painted(out, use_colors, Paint::Yellow, cell);
            } else if problem {
                push_painted(out, use_colors, Paint::Red, cell);
            } else {
                push_painted(out, use_colors, Paint::Green, cell);
            }
        },
    }
}

fn frame_bar_of(f: Frame) -> (c: char)
    ensures
        c == frame_bar(f),
{
    match f {
        Frame::Unicode => '│',
        Frame::Compact => '|',
    }
}

fn column_alignment_of(f: Frame, i: usize) -> (a: Alignment)
    ensures
        a == column_alignment(f, i as int),
{
    match f {
        Frame::Unicode => {
            if i == 2 || i == 8 {
                Alignment::Left
            } else if i == 3 {
                Alignment::Center
            } else {
                Alignment::Right
            }
        },
        Frame::Compact => if i == 0 { Alignment::Right } else { Alignment::Left },
    }
}

/// Appends a framed line.
pub fn push_framed_line(
    out: &mut Vec<char>,
    f: Frame,
    cells: &Vec<Vec<char>>,
    widths: &Vec<usize>,
    use_colors: bool,
    rs: RowStyle,
)
    requires
        cells.len() <= widths.len(),
    ensures
        final(out)@ == old(out)@ + framed_line(f, texts(cells@), widths@, use_colors, rs),
{
    let ghost start = out@;
    let bar = frame_bar_of(f);
    out.push(bar);
    let mut i: usize = 0;
    while i < cells.len()
        invariant
            i <= cells.len(),
            cells.len() <= widths.len(),
            bar == frame_bar(f),
            out@ =~= start + seq![bar] + framed_cells(f, texts(cells@).take(i as int), widths@, use_colors, rs),
        decreases cells.len() - i,
    {
        let ghost before = out@;
        out.push(' ');
        let mut padded: Vec<char> = Vec::new();
        push_aligned(&mut padded, &cells[i], widths[i], column_alignment_of(f, i));
        push_styled_cell(out, &padded, i, use_colors, rs);
        out.push(' ');
        out.push(bar);
        proof {
            let t = texts(cells@).take(i + 1);
            assert(t.drop_last() =~= texts(cells@).take(i as int));
            assert(t[i as int] == cells@[i as int]@);
            assert(padded@ =~= aligned(t[i as int], widths@[i as int] as nat, column_alignment(f, i as int)));
        }
        i = i + 1;
    }
    assert(texts(cells@).take(cells.len() as int) =~= texts(cells@));
    out.push('\n');
}

/// Each width's run of `fill` (two wider than the width) followed by `sep`.
pub open spec fn rule_runs(widths: Seq<usize>, fill: char, sep: char) -> Seq<char>
    decreases widths.len(),
{
    if widths.len() == 0 {
        Seq::empty()
    } else {
        rule_runs(widths.drop_last(), fill, sep) + repeat(fill, (widths.last() + 2) as nat) + seq![sep]
    }
}

/// A rule of a bordered table: the left corner, the runs separated by the
/// middle joint, the right corner, a line break.
pub open spec fn rule_line(widths: Seq<usize>, fill: char, left: char, middle: char, right: char) -> Seq<char> {
    if widths.len() == 0 {
        seq![left, '\n']
    } else {
        seq![left] + rule_runs(widths.drop_last(), fill, middle) + repeat(fill, (widths.last() + 2) as nat) + seq![right, '\n']
    }
}

/// Appends a rule.
pub fn push_rule(out: &mut Vec<char>, widths: &Vec<usize>, fill: char, left: char, middle: char, right: char)
    requires
        widths.len() > 0,
        forall|i: int| 0 <= i < widths.len() ==> #[trigger] widths@[i] + 2 <= usize::MAX,
    ensures
        final(out)@ == old(out)@ + rule_line(widths@, fill, left, middle, right),
{
    let ghost start = out@;
    out.push(left);
    let last = widths.len() - 1;
    let mut i: usize = 0;
    while i < last
        invariant
            i <= last,
            last + 1 == widths.len(),
            forall|k: int| 0 <= k < widths.len() ==> #[trigger] widths@[k] + 2 <= usize::MAX,
            out@ =~= start + seq![left] + rule_runs(widths@.take(i as int), fill, middle),
        decreases last - i,
    {
        push_repeat(out, fill, widths[i] + 2);
        out.push(middle);
        proof {
            assert(widths@.take(i + 1).drop_last() =~= widths@.take(i as int));
        }
        i = i + 1;
    }
    push_repeat(out, fill, widths[last] + 2);
    out.push(right);
    out.push('\n');
    assert(widths@.take(last as int) =~= widths@.drop_last());
}

// ---------------------------------------------------------------------------
// Rows wrapped at folder boundaries
// ---------------------------------------------------------------------------

/// The cells of the `j`-th physical line of a wrapped row: the last line
/// carries all the row's cells with the wrapped column replaced by the line;
/// the others are blank but for the line.
pub open spec fn line_cells(cells: Seq<Seq<char>>, col: int, lines: Seq<Seq<char>>, j: int) -> Seq<Seq<char>> {
    if j == lines.len() - 1 {
        cells.update(col, lines[j])
    } else {
        Seq::new(cells.len(), |i: int| Seq::<char>::empty()).update(col, lines[j])
    }
}

/// The first `k` physical lines of a wrapped row of a bordered table.
pub open spec fn wrapped_block(
    f: Frame,
    cells: Seq<Seq<char>>,
    col: int,
    lines: Seq<Seq<char>>,
    k: nat,
    widths: Seq<usize>,
    use_colors: bool,
    problem: bool,
) -> Seq<char>
    decreases k,
{
    if k == 0 {
        Seq::empty()
    } else {
        wrapped_block(f, cells, col, lines, (k - 1) as nat, widths, use_colors, problem)
            + framed_line(f, line_cells(cells, col, lines, k - 1), widths, use_colors, RowStyle::Data { problem })
    }
}

/// A row of a bordered table with column `col` wrapped at folder boundaries.
pub open spec fn wrapped_row(f: Frame, cells: Seq<Seq<char>>, col: int, widths: Seq<usize>, use_colors: bool, problem: bool) -> Seq<char> {
    let lines = wrapped_lines(cells[col], widths[col] as nat);
    wrapped_block(f, cells, col, lines, lines.len(), widths, use_colors, problem)
}

/// The cells with column `col` replaced by `value` (blank cells elsewhere when `blank`).
pub fn cells_with(cells: &Vec<Vec<char>>, col: usize, value: &Vec<char>, blank: bool) -> (r: Vec<Vec<char>>)
    requires
        col < cells.len(),
    ensures
        texts(r@) == (if blank {
            Seq::new(cells@.len(), |i: int| Seq::<char>::empty()).update(col as int, value@)
        } else {
            texts(cells@).update(col as int, value@)
        }),
{
    let ghost target = if blank {
        Seq::new(cells@.len(), |i: int| Seq::<char>::empty()).update(col as int, value@)
    } else {
        texts(cells@).update(col as int, value@)
    };
    let mut r: Vec<Vec<char>> = Vec::new();
    let mut i: usize = 0;
    while i < cells.len()
        invariant
            i <= cells.len(),
            col < cells.len(),
            target == (if blank {
                Seq::new(cells@.len(), |i: int| Seq::<char>::empty()).update(col as int, value@)
            } else {
                texts(cells@).update(col as int, value@)
            }),
            texts(r@) =~= target.take(i as int),
        decreases cells.len() - i,
    {
        let c = if i == col {
            copy_text(value)
        } else if blank {
            Vec::new()
        } else {
            copy_text(&cells[i])
        };
        let ghost before = texts(r@);
        r.push(c);
        proof {
            assert(target.take(i + 1) =~= target.take(i as int).push(target[i as int]));
            assert(texts(r@) =~= before.push(c@));
        }
        i = i + 1;
    }
    assert(target.take(cells.len() as int) =~= target);
    r
}

/// Appends a row of a bordered table with column `col` wrapped at folder boundaries.
pub fn push_wrapped_row(
    out: &mut Vec<char>,
    f: Frame,
    cells: &Vec<Vec<char>>,
    col: usize,
    widths: &Vec<usize>,
    use_colors: bool,
    problem: bool,
)
    requires
        col < cells.len(),
        cells.len() <= widths.len(),
    ensures
        final(out)@ == old(out)@ + wrapped_row(f, texts(cells@), col as int, widths@, use_colors, problem),
{
    let ghost start = out@;
    assert(cells@[col as int]@ == texts(cells@)[col as int]);
    let lines = wrap_chars(&cells[col], widths[col]);
    let ghost ls = texts(lines@);
    let mut j: usize = 0;
    while j < lines.len()
        invariant
            j <= lines.len(),
            col < cells.len(),
            cells.len() <= widths.len(),
            ls == texts(lines@),
            ls == wrapped_lines(texts(cells@)[col as int], widths@[col as int] as nat),
            out@ =~= start + wrapped_block(f, texts(cells@), col as int, ls, j as nat, widths@, use_colors, problem),
        decreases lines.len() - j,
    {
        let last = j == lines.len() - 1;
        let row_cells = cells_with(cells, col, &lines[j], !last);
        proof {
            assert(lines@[j as int]@ == ls[j as int]);
            assert(texts(row_cells@) =~= line_cells(texts(cells@), col as int, ls, j as int));
        }
        push_framed_line(out, f, &row_cells, widths, use_colors, RowStyle::Data { problem });
        j = j + 1;
    }
}

// ---------------------------------------------------------------------------
// Text without escapes
// ---------------------------------------------------------------------------

/// Whether every text of `s` is free of escapes.
pub open spec fn all_escape_free(s: Seq<Seq<char>>) -> bool {
    forall|i: int| 0 <= i < s.len() ==> escape_free(#[trigger] s[i])
}

pub(crate) proof fn lemma_aligned_escape_free(cell: Seq<char>, width: nat, alignment: Alignment)
    requires
        escape_free(cell),
    ensures
        escape_free(aligned(cell, width, alignment)),
{
    broadcast use lemma_escape_free_add;
    reveal(aligned);
    let p = padding(cell.len(), width);
    lemma_escape_free_parts(cell, 0, ' ', p);
    lemma_escape_free_parts(cell, 0, ' ', p / 2);
    lemma_escape_free_parts(cell, 0, ' ', (p - p / 2) as nat);
}

pub(crate) proof fn lemma_truncated_escape_free(value: Seq<char>, width: nat)
    requires
        escape_free(value),
    ensures
        escape_free(truncated(value, width)),
{
    broadcast use lemma_escape_free_push;
    lemma_escape_free_parts(value, 0, ' ', 0);
    if value.len() > width && width > 1 {
        lemma_escape_free_parts(value, width - 1, ' ', 0);
    }
}

proof fn lemma_framed_cells_escape_free(f: Frame, cells: Seq<Seq<char>>, widths: Seq<usize>, rs: RowStyle)
    requires
        all_escape_free(cells),
    ensures
        escape_free(framed_cells(f, cells, widths, false, rs)),
    decreases cells.len(),
{
    broadcast use lemma_escape_free_add, lemma_escape_free_push;
    lemma_escape_free_parts(Seq::<char>::empty(), 0, ' ', 0);
    if cells.len() > 0 {
        let n = cells.len() - 1;
        assert(all_escape_free(cells.drop_last())) by {
            assert forall|i: int| 0 <= i < cells.drop_last().len() implies escape_free(#[trigger] cells.drop_last()[i]) by {
                assert(cells.drop_last()[i] == cells[i]);
            }
        }
        lemma_framed_cells_escape_free(f, cells.drop_last(), widths, rs);
        assert(escape_free(cells[n]));
        lemma_aligned_escape_free(cells[n], widths[n] as nat, column_alignment(f, n));
        reveal(styled_cell);
        reveal(painted);
    }
}

/// Without colors, a framed line of escape-free cells is free of escapes.
pub(crate) proof fn lemma_framed_line_escape_free(f: Frame, cells: Seq<Seq<char>>, widths: Seq<usize>, rs: RowStyle)
    requires
        all_escape_free(cells),
    ensures
        escape_free(framed_line(f, cells, widths, false, rs)),
{
    broadcast use lemma_escape_free_add, lemma_escape_free_push;
    lemma_escape_free_parts(Seq::<char>::empty(), 0, ' ', 0);
    lemma_framed_cells_escape_free(f, cells, widths, rs);
}

proof fn lemma_rule_runs_escape_free(widths: Seq<usize>, fill: char, sep: char)
    requires
        fill != '\x1b',
        sep != '\x1b',
    ensures
        escape_free(rule_runs(widths, fill, sep)),
    decreases widths.len(),
{
    broadcast use lemma_escape_free_add, lemma_escape_free_push;
    lemma_escape_free_parts(Seq::<char>::empty(), 0, fill, (if widths.len() > 0 { widths.last() + 2 } else { 0 }) as nat);
    if widths.len() > 0 {
        lemma_rule_runs_escape_free(widths.drop_last(), fill, sep);
    }
}

/// A rule drawn with characters other than the escape is free of escapes.
pub(crate) proof fn lemma_rule_line_escape_free(widths: Seq<usize>, fill: char, left: char, middle: char, right: char)
    requires
        fill != '\x1b',
        left != '\x1b',
        middle != '\x1b',
        right != '\x1b',
    ensures
        escape_free(rule_line(widths, fill, left, middle, right)),
{
    broadcast use lemma_escape_free_add, lemma_escape_free_push;
    lemma_escape_free_parts(Seq::<char>::empty(), 0, fill, (if widths.len() > 0 { widths.last() + 2 } else { 0 }) as nat);
    if widths.len() > 0 {
        lemma_rule_runs_escape_free(widths.drop_last(), fill, middle);
    }
}

proof fn lemma_parts_scan_escape_free(s: Seq<char>)
    requires
        escape_free(s),
    ensures
        all_escape_free(parts_scan(s).0),
        escape_free(parts_scan(s).1),
    decreases s.len(),
{
    broadcast use lemma_escape_free_push;
    lemma_escape_free_parts(Seq::<char>::empty(), 0, ' ', 0);
    if s.len() > 0 {
        let d = s.drop_last();
        lemma_escape_free_parts(s, s.len() - 1, ' ', 0);
        assert(s.take(s.len() - 1) =~= d);
        lemma_parts_scan_escape_free(d);
        let prev = parts_scan(d);
        assert(s.last() != '\x1b') by {
            assert(s[s.len() - 1] == s.last());
        }
        if s.last() == '/' && prev.1.len() > 0 {
            let parts = prev.0.push(prev.1);
            assert forall|i: int| 0 <= i < parts.len() implies escape_free(#[trigger] parts[i]) by {
                if i < prev.0.len() {
                    assert(parts[i] == prev.0[i]);
                }
            }
        }
    }
}

proof fn lemma_folder_components_escape_free(path: Seq<char>)
    requires
        escape_free(path),
    ensures
        all_escape_free(folder_components(path)),
{
    broadcast use lemma_escape_free_push;
    lemma_escape_free_parts(Seq::<char>::empty(), 0, ' ', 0);
    lemma_parts_scan_escape_free(path);
    let scan = parts_scan(path);
    let parts = path_parts(path);
    assert(all_escape_free(parts)) by {
        if scan.1.len() > 0 {
            assert forall|i: int| 0 <= i < parts.len() implies escape_free(#[trigger] parts[i]) by {
                if i < scan.0.len() {
                    assert(parts[i] == scan.0[i]);
                }
            }
        }
    }
    let named = named_components(parts, ends_with_slash(path));
    let lead = lead_component(path);
    let comps = lead + named;
    assert(escape_free(seq!['/']));
    assert forall|i: int| 0 <= i < comps.len() implies escape_free(#[trigger] comps[i]) by {
        if i < lead.len() {
            assert(comps[i] == seq!['/']);
        } else {
            assert(comps[i] == named[i - lead.len()]);
            assert(escape_free(parts[i - lead.len()]));
        }
    }
}

proof fn lemma_wrap_scan_escape_free(comps: Seq<Seq<char>>, width: nat)
    requires
        all_escape_free(comps),
    ensures
        all_escape_free(wrap_scan(comps, width).0),
        escape_free(wrap_scan(comps, width).1),
    decreases comps.len(),
{
    broadcast use lemma_escape_free_add;
    lemma_escape_free_parts(Seq::<char>::empty(), 0, ' ', 0);
    if comps.len() > 0 {
        let d = comps.drop_last();
        assert(all_escape_free(d)) by {
            assert forall|i: int| 0 <= i < d.len() implies escape_free(#[trigger] d[i]) by {
                assert(d[i] == comps[i]);
            }
        }
        lemma_wrap_scan_escape_free(d, width);
        let prev = wrap_scan(d, width);
        assert(escape_free(comps[comps.len() - 1]));
        if prev.1.len() > 0 && prev.1.len() + comps.last().len() > width {
            let lines = prev.0.push(prev.1);
            assert forall|i: int| 0 <= i < lines.len() implies escape_free(#[trigger] lines[i]) by {
                if i < prev.0.len() {
                    assert(lines[i] == prev.0[i]);
                }
            }
        }
    }
}

/// The lines into which an escape-free path wraps are free of escapes.
pub(crate) proof fn lemma_wrapped_lines_escape_free(path: Seq<char>, width: nat)
    requires
        escape_free(path),
    ensures
        all_escape_free(wrapped_lines(path, width)),
{
    lemma_escape_free_parts(Seq::<char>::empty(), 0, ' ', 0);
    if path.len() > 0 && width > 0 {
        let comps = folder_components(path);
        lemma_folder_components_escape_free(path);
        lemma_wrap_scan_escape_free(comps, width);
        let scan = wrap_scan(comps, width);
        if scan.1.len() > 0 {
            let lines = scan.0.push(scan.1);
            assert forall|i: int| 0 <= i < lines.len() implies escape_free(#[trigger] lines[i]) by {
                if i < scan.0.len() {
                    assert(lines[i] == scan.0[i]);
                }
            }
        }
    }
}

proof fn lemma_wrapped_block_escape_free(
    f: Frame,
    cells: Seq<Seq<char>>,
    col: int,
    lines: Seq<Seq<char>>,
    k: nat,
    widths: Seq<usize>,
    problem: bool,
)
    requires
        all_escape_free(cells),
        all_escape_free(lines),
        0 <= col < cells.len(),
        k <= lines.len(),
    ensures
        escape_free(wrapped_block(f, cells, col, lines, k, widths, false, problem)),
    decreases k,
{
    broadcast use lemma_escape_free_add;
    lemma_escape_free_parts(Seq::<char>::empty(), 0, ' ', 0);
    if k > 0 {
        lemma_wrapped_block_escape_free(f, cells, col, lines, (k - 1) as nat, widths, problem);
        let line = line_cells(cells, col, lines, k - 1);
        assert(escape_free(lines[k - 1]));
        assert forall|i: int| 0 <= i < line.len() implies escape_free(#[trigger] line[i]) by {}
        lemma_framed_line_escape_free(f, line, widths, RowStyle::Data { problem });
    }
}

/// Without colors, a wrapped row of escape-free cells is free of escapes.
pub(crate) proof fn lemma_wrapped_row_escape_free(f: Frame, cells: Seq<Seq<char>>, col: int, widths: Seq<usize>, problem: bool)
    requires
        all_escape_free(cells),
        0 <= col < cells.len(),
    ensures
        escape_free(wrapped_row(f, cells, col, widths, false, problem)),
{
    assert(escape_free(cells[col]));
    lemma_wrapped_lines_escape_free(cells[col], widths[col] as nat);
    let lines = wrapped_lines(cells[col], widths[col] as nat);
    lemma_wrapped_block_escape_free(f, cells, col, lines, lines.len(), widths, problem);
}

// ---------------------------------------------------------------------------
// Laws
// ---------------------------------------------------------------------------

/// An aligned cell is exactly as wide as its column, or as the cell when it
/// is wider, and holds the cell unchanged after its left padding.
pub proof fn law_aligned_width(cell: Seq<char>, width: nat, alignment: Alignment)
    ensures
        aligned(cell, width, alignment).len() == (if cell.len() > width { cell.len() } else { width }),
        ({
            let left = match alignment {
                Alignment::Left => 0,
                Alignment::Center => padding(cell.len(), width) / 2,
                Alignment::Right => padding(cell.len(), width),
            };
            aligned(cell, width, alignment).subrange(left as int, (left + cell.len()) as int) == cell
        }),
{
    reveal(aligned);
    let p = padding(cell.len(), width);
    let a = aligned(cell, width, alignment);
    match alignment {
        Alignment::Left => {
            assert(a.subrange(0, cell.len() as int) =~= cell);
        },
        Alignment::Center => {
            assert(a.subrange((p / 2) as int, (p / 2 + cell.len()) as int) =~= cell);
        },
        Alignment::Right => {
            assert(a.subrange(p as int, (p + cell.len()) as int) =~= cell);
        },
    }
}

/// A cut value fits its column (one character at least), keeps a value that
/// fits, and otherwise keeps the value's beginning and ends with an ellipsis.
pub proof fn law_truncation(value: Seq<char>, width: nat)
    ensures
        truncated(value, width).len() <= (if width > 1 { width } else { 1 }),
        value.len() <= width ==> truncated(value, width) == value,
        value.len() > width ==> truncated(value, width).last() == '…',
        value.len() > width && width > 1 ==> truncated(value, width).drop_last() == value.take(width - 1),
{
    if value.len() > width && width > 1 {
        assert(value.take(width - 1).push('…').drop_last() =~= value.take(width - 1));
    }
}

/// Whether a path has no two slashes in a row.
pub open spec fn no_double_slash(path: Seq<char>) -> bool {
    forall|i: int| 1 <= i < path.len() ==> !(path[i - 1] == '/' && #[trigger] path[i] == '/')
}

/// The leading slash of a text, if it has one.
pub open spec fn lead_text(s: Seq<char>) -> Seq<char> {
    if s.len() > 0 && s[0] == '/' { seq!['/'] } else { Seq::empty() }
}

proof fn lemma_named_push_slashed(parts: Seq<Seq<char>>, x: Seq<char>)
    ensures
        named_components(parts.push(x), true) == named_components(parts, true).push(x.push('/')),
        named_components(parts.push(x), false) == named_components(parts, true).push(x),
{
    assert(named_components(parts.push(x), true) =~= named_components(parts, true).push(x.push('/')));
    assert(named_components(parts.push(x), false) =~= named_components(parts, true).push(x));
}

proof fn lemma_scan_rebuilds(s: Seq<char>)
    requires
        no_double_slash(s),
    ensures
        lead_text(s) + concat_all(named_components(parts_scan(s).0, true)) + parts_scan(s).1 == s,
        s.len() > 0 && parts_scan(s).1.len() == 0 ==> s.last() == '/',
    decreases s.len(),
{
    if s.len() > 0 {
        let t = s.drop_last();
        assert(no_double_slash(t)) by {
            assert forall|i: int| 1 <= i < t.len() implies !(t[i - 1] == '/' && #[trigger] t[i] == '/') by {
                assert(t[i - 1] == s[i - 1] && t[i] == s[i]);
            }
        }
        lemma_scan_rebuilds(t);
        let prev = parts_scan(t);
        let c = s.last();
        assert(t.push(c) =~= s);
        if t.len() > 0 {
            assert(lead_text(s) == lead_text(t));
        }
        if c == '/' {
            if prev.1.len() > 0 {
                lemma_named_push_slashed(prev.0, prev.1);
                lemma_total_len_push(named_components(prev.0, true), prev.1.push('/'));
                assert(lead_text(s) + concat_all(named_components(prev.0, true)) + prev.1.push('/')
                    =~= lead_text(t) + concat_all(named_components(prev.0, true)) + prev.1 + seq!['/']);
            } else if t.len() > 0 {
                assert(t.last() == '/');
                assert(s[t.len() - 1] == '/' && s[t.len() as int] == '/');
                assert(false);
            } else {
                assert(prev.0.len() == 0);
                assert(named_components(prev.0, true) =~= Seq::<Seq<char>>::empty());
                assert(lead_text(s) + concat_all(named_components(prev.0, true)) + Seq::<char>::empty() =~= s);
            }
        } else {
            if t.len() == 0 {
                assert(prev.0.len() == 0);
                assert(named_components(prev.0, true) =~= Seq::<Seq<char>>::empty());
            }
            assert(lead_text(s) + concat_all(named_components(prev.0, true)) + prev.1.push(c)
                =~= lead_text(t) + concat_all(named_components(prev.0, true)) + prev.1 + seq![c]);
        }
    }
}

/// A path without doubled slashes is exactly its folder components put back together.
pub proof fn law_components_rebuild_path(path: Seq<char>)
    requires
        path.len() > 0,
        no_double_slash(path),
    ensures
        concat_all(folder_components(path)) == path,
{
    if path == seq!['/'] {
        lemma_concat_single(path);
    } else {
        lemma_scan_rebuilds(path);
        let scan = parts_scan(path);
        let trailing = ends_with_slash(path);
        let lead = lead_component(path);
        assert(concat_all(lead) == lead_text(path)) by {
            if lead.len() > 0 {
                lemma_concat_single(seq!['/']);
            }
        }
        let named = named_components(path_parts(path), trailing);
        if scan.1.len() > 0 {
            assert(!trailing);
            lemma_named_push_slashed(scan.0, scan.1);
            lemma_total_len_push(named_components(scan.0, true), scan.1);
            assert(concat_all(named) == concat_all(named_components(scan.0, true)) + scan.1);
        } else {
            assert(trailing);
            assert(path_parts(path) == scan.0);
            assert(concat_all(named) + scan.1 =~= concat_all(named));
        }
        lemma_total_len_append(lead, named);
        assert(concat_all(lead + named) =~= path);
        if (lead + named).len() == 0 {
            lemma_concat_single(path);
        }
    }
}

proof fn lemma_components_nonempty(path: Seq<char>)
    requires
        path.len() > 0,
    ensures
        folder_components(path).len() >= 1,
        total_len(folder_components(path)) > 0,
{
    let c = folder_components(path);
    if path == seq!['/'] {
        assert(c.drop_last() =~= Seq::<Seq<char>>::empty());
        assert(total_len(c) == total_len(c.drop_last()) + 1);
    } else {
        lemma_components_size(path);
        let comps = lead_component(path) + named_components(path_parts(path), ends_with_slash(path));
        if comps.len() == 0 {
            assert(c.drop_last() =~= Seq::<Seq<char>>::empty());
            assert(total_len(c) == total_len(c.drop_last()) + path.len());
        } else {
            assert(c == comps);
            assert(c[0].len() > 0);
            lemma_total_len_positive(c);
        }
    }
}

proof fn lemma_total_len_positive(s: Seq<Seq<char>>)
    requires
        s.len() > 0,
        s[0].len() > 0,
    ensures
        total_len(s) > 0,
    decreases s.len(),
{
    if s.len() > 1 {
        lemma_total_len_positive(s.drop_last());
    } else {
        assert(s.drop_last() =~= Seq::<Seq<char>>::empty());
    }
}

/// Wrapping gives at least one line, and for a non-empty path and a positive
/// width the lines put together are the folder components put together.
pub proof fn law_wrap_keeps_components(path: Seq<char>, width: nat)
    ensures
        wrapped_lines(path, width).len() >= 1,
        path.len() > 0 && width > 0 ==> concat_all(wrapped_lines(path, width)) == concat_all(folder_components(path)),
{
    if path.len() > 0 && width > 0 {
        let comps = folder_components(path);
        let scan = wrap_scan(comps, width);
        lemma_wrap_scan_concat(comps, width);
        lemma_components_nonempty(path);
        lemma_concat_len(comps);
        if scan.1.len() > 0 {
            lemma_total_len_push(scan.0, scan.1);
        } else {
            assert(concat_all(scan.0) + scan.1 =~= concat_all(scan.0));
            if scan.0.len() == 0 {
                assert(concat_all(comps).len() > 0);
                assert(false);
            }
        }
    }
}

/// Wrapping a path without doubled slashes loses and adds nothing: its lines
/// put together are the path.
pub proof fn law_wrap_rebuilds_path(path: Seq<char>, width: nat)
    requires
        path.len() > 0,
        no_double_slash(path),
    ensures
        concat_all(wrapped_lines(path, width)) == path,
{
    if width == 0 {
        lemma_concat_single(path);
    } else {
        law_wrap_keeps_components(path, width);
        law_components_rebuild_path(path);
    }
}

proof fn lemma_wrap_scan_fits(comps: Seq<Seq<char>>, width: nat)
    ensures
        forall|i: int| 0 <= i < wrap_scan(comps, width).0.len() ==>
            (#[trigger] wrap_scan(comps, width).0[i]).len() <= width || comps.contains(wrap_scan(comps, width).0[i]),
        wrap_scan(comps, width).1.len() <= width || comps.contains(wrap_scan(comps, width).1) || wrap_scan(comps, width).1.len() == 0,
    decreases comps.len(),
{
    if comps.len() > 0 {
        let d = comps.drop_last();
        lemma_wrap_scan_fits(d, width);
        let prev = wrap_scan(d, width);
        let c = comps.last();
        assert(comps[comps.len() - 1] == c);
        assert forall|x: Seq<char>| d.contains(x) implies comps.contains(x) by {
            let k = choose|k: int| 0 <= k < d.len() && d[k] == x;
            assert(comps[k] == x);
        }
        if !(prev.1.len() > 0 && prev.1.len() + c.len() > width) && prev.1.len() == 0 {
            assert(prev.1 + c =~= c);
        }
    }
}

/// Each wrapped line fits the width, unless it is a single folder component
/// longer than the width.
pub proof fn law_wrapped_lines_fit(path: Seq<char>, width: nat)
    requires
        path.len() > 0,
        width > 0,
    ensures
        forall|i: int| 0 <= i < wrapped_lines(path, width).len() ==>
            (#[trigger] wrapped_lines(path, width)[i]).len() <= width
                || folder_components(path).contains(wrapped_lines(path, width)[i]),
{
    let comps = folder_components(path);
    lemma_wrap_scan_fits(comps, width);
    law_wrap_keeps_components(path, width);
    let scan = wrap_scan(comps, width);
    if scan.1.len() > 0 {
        let lines = scan.0.push(scan.1);
        assert forall|i: int| 0 <= i < lines.len() implies (#[trigger] lines[i]).len() <= width || comps.contains(lines[i]) by {
            if i < scan.0.len() {
                assert(lines[i] == scan.0[i]);
            }
        }
    }
}


proof fn lemma_components_each_nonempty(path: Seq<char>)
    requires
        path.len() > 0,
    ensures
        forall|i: int| 0 <= i < folder_components(path).len() ==> (#[trigger] folder_components(path)[i]).len() > 0,
{
    if path != seq!['/'] {
        lemma_parts_scan_size(path);
        let scan = parts_scan(path);
        let parts = path_parts(path);
        assert forall|i: int| 0 <= i < parts.len() implies (#[trigger] parts[i]).len() > 0 by {
            if scan.1.len() > 0 && i == scan.0.len() {
                assert(parts[i] == scan.1);
            } else {
                assert(parts[i] == scan.0[i]);
            }
        }
        let lead = lead_component(path);
        let named = named_components(parts, ends_with_slash(path));
        let comps = lead + named;
        assert forall|i: int| 0 <= i < comps.len() implies (#[trigger] comps[i]).len() > 0 by {
            if i < lead.len() {
                assert(comps[i] == seq!['/']);
            } else {
                assert(comps[i] == named[i - lead.len()]);
                assert(parts[i - lead.len()].len() > 0);
            }
        }
    }
}

/// Whether `lines` are the runs of `comps` between consecutive `bounds`, each
/// wider than `width` only when it holds one component, and each but the
/// last followed by a component that would not fit on it.
pub open spec fn component_runs(comps: Seq<Seq<char>>, lines: Seq<Seq<char>>, bounds: Seq<int>, width: nat, last_open: bool) -> bool {
    forall|i: int| 0 <= i < lines.len() ==> #[trigger] component_run(comps, lines, bounds, width, last_open, i)
}

/// Line `i` of `lines` as `component_runs` describes it.
pub open spec fn component_run(comps: Seq<Seq<char>>, lines: Seq<Seq<char>>, bounds: Seq<int>, width: nat, last_open: bool, i: int) -> bool {
    &&& bounds[i] < bounds[i + 1]
    &&& lines[i] == concat_all(comps.subrange(bounds[i], bounds[i + 1]))
    &&& lines[i].len() > width ==> bounds[i + 1] == bounds[i] + 1
    &&& (i + 1 < lines.len() || !last_open) ==> lines[i].len() + comps[bounds[i + 1]].len() > width
}

proof fn lemma_wrap_scan_runs(comps: Seq<Seq<char>>, width: nat) -> (bounds: Seq<int>)
    requires
        forall|i: int| 0 <= i < comps.len() ==> (#[trigger] comps[i]).len() > 0,
    ensures
        bounds.len() == wrap_scan(comps, width).0.len() + 1,
        bounds[0] == 0,
        bounds[wrap_scan(comps, width).0.len() as int] <= comps.len(),
        forall|i: int| 0 <= i <= wrap_scan(comps, width).0.len() ==> 0 <= #[trigger] bounds[i] <= bounds[wrap_scan(comps, width).0.len() as int],
        wrap_scan(comps, width).0.len() > 0 ==> bounds[wrap_scan(comps, width).0.len() as int] < comps.len(),
        wrap_scan(comps, width).1 == concat_all(comps.subrange(bounds[wrap_scan(comps, width).0.len() as int], comps.len() as int)),
        wrap_scan(comps, width).1.len() == 0 <==> bounds[wrap_scan(comps, width).0.len() as int] == comps.len(),
        wrap_scan(comps, width).1.len() > width ==> bounds[wrap_scan(comps, width).0.len() as int] + 1 == comps.len(),
        component_runs(comps, wrap_scan(comps, width).0, bounds, width, false),
    decreases comps.len(),
{
    if comps.len() == 0 {
        let b = seq![0int];
        assert(comps.subrange(0, 0) =~= Seq::<Seq<char>>::empty());
        b
    } else {
        let n = comps.len() as int;
        let d = comps.drop_last();
        let c = comps.last();
        assert(forall|i: int| 0 <= i < d.len() ==> #[trigger] d[i] == comps[i]);
        let bd = lemma_wrap_scan_runs(d, width);
        let prev = wrap_scan(d, width);
        let m = prev.0.len();
        let bl = bd[m as int];
        assert(c.len() > 0) by {
            assert(comps[n - 1] == c);
        }
        assert forall|a: int, b: int| 0 <= a <= b <= n - 1 implies #[trigger] comps.subrange(a, b) =~= d.subrange(a, b) by {}
        if prev.1.len() > 0 && prev.1.len() + c.len() > width {
            let b = bd.push(n - 1);
            assert forall|i: int| 0 <= i <= m + 1 implies 0 <= #[trigger] b[i] <= b[(m + 1) as int] by {
                if i <= m {
                    assert(b[i] == bd[i]);
                }
            }
            assert(comps.subrange(n - 1, n) =~= seq![c]);
            lemma_concat_single(c);
            let done = prev.0.push(prev.1);
            assert(wrap_scan(comps, width).0 == done);
            assert(component_runs(d, prev.0, bd, width, false));
            assert forall|i: int| 0 <= i < m + 1 implies #[trigger] component_run(comps, done, b, width, false, i) by {
                if i < m {
                    assert(component_run(d, prev.0, bd, width, false, i));
                    assert(done[i] == prev.0[i]);
                    assert(b[i] == bd[i] && b[i + 1] == bd[i + 1]);
                    assert(0 <= bd[i] && bd[i + 1] <= bd[m as int]);
                    assert(comps.subrange(bd[i], bd[i + 1]) =~= d.subrange(bd[i], bd[i + 1]));
                    assert(bd[i + 1] < d.len());
                    assert(comps[bd[i + 1]] == d[bd[i + 1]]);
                } else {
                    assert(done[i] == prev.1);
                    assert(b[i] == bl && b[i + 1] == n - 1);
                    assert(comps.subrange(bl, n - 1) =~= d.subrange(bl, n - 1));
                    assert(comps[n - 1] == c);
                }
            }
            assert(component_runs(comps, done, b, width, false));
            b
        } else {
            let b = bd;
            assert(wrap_scan(comps, width).0 == prev.0);
            assert(component_runs(d, prev.0, bd, width, false));
            assert(0 <= bd[0] <= bl);
            assert(comps.subrange(bl, n) =~= d.subrange(bl, n - 1).push(c));
            lemma_total_len_push(d.subrange(bl, n - 1), c);
            assert forall|i: int| 0 <= i < m implies #[trigger] component_run(comps, prev.0, b, width, false, i) by {
                assert(component_run(d, prev.0, bd, width, false, i));
                assert(0 <= bd[i] && bd[i + 1] <= bd[m as int]);
                assert(comps.subrange(bd[i], bd[i + 1]) =~= d.subrange(bd[i], bd[i + 1]));
                assert(bd[i + 1] < d.len());
                assert(comps[bd[i + 1]] == d[bd[i + 1]]);
            }
            b
        }
    }
}

/// Each wrapped line of a path is a run of whole folder components, taken in
/// order: the runs follow one another from the first component to the last.
/// A line wider than `width` holds a single component, and each line but the
/// last is followed by a component that would not have fit on it.
pub proof fn law_wrap_lines_are_component_runs(path: Seq<char>, width: nat) -> (bounds: Seq<int>)
    requires
        path.len() > 0,
        width > 0,
    ensures
        bounds.len() == wrapped_lines(path, width).len() + 1,
        bounds[0] == 0,
        bounds[wrapped_lines(path, width).len() as int] == folder_components(path).len(),
        component_runs(folder_components(path), wrapped_lines(path, width), bounds, width, true),
{
    let comps = folder_components(path);
    lemma_components_each_nonempty(path);
    lemma_components_nonempty(path);
    let bd = lemma_wrap_scan_runs(comps, width);
    let scan = wrap_scan(comps, width);
    let m = scan.0.len();
    let lines = wrapped_lines(path, width);
    if scan.1.len() > 0 {
        let b = bd.push(comps.len() as int);
        assert(lines == scan.0.push(scan.1));
        assert forall|i: int| 0 <= i < lines.len() implies #[trigger] component_run(comps, lines, b, width, true, i) by {
            if i < m {
                assert(component_run(comps, scan.0, bd, width, false, i));
                assert(lines[i] == scan.0[i]);
                assert(b[i] == bd[i] && b[i + 1] == bd[i + 1]);
            } else {
                assert(lines[i] == scan.1);
            }
        }
        b
    } else {
        assert(m > 0);
        assert(lines == scan.0);
        assert forall|i: int| 0 <= i < lines.len() implies #[trigger] component_run(comps, lines, bd, width, true, i) by {
            assert(component_run(comps, scan.0, bd, width, false, i));
        }
        bd
    }
}

} // verus!
