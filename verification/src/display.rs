//! The table renderers: the Unicode table and the three ASCII formats.

use vstd::prelude::*;
use crate::layout::{
    Frame, RowStyle, cells_with, framed_line, push_framed_line, push_rule, push_wrapped_row, rule_line, texts,
    truncate_to_width, truncated, unicode_column, unicode_header, wrapped_row,
};
use crate::path::{
    lemma_modified_text_escape_free, lemma_modified_text_len, lemma_size_text_escape_free, lemma_size_text_len,
    EntryType, PathEntry, clock_now, entry_label, modified_text, push_modified, push_size_number, size_number,
    size_text, size_unit, format_size,
};
use crate::layout::{
    all_escape_free, lemma_aligned_escape_free, lemma_framed_line_escape_free, lemma_rule_line_escape_free,
    lemma_truncated_escape_free, lemma_wrapped_lines_escape_free, lemma_wrapped_row_escape_free,
};
use crate::layout::{Alignment, aligned, padding, column_alignment, law_truncation, line_cells, wrapped_block, ends_with_slash, framed_cells, law_aligned_width, rule_runs, push_aligned, push_styled_cell, styled_cell, wrap_chars, wrapped_lines};
use crate::terminal::{Paint, painted, push_painted};
use crate::text::{byte_len, lemma_byte_len_bounds, push_repeat, repeat, text_byte_len};
use crate::terminal::{Style, TerminalCapabilities, TerminalEnvironment, capabilities_of};
use crate::text::{
    has_char, escape_free, lemma_decimal_escape_free, lemma_escape_free_add, lemma_escape_free_parts, lemma_escape_free_push,
};
use crate::text::{chars_of, decimal, lemma_decimal_len_u128, push_decimal, push_text, text_string};

verus! {

/// The ASCII layouts.
#[derive(Clone, Copy, Debug, PartialEq, Eq, Structural)]
pub enum AsciiFormat {
    Compact,
    Narrow,
    Minimal,
}

/// How the table is drawn.
#[derive(Debug)]
pub struct DisplayConfig {
    pub style: Style,
    pub use_unicode: bool,
    pub ascii_format: AsciiFormat,
    pub terminal_width: Option<usize>,
    pub long_paths: bool,
    pub folder_wrap: bool,
}

/// The ASCII format that suits a terminal: minimal for a non-terminal or a
/// dumb terminal and under 60 columns, narrow under 100 columns, else compact.
pub open spec fn auto_format(caps: TerminalCapabilities) -> AsciiFormat {
    if !caps.is_tty || caps.is_dumb {
        AsciiFormat::Minimal
    } else {
        match caps.width {
            Some(w) => if w < 60 { AsciiFormat::Minimal } else if w < 100 { AsciiFormat::Narrow } else { AsciiFormat::Compact },
            None => AsciiFormat::Compact,
        }
    }
}

/// The configuration for detected capabilities and the user's choices.
pub open spec fn config_for(
    caps: TerminalCapabilities,
    ascii_format: Option<AsciiFormat>,
    monochrome: bool,
    long_paths: bool,
    folder_wrap: bool,
) -> DisplayConfig {
    let force_ascii = ascii_format is Some;
    let format = match ascii_format { Some(f) => f, None => auto_format(caps) };
    let use_unicode = caps.use_unicode && !force_ascii && match caps.width { Some(w) => w >= 100, None => true };
    let colors = if monochrome || format == AsciiFormat::Minimal {
        false
    } else if use_unicode || format != AsciiFormat::Minimal {
        caps.use_colors
    } else {
        false
    };
    DisplayConfig {
        style: Style { use_colors: colors },
        use_unicode,
        ascii_format: format,
        terminal_width: match caps.width { Some(w) => Some(w as usize), None => None },
        long_paths,
        folder_wrap,
    }
}

fn auto_ascii_format(caps: &TerminalCapabilities) -> (f: AsciiFormat)
    ensures
        f == auto_format(*caps),
{
    if !caps.is_tty || caps.is_dumb {
        return AsciiFormat::Minimal;
    }
    match caps.width {
        Some(width) => {
            if width < 60 {
                AsciiFormat::Minimal
            } else if width < 100 {
                AsciiFormat::Narrow
            } else {
                AsciiFormat::Compact
            }
        },
        None => AsciiFormat::Compact,
    }
}

impl DisplayConfig {
    /// The configuration for the terminal that `env` describes and the user's choices.
    pub fn new(
        env: &TerminalEnvironment,
        ascii_format: Option<AsciiFormat>,
        monochrome: bool,
        long_paths: bool,
        folder_wrap: bool,
    ) -> (c: DisplayConfig)
        ensures
            c == config_for(capabilities_of(*env), ascii_format, monochrome, long_paths, folder_wrap),
    {
        let caps = TerminalCapabilities::from_environment(env);
        Self::from_capabilities(caps, ascii_format, monochrome, long_paths, folder_wrap)
    }

    /// The configuration for given capabilities: an explicit ASCII format
    /// forces ASCII output; otherwise Unicode is used when the terminal supports
    /// it and is at least 100 columns wide (or of unknown width).
    pub fn from_capabilities(
        caps: TerminalCapabilities,
        ascii_format: Option<AsciiFormat>,
        monochrome: bool,
        long_paths: bool,
        folder_wrap: bool,
    ) -> (c: DisplayConfig)
        ensures
            c == config_for(caps, ascii_format, monochrome, long_paths, folder_wrap),
    {
        let force_ascii = ascii_format.is_some();
        let format = match ascii_format {
            Some(f) => f,
            None => auto_ascii_format(&caps),
        };
        let wide = match caps.width {
            Some(w) => w >= 100,
            None => true,
        };
        let use_unicode = caps.use_unicode && !force_ascii && wide;
        let style = if monochrome || format == AsciiFormat::Minimal {
            Style::plain()
        } else if use_unicode || format != AsciiFormat::Minimal {
            caps.style()
        } else {
            Style::plain()
        };
        let terminal_width = match caps.width {
            Some(w) => Some(w as usize),
            None => None,
        };
        DisplayConfig { style, use_unicode, ascii_format: format, terminal_width, long_paths, folder_wrap }
    }

    /// Whether the summary follows the table: always but for plain minimal output.
    pub fn should_print_summary(&self) -> (b: bool)
        ensures
            b == (self.use_unicode || self.ascii_format != AsciiFormat::Minimal),
    {
        self.use_unicode || self.ascii_format != AsciiFormat::Minimal
    }
}

// ---------------------------------------------------------------------------
// Rows
// ---------------------------------------------------------------------------

/// An entry shows a problem when it is missing, a duplicate, or a directory
/// without executables.
pub open spec fn row_problem(e: PathEntry) -> bool {
    !e.exists || e.duplicate || (e.entry_type == EntryType::Directory && e.executable_count == 0)
}

fn row_has_problem(e: &PathEntry) -> (b: bool)
    ensures
        b == row_problem(*e),
{
    !e.exists || e.duplicate || (e.entry_type == EntryType::Directory && e.executable_count == 0)
}

/// Paths that the renderers accept: short enough that every width and sum
/// of widths fits in a machine word.
pub open spec fn entry_fits(e: PathEntry) -> bool {
    e.path@.len() < usize::MAX / 64
}

/// Whether every entry fits the renderers (see `entry_fits`).
pub open spec fn entries_fit(entries: Seq<PathEntry>) -> bool {
    forall|i: int| 0 <= i < entries.len() ==> entry_fits(#[trigger] entries[i])
}

/// The cells of an entry in the Unicode table: number, `Y`/`N`, path, type,
/// executables, other files, size, age and `YES` for duplicates.
pub open spec fn unicode_cells(e: PathEntry, now: int) -> Seq<Seq<char>> {
    seq![
        decimal(e.index as nat),
        if e.exists { "Y"@ } else { "N"@ },
        e.path@,
        entry_label(e.entry_type),
        decimal(e.executable_count as nat),
        decimal(e.non_executable_count as nat),
        size_text(e.size_bytes as nat),
        modified_text(e.modified, now, false),
        if e.duplicate { "YES"@ } else { Seq::<char>::empty() },
    ]
}

pub(crate) struct UnicodeRow {
    pub(crate) cells: Vec<Vec<char>>,
    pub(crate) problem: bool,
}

pub(crate) fn unicode_row(e: &PathEntry, now: i128) -> (r: UnicodeRow)
    ensures
        texts(r.cells@) == unicode_cells(*e, now as int),
        r.problem == row_problem(*e),
        forall|c: int| 0 <= c < 9 && c != 2 ==> #[trigger] r.cells@[c]@.len() <= 64,
{
    proof {
        reveal_strlit("Y");
        reveal_strlit("N");
        reveal_strlit("YES");
        lemma_decimal_len_u128(e.index as nat);
        lemma_decimal_len_u128(e.executable_count as nat);
        lemma_decimal_len_u128(e.non_executable_count as nat);
    }
    let mut cells: Vec<Vec<char>> = Vec::new();
    let mut index: Vec<char> = Vec::new();
    push_decimal(&mut index, e.index as u128);
    cells.push(index);
    cells.push(if e.exists { chars_of("Y") } else { chars_of("N") });
    cells.push(chars_of(e.path.as_str()));
    cells.push(chars_of(e.entry_type.label()));
    let mut bins: Vec<char> = Vec::new();
    push_decimal(&mut bins, e.executable_count as u128);
    cells.push(bins);
    let mut others: Vec<char> = Vec::new();
    push_decimal(&mut others, e.non_executable_count as u128);
    cells.push(others);
    let size = format_size(e.size_bytes);
    cells.push(chars_of(size.as_str()));
    let mut modified: Vec<char> = Vec::new();
    push_modified(&mut modified, e.modified, now, false);
    cells.push(modified);
    cells.push(if e.duplicate { chars_of("YES") } else { Vec::new() });
    let r = UnicodeRow { cells, problem: row_has_problem(e) };
    assert(texts(r.cells@) =~= unicode_cells(*e, now as int));
    r
}

// ---------------------------------------------------------------------------
// Unicode widths
// ---------------------------------------------------------------------------

/// The widths of the Unicode headers.
pub open spec fn header_widths() -> Seq<usize> {
    Seq::new(9, |i: int| unicode_header(i).len() as usize)
}

/// Widths grown to fit a row's cells.
pub open spec fn grown_widths(w: Seq<usize>, cells: Seq<Seq<char>>) -> Seq<usize> {
    Seq::new(w.len(), |i: int| if cells[i].len() > w[i] { cells[i].len() as usize } else { w[i] })
}

/// The widest header or cell of each column.
pub open spec fn content_widths(rows: Seq<Seq<Seq<char>>>) -> Seq<usize>
    decreases rows.len(),
{
    if rows.len() == 0 {
        header_widths()
    } else {
        grown_widths(content_widths(rows.drop_last()), rows.last())
    }
}

/// The sum of column widths.
pub open spec fn width_sum(w: Seq<usize>) -> nat
    decreases w.len(),
{
    if w.len() == 0 { 0 } else { width_sum(w.drop_last()) + (w.last() as nat) }
}

/// The width of a bordered table with these column widths.
pub open spec fn table_width(w: Seq<usize>) -> nat {
    width_sum(w) + 3 * w.len() + 1
}

/// Column widths after fitting the table to the terminal (120 columns when
/// unknown): unless long paths are kept whole without wrapping, a too wide
/// table narrows its path column by the excess, down to 16 at least, when
/// that column is wider than 16.
pub open spec fn capped_widths(w: Seq<usize>, terminal_width: Option<usize>, long_paths: bool, folder_wrap: bool) -> Seq<usize> {
    if !long_paths || folder_wrap {
        let target: nat = match terminal_width { Some(t) => t as nat, None => 120 };
        let tw = table_width(w);
        if tw > target && w[2] > 16 {
            let excess = (tw - target) as nat;
            let reduced: nat = if w[2] > excess { (w[2] - excess) as nat } else { 0 };
            w.update(2, (if reduced > 16 { reduced } else { 16 }) as usize)
        } else {
            w
        }
    } else {
        w
    }
}

/// The cells of each entry in the Unicode table.
pub open spec fn unicode_rows(entries: Seq<PathEntry>, now: int) -> Seq<Seq<Seq<char>>> {
    Seq::new(entries.len(), |i: int| unicode_cells(entries[i], now))
}

/// The column widths of the Unicode table: the widest cell of each column, fitted to the terminal.
pub open spec fn unicode_widths(entries: Seq<PathEntry>, config: DisplayConfig, now: int) -> Seq<usize> {
    capped_widths(content_widths(unicode_rows(entries, now)), config.terminal_width, config.long_paths, config.folder_wrap)
}

proof fn lemma_width_sum_bound(w: Seq<usize>, big: nat, k: int)
    requires
        w.len() == 9,
        0 <= k <= 9,
        forall|i: int| 0 <= i < 9 && i != 2 ==> #[trigger] w[i] <= 64,
        w[2] <= big,
    ensures
        width_sum(w.take(k)) <= (if k > 2 { big } else { 0 }) + 64 * k,
    decreases k,
{
    if k > 0 {
        lemma_width_sum_bound(w, big, k - 1);
        assert(w.take(k).drop_last() =~= w.take(k - 1));
        assert(w.take(k).last() == w[k - 1]);
    }
}

fn sum_widths(w: &Vec<usize>) -> (s: usize)
    requires
        w.len() == 9,
        forall|i: int| 0 <= i < 9 && i != 2 ==> #[trigger] w@[i] <= 64,
        w@[2] < usize::MAX / 64 + 64,
    ensures
        s == width_sum(w@),
        s <= usize::MAX / 64 + 64 + 9 * 64,
{
    proof {
        lemma_width_sum_bound(w@, (usize::MAX / 64 + 64) as nat, 9);
        assert(w@.take(9) =~= w@);
    }
    let mut total: usize = 0;
    let mut i: usize = 0;
    while i < 9
        invariant
            i <= 9,
            w.len() == 9,
            total == width_sum(w@.take(i as int)),
            width_sum(w@) <= usize::MAX / 64 + 64 + 9 * 64,
        decreases 9 - i,
    {
        proof {
            assert(w@.take(i + 1).drop_last() =~= w@.take(i as int));
            lemma_width_sum_prefix(w@, i + 1);
        }
        total = total + w[i];
        i = i + 1;
    }
    assert(w@.take(9) =~= w@);
    total
}

proof fn lemma_width_sum_prefix(w: Seq<usize>, k: int)
    requires
        0 <= k <= w.len(),
    ensures
        width_sum(w.take(k)) <= width_sum(w),
    decreases w.len() - k,
{
    if k < w.len() {
        lemma_width_sum_prefix(w, k + 1);
        assert(w.take(k + 1).drop_last() =~= w.take(k));
    } else {
        assert(w.take(k) =~= w);
    }
}

fn unicode_column_widths(rows: &Vec<UnicodeRow>, terminal_width: Option<usize>, long_paths: bool, folder_wrap: bool) -> (w: Vec<usize>)
    requires
        forall|r: int| 0 <= r < rows.len() ==> (#[trigger] rows@[r]).cells@.len() == 9,
        forall|r: int, c: int| 0 <= r < rows.len() && 0 <= c < 9 && c != 2 ==> (#[trigger] rows@[r].cells@[c])@.len() <= 64,
        forall|r: int| 0 <= r < rows.len() ==> (#[trigger] rows@[r]).cells@[2]@.len() < usize::MAX / 64,
    ensures
        w@ == capped_widths(content_widths(Seq::new(rows@.len(), |r: int| texts(rows@[r].cells@))), terminal_width, long_paths, folder_wrap),
        w.len() == 9,
        forall|i: int| 0 <= i < 9 && i != 2 ==> #[trigger] w@[i] <= 64,
        w@[2] < usize::MAX / 64 + 64,
{
    let ghost all = Seq::new(rows@.len(), |r: int| texts(rows@[r].cells@));
    let mut w: Vec<usize> = Vec::new();
    let mut c: usize = 0;
    while c < 9
        invariant
            c <= 9,
            w@ =~= header_widths().take(c as int),
            forall|i: int| 0 <= i < c ==> #[trigger] w@[i] <= 8,
        decreases 9 - c,
    {
        let h = chars_of(unicode_column(c).header);
        proof {
            reveal_strlit("#");
            reveal_strlit("OK");
            reveal_strlit("PATH");
            reveal_strlit("TYPE");
            reveal_strlit("BIN");
            reveal_strlit("!BIN");
            reveal_strlit("SIZE");
            reveal_strlit("MODIFIED");
            reveal_strlit("DUP");
        }
        w.push(h.len());
        c = c + 1;
    }
    assert(all.take(0) =~= Seq::<Seq<Seq<char>>>::empty());
    let mut r: usize = 0;
    while r < rows.len()
        invariant
            r <= rows.len(),
            w.len() == 9,
            all == Seq::new(rows@.len(), |r: int| texts(rows@[r].cells@)),
            w@ =~= content_widths(all.take(r as int)),
            forall|i: int| 0 <= i < 9 && i != 2 ==> #[trigger] w@[i] <= 64,
            w@[2] < usize::MAX / 64 + 64,
            forall|r: int| 0 <= r < rows.len() ==> (#[trigger] rows@[r]).cells@.len() == 9,
            forall|r: int, c: int| 0 <= r < rows.len() && 0 <= c < 9 && c != 2 ==> (#[trigger] rows@[r].cells@[c])@.len() <= 64,
            forall|r: int| 0 <= r < rows.len() ==> (#[trigger] rows@[r]).cells@[2]@.len() < usize::MAX / 64,
        decreases rows.len() - r,
    {
        let row = &rows[r];
        let ghost before = w@;
        let mut i: usize = 0;
        while i < 9
            invariant
                i <= 9,
                w.len() == 9,
                row.cells@.len() == 9,
                forall|c: int| 0 <= c < 9 && c != 2 ==> (#[trigger] row.cells@[c])@.len() <= 64,
                row.cells@[2]@.len() < usize::MAX / 64,
                forall|k: int| 0 <= k < i ==> #[trigger] w@[k] == (if row.cells@[k]@.len() > before[k] { row.cells@[k]@.len() as usize } else { before[k] }),
                forall|k: int| i <= k < 9 ==> #[trigger] w@[k] == before[k],
                forall|k: int| 0 <= k < 9 && k != 2 ==> #[trigger] before[k] <= 64,
                before[2] < usize::MAX / 64 + 64,
            decreases 9 - i,
        {
            let n = row.cells[i].len();
            if n > w[i] {
                w.set(i, n);
            }
            i = i + 1;
        }
        proof {
            assert(all.take(r + 1).drop_last() =~= all.take(r as int));
            assert(all.take(r + 1).last() == texts(row.cells@));
            assert forall|k: int| 0 <= k < 9 implies #[trigger] texts(row.cells@)[k] == row.cells@[k]@ by {}
            assert(w@ =~= grown_widths(before, texts(row.cells@)));
        }
        r = r + 1;
    }
    assert(all.take(rows.len() as int) =~= all);
    let ghost content = w@;
    if !long_paths || folder_wrap {
        let target: usize = match terminal_width {
            Some(t) => t,
            None => 120,
        };
        let table_width = sum_widths(&w) + 9 * 3 + 1;
        if table_width > target && w[2] > 16 {
            let excess = table_width - target;
            let reduced = if w[2] > excess { w[2] - excess } else { 0 };
            let capped = if reduced > 16 { reduced } else { 16 };
            w.set(2, capped);
        }
    }
    assert(w@ =~= capped_widths(content, terminal_width, long_paths, folder_wrap));
    w
}

// ---------------------------------------------------------------------------
// The Unicode table
// ---------------------------------------------------------------------------

/// The text without its last character (what `String::pop` leaves).
pub open spec fn drop_last_char(s: Seq<char>) -> Seq<char> {
    if s.len() > 0 { s.drop_last() } else { s }
}

/// The header cells of the Unicode table.
pub open spec fn unicode_headers() -> Seq<Seq<char>> {
    Seq::new(9, |i: int| unicode_header(i))
}

/// The lines of one entry in the Unicode table: wrapped at folder boundaries
/// with folder wrapping, else one line whose path is cut to its column
/// unless long paths are kept.
pub open spec fn unicode_row_text(cells: Seq<Seq<char>>, problem: bool, widths: Seq<usize>, config: DisplayConfig) -> Seq<char> {
    if config.folder_wrap {
        wrapped_row(Frame::Unicode, cells, 2, widths, config.style.use_colors, problem)
    } else {
        let shown = if !config.long_paths { cells.update(2, truncated(cells[2], widths[2] as nat)) } else { cells };
        framed_line(Frame::Unicode, shown, widths, config.style.use_colors, RowStyle::Data { problem })
    }
}

/// The lines of the first `k` entries.
pub open spec fn unicode_body(entries: Seq<PathEntry>, now: int, widths: Seq<usize>, config: DisplayConfig, k: nat) -> Seq<char>
    decreases k,
{
    if k == 0 {
        Seq::empty()
    } else {
        unicode_body(entries, now, widths, config, (k - 1) as nat)
            + unicode_row_text(unicode_cells(entries[k - 1], now), row_problem(entries[k - 1]), widths, config)
    }
}

/// The Unicode table: a rounded top rule, the headers, a rule, the entries
/// and a rounded bottom rule, without the final line break.
pub open spec fn unicode_table(entries: Seq<PathEntry>, config: DisplayConfig, now: int) -> Seq<char> {
    let widths = unicode_widths(entries, config, now);
    let colors = config.style.use_colors;
    drop_last_char(
        rule_line(widths, '─', '╭', '┬', '╮')
            + framed_line(Frame::Unicode, unicode_headers(), widths, colors, RowStyle::Header)
            + rule_line(widths, '─', '├', '┼', '┤')
            + unicode_body(entries, now, widths, config, entries.len())
            + rule_line(widths, '─', '╰', '┴', '╯')
    )
}

fn render_unicode_table(entries: &[PathEntry], config: &DisplayConfig, now: i128) -> (r: Vec<char>)
    requires
        entries_fit(entries@),
    ensures
        r@ == unicode_table(entries@, *config, now as int),
{
    let mut rows: Vec<UnicodeRow> = Vec::new();
    let mut i: usize = 0;
    while i < entries.len()
        invariant
            i <= entries.len(),
            entries_fit(entries@),
            rows.len() == i,
            forall|r: int| 0 <= r < i ==> texts((#[trigger] rows@[r]).cells@) == unicode_cells(entries@[r], now as int),
            forall|r: int| 0 <= r < i ==> (#[trigger] rows@[r]).problem == row_problem(entries@[r]),
            forall|r: int, c: int| 0 <= r < i && 0 <= c < 9 && c != 2 ==> (#[trigger] rows@[r].cells@[c])@.len() <= 64,
        decreases entries.len() - i,
    {
        let row = unicode_row(&entries[i], now);
        rows.push(row);
        i = i + 1;
    }
    proof {
        assert forall|r: int| 0 <= r < rows.len() implies (#[trigger] rows@[r]).cells@.len() == 9 by {
            assert(texts(rows@[r].cells@).len() == 9);
        }
        assert forall|r: int| 0 <= r < rows.len() implies (#[trigger] rows@[r]).cells@[2]@.len() < usize::MAX / 64 by {
            assert(texts(rows@[r].cells@)[2] == rows@[r].cells@[2]@);
            assert(entry_fits(entries@[r]));
        }
        assert(Seq::new(rows@.len(), |r: int| texts(rows@[r].cells@)) =~= unicode_rows(entries@, now as int));
    }
    let widths = unicode_column_widths(&rows, config.terminal_width, config.long_paths, config.folder_wrap);
    let ghost ws = widths@;
    assert(ws == unicode_widths(entries@, *config, now as int));
    let colors = config.style.use_colors;
    let mut headers: Vec<Vec<char>> = Vec::new();
    let mut c: usize = 0;
    while c < 9
        invariant
            c <= 9,
            texts(headers@) =~= unicode_headers().take(c as int),
        decreases 9 - c,
    {
        let h = chars_of(unicode_column(c).header);
        let ghost before = texts(headers@);
        headers.push(h);
        proof {
            assert(unicode_headers().take(c + 1) =~= unicode_headers().take(c as int).push(unicode_header(c as int)));
            assert(texts(headers@) =~= before.push(h@));
        }
        c = c + 1;
    }
    assert(unicode_headers().take(9) =~= unicode_headers());
    let mut out: Vec<char> = Vec::new();
    push_rule(&mut out, &widths, '─', '╭', '┬', '╮');
    push_framed_line(&mut out, Frame::Unicode, &headers, &widths, colors, RowStyle::Header);
    push_rule(&mut out, &widths, '─', '├', '┼', '┤');
    let ghost top = out@;
    let mut k: usize = 0;
    while k < rows.len()
        invariant
            k <= rows.len(),
            rows.len() == entries.len(),
            widths.len() == 9,
            widths@ == ws,
            colors == config.style.use_colors,
            forall|r: int| 0 <= r < rows.len() ==> texts((#[trigger] rows@[r]).cells@) == unicode_cells(entries@[r], now as int),
            forall|r: int| 0 <= r < rows.len() ==> (#[trigger] rows@[r]).problem == row_problem(entries@[r]),
            out@ =~= top + unicode_body(entries@, now as int, ws, *config, k as nat),
        decreases rows.len() - k,
    {
        let row = &rows[k];
        assert(texts(row.cells@) == unicode_cells(entries@[k as int], now as int));
        assert(row.cells@.len() == 9);
        if config.folder_wrap {
            push_wrapped_row(&mut out, Frame::Unicode, &row.cells, 2, &widths, colors, row.problem);
        } else if !config.long_paths {
            let cut = truncate_to_width(&row.cells[2], widths[2]);
            let shown = cells_with(&row.cells, 2, &cut, false);
            assert(row.cells@[2]@ == texts(row.cells@)[2]);
            assert(texts(shown@).len() == 9);
            push_framed_line(&mut out, Frame::Unicode, &shown, &widths, colors, RowStyle::Data { problem: row.problem });
        } else {
            push_framed_line(&mut out, Frame::Unicode, &row.cells, &widths, colors, RowStyle::Data { problem: row.problem });
        }
        k = k + 1;
    }
    push_rule(&mut out, &widths, '─', '╰', '┴', '╯');
    out.pop();
    out
}

// ---------------------------------------------------------------------------
// ASCII rows
// ---------------------------------------------------------------------------

/// The texts of an entry in the ASCII formats.
#[derive(Debug)]
pub struct DisplayRow {
    pub index: String,
    pub name: String,
    pub size: String,
    pub minimal_size: String,
    pub modified: String,
    pub problem: bool,
}

/// The texts of an ASCII row.
pub struct DisplayRowView {
    pub index: Seq<char>,
    pub name: Seq<char>,
    pub size: Seq<char>,
    pub minimal_size: Seq<char>,
    pub modified: Seq<char>,
    pub problem: bool,
}

impl View for DisplayRow {
    type V = DisplayRowView;

    open spec fn view(&self) -> DisplayRowView {
        DisplayRowView {
            index: self.index@,
            name: self.name@,
            size: self.size@,
            minimal_size: self.minimal_size@,
            modified: self.modified@,
            problem: self.problem,
        }
    }
}

/// The texts of ASCII rows.
pub open spec fn row_views(rows: Seq<DisplayRow>) -> Seq<DisplayRowView> {
    rows.map_values(|r: DisplayRow| r@)
}

/// The name of an entry: its path, with a slash added to a directory that lacks one.
pub open spec fn ascii_name(e: PathEntry) -> Seq<char> {
    if e.entry_type == EntryType::Directory && !ends_with_slash(e.path@) { e.path@.push('/') } else { e.path@ }
}

/// Unit names of the ASCII formats.
pub open spec fn ascii_unit_name(k: nat) -> Seq<char> {
    if k == 0 { "B"@ } else if k == 1 { "kB"@ } else if k == 2 { "MB"@ } else if k == 3 { "GB"@ } else { "TB"@ }
}

/// A size in the ASCII formats: the number, a space when `spaced`, the unit.
pub open spec fn ascii_size_text(bytes: nat, spaced: bool) -> Seq<char> {
    size_number(bytes) + (if spaced { seq![' '] } else { Seq::<char>::empty() }) + ascii_unit_name(size_unit(bytes))
}

/// The texts of an entry in the ASCII formats.
pub open spec fn ascii_row(e: PathEntry, now: int) -> DisplayRowView {
    DisplayRowView {
        index: decimal(e.index as nat),
        name: ascii_name(e),
        size: ascii_size_text(e.size_bytes as nat, true),
        minimal_size: ascii_size_text(e.size_bytes as nat, false),
        modified: modified_text(e.modified, now, true),
        problem: row_problem(e),
    }
}

/// The row of an entry in the ASCII formats.
pub open spec fn display_row_of(r: DisplayRowView, e: PathEntry, now: int) -> bool {
    &&& r.index == decimal(e.index as nat)
    &&& r.name == ascii_name(e)
    &&& r.size == ascii_size_text(e.size_bytes as nat, true)
    &&& r.minimal_size == ascii_size_text(e.size_bytes as nat, false)
    &&& r.modified == modified_text(e.modified, now, true)
    &&& r.problem == row_problem(e)
}

/// Rows that the ASCII renderers accept: every text short enough that its
/// byte length and sums of widths fit in a machine word.
pub open spec fn row_fits(r: DisplayRowView) -> bool {
    &&& r.index.len() <= usize::MAX / 64
    &&& r.name.len() <= usize::MAX / 64
    &&& r.size.len() <= usize::MAX / 64
    &&& r.minimal_size.len() <= usize::MAX / 64
    &&& r.modified.len() <= usize::MAX / 64
}

/// Whether every row fits the renderers (see `row_fits`).
pub open spec fn rows_fit(rows: Seq<DisplayRowView>) -> bool {
    forall|i: int| 0 <= i < rows.len() ==> row_fits(#[trigger] rows[i])
}

fn format_ascii_name(e: &PathEntry) -> (r: Vec<char>)
    ensures
        r@ == ascii_name(*e),
{
    let mut name = chars_of(e.path.as_str());
    let ends = name.len() > 0 && name[name.len() - 1] == '/';
    if e.entry_type == EntryType::Directory && !ends {
        name.push('/');
    }
    name
}

fn format_ascii_size(bytes: u64, include_unit_space: bool) -> (r: Vec<char>)
    ensures
        r@ == ascii_size_text(bytes as nat, include_unit_space),
        r@.len() <= 44,
{
    let mut out: Vec<char> = Vec::new();
    let k = push_size_number(&mut out, bytes);
    if include_unit_space {
        out.push(' ');
    }
    let unit = if k == 0 { "B" } else if k == 1 { "kB" } else if k == 2 { "MB" } else if k == 3 { "GB" } else { "TB" };
    let u = chars_of(unit);
    proof {
        reveal_strlit("B");
        reveal_strlit("kB");
        reveal_strlit("MB");
        reveal_strlit("GB");
        reveal_strlit("TB");
    }
    push_text(&mut out, &u);
    assert(out@ =~= ascii_size_text(bytes as nat, include_unit_space));
    out
}

fn format_ascii_modified(modified: Option<i128>, now: i128) -> (r: Vec<char>)
    ensures
        r@ == modified_text(modified, now as int, true),
        r@.len() <= 56,
{
    let mut out: Vec<char> = Vec::new();
    push_modified(&mut out, modified, now, true);
    assert(out@ =~= modified_text(modified, now as int, true));
    out
}

/// The rows of the ASCII formats for the entries, at the instant `now`
/// (nanoseconds since the Unix epoch).
pub fn collect_display_rows(entries: &[PathEntry], now: i128) -> (rows: Vec<DisplayRow>)
    requires
        entries_fit(entries@),
    ensures
        rows.len() == entries.len(),
        forall|i: int| 0 <= i < entries.len() ==> display_row_of(#[trigger] rows@[i]@, entries@[i], now as int),
        rows_fit(row_views(rows@)),
{
    let mut rows: Vec<DisplayRow> = Vec::new();
    let mut i: usize = 0;
    while i < entries.len()
        invariant
            i <= entries.len(),
            entries_fit(entries@),
            rows.len() == i,
            forall|k: int| 0 <= k < i ==> display_row_of(#[trigger] rows@[k]@, entries@[k], now as int),
            forall|k: int| 0 <= k < i ==> row_fits(#[trigger] rows@[k]@),
        decreases entries.len() - i,
    {
        let e = &entries[i];
        assert(entry_fits(entries@[i as int]));
        let mut index: Vec<char> = Vec::new();
        push_decimal(&mut index, e.index as u128);
        proof {
            lemma_decimal_len_u128(e.index as nat);
        }
        let name = format_ascii_name(e);
        let size = format_ascii_size(e.size_bytes, true);
        let minimal_size = format_ascii_size(e.size_bytes, false);
        let modified = format_ascii_modified(e.modified, now);
        let row = DisplayRow {
            index: text_string(&index),
            name: text_string(&name),
            size: text_string(&size),
            minimal_size: text_string(&minimal_size),
            modified: text_string(&modified),
            problem: row_has_problem(e),
        };
        rows.push(row);
        i = i + 1;
    }
    rows
}

// ---------------------------------------------------------------------------
// ASCII widths
// ---------------------------------------------------------------------------

/// A field of an ASCII row: 0 index, 1 name, 2 size, 3 minimal size, 4 modified.
pub open spec fn row_field(r: DisplayRowView, f: int) -> Seq<char> {
    if f == 0 { r.index } else if f == 1 { r.name } else if f == 2 { r.size } else if f == 3 { r.minimal_size } else { r.modified }
}

/// The largest byte length of a field over the rows (0 without rows).
pub open spec fn max_field_bytes(rows: Seq<DisplayRowView>, f: int) -> nat
    decreases rows.len(),
{
    if rows.len() == 0 {
        0
    } else {
        let prev = max_field_bytes(rows.drop_last(), f);
        let b = byte_len(row_field(rows.last(), f));
        if b > prev { b } else { prev }
    }
}

/// The width of an ASCII column: the byte length of its widest value or of its header.
pub open spec fn column_width(header: Seq<char>, rows: Seq<DisplayRowView>, f: int) -> nat {
    let m = max_field_bytes(rows, f);
    if m > byte_len(header) { m } else { byte_len(header) }
}

/// The name column's width with folder wrapping: the room that the terminal
/// (120 columns when unknown) leaves beside the other columns, but at most the
/// names' width and at least 16; 16 when there is no such room.
pub open spec fn capped_name_width(terminal_width: Option<usize>, current: nat, other: nat, fixed: nat) -> nat {
    let target: nat = match terminal_width { Some(t) => t as nat, None => 120 };
    let o = other + fixed;
    if target <= o + 16 {
        16
    } else {
        let room = (target - o) as nat;
        let m = if current < room { current } else { room };
        if m > 16 { m } else { 16 }
    }
}

fn field_chars(r: &DisplayRow, f: usize) -> (t: Vec<char>)
    ensures
        t@ == row_field(r@, f as int),
{
    if f == 0 {
        chars_of(r.index.as_str())
    } else if f == 1 {
        chars_of(r.name.as_str())
    } else if f == 2 {
        chars_of(r.size.as_str())
    } else if f == 3 {
        chars_of(r.minimal_size.as_str())
    } else {
        chars_of(r.modified.as_str())
    }
}

proof fn lemma_field_fits(r: DisplayRowView, f: int)
    requires
        row_fits(r),
    ensures
        row_field(r, f).len() <= usize::MAX / 64,
        byte_len(row_field(r, f)) <= usize::MAX / 16,
{
    lemma_byte_len_bounds(row_field(r, f));
}

fn ascii_column_width(header: &str, rows: &[DisplayRow], f: usize) -> (w: usize)
    requires
        rows_fit(row_views(rows@)),
        header@.len() <= 8,
    ensures
        w == column_width(header@, row_views(rows@), f as int),
        w <= usize::MAX / 16,
{
    let mut m: usize = 0;
    let mut i: usize = 0;
    while i < rows.len()
        invariant
            i <= rows.len(),
            rows_fit(row_views(rows@)),
            m == max_field_bytes(row_views(rows@).take(i as int), f as int),
            m <= usize::MAX / 16,
        decreases rows.len() - i,
    {
        proof {
            assert(row_views(rows@)[i as int] == rows@[i as int]@);
            assert(row_fits(rows@[i as int]@));
            lemma_field_fits(rows@[i as int]@, f as int);
            assert(row_views(rows@).take(i + 1).drop_last() =~= row_views(rows@).take(i as int));
        }
        let t = field_chars(&rows[i], f);
        let b = text_byte_len(&t);
        if b > m {
            m = b;
        }
        i = i + 1;
    }
    assert(row_views(rows@).take(rows.len() as int) =~= row_views(rows@));
    let h = chars_of(header);
    proof {
        lemma_byte_len_bounds(header@);
    }
    let hb = text_byte_len(&h);
    if m > hb { m } else { hb }
}

fn capped_ascii_name_width(terminal_width: Option<usize>, current: usize, other: usize, fixed: usize) -> (w: usize)
    requires
        current <= usize::MAX / 16,
        other <= usize::MAX / 4,
        fixed <= 16,
    ensures
        w == capped_name_width(terminal_width, current as nat, other as nat, fixed as nat),
        w <= usize::MAX / 16,
{
    let target = match terminal_width {
        Some(t) => t,
        None => 120,
    };
    let o = other + fixed;
    if target <= o + 16 {
        return 16;
    }
    let room = target - o;
    let m = if current < room { current } else { room };
    if m > 16 { m } else { 16 }
}

// ---------------------------------------------------------------------------
// The compact ASCII table
// ---------------------------------------------------------------------------

/// Column widths of the compact table; the name column is capped with folder wrapping.
pub open spec fn compact_widths(rows: Seq<DisplayRowView>, config: DisplayConfig) -> Seq<usize> {
    let w0 = column_width(" #"@, rows, 0);
    let w1 = column_width("Name"@, rows, 1);
    let w2 = column_width("Size"@, rows, 2);
    let w3 = column_width("Modified"@, rows, 4);
    let name = if config.folder_wrap { capped_name_width(config.terminal_width, w1, w0 + w2 + w3, 13) } else { w1 };
    seq![w0 as usize, name as usize, w2 as usize, w3 as usize]
}

/// The cells of a row of the compact table.
pub open spec fn compact_cells(r: DisplayRowView) -> Seq<Seq<char>> {
    seq![r.index, r.name, r.size, r.modified]
}

/// The header cells of the compact table.
pub open spec fn compact_headers() -> Seq<Seq<char>> {
    seq!["#"@, "Name"@, "Size"@, "Modified"@]
}

/// The lines of one row of the compact table.
pub open spec fn compact_row_text(r: DisplayRowView, widths: Seq<usize>, config: DisplayConfig) -> Seq<char> {
    if config.folder_wrap {
        wrapped_row(Frame::Compact, compact_cells(r), 1, widths, config.style.use_colors, r.problem)
    } else {
        framed_line(Frame::Compact, compact_cells(r), widths, config.style.use_colors, RowStyle::Data { problem: r.problem })
    }
}

/// The lines of the first `k` rows of the compact table.
pub open spec fn compact_body(rows: Seq<DisplayRowView>, widths: Seq<usize>, config: DisplayConfig, k: nat) -> Seq<char>
    decreases k,
{
    if k == 0 {
        Seq::empty()
    } else {
        compact_body(rows, widths, config, (k - 1) as nat) + compact_row_text(rows[k - 1], widths, config)
    }
}

/// The compact table: `+---+` rules around the header and the rows, without the final line break.
pub open spec fn compact_table(rows: Seq<DisplayRowView>, config: DisplayConfig) -> Seq<char> {
    let w = compact_widths(rows, config);
    let rule = rule_line(w, '-', '+', '+', '+');
    drop_last_char(
        rule + framed_line(Frame::Compact, compact_headers(), w, config.style.use_colors, RowStyle::Header) + rule
            + compact_body(rows, w, config, rows.len()) + rule
    )
}

fn row_cells(r: &DisplayRow, fields: &Vec<usize>) -> (cells: Vec<Vec<char>>)
    ensures
        cells@.len() == fields@.len(),
        forall|i: int| 0 <= i < fields@.len() ==> #[trigger] texts(cells@)[i] == row_field(r@, fields@[i] as int),
{
    let mut cells: Vec<Vec<char>> = Vec::new();
    let mut i: usize = 0;
    while i < fields.len()
        invariant
            i <= fields.len(),
            cells@.len() == i,
            forall|k: int| 0 <= k < i ==> #[trigger] cells@[k]@ == row_field(r@, fields@[k] as int),
        decreases fields.len() - i,
    {
        cells.push(field_chars(r, fields[i]));
        i = i + 1;
    }
    proof {
        assert forall|k: int| 0 <= k < fields@.len() implies #[trigger] texts(cells@)[k] == row_field(r@, fields@[k] as int) by {
            assert(texts(cells@)[k] == cells@[k]@);
        }
    }
    cells
}

fn header_cells(a: &str, b: &str, c: &str, d: &str) -> (cells: Vec<Vec<char>>)
    ensures
        texts(cells@) == seq![a@, b@, c@, d@],
        cells@.len() == 4,
{
    let mut cells: Vec<Vec<char>> = Vec::new();
    cells.push(chars_of(a));
    cells.push(chars_of(b));
    cells.push(chars_of(c));
    cells.push(chars_of(d));
    assert(texts(cells@) =~= seq![a@, b@, c@, d@]);
    cells
}

/// The compact ASCII table of the rows.
pub fn render_ascii_compact(rows: &[DisplayRow], config: &DisplayConfig) -> (r: String)
    requires
        rows_fit(row_views(rows@)),
    ensures
        r@ == compact_table(row_views(rows@), *config),
{
    proof {
        reveal_strlit(" #");
        reveal_strlit("Name");
        reveal_strlit("Size");
        reveal_strlit("Modified");
    }
    let w0 = ascii_column_width(" #", rows, 0);
    let w1 = ascii_column_width("Name", rows, 1);
    let w2 = ascii_column_width("Size", rows, 2);
    let w3 = ascii_column_width("Modified", rows, 4);
    let name = if config.folder_wrap {
        capped_ascii_name_width(config.terminal_width, w1, w0 + w2 + w3, 13)
    } else {
        w1
    };
    let mut widths: Vec<usize> = Vec::new();
    widths.push(w0);
    widths.push(name);
    widths.push(w2);
    widths.push(w3);
    let ghost ws = widths@;
    assert(ws =~= compact_widths(row_views(rows@), *config));
    let colors = config.style.use_colors;
    let mut out: Vec<char> = Vec::new();
    push_rule(&mut out, &widths, '-', '+', '+', '+');
    let headers = header_cells("#", "Name", "Size", "Modified");
    push_framed_line(&mut out, Frame::Compact, &headers, &widths, colors, RowStyle::Header);
    push_rule(&mut out, &widths, '-', '+', '+', '+');
    let ghost top = out@;
    let mut fields: Vec<usize> = Vec::new();
    fields.push(0);
    fields.push(1);
    fields.push(2);
    fields.push(4);
    let mut k: usize = 0;
    while k < rows.len()
        invariant
            k <= rows.len(),
            widths@ == ws,
            widths.len() == 4,
            fields@ == seq![0usize, 1, 2, 4],
            colors == config.style.use_colors,
            out@ =~= top + compact_body(row_views(rows@), ws, *config, k as nat),
        decreases rows.len() - k,
    {
        let cells = row_cells(&rows[k], &fields);
        assert(texts(cells@) =~= compact_cells(rows@[k as int]@));
        if config.folder_wrap {
            push_wrapped_row(&mut out, Frame::Compact, &cells, 1, &widths, colors, rows[k].problem);
        } else {
            push_framed_line(&mut out, Frame::Compact, &cells, &widths, colors, RowStyle::Data { problem: rows[k].problem });
        }
        k = k + 1;
    }
    push_rule(&mut out, &widths, '-', '+', '+', '+');
    out.pop();
    text_string(&out)
}

// ---------------------------------------------------------------------------
// The narrow ASCII table
// ---------------------------------------------------------------------------

/// The gap between the columns of the narrow and minimal formats.
pub open spec fn three_spaces() -> Seq<char> {
    seq![' ', ' ', ' ']
}

/// Column widths of the narrow table; the name column is capped with folder wrapping.
pub open spec fn narrow_widths(rows: Seq<DisplayRowView>, config: DisplayConfig) -> Seq<usize> {
    let w0 = column_width("#"@, rows, 0);
    let w1 = column_width("Name"@, rows, 1);
    let w2 = column_width("Size"@, rows, 2);
    let name = if config.folder_wrap { capped_name_width(config.terminal_width, w1, w0 + w2, 6) } else { w1 };
    seq![w0 as usize, name as usize, w2 as usize]
}

/// The header line of the narrow table, in cyan.
pub open spec fn narrow_header(w: Seq<usize>, colors: bool) -> Seq<char> {
    painted(colors, Paint::Cyan, aligned("#"@, w[0] as nat, Alignment::Right)) + three_spaces()
        + painted(colors, Paint::Cyan, aligned("Name"@, w[1] as nat, Alignment::Left)) + three_spaces()
        + painted(colors, Paint::Cyan, aligned("Size"@, w[2] as nat, Alignment::Right)) + seq!['\n']
}

/// The dashes under the header of the narrow table.
pub open spec fn narrow_rule(w: Seq<usize>) -> Seq<char> {
    repeat('-', w[0] as nat) + three_spaces() + repeat('-', w[1] as nat) + three_spaces() + repeat('-', w[2] as nat) + seq!['\n']
}

/// A line of the narrow table showing `name`, with the number and size only when `metadata`.
pub open spec fn narrow_line(r: DisplayRowView, name: Seq<char>, metadata: bool, w: Seq<usize>, colors: bool) -> Seq<char> {
    let rs = RowStyle::Data { problem: r.problem };
    styled_cell(aligned(if metadata { r.index } else { Seq::empty() }, w[0] as nat, Alignment::Right), 0, colors, rs)
        + three_spaces()
        + styled_cell(aligned(name, w[1] as nat, Alignment::Left), 1, colors, rs)
        + three_spaces()
        + styled_cell(aligned(if metadata { r.size } else { Seq::empty() }, w[2] as nat, Alignment::Right), 2, colors, rs)
        + seq!['\n']
}

/// The first `k` lines of a narrow row wrapped at folder boundaries; the last line has the metadata.
pub open spec fn narrow_block(r: DisplayRowView, lines: Seq<Seq<char>>, k: nat, w: Seq<usize>, colors: bool) -> Seq<char>
    decreases k,
{
    if k == 0 {
        Seq::empty()
    } else {
        narrow_block(r, lines, (k - 1) as nat, w, colors) + narrow_line(r, lines[k - 1], k - 1 == lines.len() - 1, w, colors)
    }
}

/// The lines of one row of the narrow format.
pub open spec fn narrow_row_text(r: DisplayRowView, w: Seq<usize>, config: DisplayConfig) -> Seq<char> {
    if config.folder_wrap {
        let lines = wrapped_lines(r.name, w[1] as nat);
        narrow_block(r, lines, lines.len(), w, config.style.use_colors)
    } else {
        narrow_line(r, r.name, true, w, config.style.use_colors)
    }
}

/// The lines of the first `k` rows of the narrow format.
pub open spec fn narrow_body(rows: Seq<DisplayRowView>, w: Seq<usize>, config: DisplayConfig, k: nat) -> Seq<char>
    decreases k,
{
    if k == 0 {
        Seq::empty()
    } else {
        narrow_body(rows, w, config, (k - 1) as nat) + narrow_row_text(rows[k - 1], w, config)
    }
}

/// The narrow table: header, dashes and rows in three columns separated by three spaces.
pub open spec fn narrow_table(rows: Seq<DisplayRowView>, config: DisplayConfig) -> Seq<char> {
    let w = narrow_widths(rows, config);
    drop_last_char(narrow_header(w, config.style.use_colors) + narrow_rule(w) + narrow_body(rows, w, config, rows.len()))
}

fn push_narrow_line(out: &mut Vec<char>, r: &DisplayRow, name: &Vec<char>, metadata: bool, w: &Vec<usize>, colors: bool)
    requires
        w.len() == 3,
    ensures
        final(out)@ == old(out)@ + narrow_line(r@, name@, metadata, w@, colors),
{
    let ghost start = out@;
    let rs = RowStyle::Data { problem: r.problem };
    let index = if metadata { chars_of(r.index.as_str()) } else { Vec::new() };
    let size = if metadata { chars_of(r.size.as_str()) } else { Vec::new() };
    let mut a: Vec<char> = Vec::new();
    push_aligned(&mut a, &index, w[0], Alignment::Right);
    push_styled_cell(out, &a, 0, colors, rs);
    push_repeat(out, ' ', 3);
    let mut b: Vec<char> = Vec::new();
    push_aligned(&mut b, name, w[1], Alignment::Left);
    push_styled_cell(out, &b, 1, colors, rs);
    push_repeat(out, ' ', 3);
    let mut c: Vec<char> = Vec::new();
    push_aligned(&mut c, &size, w[2], Alignment::Right);
    push_styled_cell(out, &c, 2, colors, rs);
    out.push('\n');
    assert(repeat(' ', 3) =~= three_spaces());
    assert(index@ =~= (if metadata { r@.index } else { Seq::empty() }));
    assert(size@ =~= (if metadata { r@.size } else { Seq::empty() }));
    assert(out@ =~= start + narrow_line(r@, name@, metadata, w@, colors));
}

fn push_narrow_header(out: &mut Vec<char>, w: &Vec<usize>, colors: bool)
    requires
        w.len() == 3,
    ensures
        final(out)@ == old(out)@ + narrow_header(w@, colors),
{
    let ghost start = out@;
    let mut a: Vec<char> = Vec::new();
    push_aligned(&mut a, &chars_of("#"), w[0], Alignment::Right);
    push_painted(out, colors, Paint::Cyan, &a);
    push_repeat(out, ' ', 3);
    let mut b: Vec<char> = Vec::new();
    push_aligned(&mut b, &chars_of("Name"), w[1], Alignment::Left);
    push_painted(out, colors, Paint::Cyan, &b);
    push_repeat(out, ' ', 3);
    let mut c: Vec<char> = Vec::new();
    push_aligned(&mut c, &chars_of("Size"), w[2], Alignment::Right);
    push_painted(out, colors, Paint::Cyan, &c);
    out.push('\n');
    assert(repeat(' ', 3) =~= three_spaces());
    assert(out@ =~= start + narrow_header(w@, colors));
}

/// The narrow ASCII table of the rows.
pub fn render_ascii_narrow(rows: &[DisplayRow], config: &DisplayConfig) -> (r: String)
    requires
        rows_fit(row_views(rows@)),
    ensures
        r@ == narrow_table(row_views(rows@), *config),
{
    proof {
        reveal_strlit("#");
        reveal_strlit("Name");
        reveal_strlit("Size");
    }
    let w0 = ascii_column_width("#", rows, 0);
    let w1 = ascii_column_width("Name", rows, 1);
    let w2 = ascii_column_width("Size", rows, 2);
    let name = if config.folder_wrap {
        capped_ascii_name_width(config.terminal_width, w1, w0 + w2, 6)
    } else {
        w1
    };
    let mut w: Vec<usize> = Vec::new();
    w.push(w0);
    w.push(name);
    w.push(w2);
    let ghost ws = w@;
    assert(ws =~= narrow_widths(row_views(rows@), *config));
    let colors = config.style.use_colors;
    let mut out: Vec<char> = Vec::new();
    push_narrow_header(&mut out, &w, colors);
    let ghost h = out@;
    push_repeat(&mut out, '-', w0);
    push_repeat(&mut out, ' ', 3);
    push_repeat(&mut out, '-', name);
    push_repeat(&mut out, ' ', 3);
    push_repeat(&mut out, '-', w2);
    out.push('\n');
    assert(repeat(' ', 3) =~= three_spaces());
    assert(out@ =~= h + narrow_rule(ws));
    let ghost top = out@;
    let mut k: usize = 0;
    while k < rows.len()
        invariant
            k <= rows.len(),
            w@ == ws,
            w.len() == 3,
            colors == config.style.use_colors,
            out@ =~= top + narrow_body(row_views(rows@), ws, *config, k as nat),
        decreases rows.len() - k,
    {
        let row = &rows[k];
        let name_chars = chars_of(row.name.as_str());
        if config.folder_wrap {
            let lines = wrap_chars(&name_chars, w[1]);
            let ghost ls = texts(lines@);
            let ghost before = out@;
            let mut j: usize = 0;
            while j < lines.len()
                invariant
                    j <= lines.len(),
                    w.len() == 3,
                    ls == texts(lines@),
                    out@ =~= before + narrow_block(row@, ls, j as nat, w@, colors),
                decreases lines.len() - j,
            {
                assert(lines@[j as int]@ == ls[j as int]);
                push_narrow_line(&mut out, row, &lines[j], j == lines.len() - 1, &w, colors);
                j = j + 1;
            }
        } else {
            push_narrow_line(&mut out, row, &name_chars, true, &w, colors);
        }
        k = k + 1;
    }
    out.pop();
    text_string(&out)
}

// ---------------------------------------------------------------------------
// The minimal ASCII table
// ---------------------------------------------------------------------------

/// Column widths of the minimal table; the name column is capped with folder wrapping.
pub open spec fn minimal_widths(rows: Seq<DisplayRowView>, config: DisplayConfig) -> Seq<usize> {
    let iw = column_width("#"@, rows, 0);
    let nw = column_width("Name"@, rows, 1);
    let sw = column_width("Size"@, rows, 3);
    let name = if config.folder_wrap { capped_name_width(config.terminal_width, nw, iw + sw, 4) } else { nw };
    seq![iw as usize, name as usize, sw as usize]
}

/// A line of the minimal table: two left-aligned columns and a right-aligned one, two spaces apart.
pub open spec fn minimal_line(a: Seq<char>, b: Seq<char>, c: Seq<char>, w: Seq<usize>) -> Seq<char> {
    aligned(a, w[0] as nat, Alignment::Left) + seq![' ', ' '] + aligned(b, w[1] as nat, Alignment::Left) + seq![' ', ' ']
        + aligned(c, w[2] as nat, Alignment::Right) + seq!['\n']
}

/// The first `k` lines of a row of the minimal format whose name wraps into `lines`.
pub open spec fn minimal_block(r: DisplayRowView, lines: Seq<Seq<char>>, k: nat, w: Seq<usize>) -> Seq<char>
    decreases k,
{
    if k == 0 {
        Seq::empty()
    } else {
        let last = k - 1 == lines.len() - 1;
        minimal_block(r, lines, (k - 1) as nat, w) + minimal_line(
            if last { r.index } else { Seq::empty() },
            lines[k - 1],
            if last { r.minimal_size } else { Seq::empty() },
            w,
        )
    }
}

/// The lines of one row of the minimal format.
pub open spec fn minimal_row_text(r: DisplayRowView, w: Seq<usize>, config: DisplayConfig) -> Seq<char> {
    if config.folder_wrap {
        let lines = wrapped_lines(r.name, w[1] as nat);
        minimal_block(r, lines, lines.len(), w)
    } else {
        minimal_line(r.index, r.name, r.minimal_size, w)
    }
}

/// The lines of the first `k` rows of the minimal format.
pub open spec fn minimal_body(rows: Seq<DisplayRowView>, w: Seq<usize>, config: DisplayConfig, k: nat) -> Seq<char>
    decreases k,
{
    if k == 0 {
        Seq::empty()
    } else {
        minimal_body(rows, w, config, (k - 1) as nat) + minimal_row_text(rows[k - 1], w, config)
    }
}

/// The minimal table: a header line and the rows, without borders or colors.
pub open spec fn minimal_table(rows: Seq<DisplayRowView>, config: DisplayConfig) -> Seq<char> {
    let w = minimal_widths(rows, config);
    drop_last_char(minimal_line("#"@, "Name"@, "Size"@, w) + minimal_body(rows, w, config, rows.len()))
}

fn push_minimal_line(out: &mut Vec<char>, a: &Vec<char>, b: &Vec<char>, c: &Vec<char>, w: &Vec<usize>)
    requires
        w.len() == 3,
    ensures
        final(out)@ == old(out)@ + minimal_line(a@, b@, c@, w@),
{
    let ghost start = out@;
    push_aligned(out, a, w[0], Alignment::Left);
    out.push(' ');
    out.push(' ');
    push_aligned(out, b, w[1], Alignment::Left);
    out.push(' ');
    out.push(' ');
    push_aligned(out, c, w[2], Alignment::Right);
    out.push('\n');
    assert(out@ =~= start + minimal_line(a@, b@, c@, w@));
}

/// The minimal ASCII table of the rows.
pub fn render_ascii_minimal(rows: &[DisplayRow], config: &DisplayConfig) -> (r: String)
    requires
        rows_fit(row_views(rows@)),
    ensures
        r@ == minimal_table(row_views(rows@), *config),
{
    proof {
        reveal_strlit("#");
        reveal_strlit("Name");
        reveal_strlit("Size");
    }
    let iw = ascii_column_width("#", rows, 0);
    let nw = ascii_column_width("Name", rows, 1);
    let sw = ascii_column_width("Size", rows, 3);
    let name = if config.folder_wrap {
        capped_ascii_name_width(config.terminal_width, nw, iw + sw, 4)
    } else {
        nw
    };
    let mut w: Vec<usize> = Vec::new();
    w.push(iw);
    w.push(name);
    w.push(sw);
    let ghost ws = w@;
    assert(ws =~= minimal_widths(row_views(rows@), *config));
    let mut out: Vec<char> = Vec::new();
    push_minimal_line(&mut out, &chars_of("#"), &chars_of("Name"), &chars_of("Size"), &w);
    let ghost top = out@;
    let mut k: usize = 0;
    while k < rows.len()
        invariant
            k <= rows.len(),
            w@ == ws,
            w.len() == 3,
            out@ =~= top + minimal_body(row_views(rows@), ws, *config, k as nat),
        decreases rows.len() - k,
    {
        let row = &rows[k];
        let index = chars_of(row.index.as_str());
        let name_chars = chars_of(row.name.as_str());
        let size = chars_of(row.minimal_size.as_str());
        if config.folder_wrap {
            let lines = wrap_chars(&name_chars, w[1]);
            let ghost ls = texts(lines@);
            let ghost before = out@;
            let mut j: usize = 0;
            while j < lines.len()
                invariant
                    j <= lines.len(),
                    w.len() == 3,
                    ls == texts(lines@),
                    index@ == row@.index,
                    size@ == row@.minimal_size,
                    out@ =~= before + minimal_block(row@, ls, j as nat, w@),
                decreases lines.len() - j,
            {
                assert(lines@[j as int]@ == ls[j as int]);
                let last = j == lines.len() - 1;
                let empty: Vec<char> = Vec::new();
                if last {
                    push_minimal_line(&mut out, &index, &lines[j], &size, &w);
                } else {
                    push_minimal_line(&mut out, &empty, &lines[j], &empty, &w);
                }
                j = j + 1;
            }
        } else {
            push_minimal_line(&mut out, &index, &name_chars, &size, &w);
        }
        k = k + 1;
    }
    out.pop();
    text_string(&out)
}

// ---------------------------------------------------------------------------
// The table
// ---------------------------------------------------------------------------

/// The table that `config` asks for, at the instant `now`.
pub open spec fn table_text(entries: Seq<PathEntry>, config: DisplayConfig, now: int) -> Seq<char> {
    if config.use_unicode {
        unicode_table(entries, config, now)
    } else {
        let rows = Seq::new(entries.len(), |i: int| ascii_row(entries[i], now));
        match config.ascii_format {
            AsciiFormat::Compact => compact_table(rows, config),
            AsciiFormat::Narrow => narrow_table(rows, config),
            AsciiFormat::Minimal => minimal_table(rows, config),
        }
    }
}

/// The table that `config` asks for, with ages taken at the instant `now`
/// (nanoseconds since the Unix epoch).
pub fn render_table_at(entries: &[PathEntry], config: &DisplayConfig, now: i128) -> (r: String)
    requires
        entries_fit(entries@),
    ensures
        r@ == table_text(entries@, *config, now as int),
{
    if config.use_unicode {
        let out = render_unicode_table(entries, config, now);
        return text_string(&out);
    }
    let rows = collect_display_rows(entries, now);
    proof {
        assert forall|i: int| 0 <= i < entries.len() implies #[trigger] row_views(rows@)[i] == ascii_row(entries@[i], now as int) by {
            assert(display_row_of(rows@[i]@, entries@[i], now as int));
        }
        assert(row_views(rows@) =~= Seq::new(entries@.len(), |i: int| ascii_row(entries@[i], now as int)));
    }
    match config.ascii_format {
        AsciiFormat::Compact => render_ascii_compact(&rows, config),
        AsciiFormat::Narrow => render_ascii_narrow(&rows, config),
        AsciiFormat::Minimal => render_ascii_minimal(&rows, config),
    }
}

/// The table that `config` asks for, with ages taken when the clock is read.
pub fn render_table(entries: &[PathEntry], config: &DisplayConfig) -> (r: String)
    requires
        entries_fit(entries@),
    ensures
        exists|now: i128| r@ == table_text(entries@, *config, now as int),
{
    let now = clock_now();
    render_table_at(entries, config, now)
}

// ---------------------------------------------------------------------------
// The summary
// ---------------------------------------------------------------------------

/// The number of entries that exist.
pub open spec fn count_existing(entries: Seq<PathEntry>) -> nat
    decreases entries.len(),
{
    if entries.len() == 0 { 0 } else { count_existing(entries.drop_last()) + if entries.last().exists { 1nat } else { 0nat } }
}

/// The number of entries marked as duplicates.
pub open spec fn count_duplicates(entries: Seq<PathEntry>) -> nat
    decreases entries.len(),
{
    if entries.len() == 0 { 0 } else { count_duplicates(entries.drop_last()) + if entries.last().duplicate { 1nat } else { 0nat } }
}

/// The number of executables over all entries.
pub open spec fn total_executables(entries: Seq<PathEntry>) -> nat
    decreases entries.len(),
{
    if entries.len() == 0 { 0 } else { total_executables(entries.drop_last()) + (entries.last().executable_count as nat) }
}

/// The total size of all entries.
pub open spec fn total_size(entries: Seq<PathEntry>) -> nat
    decreases entries.len(),
{
    if entries.len() == 0 { 0 } else { total_size(entries.drop_last()) + (entries.last().size_bytes as nat) }
}

/// Whether the totals of the summary fit their machine types.
pub open spec fn summary_fits(entries: Seq<PathEntry>) -> bool {
    total_executables(entries) <= usize::MAX && total_size(entries) <= u64::MAX
}

/// The summary after the table: an empty line, the counts of entries,
/// existing, missing and duplicate ones, then the number of executables and
/// the total size.
pub open spec fn summary_text(entries: Seq<PathEntry>, style: Style) -> Seq<char> {
    let c = style.use_colors;
    let existing = count_existing(entries);
    let duplicates = count_duplicates(entries);
    seq!['\n']
        + painted(c, Paint::Bold, decimal(entries.len())) + " PATH entries | "@
        + painted(c, Paint::Green, decimal(existing)) + " existing | "@
        + painted(c, Paint::Red, decimal((entries.len() - existing) as nat)) + " missing | "@
        + (if duplicates > 0 { painted(c, Paint::Yellow, decimal(duplicates)) } else { decimal(duplicates) })
        + " duplicates"@ + seq!['\n']
        + painted(c, Paint::Cyan, decimal(total_executables(entries))) + " executable files | "@
        + size_text(total_size(entries)) + " total"@ + seq!['\n']
}

proof fn lemma_counts_le(entries: Seq<PathEntry>)
    ensures
        count_existing(entries) <= entries.len(),
        count_duplicates(entries) <= entries.len(),
    decreases entries.len(),
{
    if entries.len() > 0 {
        lemma_counts_le(entries.drop_last());
    }
}

proof fn lemma_totals_prefix(entries: Seq<PathEntry>, k: int)
    requires
        0 <= k <= entries.len(),
    ensures
        total_executables(entries.take(k)) <= total_executables(entries),
        total_size(entries.take(k)) <= total_size(entries),
    decreases entries.len() - k,
{
    if k < entries.len() {
        lemma_totals_prefix(entries, k + 1);
        assert(entries.take(k + 1).drop_last() =~= entries.take(k));
    } else {
        assert(entries.take(k) =~= entries);
    }
}

fn push_literal(out: &mut Vec<char>, s: &str)
    ensures
        final(out)@ == old(out)@ + s@,
{
    let t = chars_of(s);
    push_text(out, &t);
}

/// The summary that follows the table (see `summary_text`).
pub fn render_summary(entries: &[PathEntry], style: &Style) -> (r: String)
    requires
        summary_fits(entries@),
    ensures
        r@ == summary_text(entries@, *style),
{
    let mut existing: usize = 0;
    let mut duplicates: usize = 0;
    let mut binaries: usize = 0;
    let mut total: u64 = 0;
    let mut i: usize = 0;
    while i < entries.len()
        invariant
            i <= entries.len(),
            summary_fits(entries@),
            existing == count_existing(entries@.take(i as int)),
            duplicates == count_duplicates(entries@.take(i as int)),
            binaries == total_executables(entries@.take(i as int)),
            total == total_size(entries@.take(i as int)),
        decreases entries.len() - i,
    {
        proof {
            assert(entries@.take(i + 1).drop_last() =~= entries@.take(i as int));
            lemma_counts_le(entries@.take(i + 1));
            lemma_totals_prefix(entries@, i + 1);
        }
        let e = &entries[i];
        if e.exists {
            existing = existing + 1;
        }
        if e.duplicate {
            duplicates = duplicates + 1;
        }
        binaries = binaries + e.executable_count;
        total = total + e.size_bytes;
        i = i + 1;
    }
    assert(entries@.take(entries.len() as int) =~= entries@);
    proof {
        lemma_counts_le(entries@);
    }
    let c = style.use_colors;
    let mut out: Vec<char> = Vec::new();
    out.push('\n');
    let mut n: Vec<char> = Vec::new();
    push_decimal(&mut n, entries.len() as u128);
    push_painted(&mut out, c, Paint::Bold, &n);
    push_literal(&mut out, " PATH entries | ");
    let mut e: Vec<char> = Vec::new();
    push_decimal(&mut e, existing as u128);
    push_painted(&mut out, c, Paint::Green, &e);
    push_literal(&mut out, " existing | ");
    let mut m: Vec<char> = Vec::new();
    push_decimal(&mut m, (entries.len() - existing) as u128);
    push_painted(&mut out, c, Paint::Red, &m);
    push_literal(&mut out, " missing | ");
    let mut d: Vec<char> = Vec::new();
    push_decimal(&mut d, duplicates as u128);
    if duplicates > 0 {
        push_painted(&mut out, c, Paint::Yellow, &d);
    } else {
        push_text(&mut out, &d);
    }
    push_literal(&mut out, " duplicates");
    out.push('\n');
    let mut b: Vec<char> = Vec::new();
    push_decimal(&mut b, binaries as u128);
    push_painted(&mut out, c, Paint::Cyan, &b);
    push_literal(&mut out, " executable files | ");
    let size = format_size(total);
    push_literal(&mut out, size.as_str());
    push_literal(&mut out, " total");
    out.push('\n');
    assert(out@ =~= summary_text(entries@, *style));
    text_string(&out)
}


// ---------------------------------------------------------------------------
// Laws
// ---------------------------------------------------------------------------

/// An explicit ASCII format always gives ASCII output in that format, and
/// Unicode output needs a terminal that supports it and is at least 100
/// columns wide (or of unknown width).
pub proof fn law_unicode_only_when_supported(
    caps: TerminalCapabilities,
    ascii_format: Option<AsciiFormat>,
    monochrome: bool,
    long_paths: bool,
    folder_wrap: bool,
)
    ensures
        ({
            let c = config_for(caps, ascii_format, monochrome, long_paths, folder_wrap);
            &&& ascii_format is Some ==> !c.use_unicode && c.ascii_format == ascii_format->0
            &&& c.use_unicode ==> caps.use_unicode && (caps.width is None || caps.width->0 >= 100)
        }),
{
}

/// Monochrome turns colors off and changes nothing else; the minimal format
/// never has colors, and colors are used only where the terminal allows them.
pub proof fn law_colors(
    caps: TerminalCapabilities,
    ascii_format: Option<AsciiFormat>,
    monochrome: bool,
    long_paths: bool,
    folder_wrap: bool,
)
    ensures
        ({
            let c = config_for(caps, ascii_format, monochrome, long_paths, folder_wrap);
            let plain = config_for(caps, ascii_format, true, long_paths, folder_wrap);
            &&& !plain.style.use_colors
            &&& plain == (DisplayConfig { style: Style { use_colors: false }, ..config_for(caps, ascii_format, false, long_paths, folder_wrap) })
            &&& c.ascii_format == AsciiFormat::Minimal ==> !c.style.use_colors
            &&& c.style.use_colors ==> caps.use_colors
        }),
{
}

proof fn lemma_width_sum_update(w: Seq<usize>, i: int, x: usize)
    requires
        0 <= i < w.len(),
    ensures
        width_sum(w.update(i, x)) + w[i] == width_sum(w) + x,
    decreases w.len(),
{
    let u = w.update(i, x);
    if i == w.len() - 1 {
        assert(u.drop_last() =~= w.drop_last());
    } else {
        lemma_width_sum_update(w.drop_last(), i, x);
        assert(u.drop_last() =~= w.drop_last().update(i, x));
    }
}

/// Fitting the table to the terminal narrows only the path column, never
/// widens it and never below 16, and only as far as needed: a table that
/// fits, or whose path column is 16 or less, is left alone, and a fitted
/// table is exactly as wide as the terminal unless its path column is down
/// to 16 (and then it is no narrower than the terminal); the table then fits the terminal (120 columns when its width is
/// unknown) unless the path column is down to 16 or was no wider to begin with.
/// With long paths kept whole and no wrapping, nothing is narrowed.
pub proof fn law_capped_widths(w: Seq<usize>, terminal_width: Option<usize>, long_paths: bool, folder_wrap: bool)
    requires
        w.len() == 9,
    ensures
        ({
            let c = capped_widths(w, terminal_width, long_paths, folder_wrap);
            let target: nat = match terminal_width { Some(t) => t as nat, None => 120 };
            &&& c.len() == 9
            &&& forall|i: int| 0 <= i < 9 && i != 2 ==> c[i] == w[i]
            &&& c[2] <= w[2]
            &&& c[2] >= (if w[2] < 16 { w[2] } else { 16 })
            &&& (!long_paths || folder_wrap) ==> table_width(c) <= target || c[2] <= 16
            &&& (long_paths && !folder_wrap) ==> c == w
            &&& (table_width(w) <= target || w[2] <= 16) ==> c == w
            &&& (!long_paths || folder_wrap) && table_width(w) > target && w[2] > 16 ==> {
                &&& table_width(c) >= target
                &&& table_width(c) == target || c[2] == 16
            }
        }),
{
    if !long_paths || folder_wrap {
        let target: nat = match terminal_width { Some(t) => t as nat, None => 120 };
        let tw = table_width(w);
        if tw > target && w[2] > 16 {
            let excess = (tw - target) as nat;
            let reduced: nat = if w[2] > excess { (w[2] - excess) as nat } else { 0 };
            let x: usize = (if reduced > 16 { reduced } else { 16 }) as usize;
            lemma_width_sum_update(w, 2, x);
        }
    }
}


proof fn lemma_framed_cells_len(f: Frame, cells: Seq<Seq<char>>, widths: Seq<usize>, rs: RowStyle)
    requires
        cells.len() <= widths.len(),
        forall|i: int| 0 <= i < cells.len() ==> #[trigger] cells[i].len() <= widths[i],
    ensures
        framed_cells(f, cells, widths, false, rs).len() == width_sum(widths.take(cells.len() as int)) + 3 * cells.len(),
    decreases cells.len(),
{
    if cells.len() > 0 {
        let n = cells.len() - 1;
        lemma_framed_cells_len(f, cells.drop_last(), widths, rs);
        reveal(styled_cell);
        reveal(painted);
        law_aligned_width(cells[n], widths[n] as nat, column_alignment(f, n));
        assert(cells[n].len() <= widths[n]);
        assert(widths.take(n + 1).drop_last() =~= widths.take(n));
    }
}

/// Without colors, a line of a bordered table whose cells fit their columns
/// is exactly as wide as the table (then a line break).
pub proof fn law_framed_line_width(f: Frame, cells: Seq<Seq<char>>, widths: Seq<usize>, rs: RowStyle)
    requires
        cells.len() == widths.len(),
        forall|i: int| 0 <= i < cells.len() ==> #[trigger] cells[i].len() <= widths[i],
    ensures
        framed_line(f, cells, widths, false, rs).len() == table_width(widths) + 1,
{
    lemma_framed_cells_len(f, cells, widths, rs);
    assert(widths.take(cells.len() as int) =~= widths);
}

proof fn lemma_rule_runs_len(widths: Seq<usize>, fill: char, sep: char)
    ensures
        rule_runs(widths, fill, sep).len() == width_sum(widths) + 3 * widths.len(),
    decreases widths.len(),
{
    if widths.len() > 0 {
        lemma_rule_runs_len(widths.drop_last(), fill, sep);
    }
}

/// A rule of a bordered table is exactly as wide as the table (then a line break).
pub proof fn law_rule_line_width(widths: Seq<usize>, fill: char, left: char, middle: char, right: char)
    requires
        widths.len() > 0,
    ensures
        rule_line(widths, fill, left, middle, right).len() == table_width(widths) + 1,
{
    lemma_rule_runs_len(widths.drop_last(), fill, middle);
}


proof fn lemma_short_cells(e: PathEntry, now: int)
    requires
        i128::MIN <= now <= i128::MAX,
    ensures
        unicode_cells(e, now).len() == 9,
        forall|c: int| 0 <= c < 9 && c != 2 ==> (#[trigger] unicode_cells(e, now)[c]).len() <= 64,
{
    reveal_strlit("Y");
    reveal_strlit("N");
    reveal_strlit("YES");
    reveal_strlit("dir");
    reveal_strlit("file");
    reveal_strlit("other");
    reveal_strlit("missing");
    lemma_decimal_len_u128(e.index as nat);
    lemma_decimal_len_u128(e.executable_count as nat);
    lemma_decimal_len_u128(e.non_executable_count as nat);
    lemma_size_text_len(e.size_bytes as nat);
    lemma_modified_text_len(e.modified, now, false);
}

proof fn lemma_header_lengths()
    ensures
        forall|c: int| 0 <= c < 9 ==> (#[trigger] unicode_header(c)).len() <= 8,
        unicode_header(2).len() == 4,
{
    reveal_strlit("#");
    reveal_strlit("OK");
    reveal_strlit("PATH");
    reveal_strlit("TYPE");
    reveal_strlit("BIN");
    reveal_strlit("!BIN");
    reveal_strlit("SIZE");
    reveal_strlit("MODIFIED");
    reveal_strlit("DUP");
}

proof fn lemma_content_widths(rows: Seq<Seq<Seq<char>>>)
    requires
        forall|k: int| 0 <= k < rows.len() ==> (#[trigger] rows[k]).len() == 9,
        forall|k: int, c: int| 0 <= k < rows.len() && 0 <= c < 9 ==> (#[trigger] rows[k][c]).len() <= usize::MAX,
    ensures
        content_widths(rows).len() == 9,
        forall|c: int| 0 <= c < 9 ==> unicode_header(c).len() <= #[trigger] content_widths(rows)[c],
        forall|k: int, c: int| 0 <= k < rows.len() && 0 <= c < 9 ==> (#[trigger] rows[k][c]).len() <= content_widths(rows)[c],
    decreases rows.len(),
{
    lemma_header_lengths();
    if rows.len() > 0 {
        let d = rows.drop_last();
        lemma_content_widths(d);
        let last = rows.last();
        assert forall|k: int, c: int| 0 <= k < rows.len() && 0 <= c < 9 implies (#[trigger] rows[k][c]).len() <= content_widths(rows)[c] by {
            if k < d.len() {
                assert(rows[k] == d[k]);
            }
        }
    }
}

/// Without colors and without folder wrapping, every line of the Unicode
/// table is exactly as wide as the table: its rules, its header line and the
/// line of each entry. With paths cut to fit, that width is within the
/// terminal's (120 when unknown) unless the path column is down to 16.
pub proof fn law_unicode_lines_line_up(entries: Seq<PathEntry>, config: DisplayConfig, now: int, k: int)
    requires
        entries_fit(entries),
        i128::MIN <= now <= i128::MAX,
        !config.style.use_colors,
        !config.folder_wrap,
        0 <= k < entries.len(),
    ensures
        ({
            let w = unicode_widths(entries, config, now);
            let target: nat = match config.terminal_width { Some(t) => t as nat, None => 120 };
            &&& w.len() == 9
            &&& forall|fill: char, left: char, middle: char, right: char|
                #[trigger] rule_line(w, fill, left, middle, right).len() == table_width(w) + 1
            &&& framed_line(Frame::Unicode, unicode_headers(), w, false, RowStyle::Header).len() == table_width(w) + 1
            &&& unicode_row_text(unicode_cells(entries[k], now), row_problem(entries[k]), w, config).len() == table_width(w) + 1
            &&& !config.long_paths ==> table_width(w) <= target || w[2] <= 16
        }),
{
    let rows = unicode_rows(entries, now);
    assert forall|j: int, c: int| 0 <= j < rows.len() && 0 <= c < 9 implies (#[trigger] rows[j][c]).len() <= usize::MAX by {
        lemma_short_cells(entries[j], now);
        assert(entry_fits(entries[j]));
        if c != 2 {
            assert(unicode_cells(entries[j], now)[c].len() <= 64);
        }
    }
    assert forall|j: int| 0 <= j < rows.len() implies (#[trigger] rows[j]).len() == 9 by {
        lemma_short_cells(entries[j], now);
    }
    lemma_content_widths(rows);
    let content = content_widths(rows);
    law_capped_widths(content, config.terminal_width, config.long_paths, config.folder_wrap);
    let w = unicode_widths(entries, config, now);
    lemma_header_lengths();
    assert forall|fill: char, left: char, middle: char, right: char|
        #[trigger] rule_line(w, fill, left, middle, right).len() == table_width(w) + 1 by {
        law_rule_line_width(w, fill, left, middle, right);
    }
    let headers = unicode_headers();
    assert forall|c: int| 0 <= c < headers.len() implies #[trigger] headers[c].len() <= w[c] by {
        assert(headers[c] == unicode_header(c));
    }
    law_framed_line_width(Frame::Unicode, headers, w, RowStyle::Header);
    let cells = unicode_cells(entries[k], now);
    lemma_short_cells(entries[k], now);
    assert(rows[k] == cells);
    let shown = if !config.long_paths { cells.update(2, truncated(cells[2], w[2] as nat)) } else { cells };
    assert forall|c: int| 0 <= c < shown.len() implies #[trigger] shown[c].len() <= w[c] by {
        assert(rows[k][c].len() <= content[c]);
        if c == 2 && !config.long_paths {
            law_truncation(cells[2], w[2] as nat);
        }
    }
    law_framed_line_width(Frame::Unicode, shown, w, RowStyle::Data { problem: row_problem(entries[k]) });
}


proof fn lemma_wrapped_block_len(
    f: Frame,
    cells: Seq<Seq<char>>,
    col: int,
    lines: Seq<Seq<char>>,
    k: nat,
    widths: Seq<usize>,
    problem: bool,
)
    requires
        cells.len() == widths.len(),
        0 <= col < cells.len(),
        k <= lines.len(),
        forall|i: int| 0 <= i < cells.len() && i != col ==> #[trigger] cells[i].len() <= widths[i],
        forall|j: int| 0 <= j < lines.len() ==> #[trigger] lines[j].len() <= widths[col],
    ensures
        wrapped_block(f, cells, col, lines, k, widths, false, problem).len() == k * (table_width(widths) + 1),
    decreases k,
{
    if k > 0 {
        lemma_wrapped_block_len(f, cells, col, lines, (k - 1) as nat, widths, problem);
        let line = line_cells(cells, col, lines, k - 1);
        assert forall|i: int| 0 <= i < line.len() implies #[trigger] line[i].len() <= widths[i] by {
            if i != col && k - 1 != lines.len() - 1 {
                assert(line[i] == Seq::<char>::empty());
            }
        }
        law_framed_line_width(f, line, widths, RowStyle::Data { problem });
        let x = table_width(widths) + 1;
        let before = wrapped_block(f, cells, col, lines, (k - 1) as nat, widths, false, problem);
        assert(wrapped_block(f, cells, col, lines, k, widths, false, problem)
            == before + framed_line(f, line, widths, false, RowStyle::Data { problem }));
        assert(before.len() == ((k - 1) as nat) * x);
        assert(k * x == ((k - 1) as nat) * x + x) by (nonlinear_arith)
            requires k > 0;
    } else {
        let x = table_width(widths) + 1;
        assert(k * x == 0) by (nonlinear_arith)
            requires k == 0;
    }
}

/// Without colors and with folder wrapping, an entry whose folder names all
/// fit the path column takes as many lines as its path wraps into, each
/// exactly as wide as the table.
pub proof fn law_unicode_wrapped_lines_line_up(entries: Seq<PathEntry>, config: DisplayConfig, now: int, k: int)
    requires
        entries_fit(entries),
        i128::MIN <= now <= i128::MAX,
        !config.style.use_colors,
        config.folder_wrap,
        0 <= k < entries.len(),
        ({
            let w = unicode_widths(entries, config, now);
            let lines = wrapped_lines(entries[k].path@, w[2] as nat);
            forall|j: int| 0 <= j < lines.len() ==> #[trigger] lines[j].len() <= w[2]
        }),
    ensures
        ({
            let w = unicode_widths(entries, config, now);
            unicode_row_text(unicode_cells(entries[k], now), row_problem(entries[k]), w, config).len()
                == wrapped_lines(entries[k].path@, w[2] as nat).len() * (table_width(w) + 1)
        }),
{
    let rows = unicode_rows(entries, now);
    assert forall|j: int, c: int| 0 <= j < rows.len() && 0 <= c < 9 implies (#[trigger] rows[j][c]).len() <= usize::MAX by {
        lemma_short_cells(entries[j], now);
        assert(entry_fits(entries[j]));
        if c != 2 {
            assert(unicode_cells(entries[j], now)[c].len() <= 64);
        }
    }
    assert forall|j: int| 0 <= j < rows.len() implies (#[trigger] rows[j]).len() == 9 by {
        lemma_short_cells(entries[j], now);
    }
    lemma_content_widths(rows);
    let content = content_widths(rows);
    law_capped_widths(content, config.terminal_width, config.long_paths, config.folder_wrap);
    let w = unicode_widths(entries, config, now);
    let cells = unicode_cells(entries[k], now);
    lemma_short_cells(entries[k], now);
    assert(rows[k] == cells);
    assert forall|i: int| 0 <= i < cells.len() && i != 2 implies #[trigger] cells[i].len() <= w[i] by {
        assert(rows[k][i].len() <= content[i]);
    }
    let lines = wrapped_lines(cells[2], w[2] as nat);
    lemma_wrapped_block_len(Frame::Unicode, cells, 2, lines, lines.len(), w, row_problem(entries[k]));
}


proof fn lemma_max_field_bytes(rows: Seq<DisplayRowView>, f: int)
    requires
        rows_fit(rows),
    ensures
        max_field_bytes(rows, f) <= usize::MAX / 16,
        forall|k: int| 0 <= k < rows.len() ==> byte_len(row_field(#[trigger] rows[k], f)) <= max_field_bytes(rows, f),
    decreases rows.len(),
{
    if rows.len() > 0 {
        let d = rows.drop_last();
        assert(rows_fit(d)) by {
            assert forall|i: int| 0 <= i < d.len() implies row_fits(#[trigger] d[i]) by {
                assert(d[i] == rows[i]);
            }
        }
        lemma_max_field_bytes(d, f);
        assert(row_fits(rows[rows.len() - 1]));
        lemma_field_fits(rows.last(), f);
        assert forall|k: int| 0 <= k < rows.len() implies byte_len(row_field(#[trigger] rows[k], f)) <= max_field_bytes(rows, f) by {
            if k < d.len() {
                assert(d[k] == rows[k]);
            }
        }
    }
}

/// Without colors and without folder wrapping, every line of the compact
/// table is exactly as wide as the table: its rules, its header line and
/// the line of each row.
pub proof fn law_compact_lines_line_up(rows: Seq<DisplayRowView>, config: DisplayConfig, k: int)
    requires
        rows_fit(rows),
        !config.style.use_colors,
        !config.folder_wrap,
        0 <= k < rows.len(),
    ensures
        ({
            let w = compact_widths(rows, config);
            &&& w.len() == 4
            &&& forall|fill: char, left: char, middle: char, right: char|
                #[trigger] rule_line(w, fill, left, middle, right).len() == table_width(w) + 1
            &&& framed_line(Frame::Compact, compact_headers(), w, false, RowStyle::Header).len() == table_width(w) + 1
            &&& compact_row_text(rows[k], w, config).len() == table_width(w) + 1
        }),
{
    let w = compact_widths(rows, config);
    reveal_strlit(" #");
    reveal_strlit("#");
    reveal_strlit("Name");
    reveal_strlit("Size");
    reveal_strlit("Modified");
    lemma_byte_len_bounds(" #"@);
    lemma_byte_len_bounds("Name"@);
    lemma_byte_len_bounds("Size"@);
    lemma_byte_len_bounds("Modified"@);
    lemma_max_field_bytes(rows, 0);
    lemma_max_field_bytes(rows, 1);
    lemma_max_field_bytes(rows, 2);
    lemma_max_field_bytes(rows, 4);
    assert forall|fill: char, left: char, middle: char, right: char|
        #[trigger] rule_line(w, fill, left, middle, right).len() == table_width(w) + 1 by {
        law_rule_line_width(w, fill, left, middle, right);
    }
    let headers = compact_headers();
    assert forall|c: int| 0 <= c < headers.len() implies #[trigger] headers[c].len() <= w[c] by {}
    law_framed_line_width(Frame::Compact, headers, w, RowStyle::Header);
    let r = rows[k];
    let cells = compact_cells(r);
    lemma_byte_len_bounds(r.index);
    lemma_byte_len_bounds(r.name);
    lemma_byte_len_bounds(r.size);
    lemma_byte_len_bounds(r.modified);
    assert(byte_len(row_field(rows[k], 0)) <= max_field_bytes(rows, 0));
    assert(byte_len(row_field(rows[k], 1)) <= max_field_bytes(rows, 1));
    assert(byte_len(row_field(rows[k], 2)) <= max_field_bytes(rows, 2));
    assert(byte_len(row_field(rows[k], 4)) <= max_field_bytes(rows, 4));
    assert forall|c: int| 0 <= c < cells.len() implies #[trigger] cells[c].len() <= w[c] by {}
    law_framed_line_width(Frame::Compact, cells, w, RowStyle::Data { problem: r.problem });
}


proof fn lemma_drop_last_char_escape_free(t: Seq<char>)
    requires
        escape_free(t),
    ensures
        escape_free(drop_last_char(t)),
{
    if t.len() > 0 {
        lemma_escape_free_parts(t, t.len() - 1, ' ', 0);
        assert(t.take(t.len() - 1) =~= t.drop_last());
    }
}

proof fn lemma_unicode_cells_escape_free(e: PathEntry, now: int)
    requires
        escape_free(e.path@),
    ensures
        all_escape_free(unicode_cells(e, now)),
{
    lemma_escape_free_parts(Seq::<char>::empty(), 0, ' ', 0);
    reveal_strlit("Y");
    reveal_strlit("N");
    reveal_strlit("YES");
    reveal_strlit("dir");
    reveal_strlit("file");
    reveal_strlit("other");
    reveal_strlit("missing");
    lemma_decimal_escape_free(e.index as nat);
    lemma_decimal_escape_free(e.executable_count as nat);
    lemma_decimal_escape_free(e.non_executable_count as nat);
    lemma_size_text_escape_free(e.size_bytes as nat);
    lemma_modified_text_escape_free(e.modified, now, false);
    let c = unicode_cells(e, now);
    assert forall|i: int| 0 <= i < c.len() implies escape_free(#[trigger] c[i]) by {
        if i == 0 {} else if i == 1 {} else if i == 2 {} else if i == 3 {} else if i == 4 {}
        else if i == 5 {} else if i == 6 {} else if i == 7 {} else {}
    }
}

proof fn lemma_unicode_body_escape_free(entries: Seq<PathEntry>, now: int, widths: Seq<usize>, config: DisplayConfig, k: nat)
    requires
        !config.style.use_colors,
        k <= entries.len(),
        forall|i: int| 0 <= i < entries.len() ==> escape_free(#[trigger] entries[i].path@),
    ensures
        escape_free(unicode_body(entries, now, widths, config, k)),
    decreases k,
{
    broadcast use lemma_escape_free_add;
    lemma_escape_free_parts(Seq::<char>::empty(), 0, ' ', 0);
    if k > 0 {
        lemma_unicode_body_escape_free(entries, now, widths, config, (k - 1) as nat);
        let e = entries[k - 1];
        assert(escape_free(e.path@));
        lemma_unicode_cells_escape_free(e, now);
        let cells = unicode_cells(e, now);
        if config.folder_wrap {
            lemma_wrapped_row_escape_free(Frame::Unicode, cells, 2, widths, row_problem(e));
        } else {
            let shown = if !config.long_paths { cells.update(2, truncated(cells[2], widths[2] as nat)) } else { cells };
            lemma_truncated_escape_free(cells[2], widths[2] as nat);
            assert forall|i: int| 0 <= i < shown.len() implies escape_free(#[trigger] shown[i]) by {}
            lemma_framed_line_escape_free(Frame::Unicode, shown, widths, RowStyle::Data { problem: row_problem(e) });
        }
    }
}

/// Whether every text of an ASCII row is free of escapes.
pub open spec fn row_escape_free(r: DisplayRowView) -> bool {
    &&& escape_free(r.index)
    &&& escape_free(r.name)
    &&& escape_free(r.size)
    &&& escape_free(r.minimal_size)
    &&& escape_free(r.modified)
}

proof fn lemma_ascii_row_escape_free(e: PathEntry, now: int)
    requires
        escape_free(e.path@),
    ensures
        row_escape_free(ascii_row(e, now)),
{
    broadcast use lemma_escape_free_add, lemma_escape_free_push;
    lemma_escape_free_parts(Seq::<char>::empty(), 0, ' ', 0);
    reveal_strlit("B");
    reveal_strlit("kB");
    reveal_strlit("MB");
    reveal_strlit("GB");
    reveal_strlit("TB");
    lemma_decimal_escape_free(e.index as nat);
    lemma_size_text_escape_free(e.size_bytes as nat);
    lemma_modified_text_escape_free(e.modified, now, true);
}

proof fn lemma_ascii_rows_escape_free(entries: Seq<PathEntry>, now: int)
    requires
        forall|i: int| 0 <= i < entries.len() ==> escape_free(#[trigger] entries[i].path@),
    ensures
        ({
            let rows = Seq::new(entries.len(), |i: int| ascii_row(entries[i], now));
            forall|i: int| 0 <= i < rows.len() ==> row_escape_free(#[trigger] rows[i])
        }),
{
    let rows = Seq::new(entries.len(), |i: int| ascii_row(entries[i], now));
    assert forall|i: int| 0 <= i < rows.len() implies row_escape_free(#[trigger] rows[i]) by {
        assert(escape_free(entries[i].path@));
        lemma_ascii_row_escape_free(entries[i], now);
    }
}

proof fn lemma_compact_body_escape_free(rows: Seq<DisplayRowView>, widths: Seq<usize>, config: DisplayConfig, k: nat)
    requires
        !config.style.use_colors,
        k <= rows.len(),
        forall|i: int| 0 <= i < rows.len() ==> row_escape_free(#[trigger] rows[i]),
    ensures
        escape_free(compact_body(rows, widths, config, k)),
    decreases k,
{
    broadcast use lemma_escape_free_add;
    lemma_escape_free_parts(Seq::<char>::empty(), 0, ' ', 0);
    if k > 0 {
        lemma_compact_body_escape_free(rows, widths, config, (k - 1) as nat);
        let r = rows[k - 1];
        assert(row_escape_free(r));
        let cells = compact_cells(r);
        assert forall|i: int| 0 <= i < cells.len() implies escape_free(#[trigger] cells[i]) by {}
        if config.folder_wrap {
            lemma_wrapped_row_escape_free(Frame::Compact, cells, 1, widths, r.problem);
        } else {
            lemma_framed_line_escape_free(Frame::Compact, cells, widths, RowStyle::Data { problem: r.problem });
        }
    }
}

proof fn lemma_narrow_line_escape_free(r: DisplayRowView, name: Seq<char>, metadata: bool, w: Seq<usize>)
    requires
        row_escape_free(r),
        escape_free(name),
    ensures
        escape_free(narrow_line(r, name, metadata, w, false)),
{
    broadcast use lemma_escape_free_add, lemma_escape_free_push;
    lemma_escape_free_parts(Seq::<char>::empty(), 0, ' ', 0);
    reveal(styled_cell);
    reveal(painted);
    lemma_aligned_escape_free(if metadata { r.index } else { Seq::empty() }, w[0] as nat, Alignment::Right);
    lemma_aligned_escape_free(name, w[1] as nat, Alignment::Left);
    lemma_aligned_escape_free(if metadata { r.size } else { Seq::empty() }, w[2] as nat, Alignment::Right);
}

proof fn lemma_narrow_body_escape_free(rows: Seq<DisplayRowView>, w: Seq<usize>, config: DisplayConfig, k: nat)
    requires
        !config.style.use_colors,
        k <= rows.len(),
        forall|i: int| 0 <= i < rows.len() ==> row_escape_free(#[trigger] rows[i]),
    ensures
        escape_free(narrow_body(rows, w, config, k)),
    decreases k,
{
    broadcast use lemma_escape_free_add;
    lemma_escape_free_parts(Seq::<char>::empty(), 0, ' ', 0);
    if k > 0 {
        lemma_narrow_body_escape_free(rows, w, config, (k - 1) as nat);
        let r = rows[k - 1];
        assert(row_escape_free(r));
        if config.folder_wrap {
            let lines = wrapped_lines(r.name, w[1] as nat);
            lemma_wrapped_lines_escape_free(r.name, w[1] as nat);
            lemma_narrow_block_escape_free(r, lines, lines.len(), w);
        } else {
            lemma_narrow_line_escape_free(r, r.name, true, w);
        }
    }
}

proof fn lemma_narrow_block_escape_free(r: DisplayRowView, lines: Seq<Seq<char>>, k: nat, w: Seq<usize>)
    requires
        row_escape_free(r),
        all_escape_free(lines),
        k <= lines.len(),
    ensures
        escape_free(narrow_block(r, lines, k, w, false)),
    decreases k,
{
    broadcast use lemma_escape_free_add;
    lemma_escape_free_parts(Seq::<char>::empty(), 0, ' ', 0);
    if k > 0 {
        lemma_narrow_block_escape_free(r, lines, (k - 1) as nat, w);
        assert(escape_free(lines[k - 1]));
        lemma_narrow_line_escape_free(r, lines[k - 1], k - 1 == lines.len() - 1, w);
    }
}

proof fn lemma_minimal_line_escape_free(a: Seq<char>, b: Seq<char>, c: Seq<char>, w: Seq<usize>)
    requires
        escape_free(a),
        escape_free(b),
        escape_free(c),
    ensures
        escape_free(minimal_line(a, b, c, w)),
{
    broadcast use lemma_escape_free_add, lemma_escape_free_push;
    lemma_escape_free_parts(Seq::<char>::empty(), 0, ' ', 0);
    lemma_aligned_escape_free(a, w[0] as nat, Alignment::Left);
    lemma_aligned_escape_free(b, w[1] as nat, Alignment::Left);
    lemma_aligned_escape_free(c, w[2] as nat, Alignment::Right);
}

proof fn lemma_minimal_block_escape_free(r: DisplayRowView, lines: Seq<Seq<char>>, k: nat, w: Seq<usize>)
    requires
        row_escape_free(r),
        all_escape_free(lines),
        k <= lines.len(),
    ensures
        escape_free(minimal_block(r, lines, k, w)),
    decreases k,
{
    broadcast use lemma_escape_free_add;
    lemma_escape_free_parts(Seq::<char>::empty(), 0, ' ', 0);
    if k > 0 {
        lemma_minimal_block_escape_free(r, lines, (k - 1) as nat, w);
        assert(escape_free(lines[k - 1]));
        let last = k - 1 == lines.len() - 1;
        lemma_minimal_line_escape_free(
            if last { r.index } else { Seq::empty() },
            lines[k - 1],
            if last { r.minimal_size } else { Seq::empty() },
            w,
        );
    }
}

proof fn lemma_minimal_body_escape_free(rows: Seq<DisplayRowView>, w: Seq<usize>, config: DisplayConfig, k: nat)
    requires
        k <= rows.len(),
        forall|i: int| 0 <= i < rows.len() ==> row_escape_free(#[trigger] rows[i]),
    ensures
        escape_free(minimal_body(rows, w, config, k)),
    decreases k,
{
    broadcast use lemma_escape_free_add;
    lemma_escape_free_parts(Seq::<char>::empty(), 0, ' ', 0);
    if k > 0 {
        lemma_minimal_body_escape_free(rows, w, config, (k - 1) as nat);
        let r = rows[k - 1];
        assert(row_escape_free(r));
        if config.folder_wrap {
            let lines = wrapped_lines(r.name, w[1] as nat);
            lemma_wrapped_lines_escape_free(r.name, w[1] as nat);
            lemma_minimal_block_escape_free(r, lines, lines.len(), w);
        } else {
            lemma_minimal_line_escape_free(r.index, r.name, r.minimal_size, w);
        }
    }
}

proof fn lemma_unicode_table_escape_free(entries: Seq<PathEntry>, config: DisplayConfig, now: int)
    requires
        !config.style.use_colors,
        forall|i: int| 0 <= i < entries.len() ==> escape_free(#[trigger] entries[i].path@),
    ensures
        escape_free(unicode_table(entries, config, now)),
{
    broadcast use lemma_escape_free_add;
    let w = unicode_widths(entries, config, now);
    lemma_rule_line_escape_free(w, '─', '╭', '┬', '╮');
    lemma_rule_line_escape_free(w, '─', '├', '┼', '┤');
    lemma_rule_line_escape_free(w, '─', '╰', '┴', '╯');
    let headers = unicode_headers();
    assert forall|i: int| 0 <= i < headers.len() implies escape_free(#[trigger] headers[i]) by {
        reveal_strlit("#");
        reveal_strlit("OK");
        reveal_strlit("PATH");
        reveal_strlit("TYPE");
        reveal_strlit("BIN");
        reveal_strlit("!BIN");
        reveal_strlit("SIZE");
        reveal_strlit("MODIFIED");
        reveal_strlit("DUP");
        assert(headers[i] == unicode_header(i));
    }
    lemma_framed_line_escape_free(Frame::Unicode, headers, w, RowStyle::Header);
    lemma_unicode_body_escape_free(entries, now, w, config, entries.len());
    lemma_drop_last_char_escape_free(
        rule_line(w, '─', '╭', '┬', '╮')
            + framed_line(Frame::Unicode, headers, w, false, RowStyle::Header)
            + rule_line(w, '─', '├', '┼', '┤')
            + unicode_body(entries, now, w, config, entries.len())
            + rule_line(w, '─', '╰', '┴', '╯'),
    );
}

proof fn lemma_compact_table_escape_free(rows: Seq<DisplayRowView>, config: DisplayConfig)
    requires
        !config.style.use_colors,
        forall|i: int| 0 <= i < rows.len() ==> row_escape_free(#[trigger] rows[i]),
    ensures
        escape_free(compact_table(rows, config)),
{
    broadcast use lemma_escape_free_add;
    let w = compact_widths(rows, config);
    lemma_rule_line_escape_free(w, '-', '+', '+', '+');
    let headers = compact_headers();
    assert forall|i: int| 0 <= i < headers.len() implies escape_free(#[trigger] headers[i]) by {
        reveal_strlit("#");
        reveal_strlit("Name");
        reveal_strlit("Size");
        reveal_strlit("Modified");
    }
    lemma_framed_line_escape_free(Frame::Compact, headers, w, RowStyle::Header);
    lemma_compact_body_escape_free(rows, w, config, rows.len());
    let rule = rule_line(w, '-', '+', '+', '+');
    lemma_drop_last_char_escape_free(
        rule + framed_line(Frame::Compact, headers, w, false, RowStyle::Header) + rule
            + compact_body(rows, w, config, rows.len()) + rule,
    );
}

proof fn lemma_narrow_table_escape_free(rows: Seq<DisplayRowView>, config: DisplayConfig)
    requires
        !config.style.use_colors,
        forall|i: int| 0 <= i < rows.len() ==> row_escape_free(#[trigger] rows[i]),
    ensures
        escape_free(narrow_table(rows, config)),
{
    broadcast use lemma_escape_free_add, lemma_escape_free_push;
    lemma_escape_free_parts(Seq::<char>::empty(), 0, ' ', 0);
    reveal(painted);
    reveal_strlit("#");
    reveal_strlit("Name");
    reveal_strlit("Size");
    let w = narrow_widths(rows, config);
    lemma_aligned_escape_free("#"@, w[0] as nat, Alignment::Right);
    lemma_aligned_escape_free("Name"@, w[1] as nat, Alignment::Left);
    lemma_aligned_escape_free("Size"@, w[2] as nat, Alignment::Right);
    lemma_escape_free_parts(Seq::<char>::empty(), 0, '-', w[0] as nat);
    lemma_escape_free_parts(Seq::<char>::empty(), 0, '-', w[1] as nat);
    lemma_escape_free_parts(Seq::<char>::empty(), 0, '-', w[2] as nat);
    assert(escape_free(narrow_header(w, false)));
    assert(escape_free(narrow_rule(w)));
    lemma_narrow_body_escape_free(rows, w, config, rows.len());
    lemma_drop_last_char_escape_free(narrow_header(w, false) + narrow_rule(w) + narrow_body(rows, w, config, rows.len()));
}

proof fn lemma_minimal_table_escape_free(rows: Seq<DisplayRowView>, config: DisplayConfig)
    requires
        forall|i: int| 0 <= i < rows.len() ==> row_escape_free(#[trigger] rows[i]),
    ensures
        escape_free(minimal_table(rows, config)),
{
    broadcast use lemma_escape_free_add;
    reveal_strlit("#");
    reveal_strlit("Name");
    reveal_strlit("Size");
    let w = minimal_widths(rows, config);
    lemma_minimal_line_escape_free("#"@, "Name"@, "Size"@, w);
    lemma_minimal_body_escape_free(rows, w, config, rows.len());
    lemma_drop_last_char_escape_free(minimal_line("#"@, "Name"@, "Size"@, w) + minimal_body(rows, w, config, rows.len()));
}

proof fn lemma_summary_escape_free(entries: Seq<PathEntry>, style: Style)
    requires
        !style.use_colors,
    ensures
        escape_free(summary_text(entries, style)),
{
    reveal(painted);
    reveal_strlit(" PATH entries | ");
    reveal_strlit(" existing | ");
    reveal_strlit(" missing | ");
    reveal_strlit(" duplicates");
    reveal_strlit(" executable files | ");
    reveal_strlit(" total");
    let existing = count_existing(entries);
    let duplicates = count_duplicates(entries);
    let nl = seq!['\n'];
    lemma_escape_free_parts(Seq::<char>::empty(), 0, '\n', 1);
    assert(nl =~= repeat('\n', 1));
    lemma_decimal_escape_free(entries.len());
    lemma_decimal_escape_free(existing);
    lemma_decimal_escape_free((entries.len() - existing) as nat);
    lemma_decimal_escape_free(duplicates);
    lemma_decimal_escape_free(total_executables(entries));
    lemma_size_text_escape_free(total_size(entries));
    assert(escape_free(" PATH entries | "@));
    assert(escape_free(" existing | "@));
    assert(escape_free(" missing | "@));
    assert(escape_free(" duplicates"@));
    assert(escape_free(" executable files | "@));
    assert(escape_free(" total"@));
    let dup = if duplicates > 0 { painted(false, Paint::Yellow, decimal(duplicates)) } else { decimal(duplicates) };
    assert(dup == decimal(duplicates));
    let t1 = nl + decimal(entries.len());
    lemma_escape_free_add(nl, decimal(entries.len()));
    let t2 = t1 + " PATH entries | "@;
    lemma_escape_free_add(t1, " PATH entries | "@);
    let t3 = t2 + decimal(existing);
    lemma_escape_free_add(t2, decimal(existing));
    let t4 = t3 + " existing | "@;
    lemma_escape_free_add(t3, " existing | "@);
    let t5 = t4 + decimal((entries.len() - existing) as nat);
    lemma_escape_free_add(t4, decimal((entries.len() - existing) as nat));
    let t6 = t5 + " missing | "@;
    lemma_escape_free_add(t5, " missing | "@);
    let t7 = t6 + dup;
    lemma_escape_free_add(t6, dup);
    let t8 = t7 + " duplicates"@;
    lemma_escape_free_add(t7, " duplicates"@);
    let t9 = t8 + nl;
    lemma_escape_free_add(t8, nl);
    let t10 = t9 + decimal(total_executables(entries));
    lemma_escape_free_add(t9, decimal(total_executables(entries)));
    let t11 = t10 + " executable files | "@;
    lemma_escape_free_add(t10, " executable files | "@);
    let t12 = t11 + size_text(total_size(entries));
    lemma_escape_free_add(t11, size_text(total_size(entries)));
    let t13 = t12 + " total"@;
    lemma_escape_free_add(t12, " total"@);
    let t14 = t13 + nl;
    lemma_escape_free_add(t13, nl);
    assert(summary_text(entries, style) == t14);
}

/// With colors off (as `--monochrome` sets them), the table and the summary
/// hold no escape character, so no color code, unless a path holds one.
pub proof fn law_plain_output(entries: Seq<PathEntry>, config: DisplayConfig, now: int)
    requires
        !config.style.use_colors,
        forall|i: int| 0 <= i < entries.len() ==> escape_free(#[trigger] entries[i].path@),
    ensures
        escape_free(table_text(entries, config, now)),
        escape_free(summary_text(entries, config.style)),
{
    if config.use_unicode {
        lemma_unicode_table_escape_free(entries, config, now);
    } else {
        let rows = Seq::new(entries.len(), |i: int| ascii_row(entries[i], now));
        lemma_ascii_rows_escape_free(entries, now);
        match config.ascii_format {
            AsciiFormat::Compact => lemma_compact_table_escape_free(rows, config),
            AsciiFormat::Narrow => lemma_narrow_table_escape_free(rows, config),
            AsciiFormat::Minimal => lemma_minimal_table_escape_free(rows, config),
        }
    }
    lemma_summary_escape_free(entries, config.style);
}


/// Without colors and without folder wrapping, every line of the narrow
/// table (header, dashes and each row) has the same width: the three
/// columns, the two gaps of three spaces, and the line break.
pub proof fn law_narrow_lines_line_up(rows: Seq<DisplayRowView>, config: DisplayConfig, k: int)
    requires
        rows_fit(rows),
        !config.style.use_colors,
        !config.folder_wrap,
        0 <= k < rows.len(),
    ensures
        ({
            let w = narrow_widths(rows, config);
            let n = w[0] + w[1] + w[2] + 7;
            &&& narrow_header(w, false).len() == n
            &&& narrow_rule(w).len() == n
            &&& narrow_row_text(rows[k], w, config).len() == n
        }),
{
    let w = narrow_widths(rows, config);
    reveal(painted);
    reveal(styled_cell);
    reveal_strlit("#");
    reveal_strlit("Name");
    reveal_strlit("Size");
    lemma_byte_len_bounds("#"@);
    lemma_byte_len_bounds("Name"@);
    lemma_byte_len_bounds("Size"@);
    lemma_max_field_bytes(rows, 0);
    lemma_max_field_bytes(rows, 1);
    lemma_max_field_bytes(rows, 2);
    let r = rows[k];
    lemma_byte_len_bounds(r.index);
    lemma_byte_len_bounds(r.name);
    lemma_byte_len_bounds(r.size);
    assert(byte_len(row_field(rows[k], 0)) <= max_field_bytes(rows, 0));
    assert(byte_len(row_field(rows[k], 1)) <= max_field_bytes(rows, 1));
    assert(byte_len(row_field(rows[k], 2)) <= max_field_bytes(rows, 2));
    law_aligned_width("#"@, w[0] as nat, Alignment::Right);
    law_aligned_width("Name"@, w[1] as nat, Alignment::Left);
    law_aligned_width("Size"@, w[2] as nat, Alignment::Right);
    law_aligned_width(r.index, w[0] as nat, Alignment::Right);
    law_aligned_width(r.name, w[1] as nat, Alignment::Left);
    law_aligned_width(r.size, w[2] as nat, Alignment::Right);
}

/// Without folder wrapping, every line of the minimal table (header and each
/// row) has the same width: the three columns, the two gaps of two spaces,
/// and the line break.
pub proof fn law_minimal_lines_line_up(rows: Seq<DisplayRowView>, config: DisplayConfig, k: int)
    requires
        rows_fit(rows),
        !config.folder_wrap,
        0 <= k < rows.len(),
    ensures
        ({
            let w = minimal_widths(rows, config);
            let n = w[0] + w[1] + w[2] + 5;
            &&& minimal_line("#"@, "Name"@, "Size"@, w).len() == n
            &&& minimal_row_text(rows[k], w, config).len() == n
        }),
{
    let w = minimal_widths(rows, config);
    reveal_strlit("#");
    reveal_strlit("Name");
    reveal_strlit("Size");
    lemma_byte_len_bounds("#"@);
    lemma_byte_len_bounds("Name"@);
    lemma_byte_len_bounds("Size"@);
    lemma_max_field_bytes(rows, 0);
    lemma_max_field_bytes(rows, 1);
    lemma_max_field_bytes(rows, 3);
    let r = rows[k];
    lemma_byte_len_bounds(r.index);
    lemma_byte_len_bounds(r.name);
    lemma_byte_len_bounds(r.minimal_size);
    assert(byte_len(row_field(rows[k], 0)) <= max_field_bytes(rows, 0));
    assert(byte_len(row_field(rows[k], 1)) <= max_field_bytes(rows, 1));
    assert(byte_len(row_field(rows[k], 3)) <= max_field_bytes(rows, 3));
    law_aligned_width("#"@, w[0] as nat, Alignment::Left);
    law_aligned_width("Name"@, w[1] as nat, Alignment::Left);
    law_aligned_width("Size"@, w[2] as nat, Alignment::Right);
    law_aligned_width(r.index, w[0] as nat, Alignment::Left);
    law_aligned_width(r.name, w[1] as nat, Alignment::Left);
    law_aligned_width(r.minimal_size, w[2] as nat, Alignment::Right);
}


/// The number of line breaks in a text.
pub open spec fn newline_count(s: Seq<char>) -> nat
    decreases s.len(),
{
    if s.len() == 0 { 0 } else { newline_count(s.drop_last()) + if s.last() == '\n' { 1nat } else { 0nat } }
}

proof fn lemma_newline_count_add(a: Seq<char>, b: Seq<char>)
    ensures
        newline_count(a + b) == newline_count(a) + newline_count(b),
    decreases b.len(),
{
    if b.len() == 0 {
        assert(a + b =~= a);
    } else {
        lemma_newline_count_add(a, b.drop_last());
        assert((a + b).drop_last() =~= a + b.drop_last());
    }
}

proof fn lemma_newline_count_none(s: Seq<char>)
    requires
        !has_char(s, '\n'),
    ensures
        newline_count(s) == 0,
    decreases s.len(),
{
    if s.len() > 0 {
        assert(s[s.len() - 1] == s.last());
        assert(!has_char(s.drop_last(), '\n')) by {
            if has_char(s.drop_last(), '\n') {
                let i = choose|i: int| 0 <= i < s.drop_last().len() && s.drop_last()[i] == '\n';
                assert(s[i] == '\n');
            }
        }
        lemma_newline_count_none(s.drop_last());
    }
}

proof fn lemma_newline_count_repeat(c: char, n: nat)
    requires
        c != '\n',
    ensures
        newline_count(repeat(c, n)) == 0,
    decreases n,
{
    if n > 0 {
        lemma_newline_count_repeat(c, (n - 1) as nat);
        assert(repeat(c, n).drop_last() =~= repeat(c, (n - 1) as nat));
    }
}

proof fn lemma_aligned_newlines(cell: Seq<char>, width: nat, alignment: Alignment)
    ensures
        newline_count(aligned(cell, width, alignment)) == newline_count(cell),
{
    reveal(aligned);
    let p = padding(cell.len(), width);
    lemma_newline_count_repeat(' ', p);
    lemma_newline_count_repeat(' ', p / 2);
    lemma_newline_count_repeat(' ', (p - p / 2) as nat);
    lemma_newline_count_add(cell, repeat(' ', p));
    lemma_newline_count_add(repeat(' ', p), cell);
    lemma_newline_count_add(repeat(' ', p / 2), cell);
    lemma_newline_count_add(repeat(' ', p / 2) + cell, repeat(' ', (p - p / 2) as nat));
}

/// A line of the minimal table from texts without line breaks: some text
/// without line breaks, then one line break.
proof fn lemma_minimal_line_shape(a: Seq<char>, b: Seq<char>, c: Seq<char>, w: Seq<usize>)
    requires
        !has_char(a, '\n'),
        !has_char(b, '\n'),
        !has_char(c, '\n'),
    ensures
        ({
            let line = minimal_line(a, b, c, w);
            &&& line.len() > 1
            &&& line.last() == '\n'
            &&& newline_count(line.drop_last()) == 0
            &&& line.drop_last().last() != '\n'
        }),
{
    lemma_newline_count_none(a);
    lemma_newline_count_none(b);
    lemma_newline_count_none(c);
    let sp = seq![' ', ' '];
    lemma_newline_count_repeat(' ', 2);
    assert(sp =~= repeat(' ', 2));
    let x = aligned(a, w[0] as nat, Alignment::Left);
    let y = aligned(b, w[1] as nat, Alignment::Left);
    let z = aligned(c, w[2] as nat, Alignment::Right);
    lemma_aligned_newlines(a, w[0] as nat, Alignment::Left);
    lemma_aligned_newlines(b, w[1] as nat, Alignment::Left);
    lemma_aligned_newlines(c, w[2] as nat, Alignment::Right);
    let body = x + sp + y + sp + z;
    lemma_newline_count_add(x, sp);
    lemma_newline_count_add(x + sp, y);
    lemma_newline_count_add(x + sp + y, sp);
    lemma_newline_count_add(x + sp + y + sp, z);
    let line = minimal_line(a, b, c, w);
    assert(line =~= body.push('\n'));
    assert(line.drop_last() =~= body);
    assert(body.len() >= 4);
    assert(newline_count(body) == newline_count(body.drop_last()) + if body.last() == '\n' { 1nat } else { 0nat });
}

proof fn lemma_minimal_body_config(rows: Seq<DisplayRowView>, w: Seq<usize>, c1: DisplayConfig, c2: DisplayConfig, k: nat)
    requires
        c1.folder_wrap == c2.folder_wrap,
    ensures
        minimal_body(rows, w, c1, k) == minimal_body(rows, w, c2, k),
    decreases k,
{
    if k > 0 {
        lemma_minimal_body_config(rows, w, c1, c2, (k - 1) as nat);
    }
}

proof fn lemma_minimal_body_lines(rows: Seq<DisplayRowView>, w: Seq<usize>, config: DisplayConfig, k: nat)
    requires
        !config.folder_wrap,
        k <= rows.len(),
        forall|i: int| 0 <= i < rows.len() ==> {
            &&& !has_char(#[trigger] rows[i].index, '\n')
            &&& !has_char(rows[i].name, '\n')
            &&& !has_char(rows[i].minimal_size, '\n')
        },
    ensures
        newline_count(minimal_body(rows, w, config, k)) == k,
    decreases k,
{
    if k > 0 {
        lemma_minimal_body_lines(rows, w, config, (k - 1) as nat);
        let r = rows[k - 1];
        assert(!has_char(r.index, '\n'));
        lemma_minimal_line_shape(r.index, r.name, r.minimal_size, w);
        let line = minimal_line(r.index, r.name, r.minimal_size, w);
        assert(line =~= line.drop_last().push('\n'));
        assert(newline_count(line) == 1);
        lemma_newline_count_add(minimal_body(rows, w, config, (k - 1) as nat), line);
    }
}

/// Minimal output depends only on the rows, on folder wrapping and, with
/// wrapping, on the terminal width: colors, Unicode, the chosen format and
/// long paths change nothing in it, and it holds no escape character when
/// the rows hold none. Without wrapping, when no text of a row holds a line
/// break, it is a header line and one line per row: as many line breaks as
/// rows, and none at the end.
pub proof fn law_minimal_output(rows: Seq<DisplayRowView>, c1: DisplayConfig, c2: DisplayConfig)
    requires
        c1.folder_wrap == c2.folder_wrap,
        c1.folder_wrap ==> c1.terminal_width == c2.terminal_width,
    ensures
        minimal_table(rows, c1) == minimal_table(rows, c2),
        (forall|i: int| 0 <= i < rows.len() ==> row_escape_free(#[trigger] rows[i])) ==> escape_free(minimal_table(rows, c1)),
        (!c1.folder_wrap && forall|i: int| 0 <= i < rows.len() ==> {
            &&& !has_char(#[trigger] rows[i].index, '\n')
            &&& !has_char(rows[i].name, '\n')
            &&& !has_char(rows[i].minimal_size, '\n')
        }) ==> ({
            let t = minimal_table(rows, c1);
            &&& newline_count(t) == rows.len()
            &&& t.len() > 0
            &&& t.last() != '\n'
        }),
{
    let w = minimal_widths(rows, c1);
    assert(w == minimal_widths(rows, c2));
    lemma_minimal_body_config(rows, w, c1, c2, rows.len());
    if forall|i: int| 0 <= i < rows.len() ==> row_escape_free(#[trigger] rows[i]) {
        lemma_minimal_table_escape_free(rows, c1);
    }
    if !c1.folder_wrap && forall|i: int| 0 <= i < rows.len() ==> {
        &&& !has_char(#[trigger] rows[i].index, '\n')
        &&& !has_char(rows[i].name, '\n')
        &&& !has_char(rows[i].minimal_size, '\n')
    } {
        reveal_strlit("#");
        reveal_strlit("Name");
        reveal_strlit("Size");
        let header = minimal_line("#"@, "Name"@, "Size"@, w);
        lemma_minimal_line_shape("#"@, "Name"@, "Size"@, w);
        let n = rows.len();
        let (q, last) = if n == 0 {
            (Seq::<char>::empty(), header)
        } else {
            let r = rows[n - 1];
            (header + minimal_body(rows, w, c1, (n - 1) as nat),
             minimal_line(r.index, r.name, r.minimal_size, w))
        };
        if n == 0 {
            assert(header + minimal_body(rows, w, c1, 0) =~= q + last);
        } else {
            let r = rows[n - 1];
            assert(!has_char(r.index, '\n'));
            lemma_minimal_line_shape(r.index, r.name, r.minimal_size, w);
            assert(header =~= header.drop_last().push('\n'));
            assert(newline_count(header) == 1);
            lemma_minimal_body_lines(rows, w, c1, (n - 1) as nat);
            lemma_newline_count_add(header, minimal_body(rows, w, c1, (n - 1) as nat));
            assert(header + minimal_body(rows, w, c1, n) =~= q + last);
        }
        let t = minimal_table(rows, c1);
        assert(t == (q + last).drop_last());
        assert((q + last).drop_last() =~= q + last.drop_last());
        lemma_newline_count_add(q, last.drop_last());
    }
}


/// Whatever instant the clock gives, the table is the Unicode table when the
/// configuration asks for Unicode, and otherwise the chosen ASCII format
/// drawn from the entries' rows at that instant.
pub proof fn law_table_dispatch(entries: Seq<PathEntry>, config: DisplayConfig, now: int)
    ensures
        config.use_unicode ==> table_text(entries, config, now) == unicode_table(entries, config, now),
        !config.use_unicode ==> ({
            let rows = Seq::new(entries.len(), |i: int| ascii_row(entries[i], now));
            table_text(entries, config, now) == match config.ascii_format {
                AsciiFormat::Compact => compact_table(rows, config),
                AsciiFormat::Narrow => narrow_table(rows, config),
                AsciiFormat::Minimal => minimal_table(rows, config),
            }
        }),
{
}


/// The number of entries that do not exist.
pub open spec fn count_missing(entries: Seq<PathEntry>) -> nat
    decreases entries.len(),
{
    if entries.len() == 0 { 0 } else { count_missing(entries.drop_last()) + if entries.last().exists { 0nat } else { 1nat } }
}

proof fn lemma_existing_and_missing(entries: Seq<PathEntry>)
    ensures
        count_existing(entries) + count_missing(entries) == entries.len(),
    decreases entries.len(),
{
    if entries.len() > 0 {
        lemma_existing_and_missing(entries.drop_last());
    }
}

/// Without colors, the summary's first line counts every entry, then the
/// entries that exist, then those that do not: the existing and the missing
/// counts add up to the number of entries.
pub proof fn law_summary_counts(entries: Seq<PathEntry>, style: Style)
    requires
        !style.use_colors,
    ensures
        count_existing(entries) + count_missing(entries) == entries.len(),
        ({
            let head = seq!['\n'] + decimal(entries.len()) + " PATH entries | "@
                + decimal(count_existing(entries)) + " existing | "@
                + decimal(count_missing(entries)) + " missing | "@;
            summary_text(entries, style).take(head.len() as int) == head
        }),
{
    reveal(painted);
    lemma_existing_and_missing(entries);
    let head = seq!['\n'] + decimal(entries.len()) + " PATH entries | "@
        + decimal(count_existing(entries)) + " existing | "@
        + decimal(count_missing(entries)) + " missing | "@;
    assert((entries.len() - count_existing(entries)) as nat == count_missing(entries));
    let t = summary_text(entries, style);
    assert(exists|rest: Seq<char>| t == head + rest) by {
        let duplicates = count_duplicates(entries);
        let dup = if duplicates > 0 { painted(false, Paint::Yellow, decimal(duplicates)) } else { decimal(duplicates) };
        let rest = dup + " duplicates"@ + seq!['\n'] + decimal(total_executables(entries)) + " executable files | "@
            + size_text(total_size(entries)) + " total"@ + seq!['\n'];
        assert(t =~= head + rest);
    }
    let rest = choose|rest: Seq<char>| t == head + rest;
    assert((head + rest).take(head.len() as int) =~= head);
}

} // verus!
