//! The interactive `PATH` editor: its state and how each key changes it.
//! Drawing and reading keys belong to the application; inserting a path
//! asks the application to look at the file system.

use vstd::prelude::*;
use ratatui::layout::{Constraint, Direction, Layout, Rect};
use crate::path::{EntryType, PathEntry, paths_equal, repeats_earlier, same_path};
use crate::display::{count_duplicates, count_existing, unicode_cells, unicode_row};
use crate::layout::texts;
use crate::path::clock_now;
use crate::text::{push_char, chars_of, decimal, has_char, is_white, push_decimal, push_text, text_has_char, text_string};

verus! {

/// What the editor is reading: keys, a path to insert, or a row number.
#[derive(Debug)]
pub enum InputMode {
    Normal,
    Insert { buffer: String },
    Goto { buffer: String },
}

/// The state of the editor. `table_selection` is the row the table shows as selected.
#[derive(Debug)]
pub struct TuiApp {
    pub entries: Vec<PathEntry>,
    pub selected: usize,
    pub table_selection: Option<usize>,
    pub input_mode: InputMode,
    pub message: String,
    pub export_after_quit: bool,
}

/// What the input mode holds.
pub enum ModeView {
    Normal,
    Insert(Seq<char>),
    Goto(Seq<char>),
}

/// The state of the editor as values.
pub struct TuiView {
    pub entries: Seq<PathEntry>,
    pub selected: usize,
    pub table_selection: Option<usize>,
    pub mode: ModeView,
    pub message: Seq<char>,
    pub export_after_quit: bool,
}

/// The input mode as values.
pub open spec fn mode_view(m: InputMode) -> ModeView {
    match m {
        InputMode::Normal => ModeView::Normal,
        InputMode::Insert { buffer } => ModeView::Insert(buffer@),
        InputMode::Goto { buffer } => ModeView::Goto(buffer@),
    }
}

impl View for TuiApp {
    type V = TuiView;

    open spec fn view(&self) -> TuiView {
        TuiView {
            entries: self.entries@,
            selected: self.selected,
            table_selection: self.table_selection,
            mode: mode_view(self.input_mode),
            message: self.message@,
            export_after_quit: self.export_after_quit,
        }
    }
}

// ---------------------------------------------------------------------------
// The model
// ---------------------------------------------------------------------------

/// The paths of the entries.
pub open spec fn entry_paths(s: Seq<PathEntry>) -> Seq<Seq<char>> {
    s.map_values(|e: PathEntry| e.path@)
}

/// Entries numbered from one in order, each marked as a duplicate when an
/// earlier one names the same path.
pub open spec fn normalized(s: Seq<PathEntry>) -> Seq<PathEntry> {
    Seq::new(s.len(), |i: int| PathEntry {
        index: (i + 1) as usize,
        duplicate: repeats_earlier(entry_paths(s), i),
        ..s[i]
    })
}

/// Whether each entry whose path text repeats an earlier one is marked as a duplicate.
pub open spec fn marks_repeats(s: Seq<PathEntry>) -> bool {
    forall|j: int, k: int|
        #![trigger s[j], s[k]]
        0 <= j < k < s.len() && s[j].path@ == s[k].path@ ==> s[k].duplicate
}

/// Whether no two entries have the same path text.
pub open spec fn distinct_paths(s: Seq<PathEntry>) -> bool {
    forall|j: int, k: int| #![trigger s[j], s[k]] 0 <= j < k < s.len() ==> s[j].path@ != s[k].path@
}

/// The selection kept within the rows (0 without rows).
pub open spec fn clamped(selected: usize, len: nat) -> usize {
    let last: nat = if len > 0 { (len - 1) as nat } else { 0 };
    if selected <= last { selected } else { last as usize }
}

/// The table shows the selected row, or none without rows.
pub open spec fn synced(v: TuiView) -> TuiView {
    TuiView { table_selection: if v.entries.len() == 0 { None } else { Some(v.selected) }, ..v }
}

/// The state with entries numbered and marked, the selection kept within the rows, the table in step.
pub open spec fn normalize_view(v: TuiView) -> TuiView {
    synced(TuiView { entries: normalized(v.entries), selected: clamped(v.selected, v.entries.len()), ..v })
}

/// Whether the state is consistent: entries numbered and marked, the
/// selection within the rows, and the table showing it.
pub open spec fn well_formed(v: TuiView) -> bool {
    &&& v.entries == normalized(v.entries)
    &&& v.selected == clamped(v.selected, v.entries.len())
    &&& v.table_selection == (if v.entries.len() == 0 { None } else { Some(v.selected) })
}

/// Selecting the previous row (staying on the first).
pub open spec fn select_previous_view(v: TuiView) -> TuiView {
    if v.entries.len() == 0 { v } else { synced(TuiView { selected: if v.selected > 0 { (v.selected - 1) as usize } else { 0 }, ..v }) }
}

/// Selecting the next row (staying on the last).
pub open spec fn select_next_view(v: TuiView) -> TuiView {
    if v.entries.len() == 0 {
        v
    } else {
        let next = v.selected + 1;
        let last = v.entries.len() - 1;
        synced(TuiView { selected: (if next <= last { next } else { last }) as usize, ..v })
    }
}

/// Selecting the first row.
pub open spec fn select_first_view(v: TuiView) -> TuiView {
    synced(TuiView { selected: 0, ..v })
}

/// Selecting the last row.
pub open spec fn select_last_view(v: TuiView) -> TuiView {
    synced(TuiView { selected: (if v.entries.len() > 0 { v.entries.len() - 1 } else { 0 }) as usize, ..v })
}

/// The entries with those at `i` and `j` exchanged.
pub open spec fn swapped(s: Seq<PathEntry>, i: int, j: int) -> Seq<PathEntry> {
    s.update(i, s[j]).update(j, s[i])
}

/// Moving the selected row up one place, the selection with it.
pub open spec fn move_up_view(v: TuiView) -> TuiView {
    if v.selected == 0 || v.entries.len() < 2 {
        v
    } else {
        let moved = normalize_view(TuiView {
            entries: swapped(v.entries, v.selected as int, v.selected - 1),
            selected: (v.selected - 1) as usize,
            ..v
        });
        TuiView { message: "Moved row up."@, ..moved }
    }
}

/// Moving the selected row down one place, the selection with it.
pub open spec fn move_down_view(v: TuiView) -> TuiView {
    if v.selected + 1 >= v.entries.len() {
        v
    } else {
        let moved = normalize_view(TuiView {
            entries: swapped(v.entries, v.selected as int, v.selected + 1),
            selected: (v.selected + 1) as usize,
            ..v
        });
        TuiView { message: "Moved row down."@, ..moved }
    }
}

/// Removing the selected row.
pub open spec fn remove_selected_view(v: TuiView) -> TuiView {
    if v.entries.len() == 0 {
        v
    } else {
        let rest = v.entries.remove(v.selected as int);
        let removed = normalize_view(TuiView { entries: rest, selected: clamped(v.selected, rest.len()), ..v });
        TuiView { message: "Removed "@ + v.entries[v.selected as int].path@ + "."@, ..removed }
    }
}

/// The ways of removing rows in bulk.
#[derive(Clone, Copy, Debug, PartialEq, Eq, Structural)]
pub enum Cleanup {
    Duplicates,
    Missing,
    NonDirectories,
    Problems,
}

/// Whether `kept` already holds an entry with the same path as `e`.
pub open spec fn seen_before(kept: Seq<PathEntry>, e: PathEntry) -> bool {
    exists|j: int| 0 <= j < kept.len() && same_path(kept[j].path@, e.path@)
}

/// Whether a cleanup keeps `e` after having kept `kept`.
pub open spec fn keeps(rule: Cleanup, kept: Seq<PathEntry>, e: PathEntry) -> bool {
    match rule {
        Cleanup::Duplicates => !seen_before(kept, e),
        Cleanup::Missing => e.exists,
        Cleanup::NonDirectories => e.entry_type == EntryType::Directory,
        Cleanup::Problems => e.exists && e.entry_type == EntryType::Directory && !seen_before(kept, e),
    }
}

/// The entries that a cleanup keeps, in order.
pub open spec fn retained(s: Seq<PathEntry>, rule: Cleanup) -> Seq<PathEntry>
    decreases s.len(),
{
    if s.len() == 0 {
        Seq::empty()
    } else {
        let kept = retained(s.drop_last(), rule);
        if keeps(rule, kept, s.last()) { kept.push(s.last()) } else { kept }
    }
}

/// The word that the message of a cleanup uses for the rows it removes.
pub open spec fn cleanup_label(rule: Cleanup) -> Seq<char> {
    match rule {
        Cleanup::Duplicates => "duplicate"@,
        Cleanup::Missing => "missing"@,
        Cleanup::NonDirectories => "non-directory"@,
        Cleanup::Problems => "problem"@,
    }
}

/// A cleanup: the rows it keeps, renumbered, and a message with the number removed.
pub open spec fn cleanup_view(v: TuiView, rule: Cleanup) -> TuiView {
    let rest = retained(v.entries, rule);
    let after = normalize_view(TuiView { entries: rest, selected: clamped(v.selected, rest.len()), ..v });
    TuiView {
        message: "Removed "@ + decimal((v.entries.len() - rest.len()) as nat) + seq![' '] + cleanup_label(rule) + " row(s)."@,
        ..after
    }
}

/// Inserting an entry after the selected row (first without rows) and selecting it.
pub open spec fn insert_entry_view(v: TuiView, entry: PathEntry) -> TuiView {
    let at: int = if v.entries.len() == 0 { 0 } else { v.selected + 1 };
    let inserted = normalize_view(TuiView { entries: v.entries.insert(at, entry), selected: at as usize, ..v });
    TuiView { message: "Inserted directory."@, ..inserted }
}

// ---------------------------------------------------------------------------
// Row numbers
// ---------------------------------------------------------------------------

/// Whether `c` is an ASCII decimal digit.
pub open spec fn is_digit(c: char) -> bool {
    '0' <= c && c <= '9'
}

/// The value of a text of decimal digits.
pub open spec fn digits_value(s: Seq<char>) -> nat
    decreases s.len(),
{
    if s.len() == 0 { 0 } else { digits_value(s.drop_last()) * 10 + ((s.last() as u32) - 48) as nat }
}

/// The digits of a number text: what follows an optional leading `+`.
pub open spec fn unsigned_digits(s: Seq<char>) -> Seq<char> {
    if s.len() > 0 && s[0] == '+' { s.skip(1) } else { s }
}

/// How `from_str` of an unsigned integer type with largest value `max` reads a
/// text: an optional `+`, then at least one decimal digit and nothing else,
/// with a value of at most `max`.
pub open spec fn parsed_unsigned(s: Seq<char>, max: nat) -> Option<nat> {
    let digits = unsigned_digits(s);
    if digits.len() > 0 && (forall|i: int| 0 <= i < digits.len() ==> is_digit(#[trigger] digits[i]))
        && digits_value(digits) <= max {
        Some(digits_value(digits))
    } else {
        None
    }
}

/// How `usize::from_str` reads a row number.
pub open spec fn parsed_row(s: Seq<char>) -> Option<usize> {
    match parsed_unsigned(s, usize::MAX as nat) {
        Some(n) => Some(n as usize),
        None => None,
    }
}

/// Jumping to a row given by its number from one, or saying why not.
pub open spec fn goto_view(v: TuiView, value: Seq<char>) -> TuiView {
    match parsed_row(value) {
        None => TuiView { message: "Invalid row number."@, ..v },
        Some(n) => if n == 0 || n > v.entries.len() {
            TuiView { message: "Row must be between 1 and "@ + decimal(v.entries.len()) + "."@, ..v }
        } else {
            TuiView { message: "Selected row "@ + decimal(n as nat) + "."@, ..synced(TuiView { selected: (n - 1) as usize, ..v }) }
        },
    }
}

// ---------------------------------------------------------------------------
// Exporting
// ---------------------------------------------------------------------------

/// The character that separates the paths of `PATH`: `;` on Windows, `:` elsewhere.
pub open spec fn path_separator(windows: bool) -> char {
    if windows { ';' } else { ':' }
}

/// The character that no path of `PATH` may hold: `"` on Windows, `:` elsewhere.
pub open spec fn unjoinable_char(windows: bool) -> char {
    if windows { '"' } else { ':' }
}

/// How one path is written into `PATH`: on Windows a path that holds the
/// separator `;` is put in double quotes; otherwise the path itself.
pub open spec fn joined_item(p: Seq<char>, windows: bool) -> Seq<char> {
    if windows && has_char(p, ';') { seq!['"'] + p + seq!['"'] } else { p }
}

/// The paths written into `PATH` one after the other, with the separator between them.
pub open spec fn joined_paths(s: Seq<PathEntry>, windows: bool) -> Seq<char>
    decreases s.len(),
{
    if s.len() == 0 {
        Seq::empty()
    } else if s.len() == 1 {
        joined_item(s[0].path@, windows)
    } else {
        joined_paths(s.drop_last(), windows) + seq![path_separator(windows)] + joined_item(s.last().path@, windows)
    }
}

/// The shell line that sets `PATH` to the entries, joined for the platform
/// (`windows` tells which) as `std::env::join_paths` joins them; the value is
/// empty when a path holds a character that cannot be joined.
pub open spec fn export_text(s: Seq<PathEntry>, windows: bool) -> Seq<char> {
    let joinable = forall|i: int| 0 <= i < s.len() ==> !has_char(#[trigger] s[i].path@, unjoinable_char(windows));
    "export PATH=\""@ + (if joinable { joined_paths(s, windows) } else { Seq::empty() }) + "\""@
}

fn literal(s: &str) -> (r: String)
    ensures
        r@ == s@,
{
    let t = chars_of(s);
    text_string(&t)
}

impl TuiApp {
    /// The editor over the entries, numbered and marked, the first row selected.
    pub fn new(entries: Vec<PathEntry>) -> (app: TuiApp)
        ensures
            app@ == normalize_view(TuiView {
                entries: entries@,
                selected: 0,
                table_selection: None,
                mode: ModeView::Normal,
                message: "Use arrows or j/k to move. Press ? for keys."@,
                export_after_quit: false,
            }),
            marks_repeats(app.entries@),
    {
        let mut app = TuiApp {
            entries,
            selected: 0,
            table_selection: None,
            input_mode: InputMode::Normal,
            message: literal("Use arrows or j/k to move. Press ? for keys."),
            export_after_quit: false,
        };
        app.normalize();
        app
    }

    fn sync_table_state(&mut self)
        ensures
            final(self)@ == synced(old(self)@),
    {
        if self.entries.len() == 0 {
            self.table_selection = None;
        } else {
            self.table_selection = Some(self.selected);
        }
    }

    fn normalize(&mut self)
        ensures
            final(self)@ == normalize_view(old(self)@),
            marks_repeats(final(self).entries@),
    {
        let ghost start = self.entries@;
        let mut rest: Vec<PathEntry> = Vec::new();
        std::mem::swap(&mut rest, &mut self.entries);
        let n = rest.len();
        let mut i: usize = 0;
        while i < n
            invariant
                n == start.len(),
                i <= n,
                rest@ =~= start.skip(i as int),
                self.entries@ =~= normalized(start).take(i as int),
                forall|j: int, k: int|
                    #![trigger start[j], start[k]]
                    0 <= j < k < i && start[j].path@ == start[k].path@ ==> self.entries@[k].duplicate,
                self.selected == old(self).selected,
                self.table_selection == old(self).table_selection,
                self.input_mode == old(self).input_mode,
                self.message == old(self).message,
                self.export_after_quit == old(self).export_after_quit,
            decreases n - i,
        {
            let mut e = rest.remove(0);
            assert(e == start[i as int]);
            let mut duplicate = false;
            let mut j: usize = 0;
            while j < i
                invariant
                    j <= i,
                    i < n,
                    n == start.len(),
                    e == start[i as int],
                    self.entries@ =~= normalized(start).take(i as int),
                    duplicate == (exists|k: int| 0 <= k < j && same_path(entry_paths(start)[k], entry_paths(start)[i as int])),
                    forall|k: int| #![trigger start[k]] 0 <= k < j && start[k].path@ == start[i as int].path@ ==> duplicate,
                    forall|j2: int, k: int|
                        #![trigger start[j2], start[k]]
                        0 <= j2 < k < i && start[j2].path@ == start[k].path@ ==> self.entries@[k].duplicate,
                decreases i - j,
            {
                assert(self.entries@[j as int].path == start[j as int].path);
                let same = paths_equal(self.entries[j].path.as_str(), e.path.as_str());
                assert(start[j as int].path@ == start[j as int].path@);
                proof {
                    if same {
                        assert(0 <= j < j + 1 && same_path(entry_paths(start)[j as int], entry_paths(start)[i as int]));
                    }
                }
                duplicate = duplicate || same;
                j = j + 1;
            }
            e.index = i + 1;
            e.duplicate = duplicate;
            let ghost before = self.entries@;
            self.entries.push(e);
            proof {
                assert(normalized(start).take(i + 1) =~= normalized(start).take(i as int).push(normalized(start)[i as int]));
                assert forall|j2: int, k: int|
                    #![trigger start[j2], start[k]]
                    0 <= j2 < k < i + 1 && start[j2].path@ == start[k].path@ implies self.entries@[k].duplicate by {
                    if k < i {
                        assert(self.entries@[k] == before[k]);
                    }
                }
            }
            i = i + 1;
        }
        assert(normalized(start).take(n as int) =~= normalized(start));
        assert forall|j: int, k: int|
            #![trigger self.entries@[j], self.entries@[k]]
            0 <= j < k < self.entries@.len() && self.entries@[j].path@ == self.entries@[k].path@
            implies self.entries@[k].duplicate by {
            assert(self.entries@[j].path == start[j].path && self.entries@[k].path == start[k].path);
            assert(start[j].path@ == start[k].path@);
        }
        let last = if self.entries.len() > 0 { self.entries.len() - 1 } else { 0 };
        if self.selected > last {
            self.selected = last;
        }
        self.sync_table_state();
    }

    /// Selects the previous row.
    pub fn select_previous(&mut self)
        ensures
            final(self)@ == select_previous_view(old(self)@),
    {
        if self.entries.len() == 0 {
            return;
        }
        self.selected = if self.selected > 0 { self.selected - 1 } else { 0 };
        self.sync_table_state();
    }

    /// Selects the next row.
    pub fn select_next(&mut self)
        requires
            old(self).entries.len() == 0 || old(self).selected < usize::MAX,
        ensures
            final(self)@ == select_next_view(old(self)@),
    {
        if self.entries.len() == 0 {
            return;
        }
        let next = self.selected + 1;
        let last = self.entries.len() - 1;
        self.selected = if next <= last { next } else { last };
        self.sync_table_state();
    }

    /// Selects the first row.
    pub fn select_first(&mut self)
        ensures
            final(self)@ == select_first_view(old(self)@),
    {
        self.selected = 0;
        self.sync_table_state();
    }

    /// Selects the last row.
    pub fn select_last(&mut self)
        ensures
            final(self)@ == select_last_view(old(self)@),
    {
        self.selected = if self.entries.len() > 0 { self.entries.len() - 1 } else { 0 };
        self.sync_table_state();
    }

    /// Moves the selected row up by one.
    pub fn move_selected_up(&mut self)
        requires
            old(self).selected == 0 || old(self).entries.len() < 2 || old(self).selected < old(self).entries.len(),
        ensures
            final(self)@ == move_up_view(old(self)@),
    {
        if self.selected == 0 || self.entries.len() < 2 {
            return;
        }
        let ghost before = self.entries@;
        let s = self.selected;
        let e = self.entries.remove(s);
        self.entries.insert(s - 1, e);
        assert(self.entries@ =~= swapped(before, s as int, s - 1));
        self.selected = s - 1;
        self.normalize();
        self.message = literal("Moved row up.");
    }

    /// Moves the selected row down by one.
    pub fn move_selected_down(&mut self)
        requires
            old(self).selected < usize::MAX,
        ensures
            final(self)@ == move_down_view(old(self)@),
    {
        if self.selected + 1 >= self.entries.len() {
            return;
        }
        let ghost before = self.entries@;
        let s = self.selected;
        let e = self.entries.remove(s + 1);
        self.entries.insert(s, e);
        assert(self.entries@ =~= swapped(before, s as int, s + 1));
        self.selected = s + 1;
        self.normalize();
        self.message = literal("Moved row down.");
    }

    /// Removes the selected row.
    pub fn remove_selected(&mut self)
        requires
            old(self).entries.len() == 0 || old(self).selected < old(self).entries.len(),
        ensures
            final(self)@ == remove_selected_view(old(self)@),
            old(self).entries.len() > 0 ==> marks_repeats(final(self).entries@),
    {
        if self.entries.len() == 0 {
            return;
        }
        let removed = self.entries.remove(self.selected);
        let last = if self.entries.len() > 0 { self.entries.len() - 1 } else { 0 };
        if self.selected > last {
            self.selected = last;
        }
        self.normalize();
        let mut text = chars_of("Removed ");
        let path = chars_of(removed.path.as_str());
        push_text(&mut text, &path);
        let dot = chars_of(".");
        push_text(&mut text, &dot);
        self.message = text_string(&text);
    }

    /// Inserts an entry after the selected row (first when there are none) and selects it.
    pub fn insert_entry(&mut self, entry: PathEntry)
        requires
            old(self).entries.len() == 0 || old(self).selected < old(self).entries.len(),
        ensures
            final(self)@ == insert_entry_view(old(self)@, entry),
            marks_repeats(final(self).entries@),
    {
        let at = if self.entries.len() == 0 { 0 } else { self.selected + 1 };
        self.entries.insert(at, entry);
        self.selected = at;
        self.normalize();
        self.message = literal("Inserted directory.");
    }

    /// Rejects the insertion of a path that is not an existing directory.
    pub fn reject_insert(&mut self, path: &str)
        ensures
            final(self)@ == (TuiView {
                message: "Insert rejected: "@ + path@ + " is not an existing directory."@,
                ..old(self)@
            }),
    {
        let mut text = chars_of("Insert rejected: ");
        let p = chars_of(path);
        push_text(&mut text, &p);
        let tail = chars_of(" is not an existing directory.");
        push_text(&mut text, &tail);
        self.message = text_string(&text);
    }

    fn bulk_remove(&mut self, rule: Cleanup)
        ensures
            final(self)@ == cleanup_view(old(self)@, rule),
            marks_repeats(final(self).entries@),
            (rule == Cleanup::Duplicates || rule == Cleanup::Problems) ==> distinct_paths(final(self).entries@),
    {
        let ghost start = self.entries@;
        let before = self.entries.len();
        let mut rest: Vec<PathEntry> = Vec::new();
        std::mem::swap(&mut rest, &mut self.entries);
        let mut i: usize = 0;
        while i < before
            invariant
                before == start.len(),
                i <= before,
                rest@ =~= start.skip(i as int),
                self.entries@ =~= retained(start.take(i as int), rule),
                self.entries@.len() <= i,
                (rule == Cleanup::Duplicates || rule == Cleanup::Problems) ==> distinct_paths(self.entries@),
                self.selected == old(self).selected,
                self.table_selection == old(self).table_selection,
                self.input_mode == old(self).input_mode,
                self.message == old(self).message,
                self.export_after_quit == old(self).export_after_quit,
            decreases before - i,
        {
            let e = rest.remove(0);
            assert(e == start[i as int]);
            let ghost kept = self.entries@;
            let mut seen = false;
            if rule == Cleanup::Duplicates || (rule == Cleanup::Problems && e.exists && e.entry_type == EntryType::Directory) {
                let mut j: usize = 0;
                while j < self.entries.len()
                    invariant
                        j <= self.entries.len(),
                        self.entries@ == kept,
                        seen == (exists|k: int| 0 <= k < j && same_path(kept[k].path@, e.path@)),
                        !seen ==> forall|k: int| #![trigger kept[k]] 0 <= k < j ==> kept[k].path@ != e.path@,
                    decreases self.entries.len() - j,
                {
                    let same = paths_equal(self.entries[j].path.as_str(), e.path.as_str());
                    proof {
                        if same {
                            assert(0 <= j < j + 1 && same_path(kept[j as int].path@, e.path@));
                        }
                        assert(kept[j as int].path@ == self.entries@[j as int].path@);
                    }
                    seen = seen || same;
                    j = j + 1;
                }
            }
            let keep = match rule {
                Cleanup::Duplicates => !seen,
                Cleanup::Missing => e.exists,
                Cleanup::NonDirectories => e.entry_type == EntryType::Directory,
                Cleanup::Problems => e.exists && e.entry_type == EntryType::Directory && !seen,
            };
            proof {
                assert(start.take(i + 1).drop_last() =~= start.take(i as int));
                assert(start.take(i + 1).last() == e);
                assert(keep == keeps(rule, kept, e));
            }
            let ghost before_push = self.entries@;
            if keep {
                self.entries.push(e);
                proof {
                    if rule == Cleanup::Duplicates || rule == Cleanup::Problems {
                        assert forall|j: int, k: int|
                            #![trigger self.entries@[j], self.entries@[k]]
                            0 <= j < k < self.entries@.len() implies self.entries@[j].path@ != self.entries@[k].path@ by {
                            assert(self.entries@[j] == before_push[j]);
                            if k < before_push.len() {
                                assert(self.entries@[k] == before_push[k]);
                            } else {
                                assert(kept[j].path@ != e.path@);
                            }
                        }
                    }
                }
            }
            i = i + 1;
        }
        assert(start.take(before as int) =~= start);
        let last = if self.entries.len() > 0 { self.entries.len() - 1 } else { 0 };
        if self.selected > last {
            self.selected = last;
        }
        let ghost kept_rows = self.entries@;
        self.normalize();
        assert(forall|k: int| 0 <= k < kept_rows.len() ==> #[trigger] self.entries@[k].path == kept_rows[k].path);
        let mut text = chars_of("Removed ");
        push_decimal(&mut text, (before - self.entries.len()) as u128);
        text.push(' ');
        let label = match rule {
            Cleanup::Duplicates => chars_of("duplicate"),
            Cleanup::Missing => chars_of("missing"),
            Cleanup::NonDirectories => chars_of("non-directory"),
            Cleanup::Problems => chars_of("problem"),
        };
        push_text(&mut text, &label);
        let tail = chars_of(" row(s).");
        push_text(&mut text, &tail);
        assert(text@ =~= "Removed "@ + decimal((start.len() - retained(start, rule).len()) as nat) + seq![' '] + cleanup_label(rule) + " row(s)."@);
        self.message = text_string(&text);
    }

    /// Removes the rows whose path an earlier row already names.
    pub fn remove_duplicates(&mut self)
        ensures
            final(self)@ == cleanup_view(old(self)@, Cleanup::Duplicates),
            distinct_paths(final(self).entries@),
            marks_repeats(final(self).entries@),
    {
        self.bulk_remove(Cleanup::Duplicates);
    }

    /// Removes the rows that do not exist.
    pub fn remove_missing(&mut self)
        ensures
            final(self)@ == cleanup_view(old(self)@, Cleanup::Missing),
            marks_repeats(final(self).entries@),
    {
        self.bulk_remove(Cleanup::Missing);
    }

    /// Removes the rows that are not directories.
    pub fn remove_non_directories(&mut self)
        ensures
            final(self)@ == cleanup_view(old(self)@, Cleanup::NonDirectories),
            marks_repeats(final(self).entries@),
    {
        self.bulk_remove(Cleanup::NonDirectories);
    }

    /// Keeps only existing directories, each path once.
    pub fn cleanup(&mut self)
        ensures
            final(self)@ == cleanup_view(old(self)@, Cleanup::Problems),
            distinct_paths(final(self).entries@),
            marks_repeats(final(self).entries@),
    {
        self.bulk_remove(Cleanup::Problems);
    }
}

// ---------------------------------------------------------------------------
// Reading numbers and trimming
// ---------------------------------------------------------------------------

proof fn lemma_digits_value_grows(s: Seq<char>, k: int)
    requires
        0 <= k <= s.len(),
        forall|i: int| 0 <= i < s.len() ==> is_digit(#[trigger] s[i]),
    ensures
        digits_value(s.take(k)) <= digits_value(s),
    decreases s.len() - k,
{
    if k < s.len() {
        lemma_digits_value_grows(s, k + 1);
        assert(s.take(k + 1).drop_last() =~= s.take(k));
        assert(is_digit(s[k]));
    } else {
        assert(s.take(k) =~= s);
    }
}

/// Reads an unsigned number as `from_str` does, up to `max`.
pub fn parse_unsigned(text: &str, max: u128) -> (r: Option<u128>)
    requires
        max >= 9,
    ensures
        r == (match parsed_unsigned(text@, max as nat) { Some(n) => Some(n as u128), None => None::<u128> }),
{
    let s = chars_of(text);
    let start: usize = if s.len() > 0 && s[0] == '+' { 1 } else { 0 };
    let ghost digits = unsigned_digits(s@);
    assert(digits =~= s@.skip(start as int));
    if start >= s.len() {
        return None;
    }
    let mut i: usize = start;
    while i < s.len()
        invariant
            start <= i <= s.len(),
            s@ == text@,
            digits == unsigned_digits(text@),
            digits =~= s@.skip(start as int),
            forall|k: int| start <= k < i ==> is_digit(#[trigger] s@[k]),
        decreases s.len() - i,
    {
        if !('0' <= s[i] && s[i] <= '9') {
            assert(!is_digit(digits[i - start]));
            return None;
        }
        i = i + 1;
    }
    assert forall|k: int| 0 <= k < digits.len() implies is_digit(#[trigger] digits[k]) by {
        assert(digits[k] == s@[k + start]);
    }
    let mut acc: u128 = 0;
    let mut j: usize = start;
    while j < s.len()
        invariant
            start <= j <= s.len(),
            s@ == text@,
            max >= 9,
            digits == unsigned_digits(text@),
            digits =~= s@.skip(start as int),
            forall|k: int| 0 <= k < digits.len() ==> is_digit(#[trigger] digits[k]),
            acc == digits_value(digits.take(j - start)),
            acc <= max,
        decreases s.len() - j,
    {
        proof {
            assert(digits.take(j - start + 1).drop_last() =~= digits.take(j - start));
            assert(digits[j - start] == s@[j as int]);
            assert(is_digit(digits[j - start]));
            lemma_digits_value_grows(digits, j - start + 1);
        }
        let d = (s[j] as u32 - 48) as u128;
        if acc > (max - d) / 10 {
            assert(acc * 10 + d > max) by (nonlinear_arith)
                requires acc > (max - d) / 10, d <= max || d > max;
            return None;
        }
        assert(acc * 10 + d <= max) by (nonlinear_arith)
            requires acc <= (max - d) / 10, d <= 9;
        acc = acc * 10 + d;
        j = j + 1;
    }
    assert(digits.take(s.len() - start) =~= digits);
    Some(acc)
}

/// The text without its leading white space.
pub open spec fn trim_start(s: Seq<char>) -> Seq<char>
    decreases s.len(),
{
    if s.len() > 0 && is_white(s[0]) { trim_start(s.drop_first()) } else { s }
}

/// The text without its trailing white space.
pub open spec fn trim_end(s: Seq<char>) -> Seq<char>
    decreases s.len(),
{
    if s.len() > 0 && is_white(s.last()) { trim_end(s.drop_last()) } else { s }
}

/// A text without its leading and trailing white space (what `str::trim` gives).
pub open spec fn trimmed(s: Seq<char>) -> Seq<char> {
    trim_end(trim_start(s))
}

proof fn lemma_trim_start_skip(s: Seq<char>, k: int)
    requires
        0 <= k <= s.len(),
        forall|i: int| 0 <= i < k ==> is_white(#[trigger] s[i]),
    ensures
        trim_start(s) == trim_start(s.skip(k)),
    decreases k,
{
    if k > 0 {
        assert(s.skip(1) =~= s.drop_first());
        lemma_trim_start_skip(s.drop_first(), k - 1);
        assert(s.drop_first().skip(k - 1) =~= s.skip(k));
    } else {
        assert(s.skip(0) =~= s);
    }
}

proof fn lemma_trim_end_take(s: Seq<char>, k: int)
    requires
        0 <= k <= s.len(),
        forall|i: int| k <= i < s.len() ==> is_white(#[trigger] s[i]),
    ensures
        trim_end(s) == trim_end(s.take(k)),
    decreases s.len() - k,
{
    if k < s.len() {
        assert(is_white(s.last()));
        lemma_trim_end_take(s.drop_last(), k);
        assert(s.drop_last().take(k) =~= s.take(k));
    } else {
        assert(s.take(k) =~= s);
    }
}

/// The text without leading and trailing white space.
pub fn trim_text(s: &Vec<char>) -> (r: Vec<char>)
    ensures
        r@ == trimmed(s@),
{
    let mut a: usize = 0;
    while a < s.len() && crate::text::char_is_white(s[a])
        invariant
            a <= s.len(),
            forall|i: int| 0 <= i < a ==> is_white(#[trigger] s@[i]),
        decreases s.len() - a,
    {
        a = a + 1;
    }
    proof {
        lemma_trim_start_skip(s@, a as int);
    }
    let ghost rest = s@.skip(a as int);
    assert(a < s.len() ==> !is_white(rest[0]));
    assert(trim_start(rest) == rest);
    let mut b: usize = s.len();
    while b > a && crate::text::char_is_white(s[b - 1])
        invariant
            a <= b <= s.len(),
            forall|i: int| b <= i < s.len() ==> is_white(#[trigger] s@[i]),
        decreases b - a,
    {
        b = b - 1;
    }
    proof {
        let t = rest;
        lemma_trim_end_take(t, b - a);
        let u = t.take(b - a);
        if u.len() > 0 {
            assert(u.last() == s@[b - 1]);
        }
    }
    let mut out: Vec<char> = Vec::new();
    let mut i: usize = a;
    while i < b
        invariant
            a <= i <= b,
            b <= s.len(),
            out@ =~= s@.subrange(a as int, i as int),
        decreases b - i,
    {
        out.push(s[i]);
        i = i + 1;
    }
    assert(out@ =~= rest.take(b - a));
    out
}

// ---------------------------------------------------------------------------
// Keys
// ---------------------------------------------------------------------------

/// The keys the editor tells apart.
#[derive(Clone, Copy, Debug, PartialEq, Eq, Structural)]
pub enum KeyCode {
    Esc,
    Enter,
    Backspace,
    Up,
    Down,
    Home,
    End,
    Delete,
    Char(char),
    Other,
}

/// A key press; `control` tells that Control, and no other modifier, is held.
#[derive(Clone, Copy, Debug, PartialEq, Eq, Structural)]
pub struct KeyInput {
    pub code: KeyCode,
    pub control: bool,
}

/// What the application does after a key: go on, quit, or look whether the
/// path is an existing directory to insert.
#[derive(Debug)]
pub enum KeyOutcome {
    Continue,
    Quit,
    InsertPath(String),
}

/// What the application does after a key, as values.
pub enum OutcomeView {
    Continue,
    Quit,
    InsertPath(Seq<char>),
}

/// The outcome of a key as values.
pub open spec fn outcome_view(o: KeyOutcome) -> OutcomeView {
    match o {
        KeyOutcome::Continue => OutcomeView::Continue,
        KeyOutcome::Quit => OutcomeView::Quit,
        KeyOutcome::InsertPath(p) => OutcomeView::InsertPath(p@),
    }
}

/// The message that lists the keys.
pub open spec fn help_text() -> Seq<char> {
    "Keys: q quit, x export, j/k move, Ctrl+j/k reorder, i insert, g jump, d delete, D dedupe, M missing, N non-dir, C clean."@
}

/// A key in normal mode.
pub open spec fn normal_key_step(v: TuiView, key: KeyInput) -> (TuiView, OutcomeView) {
    let c = key.code;
    if c == KeyCode::Char('q') || c == KeyCode::Esc {
        (v, OutcomeView::Quit)
    } else if c == KeyCode::Char('x') {
        (TuiView { export_after_quit: true, ..v }, OutcomeView::Quit)
    } else if key.control && (c == KeyCode::Up || c == KeyCode::Char('k')) {
        (move_up_view(v), OutcomeView::Continue)
    } else if key.control && (c == KeyCode::Down || c == KeyCode::Char('j')) {
        (move_down_view(v), OutcomeView::Continue)
    } else if c == KeyCode::Up || c == KeyCode::Char('k') {
        (select_previous_view(v), OutcomeView::Continue)
    } else if c == KeyCode::Down || c == KeyCode::Char('j') {
        (select_next_view(v), OutcomeView::Continue)
    } else if c == KeyCode::Home {
        (select_first_view(v), OutcomeView::Continue)
    } else if c == KeyCode::End {
        (select_last_view(v), OutcomeView::Continue)
    } else if c == KeyCode::Char('d') || c == KeyCode::Delete {
        (remove_selected_view(v), OutcomeView::Continue)
    } else if c == KeyCode::Char('i') {
        (TuiView { mode: ModeView::Insert(Seq::empty()), message: "Insert directory path, then Enter."@, ..v }, OutcomeView::Continue)
    } else if c == KeyCode::Char('g') {
        (TuiView { mode: ModeView::Goto(Seq::empty()), message: "Jump to row number, then Enter."@, ..v }, OutcomeView::Continue)
    } else if c == KeyCode::Char('D') {
        (cleanup_view(v, Cleanup::Duplicates), OutcomeView::Continue)
    } else if c == KeyCode::Char('M') {
        (cleanup_view(v, Cleanup::Missing), OutcomeView::Continue)
    } else if c == KeyCode::Char('N') {
        (cleanup_view(v, Cleanup::NonDirectories), OutcomeView::Continue)
    } else if c == KeyCode::Char('C') {
        (cleanup_view(v, Cleanup::Problems), OutcomeView::Continue)
    } else if c == KeyCode::Char('?') {
        (TuiView { message: help_text(), ..v }, OutcomeView::Continue)
    } else {
        (v, OutcomeView::Continue)
    }
}

/// Enter on a path to insert: nothing to insert when it is blank, else the
/// trimmed path goes to the application.
pub open spec fn insert_step(v: TuiView, value: Seq<char>) -> (TuiView, OutcomeView) {
    let t = trimmed(value);
    if t.len() == 0 {
        (TuiView { mode: ModeView::Normal, message: "No path inserted."@, ..v }, OutcomeView::Continue)
    } else {
        (TuiView { mode: ModeView::Normal, ..v }, OutcomeView::InsertPath(t))
    }
}

/// How a key changes the editor, and what the application does next.
pub open spec fn key_step(v: TuiView, key: KeyInput) -> (TuiView, OutcomeView) {
    match v.mode {
        ModeView::Normal => normal_key_step(v, key),
        ModeView::Insert(buffer) => match key.code {
            KeyCode::Esc => (TuiView { mode: ModeView::Normal, message: "Insert cancelled."@, ..v }, OutcomeView::Continue),
            KeyCode::Enter => insert_step(v, buffer),
            KeyCode::Backspace => (TuiView { mode: ModeView::Insert(if buffer.len() > 0 { buffer.drop_last() } else { buffer }), ..v }, OutcomeView::Continue),
            KeyCode::Char(ch) => (TuiView { mode: ModeView::Insert(buffer.push(ch)), ..v }, OutcomeView::Continue),
            _ => (v, OutcomeView::Continue),
        },
        ModeView::Goto(buffer) => match key.code {
            KeyCode::Esc => (TuiView { mode: ModeView::Normal, message: "Jump cancelled."@, ..v }, OutcomeView::Continue),
            KeyCode::Enter => (goto_view(TuiView { mode: ModeView::Normal, ..v }, buffer), OutcomeView::Continue),
            KeyCode::Backspace => (TuiView { mode: ModeView::Goto(if buffer.len() > 0 { buffer.drop_last() } else { buffer }), ..v }, OutcomeView::Continue),
            KeyCode::Char(ch) => if is_digit(ch) {
                (TuiView { mode: ModeView::Goto(buffer.push(ch)), ..v }, OutcomeView::Continue)
            } else {
                (v, OutcomeView::Continue)
            },
            _ => (v, OutcomeView::Continue),
        },
    }
}

/// Whether the selection is where the editing keys can use it.
pub open spec fn selection_in_range(v: TuiView) -> bool {
    v.selected < usize::MAX && (v.entries.len() == 0 || v.selected < v.entries.len())
}

/// Removes the last char of `s` with `String::pop`, which std documents as
/// removing the last char, and doing nothing to an empty string.
#[verifier::external_body]
fn pop_char(s: &mut String)
    ensures
        final(s)@ == (if old(s)@.len() > 0 { old(s)@.drop_last() } else { old(s)@ }),
{
    s.pop();
}

impl TuiApp {
    /// Jumps to a row given by its number from one.
    pub fn goto_row(&mut self, value: String)
        ensures
            final(self)@ == goto_view(old(self)@, value@),
    {
        let parsed = parse_unsigned(value.as_str(), usize::MAX as u128);
        match parsed {
            None => {
                self.message = literal("Invalid row number.");
            },
            Some(n) => {
                let len = self.entries.len();
                if n == 0 || n > len as u128 {
                    let mut text = chars_of("Row must be between 1 and ");
                    push_decimal(&mut text, len as u128);
                    text.push('.');
                    proof {
                        reveal_strlit(".");
                    }
                    assert(text@ =~= "Row must be between 1 and "@ + decimal(len as nat) + "."@);
                    self.message = text_string(&text);
                } else {
                    self.selected = (n - 1) as usize;
                    self.sync_table_state();
                    let mut text = chars_of("Selected row ");
                    push_decimal(&mut text, n);
                    text.push('.');
                    proof {
                        reveal_strlit(".");
                    }
                    assert(text@ =~= "Selected row "@ + decimal(n as nat) + "."@);
                    self.message = text_string(&text);
                }
            },
        }
    }

    /// Ends the insert prompt with its text: nothing to insert when it is
    /// blank; else the trimmed path, which the application checks.
    fn finish_insert(&mut self, value: String) -> (o: KeyOutcome)
        ensures
            (final(self)@, outcome_view(o)) == insert_step(old(self)@, value@),
    {
        self.input_mode = InputMode::Normal;
        let v = chars_of(value.as_str());
        let t = trim_text(&v);
        if t.len() == 0 {
            self.message = literal("No path inserted.");
            KeyOutcome::Continue
        } else {
            KeyOutcome::InsertPath(text_string(&t))
        }
    }

    fn handle_normal_key(&mut self, key: KeyInput) -> (o: KeyOutcome)
        requires
            selection_in_range(old(self)@),
            old(self)@.mode == ModeView::Normal,
        ensures
            (final(self)@, outcome_view(o)) == normal_key_step(old(self)@, key),
    {
        let c = key.code;
        if c == KeyCode::Char('q') || c == KeyCode::Esc {
            KeyOutcome::Quit
        } else if c == KeyCode::Char('x') {
            self.export_after_quit = true;
            KeyOutcome::Quit
        } else if key.control && (c == KeyCode::Up || c == KeyCode::Char('k')) {
            self.move_selected_up();
            KeyOutcome::Continue
        } else if key.control && (c == KeyCode::Down || c == KeyCode::Char('j')) {
            self.move_selected_down();
            KeyOutcome::Continue
        } else if c == KeyCode::Up || c == KeyCode::Char('k') {
            self.select_previous();
            KeyOutcome::Continue
        } else if c == KeyCode::Down || c == KeyCode::Char('j') {
            self.select_next();
            KeyOutcome::Continue
        } else if c == KeyCode::Home {
            self.select_first();
            KeyOutcome::Continue
        } else if c == KeyCode::End {
            self.select_last();
            KeyOutcome::Continue
        } else if c == KeyCode::Char('d') || c == KeyCode::Delete {
            self.remove_selected();
            KeyOutcome::Continue
        } else if c == KeyCode::Char('i') {
            self.input_mode = InputMode::Insert { buffer: String::new() };
            self.message = literal("Insert directory path, then Enter.");
            KeyOutcome::Continue
        } else if c == KeyCode::Char('g') {
            self.input_mode = InputMode::Goto { buffer: String::new() };
            self.message = literal("Jump to row number, then Enter.");
            KeyOutcome::Continue
        } else if c == KeyCode::Char('D') {
            self.remove_duplicates();
            KeyOutcome::Continue
        } else if c == KeyCode::Char('M') {
            self.remove_missing();
            KeyOutcome::Continue
        } else if c == KeyCode::Char('N') {
            self.remove_non_directories();
            KeyOutcome::Continue
        } else if c == KeyCode::Char('C') {
            self.cleanup();
            KeyOutcome::Continue
        } else if c == KeyCode::Char('?') {
            self.message = literal("Keys: q quit, x export, j/k move, Ctrl+j/k reorder, i insert, g jump, d delete, D dedupe, M missing, N non-dir, C clean.");
            KeyOutcome::Continue
        } else {
            KeyOutcome::Continue
        }
    }

    /// Handles a key press: edits the state and tells the application what to do next.
    pub fn handle_key(&mut self, key: KeyInput) -> (o: KeyOutcome)
        requires
            selection_in_range(old(self)@),
        ensures
            (final(self)@, outcome_view(o)) == key_step(old(self)@, key),
    {
        let mut mode = InputMode::Normal;
        std::mem::swap(&mut mode, &mut self.input_mode);
        match mode {
            InputMode::Normal => self.handle_normal_key(key),
            InputMode::Insert { buffer } => {
                match key.code {
                    KeyCode::Esc => {
                        self.message = literal("Insert cancelled.");
                        KeyOutcome::Continue
                    },
                    KeyCode::Enter => self.finish_insert(buffer),
                    KeyCode::Backspace => {
                        let mut b = buffer;
                        pop_char(&mut b);
                        self.input_mode = InputMode::Insert { buffer: b };
                        KeyOutcome::Continue
                    },
                    KeyCode::Char(ch) => {
                        let mut b = buffer;
                        push_char(&mut b, ch);
                        self.input_mode = InputMode::Insert { buffer: b };
                        KeyOutcome::Continue
                    },
                    _ => {
                        self.input_mode = InputMode::Insert { buffer };
                        KeyOutcome::Continue
                    },
                }
            },
            InputMode::Goto { buffer } => {
                match key.code {
                    KeyCode::Esc => {
                        self.message = literal("Jump cancelled.");
                        KeyOutcome::Continue
                    },
                    KeyCode::Enter => {
                        self.goto_row(buffer);
                        KeyOutcome::Continue
                    },
                    KeyCode::Backspace => {
                        let mut b = buffer;
                        pop_char(&mut b);
                        self.input_mode = InputMode::Goto { buffer: b };
                        KeyOutcome::Continue
                    },
                    KeyCode::Char(ch) => {
                        if '0' <= ch && ch <= '9' {
                            let mut b = buffer;
                            push_char(&mut b, ch);
                            self.input_mode = InputMode::Goto { buffer: b };
                        } else {
                            self.input_mode = InputMode::Goto { buffer };
                        }
                        KeyOutcome::Continue
                    },
                    _ => {
                        self.input_mode = InputMode::Goto { buffer };
                        KeyOutcome::Continue
                    },
                }
            },
        }
    }
}

// ---------------------------------------------------------------------------
// What the screen shows
// ---------------------------------------------------------------------------

/// The counts in the editor's title line.
pub open spec fn header_summary_text(s: Seq<PathEntry>) -> Seq<char> {
    "  "@ + decimal(s.len()) + " entries | "@ + decimal(count_existing(s)) + " existing | "@
        + decimal(count_duplicates(s)) + " duplicates"@
}

/// The name of the input mode.
pub open spec fn mode_label_text(m: ModeView) -> Seq<char> {
    match m {
        ModeView::Normal => "NORMAL"@,
        ModeView::Insert(_) => "INSERT"@,
        ModeView::Goto(_) => "GOTO"@,
    }
}

/// In the editor a row shows a problem when it is missing, a duplicate, not
/// a directory, or without executables.
pub open spec fn tui_problem(e: PathEntry) -> bool {
    !e.exists || e.duplicate || e.entry_type != EntryType::Directory || e.executable_count == 0
}

/// Whether an entry is drawn as a problem row in the editor.
pub fn tui_row_problem(e: &PathEntry) -> (b: bool)
    ensures
        b == tui_problem(*e),
{
    !e.exists || e.duplicate || e.entry_type != EntryType::Directory || e.executable_count == 0
}

/// The size of the editor's screen from `COLUMNS` and `LINES`: each read as
/// a 16-bit number, 120 by 40 when unset or unreadable, at least 40 by 12.
pub open spec fn viewport_size(columns: Option<Seq<char>>, lines: Option<Seq<char>>) -> (u16, u16) {
    let w: nat = match columns { Some(c) => match parsed_unsigned(c, 65535) { Some(n) => n, None => 120 }, None => 120 };
    let h: nat = match lines { Some(l) => match parsed_unsigned(l, 65535) { Some(n) => n, None => 40 }, None => 40 };
    ((if w > 40 { w } else { 40 }) as u16, (if h > 12 { h } else { 12 }) as u16)
}

fn parse_u16_or(value: &Option<String>, default: u16) -> (r: u16)
    ensures
        r as nat == (match value {
            Some(v) => match parsed_unsigned(v@, 65535) { Some(n) => n, None => default as nat },
            None => default as nat,
        }),
{
    match value {
        Some(v) => match parse_unsigned(v.as_str(), 65535) {
            Some(n) => n as u16,
            None => default,
        },
        None => default,
    }
}

/// The size of the editor's screen (see `viewport_size`).
pub fn tui_viewport(columns: &Option<String>, lines: &Option<String>) -> (r: (u16, u16))
    ensures
        r == viewport_size(
            match columns { Some(c) => Some(c@), None => None },
            match lines { Some(l) => Some(l@), None => None },
        ),
{
    let w = parse_u16_or(columns, 120);
    let h = parse_u16_or(lines, 40);
    (if w > 40 { w } else { 40 }, if h > 12 { h } else { 12 })
}

impl TuiApp {
    /// The counts shown in the title line.
    pub fn header_summary(&self) -> (r: String)
        ensures
            r@ == header_summary_text(self.entries@),
    {
        let mut existing: usize = 0;
        let mut duplicates: usize = 0;
        let mut i: usize = 0;
        while i < self.entries.len()
            invariant
                i <= self.entries.len(),
                existing == count_existing(self.entries@.take(i as int)),
                duplicates == count_duplicates(self.entries@.take(i as int)),
                existing <= i,
                duplicates <= i,
            decreases self.entries.len() - i,
        {
            assert(self.entries@.take(i + 1).drop_last() =~= self.entries@.take(i as int));
            if self.entries[i].exists {
                existing = existing + 1;
            }
            if self.entries[i].duplicate {
                duplicates = duplicates + 1;
            }
            i = i + 1;
        }
        assert(self.entries@.take(self.entries.len() as int) =~= self.entries@);
        let mut text = chars_of("  ");
        push_decimal(&mut text, self.entries.len() as u128);
        push_text(&mut text, &chars_of(" entries | "));
        push_decimal(&mut text, existing as u128);
        push_text(&mut text, &chars_of(" existing | "));
        push_decimal(&mut text, duplicates as u128);
        push_text(&mut text, &chars_of(" duplicates"));
        assert(text@ =~= header_summary_text(self.entries@));
        text_string(&text)
    }

    /// The name of the input mode.
    pub fn mode_label(&self) -> (r: &'static str)
        ensures
            r@ == mode_label_text(mode_view(self.input_mode)),
    {
        match self.input_mode {
            InputMode::Normal => "NORMAL",
            InputMode::Insert { .. } => "INSERT",
            InputMode::Goto { .. } => "GOTO",
        }
    }

    /// The shell line that sets `PATH` to the entries, joined for the
    /// platform that `windows` names (see `export_text`).
    pub fn export_path(&self, windows: bool) -> (r: String)
        ensures
            r@ == export_text(self.entries@, windows),
    {
        let ghost s = self.entries@;
        let bad = if windows { '"' } else { ':' };
        let sep = if windows { ';' } else { ':' };
        let mut joinable = true;
        let mut i: usize = 0;
        while i < self.entries.len()
            invariant
                i <= self.entries.len(),
                s == self.entries@,
                bad == unjoinable_char(windows),
                joinable == (forall|k: int| 0 <= k < i ==> !has_char(#[trigger] s[k].path@, unjoinable_char(windows))),
            decreases self.entries.len() - i,
        {
            let p = chars_of(self.entries[i].path.as_str());
            let found = text_has_char(&p, bad);
            proof {
                if found {
                    assert(has_char(s[i as int].path@, unjoinable_char(windows)));
                }
            }
            joinable = joinable && !found;
            i = i + 1;
        }
        let mut text = chars_of("export PATH=\"");
        let ghost head = text@;
        if joinable {
            let mut k: usize = 0;
            while k < self.entries.len()
                invariant
                    k <= self.entries.len(),
                    s == self.entries@,
                    sep == path_separator(windows),
                    text@ =~= head + joined_paths(s.take(k as int), windows),
                decreases self.entries.len() - k,
            {
                if k > 0 {
                    text.push(sep);
                }
                let p = chars_of(self.entries[k].path.as_str());
                let quoted = windows && text_has_char(&p, ';');
                if quoted {
                    text.push('"');
                }
                push_text(&mut text, &p);
                if quoted {
                    text.push('"');
                }
                proof {
                    let t = s.take(k + 1);
                    assert(t.drop_last() =~= s.take(k as int));
                    assert(t.last() == s[k as int]);
                    if k == 0 {
                        assert(joined_paths(s.take(0), windows) =~= Seq::<char>::empty());
                        assert(t[0] == s[k as int]);
                    }
                    assert(p@ == s[k as int].path@);
                }
                k = k + 1;
            }
            assert(s.take(s.len() as int) =~= s);
        }
        push_text(&mut text, &chars_of("\""));
        text_string(&text)
    }
}


/// The cells of a row of the editor's table, with ages taken at `now`
/// (nanoseconds since the Unix epoch): those of a row of the Unicode table.
pub fn tui_row_cells_at(e: &PathEntry, now: i128) -> (cells: Vec<String>)
    ensures
        cells.len() == 9,
        forall|i: int| 0 <= i < 9 ==> #[trigger] cells@[i]@ == unicode_cells(*e, now as int)[i],
{
    let row = unicode_row(e, now);
    assert(texts(row.cells@).len() == row.cells@.len());
    assert(unicode_cells(*e, now as int).len() == 9);
    let mut cells: Vec<String> = Vec::new();
    let mut i: usize = 0;
    while i < row.cells.len()
        invariant
            i <= row.cells.len(),
            texts(row.cells@) == unicode_cells(*e, now as int),
            cells.len() == i,
            forall|k: int| 0 <= k < i ==> #[trigger] cells@[k]@ == unicode_cells(*e, now as int)[k],
        decreases row.cells.len() - i,
    {
        assert(row.cells@[i as int]@ == texts(row.cells@)[i as int]);
        cells.push(text_string(&row.cells[i]));
        i = i + 1;
    }
    cells
}

/// The cells of a row of the editor's table, with ages taken when the clock is read.
pub fn tui_row_cells(e: &PathEntry) -> (cells: Vec<String>)
    ensures
        cells.len() == 9,
        exists|now: i128| cells@.map_values(|c: String| c@) == #[trigger] unicode_cells(*e, now as int),
{
    let now = clock_now();
    let cells = tui_row_cells_at(e, now);
    assert(cells@.map_values(|c: String| c@) =~= unicode_cells(*e, now as int));
    cells
}

impl TuiApp {
    /// The title and text of the prompt that inserting and jumping show.
    pub fn prompt(&self) -> (r: Option<(&'static str, String)>)
        ensures
            match mode_view(self.input_mode) {
                ModeView::Normal => r is None,
                ModeView::Insert(b) => match r {
                    Some((title, value)) => title@ == "Insert directory"@ && value@ == b,
                    None => false,
                },
                ModeView::Goto(b) => match r {
                    Some((title, value)) => title@ == "Jump to row"@ && value@ == b,
                    None => false,
                },
            },
    {
        match &self.input_mode {
            InputMode::Normal => None,
            InputMode::Insert { buffer } => Some(("Insert directory", literal(buffer.as_str()))),
            InputMode::Goto { buffer } => Some(("Jump to row", literal(buffer.as_str()))),
        }
    }
}

/// Whether `part` lies within `area` (both `(x, y, width, height)`).
pub open spec fn within(part: (u16, u16, u16, u16), area: (u16, u16, u16, u16)) -> bool {
    &&& area.0 <= part.0 && part.0 + part.2 <= area.0 + area.2
    &&& area.1 <= part.1 && part.1 + part.3 <= area.1 + area.3
}

/// The middle one of the three parts into which `ratatui`'s layout solver
/// splits an area `(x, y, width, height)`, from top to bottom when
/// `vertical`, else from left to right, by the three percentages.
pub uninterp spec fn layout_middle(area: (u16, u16, u16, u16), vertical: bool, percents: (u16, u16, u16)) -> (u16, u16, u16, u16);

/// Splits an area `(x, y, width, height)` into three parts by percentages
/// (each at most 100) with `ratatui::layout::Layout::split`, from top to
/// bottom when `vertical`, else from left to right, and gives the middle part.
/// The result is named `layout_middle` of the arguments. The source also keeps
/// every part within the area (each boundary is required to lie between the
/// area's start and end) and gives it the area's extent across the split.
#[verifier::external_body]
fn split_middle(area: (u16, u16, u16, u16), vertical: bool, percents: (u16, u16, u16)) -> (r: (u16, u16, u16, u16))
    requires
        percents.0 <= 100,
        percents.1 <= 100,
        percents.2 <= 100,
    ensures
        r == layout_middle(area, vertical, percents),
        within(r, area),
        vertical ==> r.0 == area.0 && r.2 == area.2,
        !vertical ==> r.1 == area.1 && r.3 == area.3,
{
    let direction = match vertical {
        true => Direction::Vertical,
        false => Direction::Horizontal,
    };
    let parts = Layout::default()
        .direction(direction)
        .constraints([Constraint::Percentage(percents.0), Constraint::Percentage(percents.1), Constraint::Percentage(percents.2)])
        .split(Rect { x: area.0, y: area.1, width: area.2, height: area.3 });
    (parts[1].x, parts[1].y, parts[1].width, parts[1].height)
}

/// The margins that center a part of `percent` percent: half of the rest on each side.
pub open spec fn centering(percent: u16) -> (u16, u16, u16) {
    let margin = ((100 - percent) / 2) as u16;
    (margin, percent, margin)
}

/// The part of `area` (x, y, width, height) in its middle, `width_percent`
/// wide and `height_percent` high: the middle row of a split into margin,
/// part and margin, then the middle of that row split the same way across.
/// The part lies within the area.
pub fn centered_area(area: (u16, u16, u16, u16), width_percent: u16, height_percent: u16) -> (r: (u16, u16, u16, u16))
    requires
        width_percent <= 100,
        height_percent <= 100,
    ensures
        r == layout_middle(
            layout_middle(area, true, centering(height_percent)),
            false,
            centering(width_percent),
        ),
        within(r, area),
{
    let vertical_margin = (100 - height_percent) / 2;
    let row = split_middle(area, true, (vertical_margin, height_percent, vertical_margin));
    let horizontal_margin = (100 - width_percent) / 2;
    split_middle(row, false, (horizontal_margin, width_percent, horizontal_margin))
}

// ---------------------------------------------------------------------------
// Laws
// ---------------------------------------------------------------------------

/// An entry without its number and duplicate mark.
pub open spec fn unnumbered(e: PathEntry) -> PathEntry {
    PathEntry { index: 0, duplicate: false, ..e }
}

proof fn lemma_normalized_ignores_marks(s: Seq<PathEntry>, t: Seq<PathEntry>)
    requires
        s.len() == t.len(),
        forall|i: int| 0 <= i < s.len() ==> unnumbered(#[trigger] s[i]) == unnumbered(t[i]),
    ensures
        normalized(s) == normalized(t),
{
    assert forall|i: int| 0 <= i < s.len() implies entry_paths(s)[i] == entry_paths(t)[i] by {
        assert(unnumbered(s[i]) == unnumbered(t[i]));
    }
    assert(entry_paths(s) =~= entry_paths(t));
    assert forall|i: int| 0 <= i < s.len() implies normalized(s)[i] == normalized(t)[i] by {
        assert(unnumbered(s[i]) == unnumbered(t[i]));
    }
    assert(normalized(s) =~= normalized(t));
}

/// Numbering and marking the entries again changes nothing.
pub proof fn law_normalized_idempotent(s: Seq<PathEntry>)
    ensures
        normalized(normalized(s)) == normalized(s),
{
    let n = normalized(s);
    assert forall|i: int| 0 <= i < n.len() implies unnumbered(#[trigger] n[i]) == unnumbered(s[i]) by {}
    lemma_normalized_ignores_marks(n, s);
}

proof fn lemma_normalize_view_well_formed(w: TuiView)
    ensures
        well_formed(normalize_view(w)),
        normalize_view(w).entries.len() == w.entries.len(),
{
    law_normalized_idempotent(w.entries);
}

proof fn lemma_cleanup_well_formed(v: TuiView, rule: Cleanup)
    ensures
        well_formed(cleanup_view(v, rule)),
        cleanup_view(v, rule).entries.len() <= v.entries.len(),
{
    let rest = retained(v.entries, rule);
    lemma_retained_len(v.entries, rule);
    lemma_normalize_view_well_formed(TuiView { entries: rest, selected: clamped(v.selected, rest.len()), ..v });
}

proof fn lemma_normal_key_well_formed(v: TuiView, key: KeyInput)
    requires
        well_formed(v),
        v.entries.len() <= usize::MAX,
        v.mode == ModeView::Normal,
    ensures
        well_formed(normal_key_step(v, key).0),
        normal_key_step(v, key).0.entries.len() <= v.entries.len(),
{
    let c = key.code;
    if c == KeyCode::Char('q') || c == KeyCode::Esc || c == KeyCode::Char('x') {
    } else if key.control && (c == KeyCode::Up || c == KeyCode::Char('k')) {
        if !(v.selected == 0 || v.entries.len() < 2) {
            lemma_normalize_view_well_formed(TuiView {
                entries: swapped(v.entries, v.selected as int, v.selected - 1),
                selected: (v.selected - 1) as usize,
                ..v
            });
        }
    } else if key.control && (c == KeyCode::Down || c == KeyCode::Char('j')) {
        if !(v.selected + 1 >= v.entries.len()) {
            lemma_normalize_view_well_formed(TuiView {
                entries: swapped(v.entries, v.selected as int, v.selected + 1),
                selected: (v.selected + 1) as usize,
                ..v
            });
        }
    } else if c == KeyCode::Up || c == KeyCode::Char('k') || c == KeyCode::Down || c == KeyCode::Char('j')
        || c == KeyCode::Home || c == KeyCode::End {
    } else if c == KeyCode::Char('d') || c == KeyCode::Delete {
        if v.entries.len() > 0 {
            let rest = v.entries.remove(v.selected as int);
            lemma_normalize_view_well_formed(TuiView { entries: rest, selected: clamped(v.selected, rest.len()), ..v });
        }
    } else if c == KeyCode::Char('i') || c == KeyCode::Char('g') {
    } else if c == KeyCode::Char('D') {
        lemma_cleanup_well_formed(v, Cleanup::Duplicates);
    } else if c == KeyCode::Char('M') {
        lemma_cleanup_well_formed(v, Cleanup::Missing);
    } else if c == KeyCode::Char('N') {
        lemma_cleanup_well_formed(v, Cleanup::NonDirectories);
    } else if c == KeyCode::Char('C') {
        lemma_cleanup_well_formed(v, Cleanup::Problems);
    }
}

/// A consistent state lets every key be handled, and every key leaves the
/// state consistent.
pub proof fn law_key_keeps_well_formed(v: TuiView, key: KeyInput)
    requires
        well_formed(v),
        v.entries.len() <= usize::MAX,
    ensures
        selection_in_range(v),
        well_formed(key_step(v, key).0),
        selection_in_range(key_step(v, key).0),
        key_step(v, key).0.entries.len() <= v.entries.len(),
{
    match v.mode {
        ModeView::Normal => {
            lemma_normal_key_well_formed(v, key);
        },
        _ => {},
    }
}

/// The editor starts in a consistent state.
pub proof fn law_new_well_formed(v: TuiView)
    ensures
        well_formed(normalize_view(v)),
{
    lemma_normalize_view_well_formed(v);
}

/// Inserting a path, or refusing it, leaves the state consistent.
pub proof fn law_insert_keeps_well_formed(v: TuiView, entry: PathEntry, refusal: Seq<char>)
    requires
        well_formed(v),
        v.entries.len() <= usize::MAX,
    ensures
        well_formed(insert_entry_view(v, entry)),
        well_formed(TuiView { message: refusal, ..v }),
{
    let at: int = if v.entries.len() == 0 { 0 } else { v.selected + 1 };
    lemma_normalize_view_well_formed(TuiView { entries: v.entries.insert(at, entry), selected: at as usize, ..v });
}

proof fn lemma_retained_len(s: Seq<PathEntry>, rule: Cleanup)
    ensures
        retained(s, rule).len() <= s.len(),
    decreases s.len(),
{
    if s.len() > 0 {
        lemma_retained_len(s.drop_last(), rule);
    }
}

/// Moving a row up and then down again gives back the rows and the selection.
pub proof fn law_move_up_then_down(v: TuiView)
    requires
        well_formed(v),
        v.entries.len() <= usize::MAX,
        v.selected > 0,
        v.entries.len() >= 2,
    ensures
        move_down_view(move_up_view(v)).entries == v.entries,
        move_down_view(move_up_view(v)).selected == v.selected,
{
    let e = v.entries;
    let s = v.selected as int;
    let up = move_up_view(v);
    let w = swapped(up.entries, s - 1, s);
    assert forall|i: int| 0 <= i < w.len() implies unnumbered(#[trigger] w[i]) == unnumbered(e[i]) by {}
    lemma_normalized_ignores_marks(w, e);
}

/// Moving a row down and then up again gives back the rows and the selection.
pub proof fn law_move_down_then_up(v: TuiView)
    requires
        well_formed(v),
        v.entries.len() <= usize::MAX,
        v.selected + 1 < v.entries.len(),
    ensures
        move_up_view(move_down_view(v)).entries == v.entries,
        move_up_view(move_down_view(v)).selected == v.selected,
{
    let e = v.entries;
    let s = v.selected as int;
    let down = move_down_view(v);
    let w = swapped(down.entries, s + 1, s);
    assert forall|i: int| 0 <= i < w.len() implies unnumbered(#[trigger] w[i]) == unnumbered(e[i]) by {}
    lemma_normalized_ignores_marks(w, e);
}

/// Removing a row just inserted gives back the rows.
pub proof fn law_insert_then_remove(v: TuiView, entry: PathEntry)
    requires
        well_formed(v),
        v.entries.len() <= usize::MAX,
    ensures
        remove_selected_view(insert_entry_view(v, entry)).entries == v.entries,
{
    let e = v.entries;
    let at: int = if e.len() == 0 { 0 } else { v.selected + 1 };
    let ins = insert_entry_view(v, entry);
    assert(ins.selected == at);
    let rest = ins.entries.remove(at);
    assert forall|i: int| 0 <= i < rest.len() implies unnumbered(#[trigger] rest[i]) == unnumbered(e[i]) by {
        if i < at {
            assert(rest[i] == ins.entries[i]);
        } else {
            assert(rest[i] == ins.entries[i + 1]);
        }
    }
    lemma_normalized_ignores_marks(rest, e);
}

/// Where in `s` the entries that a cleanup keeps stand.
pub open spec fn retained_positions(s: Seq<PathEntry>, rule: Cleanup) -> Seq<int>
    decreases s.len(),
{
    if s.len() == 0 {
        Seq::empty()
    } else {
        let pos = retained_positions(s.drop_last(), rule);
        if keeps(rule, retained(s.drop_last(), rule), s.last()) { pos.push(s.len() - 1) } else { pos }
    }
}

/// A cleanup keeps the rows it keeps in their order, and keeps exactly those
/// that its rule lets through, each judged against the rows kept before it.
pub proof fn law_cleanup_keeps_order(s: Seq<PathEntry>, rule: Cleanup)
    ensures
        retained_positions(s, rule).len() == retained(s, rule).len(),
        forall|k: int| 0 <= k < retained(s, rule).len() ==>
            0 <= #[trigger] retained_positions(s, rule)[k] < s.len()
                && retained(s, rule)[k] == s[retained_positions(s, rule)[k]],
        forall|k: int, l: int| 0 <= k < l < retained(s, rule).len() ==>
            #[trigger] retained_positions(s, rule)[k] < #[trigger] retained_positions(s, rule)[l],
        forall|i: int| 0 <= i < s.len() ==>
            (retained_positions(s, rule).contains(i) <==> #[trigger] keeps(rule, retained(s.take(i), rule), s[i])),
    decreases s.len(),
{
    if s.len() > 0 {
        let d = s.drop_last();
        law_cleanup_keeps_order(d, rule);
        let pos = retained_positions(s, rule);
        let pd = retained_positions(d, rule);
        let n = d.len() as int;
        assert(s.take(n) =~= d);
        assert forall|i: int| 0 <= i < s.len() implies
            (pos.contains(i) <==> #[trigger] keeps(rule, retained(s.take(i), rule), s[i])) by {
            if i < n {
                assert(s.take(i) =~= d.take(i));
                assert(s[i] == d[i]);
                assert(pd.contains(i) <==> keeps(rule, retained(d.take(i), rule), d[i]));
                if pos.contains(i) {
                    let k = choose|k: int| 0 <= k < pos.len() && pos[k] == i;
                    if k == pd.len() {
                        assert(false);
                    } else {
                        assert(pd[k] == i);
                    }
                }
                if pd.contains(i) {
                    let k = choose|k: int| 0 <= k < pd.len() && pd[k] == i;
                    assert(pos[k] == i);
                }
            } else {
                if pd.contains(n) {
                    let k = choose|k: int| 0 <= k < pd.len() && pd[k] == n;
                    assert(pd[k] < d.len());
                }
                if pos.len() > pd.len() {
                    assert(pos[pd.len() as int] == n);
                }
            }
        }
    }
}

proof fn lemma_retained_prefix(s: Seq<PathEntry>, i: int, rule: Cleanup)
    requires
        0 <= i <= s.len(),
    ensures
        retained(s.take(i), rule).len() <= retained(s, rule).len(),
        retained(s.take(i), rule) == retained(s, rule).take(retained(s.take(i), rule).len() as int),
        retained_positions(s.take(i), rule) == retained_positions(s, rule).take(retained(s.take(i), rule).len() as int),
    decreases s.len(),
{
    law_cleanup_keeps_order(s.take(i), rule);
    if i == s.len() {
        assert(s.take(i) =~= s);
        assert(retained(s, rule).take(retained(s, rule).len() as int) =~= retained(s, rule));
        assert(retained_positions(s, rule).take(retained(s, rule).len() as int) =~= retained_positions(s, rule));
    } else {
        let d = s.drop_last();
        assert(s.take(i) =~= d.take(i));
        lemma_retained_prefix(d, i, rule);
        law_cleanup_keeps_order(d, rule);
        let m = retained(d.take(i), rule).len() as int;
        assert(retained(s, rule).take(m) =~= retained(d, rule).take(m));
        assert(retained_positions(s, rule).take(m) =~= retained_positions(d, rule).take(m));
    }
}

/// What each cleanup leaves: only existing rows, only directories, or (the
/// full cleanup) only existing directories.
pub proof fn law_cleanup_leaves(s: Seq<PathEntry>, rule: Cleanup)
    ensures
        forall|k: int| 0 <= k < retained(s, rule).len() ==> {
            let e = #[trigger] retained(s, rule)[k];
            &&& (rule == Cleanup::Missing || rule == Cleanup::Problems) ==> e.exists
            &&& (rule == Cleanup::NonDirectories || rule == Cleanup::Problems) ==> e.entry_type == EntryType::Directory
        },
    decreases s.len(),
{
    if s.len() > 0 {
        law_cleanup_leaves(s.drop_last(), rule);
    }
}

/// After removing duplicates (alone or in the full cleanup) no two rows name
/// the same path, and no row is marked as a duplicate.
pub proof fn law_no_duplicates_left(s: Seq<PathEntry>, rule: Cleanup)
    requires
        rule == Cleanup::Duplicates || rule == Cleanup::Problems,
    ensures
        forall|k: int, l: int| 0 <= k < l < retained(s, rule).len() ==>
            !same_path(#[trigger] retained(s, rule)[k].path@, #[trigger] retained(s, rule)[l].path@),
        forall|i: int| 0 <= i < retained(s, rule).len() ==> !(#[trigger] normalized(retained(s, rule))[i]).duplicate,
    decreases s.len(),
{
    let r = retained(s, rule);
    if s.len() > 0 {
        let d = s.drop_last();
        law_no_duplicates_left(d, rule);
        let kept = retained(d, rule);
        assert forall|k: int, l: int| 0 <= k < l < r.len() implies
            !same_path(#[trigger] r[k].path@, #[trigger] r[l].path@) by {
            if l == kept.len() {
                assert(r[k] == kept[k]);
                assert(!seen_before(kept, s.last()));
            } else {
                assert(r[k] == kept[k] && r[l] == kept[l]);
            }
        }
    }
    assert forall|i: int| 0 <= i < r.len() implies !(#[trigger] normalized(r)[i]).duplicate by {
        if repeats_earlier(entry_paths(r), i) {
            let j = choose|j: int| 0 <= j < i && same_path(entry_paths(r)[j], entry_paths(r)[i]);
            assert(entry_paths(r)[j] == r[j].path@ && entry_paths(r)[i] == r[i].path@);
            assert(!same_path(r[j].path@, r[i].path@));
        }
    }
}

/// Each row that removing duplicates drops names the same path as a row
/// before it that is kept.
pub proof fn law_dropped_rows_have_kept_twin(s: Seq<PathEntry>, i: int)
    requires
        0 <= i < s.len(),
        !retained_positions(s, Cleanup::Duplicates).contains(i),
    ensures
        exists|k: int| 0 <= k < retained(s, Cleanup::Duplicates).len()
            && retained_positions(s, Cleanup::Duplicates)[k] < i
            && same_path(#[trigger] retained(s, Cleanup::Duplicates)[k].path@, s[i].path@),
{
    let rule = Cleanup::Duplicates;
    law_cleanup_keeps_order(s, rule);
    assert(!keeps(rule, retained(s.take(i), rule), s[i]));
    let before = retained(s.take(i), rule);
    let j = choose|j: int| 0 <= j < before.len() && same_path(before[j].path@, s[i].path@);
    lemma_retained_prefix(s, i, rule);
    law_cleanup_keeps_order(s.take(i), rule);
    assert(retained(s, rule)[j] == before[j]);
    assert(retained_positions(s, rule)[j] == retained_positions(s.take(i), rule)[j]);
    assert(retained_positions(s.take(i), rule)[j] < i);
}


/// In normal mode with rows, `d` (with or without Control) and Delete remove
/// the selected row: the others stay in their order, numbered from one, the
/// message names the removed path, and the editor goes on.
pub proof fn law_delete_key_removes_row(v: TuiView, key: KeyInput)
    requires
        well_formed(v),
        v.entries.len() <= usize::MAX,
        v.mode == ModeView::Normal,
        v.entries.len() > 0,
        key.code == KeyCode::Char('d') || key.code == KeyCode::Delete,
    ensures
        ({
            let (w, o) = key_step(v, key);
            let rest = v.entries.remove(v.selected as int);
            &&& o is Continue
            &&& w.entries.len() == v.entries.len() - 1
            &&& forall|i: int| 0 <= i < rest.len() ==> unnumbered(#[trigger] w.entries[i]) == unnumbered(rest[i])
                && w.entries[i].index == i + 1
            &&& w.message == "Removed "@ + v.entries[v.selected as int].path@ + "."@
            &&& w.mode == ModeView::Normal
        }),
{
}

/// The full cleanup keeps every row that exists, is a directory and whose
/// path no row kept before it names, whatever else holds of it (its
/// executables, its size, its age): such a row is among the rows kept.
pub proof fn law_cleanup_keeps_healthy_rows(s: Seq<PathEntry>, i: int)
    requires
        0 <= i < s.len(),
        s[i].exists,
        s[i].entry_type == EntryType::Directory,
        forall|k: int| 0 <= k < retained(s.take(i), Cleanup::Problems).len()
            ==> !same_path(#[trigger] retained(s.take(i), Cleanup::Problems)[k].path@, s[i].path@),
    ensures
        exists|k: int| 0 <= k < retained(s, Cleanup::Problems).len() && #[trigger] retained(s, Cleanup::Problems)[k] == s[i],
{
    let rule = Cleanup::Problems;
    law_cleanup_keeps_order(s, rule);
    let before = retained(s.take(i), rule);
    assert(!seen_before(before, s[i]));
    assert(keeps(rule, before, s[i]));
    let pos = retained_positions(s, rule);
    assert(pos.contains(i));
    let k = choose|k: int| 0 <= k < pos.len() && pos[k] == i;
    assert(retained(s, rule)[k] == s[pos[k]]);
}

} // verus!
