//! `PATH` entries: what is known of each entry, and how sizes and
//! modification ages are written.

use vstd::prelude::*;
use crate::text::{chars_of, decimal, digit, digit_char, escape_free, lemma_decimal_escape_free, lemma_decimal_len_u128,
    lemma_escape_free_add, lemma_escape_free_parts, lemma_escape_free_push, push_decimal, push_text, text_string};

verus! {

/// What a `PATH` entry turned out to be on disk.
#[derive(Clone, Copy, Debug, PartialEq, Eq, Structural)]
pub enum EntryType {
    Directory,
    File,
    Other,
    Missing,
}

/// The short label shown for an entry type.
pub open spec fn entry_label(t: EntryType) -> Seq<char> {
    match t {
        EntryType::Directory => "dir"@,
        EntryType::File => "file"@,
        EntryType::Other => "other"@,
        EntryType::Missing => "missing"@,
    }
}

impl EntryType {
    /// The short label of the entry type.
    pub fn label(&self) -> (r: &'static str)
        ensures
            r@ == entry_label(*self),
            r@.len() <= 7,
    {
        proof {
            reveal_strlit("dir");
            reveal_strlit("file");
            reveal_strlit("other");
            reveal_strlit("missing");
        }
        match self {
            EntryType::Directory => "dir",
            EntryType::File => "file",
            EntryType::Other => "other",
            EntryType::Missing => "missing",
        }
    }
}

/// One entry of `PATH`, with what was found about it.
///
/// `path` is the entry as displayed; `modified` is the modification time in
/// nanoseconds since the Unix epoch (negative before it), when known.
#[derive(Debug)]
pub struct PathEntry {
    pub index: usize,
    pub path: String,
    pub entry_type: EntryType,
    pub exists: bool,
    pub executable_count: usize,
    pub non_executable_count: usize,
    pub size_bytes: u64,
    pub duplicate: bool,
    pub modified: Option<i128>,
}

// ---------------------------------------------------------------------------
// Sizes
// ---------------------------------------------------------------------------

/// `a / d` rounded to the nearest integer, ties to the even one.
pub open spec fn round_half_even(a: nat, d: nat) -> nat
    recommends
        d > 0,
{
    let q = a / d;
    let r = a % d;
    if 2 * r > d || (2 * r == d && q % 2 == 1) {
        q + 1
    } else {
        q
    }
}

/// Two to the power `n`.
pub open spec fn pow2(n: nat) -> nat
    decreases n,
{
    if n == 0 { 1 } else { 2 * pow2((n - 1) as nat) }
}

/// 1024 to the power `n`.
pub open spec fn pow1024(n: nat) -> nat
    decreases n,
{
    if n == 0 { 1 } else { 1024 * pow1024((n - 1) as nat) }
}

/// The number of low bits that a 64-bit float cannot hold for the integer `b`
/// (it keeps 53 significant bits).
pub open spec fn float_shift(b: nat) -> nat
    decreases b,
{
    if b < 9007199254740992 { 0 } else { 1 + float_shift(b / 2) }
}

/// The value of `b as f64`: `b` rounded to 53 significant bits, ties to even.
pub open spec fn float_value(b: nat) -> nat {
    round_half_even(b, pow2(float_shift(b))) * pow2(float_shift(b))
}

/// The unit that the size loop stops at: starting from unit `k`, a value of at
/// least 1024 of the current unit moves on to the next one, up to the fifth.
pub open spec fn unit_from(v: nat, k: nat) -> nat
    decreases 4 - k,
{
    if k < 4 && v >= pow1024(k + 1) { unit_from(v, k + 1) } else { k }
}

/// The unit of a size: 0 for bytes up to 4 for terabytes.
pub open spec fn size_unit(bytes: nat) -> nat {
    unit_from(float_value(bytes), 0)
}

/// The number shown for a size: the byte count itself in the first unit,
/// else the scaled value with one decimal, rounded half to even.
pub open spec fn size_number(bytes: nat) -> Seq<char> {
    let k = size_unit(bytes);
    if k == 0 {
        decimal(bytes)
    } else {
        let t = round_half_even(10 * float_value(bytes), pow1024(k));
        decimal(t / 10) + seq!['.', digit_char(t % 10)]
    }
}

/// Unit names of `format_size`.
pub open spec fn size_unit_name(k: nat) -> Seq<char> {
    if k == 0 { "B"@ } else if k == 1 { "KB"@ } else if k == 2 { "MB"@ } else if k == 3 { "GB"@ } else { "TB"@ }
}

/// What `format_size` writes.
pub open spec fn size_text(bytes: nat) -> Seq<char> {
    size_number(bytes) + seq![' '] + size_unit_name(size_unit(bytes))
}

proof fn lemma_round_bounds(a: nat, d: nat)
    requires
        d > 0,
    ensures
        round_half_even(a, d) <= a / d + 1,
        a / d <= round_half_even(a, d),
        round_half_even(a, d) * d <= a + d,
        d == 1 ==> round_half_even(a, d) == a,
{
    let q = a / d;
    let r = a % d;
    assert(q * d + r == a) by (nonlinear_arith)
        requires d > 0, q == a / d, r == a % d;
    assert((q + 1) * d == q * d + d) by (nonlinear_arith);
    if d == 1 {
        assert(r == 0);
    }
}

/// `a / d` rounded half to even.
fn round_half_even_exec(a: u128, d: u128) -> (r: u128)
    requires
        d > 0,
        a < 0x1_0000_0000_0000_0000_0000_0000,
    ensures
        r == round_half_even(a as nat, d as nat),
{
    let q = a / d;
    let rem = a % d;
    proof {
        let ai = a as int;
        let di = d as int;
        assert(ai % di <= ai) by (nonlinear_arith)
            requires di > 0, ai >= 0;
        assert(ai / di <= ai) by (nonlinear_arith)
            requires di > 0, ai >= 0;
    }
    if 2 * rem > d || (2 * rem == d && q % 2 == 1) {
        q + 1
    } else {
        q
    }
}

/// The value that `bytes as f64` holds, as an integer.
fn float_value_of(bytes: u64) -> (v: u128)
    ensures
        v == float_value(bytes as nat),
        v <= 2 * (bytes as nat),
{
    let b = bytes as u128;
    let mut x: u128 = b;
    let mut d: u128 = 1;
    let ghost mut s: nat = 0;
    proof {
        assert(x == b / d);
    }
    while x >= 9007199254740992
        invariant
            b == bytes as u128,
            d == pow2(s),
            d >= 1,
            x == b / d,
            d * x <= b,
            float_shift(b as nat) == s + float_shift(x as nat),
            d == 1 || x >= 1,
            b < 0x1_0000_0000_0000_0000,
        decreases x,
    {
        proof {
            assert(float_shift(x as nat) == 1 + float_shift((x / 2) as nat));
            let bi = b as int;
            let di = d as int;
            let xi = x as int;
            vstd::arithmetic::div_mod::lemma_div_denominator(bi, di, 2);
            assert(di * 2 * (xi / 2) <= di * xi) by (nonlinear_arith)
                requires xi >= 0, di >= 1;
            assert(di <= bi) by (nonlinear_arith)
                requires di * xi <= bi, xi >= 1, di >= 1;
        }
        x = x / 2;
        d = d * 2;
        proof {
            s = s + 1;
            assert(pow2(s) == 2 * pow2((s - 1) as nat));
        }
    }
    assert(float_shift(x as nat) == 0);
    proof {
        lemma_round_bounds(b as nat, d as nat);
        let bi = b as int;
        let di = d as int;
        let xi = x as int;
        assert((bi / di) * di <= bi) by (nonlinear_arith)
            requires di >= 1, bi >= 0;
        assert(di == 1 || di <= bi) by (nonlinear_arith)
            requires di * xi <= bi, di >= 1, di == 1 || xi >= 1;
    }
    let r = round_half_even_exec(b, d);
    proof {
        assert(r * d <= b + d);
    }
    r * d
}

proof fn lemma_pow1024_values()
    ensures
        pow1024(0) == 1,
        pow1024(1) == 1024,
        pow1024(2) == 0x10_0000,
        pow1024(3) == 0x4000_0000,
        pow1024(4) == 0x100_0000_0000,
        pow1024(5) == 0x4_0000_0000_0000,
{
    assert(pow1024(1) == 1024 * pow1024(0));
    assert(pow1024(2) == 1024 * pow1024(1));
    assert(pow1024(3) == 1024 * pow1024(2));
    assert(pow1024(4) == 1024 * pow1024(3));
    assert(pow1024(5) == 1024 * pow1024(4));
}

/// The unit index for a float value `v` and the matching power of 1024.
fn size_unit_of(v: u128) -> (res: (usize, u128))
    requires
        v <= 0x2_0000_0000_0000_0000,
    ensures
        res.0 == unit_from(v as nat, 0),
        res.1 == pow1024(res.0 as nat),
        res.0 <= 4,
        res.0 > 0 ==> v >= res.1,
        res.1 >= 1,
        res.1 <= 0x100_0000_0000,
{
    proof {
        lemma_pow1024_values();
    }
    let mut k: usize = 0;
    let mut p: u128 = 1;
    while k < 4 && v >= p * 1024
        invariant
            k <= 4,
            p == pow1024(k as nat),
            p <= 0x100_0000_0000,
            p >= 1,
            pow1024(0) == 1,
            pow1024(1) == 1024,
            pow1024(2) == 0x10_0000,
            pow1024(3) == 0x4000_0000,
            pow1024(4) == 0x100_0000_0000,
            unit_from(v as nat, 0) == unit_from(v as nat, k as nat),
            k > 0 ==> v >= p,
        decreases 4 - k,
    {
        assert(pow1024((k + 1) as nat) == 1024 * pow1024(k as nat));
        p = p * 1024;
        k = k + 1;
    }
    assert(pow1024((k + 1) as nat) == 1024 * pow1024(k as nat));
    (k, p)
}

/// Appends the number shown for `bytes` and returns the unit index.
pub fn push_size_number(out: &mut Vec<char>, bytes: u64) -> (k: usize)
    ensures
        k == size_unit(bytes as nat),
        k <= 4,
        final(out)@ == old(out)@ + size_number(bytes as nat),
        size_number(bytes as nat).len() <= 41,
{
    let v = float_value_of(bytes);
    let (k, p) = size_unit_of(v);
    if k == 0 {
        push_decimal(out, bytes as u128);
        proof {
            lemma_decimal_len_u128(bytes as nat);
        }
    } else {
        let t = round_half_even_exec(10 * v, p);
        push_decimal(out, t / 10);
        proof {
            lemma_decimal_len_u128((t / 10) as nat);
        }
        out.push('.');
        out.push(digit(t % 10));
        assert(old(out)@ + decimal((t / 10) as nat) + seq!['.', digit_char((t % 10) as nat)]
            =~= out@);
    }
    k
}

/// Human-readable size with binary units: `512 B`, `1.0 KB`, `1.5 MB`.
pub fn format_size(bytes: u64) -> (r: String)
    ensures
        r@ == size_text(bytes as nat),
        r@.len() <= 44,
{
    let mut out: Vec<char> = Vec::new();
    let k = push_size_number(&mut out, bytes);
    out.push(' ');
    let unit = if k == 0 { "B" } else if k == 1 { "KB" } else if k == 2 { "MB" } else if k == 3 { "GB" } else { "TB" };
    let u = chars_of(unit);
    proof {
        reveal_strlit("B");
        reveal_strlit("KB");
        reveal_strlit("MB");
        reveal_strlit("GB");
        reveal_strlit("TB");
    }
    push_text(&mut out, &u);
    assert(out@ =~= size_text(bytes as nat));
    text_string(&out)
}


// ---------------------------------------------------------------------------
// Ages
// ---------------------------------------------------------------------------

/// The number of seconds per unit for an age of `seconds` (at least a minute).
pub open spec fn age_divisor(seconds: nat) -> nat {
    if seconds < 3600 { 60 }
    else if seconds < 86400 { 3600 }
    else if seconds < 2592000 { 86400 }
    else if seconds < 31536000 { 2592000 }
    else { 31536000 }
}

/// The unit name for a divisor; `short` names minutes `min`.
pub open spec fn age_unit_name(divisor: nat, short: bool) -> Seq<char> {
    if divisor == 60 { if short { "min"@ } else { "minute"@ } }
    else if divisor == 3600 { "hour"@ }
    else if divisor == 86400 { "day"@ }
    else if divisor == 2592000 { "month"@ }
    else { "year"@ }
}

/// How an age is written: `now` under a minute, else the whole number of the
/// largest fitting unit (minute, hour, day, 30-day month, 365-day year), its
/// unit, an `s` unless the number is one (never for `min`), and the suffix.
pub open spec fn age_text(seconds: nat, suffix: Seq<char>, short: bool) -> Seq<char> {
    if seconds < 60 {
        "now"@
    } else {
        let divisor = age_divisor(seconds);
        let value = seconds / divisor;
        let plural = value != 1 && !(short && divisor == 60);
        decimal(value) + seq![' '] + age_unit_name(divisor, short)
            + (if plural { seq!['s'] } else { Seq::<char>::empty() }) + seq![' '] + suffix
    }
}

/// The distance between two instants, in nanoseconds.
pub open spec fn nanos_apart(now: int, then: int) -> nat {
    if now >= then { (now - then) as nat } else { (then - now) as nat }
}

/// How a modification time is written against the instant `now`: `-` when
/// unknown, else its age in whole seconds, `ago` when it is not after `now`
/// and `from now` when it is.
pub open spec fn modified_text(modified: Option<i128>, now: int, short: bool) -> Seq<char> {
    match modified {
        None => "-"@,
        Some(m) => age_text(
            nanos_apart(now, m as int) / 1_000_000_000,
            if now >= m { "ago"@ } else { "from now"@ },
            short,
        ),
    }
}

/// Appends the age text of `seconds` with `suffix`.
pub fn push_age(out: &mut Vec<char>, seconds: u128, suffix: &Vec<char>, short: bool)
    ensures
        final(out)@ == old(out)@ + age_text(seconds as nat, suffix@, short),
        age_text(seconds as nat, suffix@, short).len() <= 48 + suffix@.len(),
{
    proof {
        reveal_strlit("now");
        reveal_strlit("min");
        reveal_strlit("minute");
        reveal_strlit("hour");
        reveal_strlit("day");
        reveal_strlit("month");
        reveal_strlit("year");
    }
    if seconds < 60 {
        let now = chars_of("now");
        push_text(out, &now);
        return;
    }
    let divisor: u128 = if seconds < 3600 {
        60
    } else if seconds < 86400 {
        3600
    } else if seconds < 2592000 {
        86400
    } else if seconds < 31536000 {
        2592000
    } else {
        31536000
    };
    let value = seconds / divisor;
    let unit = if divisor == 60 {
        if short { "min" } else { "minute" }
    } else if divisor == 3600 {
        "hour"
    } else if divisor == 86400 {
        "day"
    } else if divisor == 2592000 {
        "month"
    } else {
        "year"
    };
    let plural = value != 1 && !(short && divisor == 60);
    let ghost start = out@;
    push_decimal(out, value);
    proof {
        lemma_decimal_len_u128(value as nat);
    }
    out.push(' ');
    let u = chars_of(unit);
    push_text(out, &u);
    if plural {
        out.push('s');
    }
    out.push(' ');
    push_text(out, suffix);
    assert(out@ =~= start + age_text(seconds as nat, suffix@, short));
}

/// The distance between two instants given in nanoseconds.
pub fn nanos_between(now: i128, then: i128) -> (r: u128)
    ensures
        r == nanos_apart(now as int, then as int),
{
    if now >= then {
        if then >= 0 || now < 0 {
            (now - then) as u128
        } else {
            (now as u128) + ((-(then + 1)) as u128) + 1
        }
    } else {
        if now >= 0 || then < 0 {
            (then - now) as u128
        } else {
            (then as u128) + ((-(now + 1)) as u128) + 1
        }
    }
}

/// Appends how `modified` is written against the instant `now`.
pub fn push_modified(out: &mut Vec<char>, modified: Option<i128>, now: i128, short: bool)
    ensures
        final(out)@ == old(out)@ + modified_text(modified, now as int, short),
        modified_text(modified, now as int, short).len() <= 56,
{
    proof {
        reveal_strlit("ago");
        reveal_strlit("from now");
    }
    match modified {
        None => {
            out.push('-');
            proof {
                reveal_strlit("-");
            }
            assert(out@ =~= old(out)@ + modified_text(modified, now as int, short));
        },
        Some(m) => {
            let seconds = nanos_between(now, m) / 1_000_000_000;
            let suffix = if now >= m { chars_of("ago") } else { chars_of("from now") };
            push_age(out, seconds, &suffix, short);
        },
    }
}

/// How `modified` is written against the instant `now` (nanoseconds since the Unix epoch).
pub fn format_modified_at(modified: Option<i128>, now: i128) -> (r: String)
    ensures
        r@ == modified_text(modified, now as int, false),
        r@.len() <= 56,
{
    let mut out: Vec<char> = Vec::new();
    push_modified(&mut out, modified, now, false);
    assert(out@ =~= modified_text(modified, now as int, false));
    text_string(&out)
}

/// Reads the system clock with `std::time::SystemTime::now()` and gives its
/// distance from the Unix epoch (`duration_since`, in whole nanoseconds) and
/// whether it lies before the epoch. Nothing is stated of the values: they are
/// whatever the clock reads at the call.
#[verifier::external_body]
fn clock_reading() -> (r: (bool, u128)) {
    match std::time::SystemTime::now().duration_since(std::time::UNIX_EPOCH) {
        Ok(after) => (false, after.as_nanos()),
        Err(before) => (true, before.duration().as_nanos()),
    }
}

/// A clock reading as signed nanoseconds since the Unix epoch: the distance,
/// held to at most `i128::MAX`, negated for an instant before the epoch.
pub open spec fn signed_nanos(before_epoch: bool, nanos: nat) -> int {
    let magnitude: int = if nanos > i128::MAX { i128::MAX as int } else { nanos as int };
    if before_epoch { -magnitude } else { magnitude }
}

/// The current instant as signed nanoseconds since the Unix epoch (held to
/// the range of `i128`, which any clock reading of `SystemTime` lies within).
pub(crate) fn clock_now() -> (r: i128)
    ensures
        exists|before_epoch: bool, nanos: u128| r as int == #[trigger] signed_nanos(before_epoch, nanos as nat),
{
    let (before_epoch, nanos) = clock_reading();
    let magnitude: i128 = if nanos > 0x7fff_ffff_ffff_ffff_ffff_ffff_ffff_ffff {
        0x7fff_ffff_ffff_ffff_ffff_ffff_ffff_ffff
    } else {
        nanos as i128
    };
    let r = if before_epoch { -magnitude } else { magnitude };
    assert(r as int == signed_nanos(before_epoch, nanos as nat));
    r
}

/// How `modified` is written against the current time: `-` when unknown,
/// else its age as `format_modified_at` writes it at the instant the clock is read.
pub fn format_modified(modified: Option<i128>) -> (r: String)
    ensures
        modified is None ==> r@ == "-"@,
        exists|now: i128| r@ == modified_text(modified, now as int, false),
{
    let now = clock_now();
    format_modified_at(modified, now)
}

// ---------------------------------------------------------------------------
// Reading PATH
// ---------------------------------------------------------------------------

/// Whether two paths are equal for `std::path::Path` (component by component).
pub uninterp spec fn same_path(a: Seq<char>, b: Seq<char>) -> bool;

/// Compares two paths with `==` on `std::path::Path`, which compares their
/// components. The contract names the result `same_path` of the two texts and
/// states one more fact of it: `Path` is `Eq`, so the same text is the same path.
#[verifier::external_body]
pub fn paths_equal(a: &str, b: &str) -> (r: bool)
    ensures
        r == same_path(a@, b@),
        a@ == b@ ==> r,
{
    std::path::Path::new(a) == std::path::Path::new(b)
}

/// The kind of a file system object, as its metadata tells it.
#[derive(Clone, Copy, Debug)]
pub struct MetadataKind {
    pub is_dir: bool,
    pub is_file: bool,
}

/// The entry type for the metadata of a path, `Missing` when there is none.
pub fn entry_type_from_metadata(metadata: Option<MetadataKind>) -> (t: EntryType)
    ensures
        t == (match metadata {
            None => EntryType::Missing,
            Some(m) => if m.is_dir { EntryType::Directory } else if m.is_file { EntryType::File } else { EntryType::Other },
        }),
{
    match metadata {
        None => EntryType::Missing,
        Some(m) => {
            if m.is_dir {
                EntryType::Directory
            } else if m.is_file {
                EntryType::File
            } else {
                EntryType::Other
            }
        },
    }
}

/// The metadata of a file that decides whether it is executable.
#[derive(Clone, Copy, Debug)]
pub struct FileMode {
    pub is_file: bool,
    pub mode: u32,
}

/// Whether a file is executable: it is a regular file and some execute bit of its mode is set.
pub open spec fn executable_mode(metadata: Option<FileMode>) -> bool {
    match metadata {
        None => false,
        Some(m) => m.is_file && (m.mode & 0o111u32) != 0,
    }
}

/// Whether the file with this metadata (none when it could not be read) is executable.
pub fn is_executable(metadata: Option<FileMode>) -> (b: bool)
    ensures
        b == executable_mode(metadata),
{
    match metadata {
        None => false,
        Some(m) => m.is_file && (m.mode & 0o111u32) != 0,
    }
}

/// One object inside a directory: whether it is a regular file (following
/// links), and its metadata when it could be read.
#[derive(Clone, Copy, Debug)]
pub struct FileProbe {
    pub is_file: bool,
    pub metadata: Option<FileMode>,
}

/// Executable and non-executable regular files of a directory.
#[derive(Clone, Copy, Debug, PartialEq, Eq)]
pub struct FileCounts {
    pub executable: usize,
    pub non_executable: usize,
}

/// The number of executable regular files among `items`.
pub open spec fn count_executable(items: Seq<FileProbe>) -> nat
    decreases items.len(),
{
    if items.len() == 0 {
        0
    } else {
        count_executable(items.drop_last()) + if items.last().is_file && executable_mode(items.last().metadata) { 1nat } else { 0nat }
    }
}

/// The number of regular files among `items` that are not executable.
pub open spec fn count_non_executable(items: Seq<FileProbe>) -> nat
    decreases items.len(),
{
    if items.len() == 0 {
        0
    } else {
        count_non_executable(items.drop_last()) + if items.last().is_file && !executable_mode(items.last().metadata) { 1nat } else { 0nat }
    }
}

proof fn lemma_counts_bounded(items: Seq<FileProbe>)
    ensures
        count_executable(items) + count_non_executable(items) <= items.len(),
    decreases items.len(),
{
    if items.len() > 0 {
        lemma_counts_bounded(items.drop_last());
    }
}

/// Counts the regular files of a directory, split by whether they are executable.
pub fn count_directory_files(items: &Vec<FileProbe>) -> (c: FileCounts)
    ensures
        c.executable == count_executable(items@),
        c.non_executable == count_non_executable(items@),
{
    let mut counts = FileCounts { executable: 0, non_executable: 0 };
    let mut i: usize = 0;
    while i < items.len()
        invariant
            i <= items.len(),
            counts.executable == count_executable(items@.take(i as int)),
            counts.non_executable == count_non_executable(items@.take(i as int)),
        decreases items.len() - i,
    {
        proof {
            assert(items@.take(i + 1).drop_last() =~= items@.take(i as int));
            lemma_counts_bounded(items@.take(i + 1));
        }
        let item = items[i];
        if item.is_file {
            if is_executable(item.metadata) {
                counts.executable = counts.executable + 1;
            } else {
                counts.non_executable = counts.non_executable + 1;
            }
        }
        i = i + 1;
    }
    assert(items@.take(items.len() as int) =~= items@);
    counts
}

/// The link metadata of one object inside a directory.
#[derive(Clone, Copy, Debug)]
pub struct SizeProbe {
    pub is_file: bool,
    pub len: u64,
}

/// The total size of the regular files among `items` (objects whose metadata
/// could not be read count nothing).
pub open spec fn files_size(items: Seq<Option<SizeProbe>>) -> nat
    decreases items.len(),
{
    if items.len() == 0 {
        0
    } else {
        files_size(items.drop_last()) + match items.last() {
            Some(m) => if m.is_file { m.len as nat } else { 0nat },
            None => 0nat,
        }
    }
}

proof fn lemma_files_size_prefix(items: Seq<Option<SizeProbe>>, k: int)
    requires
        0 <= k <= items.len(),
    ensures
        files_size(items.take(k)) <= files_size(items),
    decreases items.len() - k,
{
    if k < items.len() {
        lemma_files_size_prefix(items, k + 1);
        assert(items.take(k + 1).drop_last() =~= items.take(k));
    } else {
        assert(items.take(k) =~= items);
    }
}

/// The total size of the regular files directly inside a directory.
pub fn directory_size(items: &Vec<Option<SizeProbe>>) -> (total: u64)
    requires
        files_size(items@) <= u64::MAX,
    ensures
        total == files_size(items@),
{
    let mut total: u64 = 0;
    let mut i: usize = 0;
    while i < items.len()
        invariant
            i <= items.len(),
            total == files_size(items@.take(i as int)),
            files_size(items@) <= u64::MAX,
        decreases items.len() - i,
    {
        proof {
            assert(items@.take(i + 1).drop_last() =~= items@.take(i as int));
            lemma_files_size_prefix(items@, i + 1);
        }
        match items[i] {
            Some(m) => {
                if m.is_file {
                    total = total + m.len;
                }
            },
            None => {},
        }
        i = i + 1;
    }
    assert(items@.take(items.len() as int) =~= items@);
    total
}

/// What was found on disk for one entry of `PATH`, in order.
///
/// `metadata_len` is the length that the entry's metadata gives; the counts and
/// `directory_size` describe the files directly inside it when it is a directory.
#[derive(Debug)]
pub struct PathProbe {
    pub path: String,
    pub entry_type: EntryType,
    pub metadata_len: u64,
    pub modified: Option<i128>,
    pub executable_count: usize,
    pub non_executable_count: usize,
    pub directory_size: u64,
}

/// Whether the `i`-th of `paths` equals an earlier one.
pub open spec fn repeats_earlier(paths: Seq<Seq<char>>, i: int) -> bool {
    exists|j: int| 0 <= j < i && same_path(paths[j], paths[i])
}

/// The entry built from the `i`-th probe.
pub open spec fn entry_from_probe(probes: Seq<PathProbe>, i: int, e: PathEntry) -> bool {
    let p = probes[i];
    let dir = p.entry_type == EntryType::Directory;
    &&& e.index == i + 1
    &&& e.path@ == p.path@
    &&& e.entry_type == p.entry_type
    &&& e.exists == (p.entry_type != EntryType::Missing)
    &&& e.executable_count == (if dir { p.executable_count } else { 0 })
    &&& e.non_executable_count == (if dir { p.non_executable_count } else { 0 })
    &&& e.size_bytes == (if dir { p.directory_size } else if p.entry_type == EntryType::Missing { 0 } else { p.metadata_len })
    &&& e.modified == p.modified
    &&& e.duplicate == repeats_earlier(probes.map_values(|q: PathProbe| q.path@), i)
}

/// The entries of `PATH` from what was found for each, in order: numbered
/// from one, marked as duplicates when an earlier entry names the same path.
pub fn entries_from_probes(probes: Vec<PathProbe>) -> (entries: Vec<PathEntry>)
    ensures
        entries.len() == probes.len(),
        forall|i: int| 0 <= i < probes.len() ==> #[trigger] entry_from_probe(probes@, i, entries@[i]),
        forall|j: int, i: int|
            #![trigger probes@[j], probes@[i]]
            0 <= j < i < probes.len() && probes@[j].path@ == probes@[i].path@ ==> entries@[i].duplicate,
{
    let n: usize = probes.len();
    let ghost all = probes@;
    assert(all.len() == n);
    let ghost paths = all.map_values(|q: PathProbe| q.path@);
    let mut rest = probes;
    let mut entries: Vec<PathEntry> = Vec::new();
    let mut i: usize = 0;
    while rest.len() > 0
        invariant
            i + rest.len() == all.len(),
            all.len() <= usize::MAX,
            rest@ =~= all.skip(i as int),
            entries.len() == i,
            paths == all.map_values(|q: PathProbe| q.path@),
            forall|k: int| 0 <= k < i ==> #[trigger] entry_from_probe(all, k, entries@[k]),
            forall|j: int, k: int|
                #![trigger all[j], all[k]]
                0 <= j < k < i && all[j].path@ == all[k].path@ ==> entries@[k].duplicate,
        decreases rest.len(),
    {
        let probe = rest.remove(0);
        assert(probe == all[i as int]);
        let mut duplicate = false;
        let mut j: usize = 0;
        while j < entries.len()
            invariant
                j <= entries.len(),
                entries.len() == i,
                i < all.len(),
                probe == all[i as int],
                paths == all.map_values(|q: PathProbe| q.path@),
                forall|k: int| 0 <= k < i ==> #[trigger] entry_from_probe(all, k, entries@[k]),
                duplicate == (exists|k: int| 0 <= k < j && same_path(paths[k], paths[i as int])),
                forall|k: int| #![trigger all[k]] 0 <= k < j && all[k].path@ == all[i as int].path@ ==> duplicate,
                forall|j2: int, k: int|
                    #![trigger all[j2], all[k]]
                    0 <= j2 < k < i && all[j2].path@ == all[k].path@ ==> entries@[k].duplicate,
            decreases entries.len() - j,
        {
            assert(entry_from_probe(all, j as int, entries@[j as int]));
            let same = paths_equal(entries[j].path.as_str(), probe.path.as_str());
            proof {
                if same {
                    assert(0 <= j < j + 1 && same_path(paths[j as int], paths[i as int]));
                }
                assert(entries@[j as int].path@ == all[j as int].path@);
            }
            duplicate = duplicate || same;
            j = j + 1;
        }
        let dir = probe.entry_type == EntryType::Directory;
        let missing = probe.entry_type == EntryType::Missing;
        let ghost old_entries = entries@;
        let entry = PathEntry {
            index: i + 1,
            path: probe.path,
            entry_type: probe.entry_type,
            exists: !missing,
            executable_count: if dir { probe.executable_count } else { 0 },
            non_executable_count: if dir { probe.non_executable_count } else { 0 },
            size_bytes: if dir { probe.directory_size } else if missing { 0 } else { probe.metadata_len },
            duplicate,
            modified: probe.modified,
        };
        entries.push(entry);
        assert(entry_from_probe(all, i as int, entries@[i as int]));
        assert forall|j2: int, k: int|
            #![trigger all[j2], all[k]]
            0 <= j2 < k < i + 1 && all[j2].path@ == all[k].path@ implies entries@[k].duplicate by {
            if k < i {
                assert(entries@[k] == old_entries[k]);
            }
        }
        i = i + 1;
    }
    entries
}


// ---------------------------------------------------------------------------
// Laws
// ---------------------------------------------------------------------------

proof fn lemma_unit_from(v: nat, k: nat)
    requires
        k <= 4,
        k == 0 || v >= pow1024(k),
    ensures
        k <= unit_from(v, k) <= 4,
        unit_from(v, k) >= 1 ==> v >= pow1024(unit_from(v, k)),
        unit_from(v, k) < 4 ==> v < pow1024(unit_from(v, k) + 1),
    decreases 4 - k,
{
    if k < 4 && v >= pow1024(k + 1) {
        lemma_unit_from(v, k + 1);
    }
}

/// A size is shown in the largest unit (up to TB) of which it holds at
/// least one: at least 1024 to the power of the unit, and under the next
/// power unless the unit is the last.
pub proof fn law_size_unit_bounds(bytes: nat)
    ensures
        size_unit(bytes) <= 4,
        size_unit(bytes) >= 1 ==> float_value(bytes) >= pow1024(size_unit(bytes)),
        size_unit(bytes) < 4 ==> float_value(bytes) < pow1024(size_unit(bytes) + 1),
{
    lemma_unit_from(float_value(bytes), 0);
}

/// Sizes that a 64-bit float holds exactly (below 2 to the 53rd) are scaled
/// from the exact byte count, and sizes under 1024 bytes are shown in bytes.
pub proof fn law_small_sizes_exact(bytes: nat)
    requires
        bytes < 9007199254740992,
    ensures
        float_value(bytes) == bytes,
        bytes < 1024 ==> size_unit(bytes) == 0 && size_text(bytes) == decimal(bytes) + " B"@,
{
    assert(float_shift(bytes) == 0);
    assert(pow2(0) == 1);
    lemma_round_bounds(bytes, 1);
    if bytes < 1024 {
        assert(pow1024(1) == 1024) by {
            assert(pow1024(0) == 1);
        }
        reveal_strlit(" B");
        reveal_strlit("B");
        assert(seq![' '] + "B"@ =~= " B"@);
        assert(decimal(bytes) + seq![' '] + "B"@ =~= decimal(bytes) + (seq![' '] + "B"@));
    }
}

proof fn lemma_pow2_positive(n: nat)
    ensures
        pow2(n) >= 1,
    decreases n,
{
    if n > 0 {
        lemma_pow2_positive((n - 1) as nat);
    }
}

proof fn lemma_float_shift_pow(b: nat)
    requires
        b >= 1,
    ensures
        pow2(float_shift(b)) <= b,
    decreases b,
{
    if b >= 9007199254740992 {
        lemma_float_shift_pow(b / 2);
        assert(float_shift(b) == 1 + float_shift(b / 2));
        assert(pow2(float_shift(b)) == 2 * pow2(float_shift(b / 2)));
    }
}

/// The float value of a size is at most twice the size.
proof fn lemma_float_value_bound(b: nat)
    ensures
        float_value(b) <= 2 * b,
{
    let d = pow2(float_shift(b));
    lemma_pow2_positive(float_shift(b));
    lemma_round_bounds(b, d);
    if b >= 1 {
        lemma_float_shift_pow(b);
    } else {
        assert(float_shift(0) == 0);
        assert(d == 1);
    }
}

/// A written size takes at most 44 characters.
pub(crate) proof fn lemma_size_text_len(bytes: nat)
    requires
        bytes <= u64::MAX,
    ensures
        size_text(bytes).len() <= 44,
{
    let k = size_unit(bytes);
    law_size_unit_bounds(bytes);
    reveal_strlit("B");
    reveal_strlit("KB");
    reveal_strlit("MB");
    reveal_strlit("GB");
    reveal_strlit("TB");
    if k == 0 {
        lemma_decimal_len_u128(bytes);
    } else {
        let fv = float_value(bytes);
        let p = pow1024(k);
        lemma_pow1024_values();
        assert(p >= 1);
        lemma_float_value_bound(bytes);
        lemma_round_bounds(10 * fv, p);
        assert((10 * fv) / p <= 10 * fv) by (nonlinear_arith)
            requires p >= 1;
        let t = round_half_even(10 * fv, p);
        assert(t / 10 <= t) by (nonlinear_arith);
        lemma_decimal_len_u128(t / 10);
    }
}

/// A written modification time takes at most 56 characters.
pub(crate) proof fn lemma_modified_text_len(modified: Option<i128>, now: int, short: bool)
    requires
        i128::MIN <= now <= i128::MAX,
    ensures
        modified_text(modified, now, short).len() <= 56,
{
    reveal_strlit("-");
    reveal_strlit("now");
    reveal_strlit("ago");
    reveal_strlit("from now");
    reveal_strlit("min");
    reveal_strlit("minute");
    reveal_strlit("hour");
    reveal_strlit("day");
    reveal_strlit("month");
    reveal_strlit("year");
    match modified {
        None => {},
        Some(m) => {
            let seconds = nanos_apart(now, m as int) / 1_000_000_000;
            if seconds >= 60 {
                let divisor = age_divisor(seconds);
                assert(seconds / divisor <= seconds) by (nonlinear_arith)
                    requires divisor >= 60;
                lemma_decimal_len_u128(seconds / divisor);
            }
        },
    }
}


/// Written sizes hold no escape character.
pub(crate) proof fn lemma_size_text_escape_free(bytes: nat)
    ensures
        escape_free(size_text(bytes)),
{
    broadcast use lemma_escape_free_add, lemma_escape_free_push;
    lemma_escape_free_parts(Seq::<char>::empty(), 0, ' ', 0);
    reveal_strlit("B");
    reveal_strlit("KB");
    reveal_strlit("MB");
    reveal_strlit("GB");
    reveal_strlit("TB");
    let k = size_unit(bytes);
    if k == 0 {
        lemma_decimal_escape_free(bytes);
    } else {
        let t = round_half_even(10 * float_value(bytes), pow1024(k));
        lemma_decimal_escape_free(t / 10);
    }
}

/// Written modification times hold no escape character.
pub(crate) proof fn lemma_modified_text_escape_free(modified: Option<i128>, now: int, short: bool)
    ensures
        escape_free(modified_text(modified, now, short)),
{
    broadcast use lemma_escape_free_add, lemma_escape_free_push;
    lemma_escape_free_parts(Seq::<char>::empty(), 0, ' ', 0);
    reveal_strlit("-");
    reveal_strlit("now");
    reveal_strlit("ago");
    reveal_strlit("from now");
    reveal_strlit("min");
    reveal_strlit("minute");
    reveal_strlit("hour");
    reveal_strlit("day");
    reveal_strlit("month");
    reveal_strlit("year");
    match modified {
        None => {},
        Some(m) => {
            let seconds = nanos_apart(now, m as int) / 1_000_000_000;
            if seconds >= 60 {
                lemma_decimal_escape_free(seconds / age_divisor(seconds));
            }
        },
    }
}

} // verus!
