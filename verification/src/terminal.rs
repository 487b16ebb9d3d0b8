//! Terminal capabilities: what the output supports, decided from what the
//! environment tells, and the ANSI colors of the output.

use vstd::prelude::*;
use crate::text::{chars_of, push_text, text_string};

verus! {

/// The colors and weights the output uses.
#[derive(Clone, Copy, Debug, PartialEq, Eq, Structural)]
pub enum Paint {
    Bold,
    Green,
    Red,
    Yellow,
    Cyan,
}

/// The ANSI escape sequence that starts a paint.
pub open spec fn paint_code(p: Paint) -> Seq<char> {
    match p {
        Paint::Bold => "\x1b[1m"@,
        Paint::Green => "\x1b[32m"@,
        Paint::Red => "\x1b[31m"@,
        Paint::Yellow => "\x1b[33m"@,
        Paint::Cyan => "\x1b[36m"@,
    }
}

/// `text` painted when colors are on, as it is otherwise.
#[verifier::opaque]
pub open spec fn painted(use_colors: bool, p: Paint, text: Seq<char>) -> Seq<char> {
    if use_colors { paint_code(p) + text + "\x1b[0m"@ } else { text }
}

/// Whether output is colored.
#[derive(Clone, Copy, Debug)]
pub struct Style {
    pub use_colors: bool,
}

/// Appends `text` painted with `p` when colors are on.
pub fn push_painted(out: &mut Vec<char>, use_colors: bool, p: Paint, text: &Vec<char>)
    ensures
        final(out)@ == old(out)@ + painted(use_colors, p, text@),
{
    reveal(painted);
    if use_colors {
        let code = match p {
            Paint::Bold => chars_of("\x1b[1m"),
            Paint::Green => chars_of("\x1b[32m"),
            Paint::Red => chars_of("\x1b[31m"),
            Paint::Yellow => chars_of("\x1b[33m"),
            Paint::Cyan => chars_of("\x1b[36m"),
        };
        let reset = chars_of("\x1b[0m");
        push_text(out, &code);
        push_text(out, text);
        push_text(out, &reset);
        assert(final(out)@ =~= old(out)@ + painted(use_colors, p, text@));
    } else {
        push_text(out, text);
    }
}

impl Style {
    fn new(use_colors: bool) -> (s: Style)
        ensures
            s.use_colors == use_colors,
    {
        Style { use_colors }
    }

    /// A style without colors.
    pub fn plain() -> (s: Style)
        ensures
            !s.use_colors,
    {
        Style { use_colors: false }
    }

    fn paint(&self, p: Paint, text: &str) -> (r: String)
        ensures
            r@ == painted(self.use_colors, p, text@),
    {
        let t = chars_of(text);
        let mut out: Vec<char> = Vec::new();
        push_painted(&mut out, self.use_colors, p, &t);
        assert(out@ =~= painted(self.use_colors, p, text@));
        text_string(&out)
    }

    /// `text` in bold when colors are on.
    pub fn bold(&self, text: &str) -> (r: String)
        ensures
            r@ == painted(self.use_colors, Paint::Bold, text@),
    {
        self.paint(Paint::Bold, text)
    }

    /// `text` in green when colors are on.
    pub fn green(&self, text: &str) -> (r: String)
        ensures
            r@ == painted(self.use_colors, Paint::Green, text@),
    {
        self.paint(Paint::Green, text)
    }

    /// `text` in red when colors are on.
    pub fn red(&self, text: &str) -> (r: String)
        ensures
            r@ == painted(self.use_colors, Paint::Red, text@),
    {
        self.paint(Paint::Red, text)
    }

    /// `text` in yellow when colors are on.
    pub fn yellow(&self, text: &str) -> (r: String)
        ensures
            r@ == painted(self.use_colors, Paint::Yellow, text@),
    {
        self.paint(Paint::Yellow, text)
    }

    /// `text` in cyan when colors are on.
    pub fn cyan(&self, text: &str) -> (r: String)
        ensures
            r@ == painted(self.use_colors, Paint::Cyan, text@),
    {
        self.paint(Paint::Cyan, text)
    }
}

/// What the terminal that the output goes to supports.
#[derive(Clone, Copy, Debug)]
pub struct TerminalCapabilities {
    pub is_tty: bool,
    pub is_dumb: bool,
    pub width: Option<u16>,
    pub use_unicode: bool,
    pub use_colors: bool,
}

impl TerminalCapabilities {
    /// The style that matches the color support.
    pub fn style(&self) -> (s: Style)
        ensures
            s.use_colors == self.use_colors,
    {
        Style::new(self.use_colors)
    }
}

/// What the environment tells about the terminal: whether standard output is
/// a terminal and its width, and the variables that matter (`None` when a
/// variable is unset or not valid Unicode; `no_color_set` when `NO_COLOR` is
/// set at all). `windows` tells whether the program runs on Windows.
#[derive(Debug)]
pub struct TerminalEnvironment {
    pub is_tty: bool,
    pub width: Option<u16>,
    pub windows: bool,
    pub term: Option<String>,
    pub lc_all: Option<String>,
    pub lc_ctype: Option<String>,
    pub lang: Option<String>,
    pub clicolor_force: Option<String>,
    pub no_color_set: bool,
    pub clicolor: Option<String>,
}

/// The lowercase form of a text, as `str::to_lowercase` gives it.
pub uninterp spec fn lowercase(s: Seq<char>) -> Seq<char>;

/// Lowercases `s` with `str::to_lowercase`, which maps each character to its
/// Unicode lowercase form. The result is named `lowercase`; nothing more is stated.
#[verifier::external_body]
fn to_lowercase(s: &str) -> (r: String)
    ensures
        r@ == lowercase(s@),
{
    s.to_lowercase()
}

/// Whether `needle` occurs in `hay` starting at `i`.
pub open spec fn occurs_at(hay: Seq<char>, needle: Seq<char>, i: int) -> bool {
    0 <= i && i + needle.len() <= hay.len() && hay.subrange(i, i + needle.len()) == needle
}

/// Whether `needle` occurs in `hay`.
pub open spec fn contains_text(hay: Seq<char>, needle: Seq<char>) -> bool {
    exists|i: int| occurs_at(hay, needle, i)
}

/// Whether `hay` ends with `needle`.
pub open spec fn ends_with_text(hay: Seq<char>, needle: Seq<char>) -> bool {
    occurs_at(hay, needle, hay.len() - needle.len())
}

fn text_occurs_at(hay: &Vec<char>, needle: &Vec<char>, i: usize) -> (b: bool)
    ensures
        b == occurs_at(hay@, needle@, i as int),
{
    if i > hay.len() || needle.len() > hay.len() - i {
        return false;
    }
    let mut k: usize = 0;
    while k < needle.len()
        invariant
            i + needle.len() <= hay.len(),
            k <= needle.len(),
            forall|j: int| 0 <= j < k ==> hay@[i + j] == needle@[j],
        decreases needle.len() - k,
    {
        if hay[i + k] != needle[k] {
            assert(hay@.subrange(i as int, i + needle.len())[k as int] != needle@[k as int]);
            return false;
        }
        k = k + 1;
    }
    assert(hay@.subrange(i as int, i + needle.len()) =~= needle@);
    true
}

fn text_contains(hay: &Vec<char>, needle: &Vec<char>) -> (b: bool)
    ensures
        b == contains_text(hay@, needle@),
{
    let mut i: usize = 0;
    loop
        invariant
            i <= hay.len(),
            forall|j: int| 0 <= j < i ==> !occurs_at(hay@, needle@, j),
        ensures
            forall|j: int| 0 <= j <= hay.len() ==> !occurs_at(hay@, needle@, j),
        decreases hay.len() - i,
    {
        if text_occurs_at(hay, needle, i) {
            return true;
        }
        if i == hay.len() {
            break;
        }
        i = i + 1;
    }
    assert forall|j: int| !occurs_at(hay@, needle@, j) by {
        if 0 <= j <= hay.len() {
        }
    }
    false
}

fn text_ends_with(hay: &Vec<char>, needle: &Vec<char>) -> (b: bool)
    ensures
        b == ends_with_text(hay@, needle@),
{
    if needle.len() > hay.len() {
        return false;
    }
    text_occurs_at(hay, needle, hay.len() - needle.len())
}

/// Whether a locale name asks for UTF-8.
pub open spec fn utf8_locale(lowered: Seq<char>) -> bool {
    ||| contains_text(lowered, "utf-8"@)
    ||| contains_text(lowered, "utf8"@)
    ||| ends_with_text(lowered, ".utf-8"@)
    ||| ends_with_text(lowered, ".utf8"@)
}

/// The first locale variable that is set, in the order `LC_ALL`, `LC_CTYPE`, `LANG`.
pub open spec fn chosen_locale(env: TerminalEnvironment) -> Option<Seq<char>> {
    if env.lc_all is Some {
        Some(env.lc_all->0@)
    } else if env.lc_ctype is Some {
        Some(env.lc_ctype->0@)
    } else if env.lang is Some {
        Some(env.lang->0@)
    } else {
        None
    }
}

/// Unicode is supported on Windows, when no locale variable is set, or when
/// the locale, lowercased, names UTF-8.
pub open spec fn unicode_supported(env: TerminalEnvironment) -> bool {
    env.windows || match chosen_locale(env) {
        None => true,
        Some(l) => utf8_locale(lowercase(l)),
    }
}

/// Whether Unicode output is supported by the locale.
pub fn is_unicode_supported(env: &TerminalEnvironment) -> (b: bool)
    ensures
        b == unicode_supported(*env),
{
    if env.windows {
        return true;
    }
    let locale = match &env.lc_all {
        Some(v) => Some(v),
        None => match &env.lc_ctype {
            Some(v) => Some(v),
            None => match &env.lang {
                Some(v) => Some(v),
                None => None,
            },
        },
    };
    match locale {
        None => true,
        Some(l) => {
            let lowered = to_lowercase(l.as_str());
            names_utf8(lowered.as_str())
        },
    }
}

/// Whether a lowercased locale name asks for UTF-8: it contains `utf-8` or
/// `utf8`, or ends with `.utf-8` or `.utf8`.
pub fn names_utf8(lowered: &str) -> (b: bool)
    ensures
        b == utf8_locale(lowered@),
{
    let s = chars_of(lowered);
    let a = chars_of("utf-8");
    let b = chars_of("utf8");
    let c = chars_of(".utf-8");
    let d = chars_of(".utf8");
    text_contains(&s, &a) || text_contains(&s, &b) || text_ends_with(&s, &c) || text_ends_with(&s, &d)
}

/// The code of a character with ASCII capitals made small.
pub open spec fn ascii_lower(c: char) -> u32 {
    if 'A' <= c && c <= 'Z' { ((c as u32) + 32) as u32 } else { c as u32 }
}

/// Whether `s` equals `t` when ASCII letters are compared without case.
pub open spec fn eq_ignore_ascii_case(s: Seq<char>, t: Seq<char>) -> bool {
    s.len() == t.len() && forall|i: int| 0 <= i < s.len() ==> ascii_lower(#[trigger] s[i]) == ascii_lower(t[i])
}

fn char_ascii_lower(c: char) -> (r: u32)
    ensures
        r == ascii_lower(c),
{
    if 'A' <= c && c <= 'Z' {
        (c as u32) + 32
    } else {
        c as u32
    }
}

fn text_eq_ignore_ascii_case(s: &Vec<char>, t: &Vec<char>) -> (b: bool)
    ensures
        b == eq_ignore_ascii_case(s@, t@),
{
    if s.len() != t.len() {
        return false;
    }
    let mut i: usize = 0;
    while i < s.len()
        invariant
            s.len() == t.len(),
            i <= s.len(),
            forall|j: int| 0 <= j < i ==> ascii_lower(#[trigger] s@[j]) == ascii_lower(t@[j]),
        decreases s.len() - i,
    {
        if char_ascii_lower(s[i]) != char_ascii_lower(t[i]) {
            return false;
        }
        i = i + 1;
    }
    true
}

/// The terminal is dumb when `TERM` is `dumb`, in any case.
pub open spec fn dumb_terminal(env: TerminalEnvironment) -> bool {
    match env.term {
        None => false,
        Some(t) => eq_ignore_ascii_case(t@, "dumb"@),
    }
}

/// Whether `TERM` names a dumb terminal.
pub fn is_dumb_terminal(env: &TerminalEnvironment) -> (b: bool)
    ensures
        b == dumb_terminal(*env),
{
    match &env.term {
        None => false,
        Some(t) => {
            let s = chars_of(t.as_str());
            let d = chars_of("dumb");
            text_eq_ignore_ascii_case(&s, &d)
        },
    }
}

/// Color support: `CLICOLOR_FORCE` other than `0` turns it on; else
/// `NO_COLOR`, a non-terminal, a dumb terminal or `CLICOLOR=0` turn it off;
/// else it is on unless `TERM` is exactly `dumb`.
pub open spec fn color_supported(is_tty: bool, is_dumb: bool, env: TerminalEnvironment) -> bool {
    if env.clicolor_force is Some && env.clicolor_force->0@ != "0"@ {
        true
    } else if env.no_color_set {
        false
    } else if !is_tty || is_dumb {
        false
    } else if env.clicolor is Some && env.clicolor->0@ == "0"@ {
        false
    } else {
        match env.term {
            None => true,
            Some(t) => t@ != "dumb"@,
        }
    }
}

fn text_equals(s: &str, literal: &str) -> (b: bool)
    ensures
        b == (s@ == literal@),
{
    let a = chars_of(s);
    let b = chars_of(literal);
    if a.len() != b.len() {
        return false;
    }
    let mut i: usize = 0;
    while i < a.len()
        invariant
            a.len() == b.len(),
            a@ == s@,
            b@ == literal@,
            i <= a.len(),
            forall|j: int| 0 <= j < i ==> a@[j] == b@[j],
        decreases a.len() - i,
    {
        if a[i] != b[i] {
            assert(a@[i as int] != b@[i as int]);
            return false;
        }
        i = i + 1;
    }
    assert(a@ =~= b@);
    true
}

/// Whether colored output is supported.
pub fn supports_color(is_tty: bool, is_dumb: bool, env: &TerminalEnvironment) -> (b: bool)
    ensures
        b == color_supported(is_tty, is_dumb, *env),
{
    let forced = match &env.clicolor_force {
        Some(v) => !text_equals(v.as_str(), "0"),
        None => false,
    };
    if forced {
        return true;
    }
    if env.no_color_set {
        return false;
    }
    if !is_tty || is_dumb {
        return false;
    }
    let disabled = match &env.clicolor {
        Some(v) => text_equals(v.as_str(), "0"),
        None => false,
    };
    if disabled {
        return false;
    }
    match &env.term {
        None => true,
        Some(t) => !text_equals(t.as_str(), "dumb"),
    }
}

/// The capabilities that the environment describes.
pub open spec fn capabilities_of(env: TerminalEnvironment) -> TerminalCapabilities {
    let is_dumb = dumb_terminal(env);
    TerminalCapabilities {
        is_tty: env.is_tty,
        is_dumb,
        width: env.width,
        use_unicode: if !env.is_tty || is_dumb { false } else { unicode_supported(env) },
        use_colors: color_supported(env.is_tty, is_dumb, env),
    }
}

impl TerminalCapabilities {
    /// The capabilities of the terminal that `env` describes.
    pub fn from_environment(env: &TerminalEnvironment) -> (caps: TerminalCapabilities)
        ensures
            caps == capabilities_of(*env),
    {
        let is_dumb = is_dumb_terminal(env);
        let use_unicode = if !env.is_tty || is_dumb {
            false
        } else {
            is_unicode_supported(env)
        };
        let use_colors = supports_color(env.is_tty, is_dumb, env);
        TerminalCapabilities { is_tty: env.is_tty, is_dumb, width: env.width, use_unicode, use_colors }
    }
}


// ---------------------------------------------------------------------------
// Laws
// ---------------------------------------------------------------------------

/// `CLICOLOR_FORCE` set to anything but `0` turns colors on whatever else is
/// set; without it, `NO_COLOR`, output that is not a terminal, and a dumb
/// terminal each turn them off. Unicode is used only on a terminal that is
/// not dumb. On a terminal that is not dumb, with none of `CLICOLOR_FORCE`,
/// `NO_COLOR` or `TERM=dumb`, colors are on unless `CLICOLOR` is `0`.
pub proof fn law_terminal_fallbacks(is_tty: bool, is_dumb: bool, env: TerminalEnvironment)
    ensures
        (env.clicolor_force is Some && env.clicolor_force->0@ != "0"@) ==> color_supported(is_tty, is_dumb, env),
        !(env.clicolor_force is Some && env.clicolor_force->0@ != "0"@) && (env.no_color_set || !is_tty || is_dumb)
            ==> !color_supported(is_tty, is_dumb, env),
        capabilities_of(env).use_unicode ==> env.is_tty && !capabilities_of(env).is_dumb,
        is_tty && !is_dumb && env.clicolor_force is None && !env.no_color_set
            && (env.clicolor is None || env.clicolor->0@ != "0"@)
            && (env.term is None || env.term->0@ != "dumb"@) ==> color_supported(is_tty, is_dumb, env),
{
}

} // verus!
