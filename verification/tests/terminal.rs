use pathy::terminal::{names_utf8, supports_color, Style, TerminalCapabilities, TerminalEnvironment};

fn environment() -> TerminalEnvironment {
    TerminalEnvironment {
        is_tty: true,
        width: Some(120),
        windows: false,
        term: None,
        lc_all: None,
        lc_ctype: None,
        lang: None,
        clicolor_force: None,
        no_color_set: false,
        clicolor: None,
    }
}

#[test]
fn clicolor_force_overrides_no_color() {
    let mut env = environment();
    env.no_color_set = true;
    env.clicolor_force = Some("1".to_string());

    assert!(supports_color(false, true, &env));
}

#[test]
fn no_color_disables_color_without_force() {
    let mut env = environment();
    env.no_color_set = true;

    assert!(!supports_color(true, false, &env));
}

#[test]
fn clicolor_force_zero_does_not_force() {
    let mut env = environment();
    env.clicolor_force = Some("0".to_string());
    env.no_color_set = true;

    assert!(!supports_color(true, false, &env));
}

#[test]
fn clicolor_zero_and_dumb_term_disable_color() {
    let mut env = environment();
    env.clicolor = Some("0".to_string());
    assert!(!supports_color(true, false, &env));

    let mut env = environment();
    env.term = Some("dumb".to_string());
    assert!(!supports_color(true, false, &env));

    let env = environment();
    assert!(supports_color(true, false, &env));
    assert!(!supports_color(false, false, &env));
}

#[test]
fn capabilities_follow_the_environment() {
    let mut env = environment();
    env.term = Some("DUMB".to_string());
    let caps = TerminalCapabilities::from_environment(&env);
    assert!(caps.is_dumb);
    assert!(!caps.use_unicode);

    let mut env = environment();
    env.lang = Some("en_US.UTF-8".to_string());
    assert!(TerminalCapabilities::from_environment(&env).use_unicode);

    let mut env = environment();
    env.lc_all = Some("C".to_string());
    env.lang = Some("en_US.UTF-8".to_string());
    assert!(!TerminalCapabilities::from_environment(&env).use_unicode);

    let mut env = environment();
    env.lc_ctype = Some("de_DE.utf8".to_string());
    assert!(TerminalCapabilities::from_environment(&env).use_unicode);

    let env = environment();
    assert!(TerminalCapabilities::from_environment(&env).use_unicode);
}

#[test]
fn styles_wrap_text_in_escape_codes() {
    let colored = Style { use_colors: true };
    assert_eq!(colored.green("ok"), "\x1b[32mok\x1b[0m");
    assert_eq!(colored.red("x"), "\x1b[31mx\x1b[0m");
    assert_eq!(colored.yellow("y"), "\x1b[33my\x1b[0m");
    assert_eq!(colored.cyan("c"), "\x1b[36mc\x1b[0m");
    assert_eq!(colored.bold("b"), "\x1b[1mb\x1b[0m");
    assert_eq!(Style::plain().green("ok"), "ok");
}

#[test]
fn locale_names_asking_for_utf8() {
    assert!(names_utf8("en_us.utf-8"));
    assert!(names_utf8("de_de.utf8"));
    assert!(names_utf8("utf-8"));
    assert!(names_utf8("c.utf8@euro"));
    assert!(!names_utf8("c"));
    assert!(!names_utf8("en_us.iso-8859-1"));
    assert!(!names_utf8("EN_US.UTF-8"));
    assert!(!names_utf8(""));
}
