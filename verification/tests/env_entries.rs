use taskmaster::taskmaster::config::Config;
use taskmaster::taskmaster::env::{build_env, config_env_ready, env_entries_split, parse_env_entry, EnvVars};
use taskmaster::text::{char_utf8_width, ends_with, str_eq, white_space};

fn entry(s: &str) -> Option<(String, String)> {
    parse_env_entry(s)
}

fn pair(k: &str, v: &str) -> Option<(String, String)> {
    Some((k.to_string(), v.to_string()))
}

fn config_with_env(env: Option<Vec<&str>>) -> Config {
    Config {
        cmd: "/bin/true".to_string(),
        description: None,
        args: None,
        numprocs: None,
        workingdir: None,
        autostart: None,
        autorestart: None,
        exitcodes: None,
        startretries: None,
        starttime: None,
        stopsignal: None,
        stoptime: None,
        stdout: None,
        stderr: None,
        env: env.map(|v| v.into_iter().map(|s| s.to_string()).collect()),
    }
}

#[test]
fn entry_name_and_value() {
    assert_eq!(entry("KEY=VALUE"), pair("KEY", "VALUE"));
}

#[test]
fn entry_without_equals_sign_has_empty_value() {
    assert_eq!(entry("KEY"), pair("KEY", ""));
    assert_eq!(entry(""), pair("", ""));
}

#[test]
fn entry_cut_at_first_equals_sign() {
    assert_eq!(entry("A=B=C"), pair("A", "B=C"));
    assert_eq!(entry("=x"), pair("", "x"));
    assert_eq!(entry("KEY="), pair("KEY", ""));
}

#[test]
fn entry_trailing_white_space_kept_in_value() {
    assert_eq!(entry("KEY=V  "), pair("KEY", "V  "));
}

#[test]
fn entry_leading_white_space_shifts_the_cut() {
    // The offset of '=' is found in the trimmed text and applied to the untrimmed one.
    assert_eq!(entry(" KEY=V"), pair(" KE", "=V"));
    assert_eq!(entry("\tA=B"), pair("\t", "=B"));
}

#[test]
fn entry_multibyte_name() {
    assert_eq!(entry("é=1"), pair("é", "1"));
    assert_eq!(entry("clé=valeur"), pair("clé", "valeur"));
}

#[test]
fn entry_value_after_multibyte_cut_is_empty() {
    // No '=': the cut is the end of the entry, the value empty.
    assert_eq!(entry("日本"), pair("日本", ""));
}

#[test]
fn entry_cut_inside_a_character_is_refused() {
    assert_eq!(entry(" é=1"), None);
    assert_eq!(entry("\u{3000}AB=C"), None);
}

#[test]
fn entries_split_checks_every_entry() {
    let ok = vec!["A=1".to_string(), "B".to_string()];
    let bad = vec!["A=1".to_string(), " é=1".to_string()];
    assert!(env_entries_split(&ok));
    assert!(!env_entries_split(&bad));
}

#[test]
fn white_space_matches_std() {
    for u in 0u32..=0x10ffff {
        if let Some(c) = char::from_u32(u) {
            assert_eq!(white_space(c), c.is_whitespace(), "code point {:x}", u);
            assert_eq!(char_utf8_width(c), c.len_utf8(), "code point {:x}", u);
        }
    }
}

#[test]
fn string_helpers() {
    assert!(str_eq("abc", "abc"));
    assert!(!str_eq("abc", "abd"));
    assert!(!str_eq("abc", "ab"));
    assert!(ends_with("nginx.service", ".service"));
    assert!(!ends_with("nginx.conf", ".service"));
    assert!(ends_with("x", ""));
    assert!(!ends_with("ice", ".service"));
}

#[test]
fn env_vars_later_pair_overrides() {
    let pairs = vec![
        ("A".to_string(), "1".to_string()),
        ("B".to_string(), "2".to_string()),
        ("A".to_string(), "3".to_string()),
    ];
    let env = EnvVars::from_pairs(&pairs);
    assert_eq!(env.len(), 2);
    assert_eq!(env.get("A").map(|s| s.as_str()), Some("3"));
    assert_eq!(env.get("B").map(|s| s.as_str()), Some("2"));
    assert_eq!(env.get("C"), None);
    assert_eq!(
        env.pairs(),
        vec![("A".to_string(), "3".to_string()), ("B".to_string(), "2".to_string())]
    );
}

#[test]
fn env_vars_insert() {
    let mut env = EnvVars::new();
    assert_eq!(env.len(), 0);
    env.insert("PATH".to_string(), "/bin".to_string());
    env.insert("PATH".to_string(), "/usr/bin".to_string());
    assert_eq!(env.len(), 1);
    assert_eq!(env.get("PATH").map(|s| s.as_str()), Some("/usr/bin"));
}

#[test]
fn build_env_entries_override_inherited() {
    let inherited = vec![
        ("A".to_string(), "0".to_string()),
        ("C".to_string(), "c".to_string()),
    ];
    let config = config_with_env(Some(vec!["A=1", "B=2", "A=3"]));
    assert!(config_env_ready(&config));
    let env = build_env(&config, &inherited);
    assert_eq!(env.get("A").map(|s| s.as_str()), Some("3"));
    assert_eq!(env.get("B").map(|s| s.as_str()), Some("2"));
    assert_eq!(env.get("C").map(|s| s.as_str()), Some("c"));
    assert_eq!(env.len(), 3);
}

#[test]
fn env_not_ready_only_with_bad_entry() {
    assert!(config_env_ready(&config_with_env(None)));
    assert!(!config_env_ready(&config_with_env(Some(vec!["\u{3000}AB=C"]))));
    assert!(config_env_ready(&config_with_env(Some(vec![]))));
}

/// The entry split as `str::trim`, `str::find`, `str::split_at` and `str::get` do it; `None`
/// where `split_at` would fail.
fn split_with_std(val: &str) -> Option<(String, String)> {
    let idx = val.trim().find('=').unwrap_or(val.len());
    if !val.is_char_boundary(idx) {
        return None;
    }
    let (first, last) = val.split_at(idx);
    Some((first.to_string(), last.get(1..).unwrap_or_default().to_string()))
}

#[test]
fn entry_split_agrees_with_std() {
    let samples = [
        "", "=", "==", "A", "A=", "=B", "A=B", "A=B=C", " A=B", "  A=B", "\tA=B ", "A = B",
        " =x", "é=1", " é=1", "\u{3000}AB=C", "\u{3000}\u{3000}AB=C", "\u{a0}x=y", "日本=語",
        " 日本=語", "k=é", "\u{2003}", "x\u{2003}=\u{2003}y\u{2003}", "\u{85}A=B", "ab\u{3000}",
        "a=\u{3000}", "\u{3000}=", "€€=€", "  ",
    ];
    for s in samples.iter() {
        assert_eq!(parse_env_entry(s), split_with_std(s), "entry {:?}", s);
    }
}

#[test]
fn build_env_without_list_inherits() {
    let inherited = vec![
        ("A".to_string(), "0".to_string()),
        ("C".to_string(), "c".to_string()),
    ];
    let env = build_env(&config_with_env(None), &inherited);
    assert_eq!(env.len(), 2);
    assert_eq!(env.get("A").map(|s| s.as_str()), Some("0"));
    assert_eq!(env.get("C").map(|s| s.as_str()), Some("c"));
}
