//! The grammar of the library, held against the regular expressions that
//! describe it.

use regex::{Captures, Regex};
use secretfile::chars::is_whitespace;
use secretfile::interpolate::interpolate_env_vars;
use secretfile::line::{parse_line, Line};
use secretfile::{Environment, Error};

const LINE: &str = r"^(?:\s*(?:#.*)?|(?P<name>\S+)\s+(?P<path>\S+?):(?P<key>\S+)\s*)$";

const REFERENCE: &str =
    r"\$(?:(?P<name>[a-zA-Z_][a-zA-Z0-9_]*)|\{(?P<name2>[a-zA-Z_][a-zA-Z0-9_]*)\})";

fn line_by_regex(re: &Regex, line: &str) -> Line {
    match re.captures(line) {
        Some(caps) => match caps.name("name") {
            Some(name) => Line::Entry {
                name: name.as_str().to_owned(),
                path: caps.name("path").unwrap().as_str().to_owned(),
                key: caps.name("key").unwrap().as_str().to_owned(),
            },
            None => Line::Blank,
        },
        None => Line::Malformed,
    }
}

fn lookup(vars: &[(&str, &str)], name: &str) -> Option<String> {
    vars.iter().rev().find(|(n, _)| *n == name).map(|(_, v)| (*v).to_owned())
}

fn interpolate_by_regex(re: &Regex, vars: &[(&str, &str)], text: &str) -> Result<String, Error> {
    let mut undefined: Option<String> = None;
    let replaced = re.replace_all(text, |caps: &Captures| {
        let name = caps.name("name").or_else(|| caps.name("name2")).unwrap().as_str();
        match lookup(vars, name) {
            Some(value) => value,
            None => {
                if undefined.is_none() {
                    undefined = Some(name.to_owned());
                }
                String::new()
            }
        }
    });
    match undefined {
        None => Ok(replaced.into_owned()),
        Some(name) => Err(Error::UndefinedEnvironmentVariable(name)),
    }
}

/// Calls `check` on every string of at most `longest` characters of
/// `alphabet`.
fn for_each_string(alphabet: &[char], longest: usize, check: &mut dyn FnMut(&str)) {
    let mut text = String::new();
    extend(alphabet, longest, &mut text, check);
}

fn extend(alphabet: &[char], room: usize, text: &mut String, check: &mut dyn FnMut(&str)) {
    check(text);
    if room == 0 {
        return;
    }
    for c in alphabet {
        text.push(*c);
        extend(alphabet, room - 1, text, check);
        text.pop();
    }
}

fn lines_agree(alphabet: &[char], longest: usize) {
    let re = Regex::new(LINE).unwrap();
    let mut checked = 0;
    for_each_string(alphabet, longest, &mut |line| {
        assert_eq!(parse_line(line), line_by_regex(&re, line), "{:?}", line);
        checked += 1;
    });
    assert!(checked > alphabet.len());
}

#[test]
fn lines_of_names_colons_and_spaces() {
    lines_agree(&['a', ' ', ':', '#'], 8);
}

#[test]
fn lines_with_line_feeds_and_tabs() {
    lines_agree(&['a', '\n', ':', '#', '\t', '\r'], 6);
}

#[test]
fn lines_outside_ascii() {
    lines_agree(&['é', '\u{a0}', ':', '#', '\u{2028}', '$', 'b'], 5);
}

#[test]
fn lines_written_by_hand() {
    let re = Regex::new(LINE).unwrap();
    let lines = [
        "",
        "# This is a comment.",
        "FOO_USERNAME secret/$SECRET_NAME:username",
        "FOO_PASSWORD secret/${SECRET_NAME}:password",
        "BAD_LINE something-without-colon",
        "NAME http://host:8200/path:key",
        "NAME path:key # trailing",
        "   # indented",
        "   NAME path:key",
        "NAME\tpath:key\t",
        "NAME path:key\r",
        "NAME ::::",
        "NAME : :",
        "#NAME path:key",
        "N#AME path:key",
        "NAME path:key\n",
        "NAME path:key\nMORE",
        "NAME\npath:key",
        "\u{3000}",
        "NAME\u{2003}path:key\u{85}",
        "NAME \u{200b}:key",
    ];
    for line in lines {
        assert_eq!(parse_line(line), line_by_regex(&re, line), "{:?}", line);
    }
}

fn interpolations_agree(alphabet: &[char], longest: usize) {
    let re = Regex::new(REFERENCE).unwrap();
    let vars = [("A", "1"), ("_", "under"), ("A1", "$A"), ("AA", ""), ("b", "${")];
    let mut env = Environment::new();
    for (name, value) in vars {
        env.set(name, value);
    }
    let mut checked = 0;
    for_each_string(alphabet, longest, &mut |text| {
        assert_eq!(interpolate_env_vars(text, &env), interpolate_by_regex(&re, &vars, text), "{:?}", text);
        checked += 1;
    });
    assert!(checked > alphabet.len());
}

#[test]
fn interpolation_of_dollars_braces_and_names() {
    interpolations_agree(&['$', '{', '}', 'A', '1'], 7);
}

#[test]
fn interpolation_of_more_names() {
    interpolations_agree(&['$', '{', '}', 'A', 'b', '_', '/'], 5);
}

#[test]
fn interpolation_outside_ascii() {
    interpolations_agree(&['$', '{', '}', 'A', 'é', ' ', 'Z'], 5);
}

#[test]
fn white_space_is_the_class_of_the_regex() {
    let re = Regex::new(r"^\s$").unwrap();
    let mut text = String::new();
    let mut c = '\0';
    loop {
        text.clear();
        text.push(c);
        assert_eq!(is_whitespace(c), re.is_match(&text), "{:?}", c);
        if c == char::MAX {
            break;
        }
        c = char::from_u32(c as u32 + 1).unwrap_or('\u{e000}');
    }
}

#[test]
fn names_are_the_classes_of_the_regex() {
    let begin = Regex::new(r"^[a-zA-Z_]$").unwrap();
    let go_on = Regex::new(r"^[a-zA-Z0-9_]$").unwrap();
    let mut text = String::new();
    for code in 0..0x3000u32 {
        let c = char::from_u32(code).unwrap();
        text.clear();
        text.push(c);
        assert_eq!(secretfile::chars::is_name_begin(c), begin.is_match(&text), "{:?}", c);
        assert_eq!(secretfile::chars::is_name_continue(c), go_on.is_match(&text), "{:?}", c);
    }
}
