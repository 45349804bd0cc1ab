use secretfile::{Environment, Error, Location, Secretfile};

fn env_with(vars: &[(&str, &str)]) -> Environment {
    let mut env = Environment::new();
    for (name, value) in vars {
        env.set(name, value);
    }
    env
}

fn keyed(path: &str, key: &str) -> Location {
    Location::Keyed(path.to_owned(), key.to_owned())
}

#[test]
fn test_parse() {
    let data = "\
# This is a comment.

FOO_USERNAME secret/$SECRET_NAME:username\n\
FOO_PASSWORD secret/${SECRET_NAME}:password\n\
";
    let mut env = Environment::new();
    env.set("SECRET_NAME", "foo");
    let secretfile = Secretfile::from_str(data, &env).unwrap();
    assert_eq!(
        &Location::Keyed("secret/foo".to_owned(), "username".to_owned()),
        secretfile.get("FOO_USERNAME").unwrap()
    );
    assert_eq!(
        &Location::Keyed("secret/foo".to_owned(), "password".to_owned()),
        secretfile.get("FOO_PASSWORD").unwrap()
    );
}

#[test]
fn two_entries_and_a_missing_name() {
    let data = "FOO_USERNAME secret/$SECRET_NAME:username\nFOO_PASSWORD secret/${SECRET_NAME}:password\n";
    let env = env_with(&[("SECRET_NAME", "foo")]);
    let secretfile = Secretfile::from_str(data, &env).unwrap();
    assert_eq!(secretfile.get("FOO_USERNAME"), Some(&keyed("secret/foo", "username")));
    assert_eq!(secretfile.get("FOO_PASSWORD"), Some(&keyed("secret/foo", "password")));
    assert_eq!(secretfile.get("MISSING"), None);
}

#[test]
fn line_without_colon_is_malformed() {
    let env = Environment::new();
    let result = Secretfile::from_str("BAD_LINE something-without-colon", &env);
    assert_eq!(
        result.err(),
        Some(Error::MalformedLine("BAD_LINE something-without-colon".to_owned()))
    );
}

#[test]
fn read_takes_bytes() {
    let env = env_with(&[("HOME", "/root")]);
    let secretfile = Secretfile::read(b"KEY $HOME/secret:value\n", &env).unwrap();
    assert_eq!(secretfile.get("KEY"), Some(&keyed("/root/secret", "value")));
}

#[test]
fn empty_source_is_an_empty_table() {
    let env = Environment::new();
    let secretfile = Secretfile::read(b"", &env).unwrap();
    assert_eq!(secretfile.get(""), None);
    assert_eq!(secretfile.get("ANY"), None);
}

#[test]
fn blank_lines_and_comments_make_no_entries() {
    let env = Environment::new();
    let data = "\n   \n# comment\n\t # indented comment $UNDEFINED\n#NAME path:key\n\n#";
    let secretfile = Secretfile::from_str(data, &env).unwrap();
    assert_eq!(secretfile.get("#NAME"), None);
    assert_eq!(secretfile.get("NAME"), None);
    assert_eq!(secretfile.get("#"), None);
}

#[test]
fn undefined_variable_fails_after_valid_lines() {
    let env = env_with(&[("A", "a")]);
    let data = "ONE $A/x:k\n# fine\nTWO ${A}:k\nTHREE secret/$MISSING:k\nFOUR $A:k\n";
    assert_eq!(
        Secretfile::from_str(data, &env).err(),
        Some(Error::UndefinedEnvironmentVariable("MISSING".to_owned()))
    );
}

#[test]
fn first_undefined_variable_of_a_path_is_reported() {
    let env = env_with(&[("A", "a")]);
    let data = "NAME $A/$FIRST/${SECOND}/$THIRD:key\n";
    assert_eq!(
        Secretfile::from_str(data, &env).err(),
        Some(Error::UndefinedEnvironmentVariable("FIRST".to_owned()))
    );
}

#[test]
fn variables_in_name_and_key_are_not_resolved() {
    let env = env_with(&[("A", "a")]);
    let secretfile = Secretfile::from_str("$NAME $A:$KEY\n", &env).unwrap();
    assert_eq!(secretfile.get("$NAME"), Some(&keyed("a", "$KEY")));
}

#[test]
fn last_entry_of_a_name_wins() {
    let env = Environment::new();
    let data = "NAME first:a\nOTHER other:o\nNAME second:b\n";
    let secretfile = Secretfile::from_str(data, &env).unwrap();
    assert_eq!(secretfile.get("NAME"), Some(&keyed("second", "b")));
    assert_eq!(secretfile.get("OTHER"), Some(&keyed("other", "o")));
}

#[test]
fn first_error_is_returned() {
    let env = Environment::new();
    let data = "GOOD a:b\nBAD\nWORSE $X:k\n";
    assert_eq!(
        Secretfile::from_str(data, &env).err(),
        Some(Error::MalformedLine("BAD".to_owned()))
    );
    let data = "GOOD a:b\nWORSE $X:k\nBAD\n";
    assert_eq!(
        Secretfile::from_str(data, &env).err(),
        Some(Error::UndefinedEnvironmentVariable("X".to_owned()))
    );
}

#[test]
fn line_without_separator_is_malformed() {
    let env = Environment::new();
    assert_eq!(
        Secretfile::from_str("NAMEpath:key\n", &env).err(),
        Some(Error::MalformedLine("NAMEpath:key".to_owned()))
    );
    assert_eq!(
        Secretfile::from_str("NAME\n", &env).err(),
        Some(Error::MalformedLine("NAME".to_owned()))
    );
}

#[test]
fn line_with_leading_space_is_malformed() {
    let env = Environment::new();
    assert_eq!(
        Secretfile::from_str(" NAME path:key\n", &env).err(),
        Some(Error::MalformedLine(" NAME path:key".to_owned()))
    );
}

#[test]
fn line_with_a_third_token_is_malformed() {
    let env = Environment::new();
    assert_eq!(
        Secretfile::from_str("NAME path:key more\n", &env).err(),
        Some(Error::MalformedLine("NAME path:key more".to_owned()))
    );
    assert_eq!(
        Secretfile::from_str("NAME path:key # comment\n", &env).err(),
        Some(Error::MalformedLine("NAME path:key # comment".to_owned()))
    );
}

#[test]
fn empty_path_or_key_is_malformed() {
    let env = Environment::new();
    assert_eq!(
        Secretfile::from_str("NAME path:\n", &env).err(),
        Some(Error::MalformedLine("NAME path:".to_owned()))
    );
    assert_eq!(
        Secretfile::from_str("NAME :\n", &env).err(),
        Some(Error::MalformedLine("NAME :".to_owned()))
    );
    assert_eq!(
        Secretfile::from_str("NAME path: key\n", &env).err(),
        Some(Error::MalformedLine("NAME path: key".to_owned()))
    );
}

#[test]
fn first_colon_ends_the_path() {
    let env = Environment::new();
    let data = "A http://host:8200/secret:key\nB :x:y\nC a::b\nD ::k\n";
    let secretfile = Secretfile::from_str(data, &env).unwrap();
    assert_eq!(secretfile.get("A"), Some(&keyed("http", "//host:8200/secret:key")));
    assert_eq!(secretfile.get("B"), Some(&keyed(":x", "y")));
    assert_eq!(secretfile.get("C"), Some(&keyed("a", ":b")));
    assert_eq!(secretfile.get("D"), Some(&keyed(":", "k")));
}

#[test]
fn white_space_around_an_entry() {
    let env = Environment::new();
    let data = "A \t path:key \t \nB\u{a0}\u{3000}p:k\u{2003}\n";
    let secretfile = Secretfile::from_str(data, &env).unwrap();
    assert_eq!(secretfile.get("A"), Some(&keyed("path", "key")));
    assert_eq!(secretfile.get("B"), Some(&keyed("p", "k")));
}

#[test]
fn line_endings() {
    let env = Environment::new();
    let secretfile = Secretfile::from_str("A p:k\r\nB q:l\r\n\r\nC r:m", &env).unwrap();
    assert_eq!(secretfile.get("A"), Some(&keyed("p", "k")));
    assert_eq!(secretfile.get("B"), Some(&keyed("q", "l")));
    assert_eq!(secretfile.get("C"), Some(&keyed("r", "m")));
}

#[test]
fn only_one_carriage_return_leaves_a_line() {
    let env = Environment::new();
    assert_eq!(
        Secretfile::from_str("BAD\r\r\n", &env).err(),
        Some(Error::MalformedLine("BAD\r".to_owned()))
    );
    assert_eq!(
        Secretfile::from_str("BAD\r", &env).err(),
        Some(Error::MalformedLine("BAD\r".to_owned()))
    );
    assert_eq!(
        Secretfile::from_str("BAD\r\n", &env).err(),
        Some(Error::MalformedLine("BAD".to_owned()))
    );
}

#[test]
fn names_outside_ascii() {
    let env = env_with(&[("RÉGION", "eu")]);
    let secretfile = Secretfile::from_str("CLÉ secret/données:clé\n", &env).unwrap();
    assert_eq!(secretfile.get("CLÉ"), Some(&keyed("secret/données", "clé")));
    // A variable's name is ASCII: `$R` is the reference here.
    assert_eq!(
        Secretfile::from_str("K $RÉGION:k\n", &env).err(),
        Some(Error::UndefinedEnvironmentVariable("R".to_owned()))
    );
}

#[test]
fn invalid_utf8_is_an_io_failure() {
    let env = Environment::new();
    assert_eq!(Secretfile::read(b"A p:k\nB \xff:k\n", &env).err(), Some(Error::IoFailure));
    assert_eq!(Secretfile::read(b"\xc3", &env).err(), Some(Error::IoFailure));
    assert_eq!(Secretfile::read(b"# \xe2\x82\n", &env).err(), Some(Error::IoFailure));
}

#[test]
fn error_of_an_earlier_line_comes_before_invalid_utf8() {
    let env = Environment::new();
    assert_eq!(
        Secretfile::read(b"BAD\nB \xff:k\n", &env).err(),
        Some(Error::MalformedLine("BAD".to_owned()))
    );
}

#[test]
fn valid_utf8_is_read_as_text() {
    let env = Environment::new();
    let secretfile = Secretfile::read("N \u{1f511}/\u{e9}:\u{4e2d}".as_bytes(), &env).unwrap();
    assert_eq!(secretfile.get("N"), Some(&keyed("\u{1f511}/\u{e9}", "\u{4e2d}")));
}

#[test]
fn get_tells_names_apart() {
    let env = Environment::new();
    let secretfile = Secretfile::from_str("AB p:1\nA q:2\nABC r:3\n", &env).unwrap();
    assert_eq!(secretfile.get("A"), Some(&keyed("q", "2")));
    assert_eq!(secretfile.get("AB"), Some(&keyed("p", "1")));
    assert_eq!(secretfile.get("ABC"), Some(&keyed("r", "3")));
    assert_eq!(secretfile.get("a"), None);
    assert_eq!(secretfile.get("ABCD"), None);
}

#[test]
fn a_clone_holds_the_same_entries() {
    let env = Environment::new();
    let secretfile = Secretfile::from_str("A p:1\nB q:2\n", &env).unwrap();
    let copy = secretfile.clone();
    assert_eq!(copy.get("A"), Some(&keyed("p", "1")));
    assert_eq!(copy.get("B"), Some(&keyed("q", "2")));
    assert_eq!(copy.get("C"), None);
}

#[test]
fn error_messages() {
    assert_eq!(
        Error::UndefinedEnvironmentVariable("HOME".to_owned()).message(),
        "Secretfile: Environment variable HOME is not defined"
    );
    assert_eq!(
        Error::MalformedLine("BAD LINE".to_owned()).message(),
        "Error parsing Secretfile line: BAD LINE"
    );
    assert_eq!(Error::IoFailure.message(), "stream did not contain valid UTF-8");
}

#[test]
fn entries_stand_in_the_order_of_their_names() {
    let env = Environment::new();
    let data = "m p:1\nb p:2\nz p:3\n\u{1f511} p:9\na p:4\nab p:5\n\u{ff5e} p:10\nB p:6\né p:7\nm q:8\n";
    let secretfile = Secretfile::from_str(data, &env).unwrap();
    let expected = [
        ("B", "p", "6"),
        ("a", "p", "4"),
        ("ab", "p", "5"),
        ("b", "p", "2"),
        ("m", "q", "8"),
        ("z", "p", "3"),
        ("é", "p", "7"),
        ("\u{ff5e}", "p", "10"),
        ("\u{1f511}", "p", "9"),
    ];
    for (name, path, key) in expected {
        assert_eq!(secretfile.get(name), Some(&keyed(path, key)), "{:?}", name);
    }
    let shown = format!("{:?}", secretfile);
    let places: Vec<usize> = expected
        .iter()
        .map(|(name, _, _)| shown.find(&format!("key: {:?}", name)).unwrap())
        .collect();
    assert!(places.windows(2).all(|pair| pair[0] < pair[1]), "{}", shown);
    assert_eq!(shown.matches("key: ").count(), expected.len());
}

#[test]
fn many_entries_in_any_order() {
    let env = Environment::new();
    let mut data = String::new();
    let mut n: u32 = 7;
    for _ in 0..500 {
        n = (n * 73 + 11) % 1009;
        data.push_str(&format!("NAME_{} path/{}:key{}\n", n, n, n));
    }
    let secretfile = Secretfile::from_str(&data, &env).unwrap();
    let mut n: u32 = 7;
    for _ in 0..500 {
        n = (n * 73 + 11) % 1009;
        assert_eq!(
            secretfile.get(&format!("NAME_{}", n)),
            Some(&keyed(&format!("path/{}", n), &format!("key{}", n)))
        );
    }
    assert_eq!(secretfile.get("NAME_"), None);
    assert_eq!(secretfile.get("NAME_1009"), None);
    assert_eq!(secretfile.get("NAME"), None);
}
