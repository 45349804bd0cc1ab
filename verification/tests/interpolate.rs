use secretfile::interpolate::interpolate_env_vars;
use secretfile::{Environment, Error};

fn env_with(vars: &[(&str, &str)]) -> Environment {
    let mut env = Environment::new();
    for (name, value) in vars {
        env.set(name, value);
    }
    env
}

fn ok(text: &str) -> Result<String, Error> {
    Ok(text.to_owned())
}

fn undefined(name: &str) -> Result<String, Error> {
    Err(Error::UndefinedEnvironmentVariable(name.to_owned()))
}

#[test]
fn bare_and_braced_references_agree() {
    let env = env_with(&[("X", "value")]);
    assert_eq!(interpolate_env_vars("$X", &env), ok("value"));
    assert_eq!(interpolate_env_vars("${X}", &env), ok("value"));
    assert_eq!(interpolate_env_vars("a/$X/b", &env), interpolate_env_vars("a/${X}/b", &env));
    assert_eq!(interpolate_env_vars("$Y", &env), interpolate_env_vars("${Y}", &env));
}

#[test]
fn text_without_references_is_kept() {
    let env = env_with(&[("X", "value")]);
    assert_eq!(interpolate_env_vars("", &env), ok(""));
    assert_eq!(interpolate_env_vars("secret/path", &env), ok("secret/path"));
    assert_eq!(interpolate_env_vars("X {X} é", &env), ok("X {X} é"));
}

#[test]
fn bare_reference_takes_the_longest_name() {
    let env = env_with(&[("A", "1"), ("AB", "2"), ("A_1", "3")]);
    assert_eq!(interpolate_env_vars("$AB", &env), ok("2"));
    assert_eq!(interpolate_env_vars("$A_1", &env), ok("3"));
    assert_eq!(interpolate_env_vars("$A-B", &env), ok("1-B"));
    assert_eq!(interpolate_env_vars("${A}B", &env), ok("1B"));
    assert_eq!(interpolate_env_vars("$ABC", &env), undefined("ABC"));
}

#[test]
fn references_side_by_side() {
    let env = env_with(&[("A", "1"), ("B", "2")]);
    assert_eq!(interpolate_env_vars("$A$B", &env), ok("12"));
    assert_eq!(interpolate_env_vars("${A}${B}$A", &env), ok("121"));
    assert_eq!(interpolate_env_vars("$A/${B}/$A", &env), ok("1/2/1"));
}

#[test]
fn dollar_that_begins_no_reference_is_kept() {
    let env = env_with(&[("A", "1")]);
    assert_eq!(interpolate_env_vars("$", &env), ok("$"));
    assert_eq!(interpolate_env_vars("$$A", &env), ok("$1"));
    assert_eq!(interpolate_env_vars("$1A", &env), ok("$1A"));
    assert_eq!(interpolate_env_vars("${A", &env), ok("${A"));
    assert_eq!(interpolate_env_vars("${}", &env), ok("${}"));
    assert_eq!(interpolate_env_vars("${1}", &env), ok("${1}"));
    assert_eq!(interpolate_env_vars("${A-}", &env), ok("${A-}"));
    assert_eq!(interpolate_env_vars("${A$A}", &env), ok("${A1}"));
    assert_eq!(interpolate_env_vars("${ A}", &env), ok("${ A}"));
    assert_eq!(interpolate_env_vars("$é", &env), ok("$é"));
}

#[test]
fn values_are_not_interpolated_again() {
    let env = env_with(&[("A", "$B"), ("B", "no"), ("C", "${"), ("D", "B}")]);
    assert_eq!(interpolate_env_vars("$A", &env), ok("$B"));
    assert_eq!(interpolate_env_vars("$C$D", &env), ok("${B}"));
}

#[test]
fn empty_value_is_defined() {
    let env = env_with(&[("EMPTY", "")]);
    assert_eq!(interpolate_env_vars("a${EMPTY}b", &env), ok("ab"));
}

#[test]
fn first_undefined_variable_is_reported() {
    let env = env_with(&[("A", "1")]);
    assert_eq!(interpolate_env_vars("$X", &env), undefined("X"));
    assert_eq!(interpolate_env_vars("$A$X$Y", &env), undefined("X"));
    assert_eq!(interpolate_env_vars("${Y}/$X/$A", &env), undefined("Y"));
    assert_eq!(interpolate_env_vars("$a", &env), undefined("a"));
    assert_eq!(interpolate_env_vars("$_", &env), undefined("_"));
}

#[test]
fn environment_keeps_the_last_value() {
    let mut env = Environment::new();
    assert_eq!(env.get("A"), None);
    env.set("A", "1");
    env.set("B", "2");
    env.set("A", "3");
    assert_eq!(env.get("A"), Some("3"));
    assert_eq!(env.get("B"), Some("2"));
    assert_eq!(env.get("C"), None);
    assert_eq!(env.get(""), None);
    let copy = env.clone();
    assert_eq!(copy.get("A"), Some("3"));
    assert_eq!(interpolate_env_vars("$A$B", &copy), ok("32"));
}
