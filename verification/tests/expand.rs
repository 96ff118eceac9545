use crs_core::expand::{expand_vars, Environment};

fn env(pairs: &[(&str, &str)]) -> Environment {
    Environment { vars: pairs.iter().map(|(k, v)| (k.to_string(), v.to_string())).collect() }
}

#[test]
fn expand_vars_dollar_varname() {
    let result = expand_vars("echo $_CRS_TEST_FOO", &env(&[("_CRS_TEST_FOO", "/test/foo")]));
    assert_eq!(result, "echo /test/foo");
}

#[test]
fn expand_vars_dollar_brace_varname() {
    let result = expand_vars("op run --env-file=${_CRS_TEST_BAR}/.secrets", &env(&[("_CRS_TEST_BAR", "/test/bar")]));
    assert_eq!(result, "op run --env-file=/test/bar/.secrets");
}

#[test]
fn expand_vars_nu_env_style() {
    let result = expand_vars("op run --env-file=$env._CRS_TEST_HOME/.secrets", &env(&[("_CRS_TEST_HOME", "/nu/home")]));
    assert_eq!(result, "op run --env-file=/nu/home/.secrets");
}

#[test]
fn expand_vars_tilde_slash() {
    let result = expand_vars("op run --env-file=~/.secrets", &env(&[("HOME", "/home/joe")]));
    assert_eq!(result, "op run --env-file=/home/joe/.secrets");
}

#[test]
fn expand_vars_tilde_alone() {
    let result = expand_vars("cd ~", &env(&[("HOME", "/home/joe")]));
    assert_eq!(result, "cd /home/joe");
}

#[test]
fn does_not_expand_tilde_in_middle_of_word() {
    assert_eq!(expand_vars("echo foo~bar", &env(&[("HOME", "/home/joe")])), "echo foo~bar");
}

#[test]
fn does_not_expand_double_dollar() {
    assert_eq!(expand_vars("echo $$", &env(&[])), "echo $$");
}

#[test]
fn does_not_expand_inside_single_quotes() {
    assert_eq!(expand_vars("echo '$HOME'", &env(&[("HOME", "/home/joe")])), "echo '$HOME'");
}

#[test]
fn does_not_expand_url_tokens() {
    let url = "https://example.com/$path";
    assert_eq!(expand_vars(url, &env(&[("path", "x")])), url);
}

#[test]
fn leaves_unresolved_var_as_is() {
    assert_eq!(
        expand_vars("echo $_CRS_DEFINITELY_NOT_SET_XYZ", &env(&[])),
        "echo $_CRS_DEFINITELY_NOT_SET_XYZ"
    );
}

#[test]
fn leaves_unresolved_brace_var_as_is() {
    assert_eq!(
        expand_vars("echo ${_CRS_DEFINITELY_NOT_SET_ABC}", &env(&[])),
        "echo ${_CRS_DEFINITELY_NOT_SET_ABC}"
    );
}

#[test]
fn passthrough_plain_command() {
    assert_eq!(expand_vars("cargo build --release", &env(&[])), "cargo build --release");
}

#[test]
fn expand_vars_multiple_in_one_command() {
    let result = expand_vars("echo $_CRS_TEST_A $_CRS_TEST_B", &env(&[("_CRS_TEST_A", "aaa"), ("_CRS_TEST_B", "bbb")]));
    assert_eq!(result, "echo aaa bbb");
}

#[test]
fn expand_keeps_non_ascii_text() {
    assert_eq!(expand_vars("echo héllo $X", &env(&[("X", "wörld")])), "echo héllo wörld");
}

#[test]
fn unset_ascii_references_kept_verbatim() {
    let e = env(&[("HOME", "/home/joe"), ("A", "set")]);
    assert_eq!(expand_vars("echo $AB_1", &e), "echo $AB_1");
    assert_eq!(expand_vars("echo ${AB_1}", &e), "echo ${AB_1}");
    assert_eq!(expand_vars("x $env.AB_1", &e), "x $env.AB_1");
}
