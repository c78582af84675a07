use orbutils::exec::{command_from_words, exec_to_command, ExecCommand};

fn strings(v: &[&str]) -> Vec<String> {
    v.iter().map(|s| s.to_string()).collect()
}

#[test]
fn exec_plain_words() {
    let c = exec_to_command("editor --new-window", None).unwrap();
    assert_eq!(c.program, "editor");
    assert_eq!(c.args, strings(&["--new-window"]));
}

#[test]
fn exec_file_code_takes_path() {
    let c = exec_to_command("app --x %f", Some("/tmp/a b.txt")).unwrap();
    assert_eq!(c.program, "app");
    assert_eq!(c.args, strings(&["--x", "/tmp/a b.txt"]));
    for code in ["%F", "%u", "%U"] {
        let line = format!("viewer {}", code);
        let c = exec_to_command(&line, Some("/p")).unwrap();
        assert_eq!(c.args, strings(&["/p"]));
    }
}

#[test]
fn exec_file_code_without_path_is_dropped() {
    let c = exec_to_command("app %f --y", None).unwrap();
    assert_eq!(c.program, "app");
    assert_eq!(c.args, strings(&["--y"]));
}

#[test]
fn exec_quoting_is_shell_like() {
    let c = exec_to_command("'my app' \"two words\" three\\ four", None).unwrap();
    assert_eq!(c.program, "my app");
    assert_eq!(c.args, strings(&["two words", "three four"]));
}

#[test]
fn exec_unsupported_code_fails() {
    assert!(exec_to_command("app %k", Some("/p")).is_none());
    assert!(exec_to_command("app %", None).is_none());
}

#[test]
fn exec_percent_program_is_kept() {
    // only the arguments are checked for codes
    let c = exec_to_command("%weird arg", None).unwrap();
    assert_eq!(c.program, "%weird");
    assert_eq!(c.args, strings(&["arg"]));
}

#[test]
fn exec_bad_quotes_or_empty_fail() {
    assert!(exec_to_command("app 'unterminated", None).is_none());
    assert!(exec_to_command("", None).is_none());
    assert!(exec_to_command("   ", None).is_none());
}

#[test]
fn command_from_words_directly() {
    let c = command_from_words(&strings(&["prog", "%U", "x"]), Some("/f")).unwrap();
    assert_eq!(
        c,
        ExecCommand { program: "prog".to_string(), args: strings(&["/f", "x"]) }
    );
    assert!(command_from_words(&Vec::new(), None).is_none());
    assert!(command_from_words(&strings(&["prog", "%d"]), None).is_none());
}
