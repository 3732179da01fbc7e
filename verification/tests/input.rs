use cert_days::input::{choose_source, exit_status, hosts_in, InputError, Source};
use cert_days::openssl::remaining_days::cmd_output;

#[test]
fn hosts_given_as_arguments_win() {
    assert_eq!(choose_source(1, true, false), Ok(Source::Arguments));
    assert_eq!(choose_source(3, false, false), Ok(Source::Arguments));
    assert_eq!(choose_source(2, true, true), Ok(Source::Arguments));
}

#[test]
fn without_arguments_the_file_is_read() {
    assert_eq!(choose_source(0, true, false), Ok(Source::File));
}

#[test]
fn a_missing_file_stops_the_run() {
    assert_eq!(choose_source(0, false, false), Err(InputError::Missing));
    assert_eq!(choose_source(0, false, true), Err(InputError::Missing));
    assert_eq!(exit_status(choose_source(0, false, false)), 1);
}

#[test]
fn a_directory_stops_the_run() {
    assert_eq!(choose_source(0, true, true), Err(InputError::Directory));
    assert_ne!(exit_status(choose_source(0, true, true)), 0);
}

#[test]
fn a_run_that_started_ends_with_status_zero() {
    assert_eq!(exit_status(Ok(Source::Arguments)), 0);
    assert_eq!(exit_status(Ok(Source::File)), 0);
    assert_eq!(exit_status(Err(InputError::Missing)), 1);
    assert_eq!(exit_status(Err(InputError::Directory)), 1);
}

#[test]
fn each_line_is_a_host() {
    assert_eq!(hosts_in("example.com\nrust-lang.org\n"), ["example.com", "rust-lang.org"]);
    assert_eq!(hosts_in("example.com\nrust-lang.org"), ["example.com", "rust-lang.org"]);
    assert_eq!(hosts_in("example.com\r\nrust-lang.org\r\n"), ["example.com", "rust-lang.org"]);
}

#[test]
fn an_empty_file_names_no_host() {
    assert_eq!(hosts_in(""), Vec::<String>::new());
}

#[test]
fn empty_lines_are_hosts_too() {
    assert_eq!(hosts_in("\n"), [""]);
    assert_eq!(hosts_in("a\n\nb\n"), ["a", "", "b"]);
    assert_eq!(hosts_in("\n\n"), ["", ""]);
}

#[test]
fn hosts_in_agrees_with_the_lines_of_the_standard_library() {
    let texts = [
        "",
        "a",
        "a\n",
        "a\r\n",
        "a\r",
        "a\r\nb\r",
        "a\r\r\nb",
        "\r\n",
        "\r",
        "\n\r",
        "a\nb\nc",
        "a b\tc\n d \n",
        "münchen.de\n日本.example\r\n",
        "\n\n\n",
        "x\n\r\n\ry\r\n\n",
    ];
    for text in texts {
        let expected: Vec<String> = text.lines().map(|line| line.to_string()).collect();
        assert_eq!(hosts_in(text), expected, "{:?}", text);
    }
}

#[test]
fn the_diagnostics_of_a_command_are_trimmed() {
    let fetched = cmd_output(
        "notAfter=Jan  5 12:00:00 2031 GMT\n".to_string(),
        "  unable to load certificate\n".to_string(),
        "Org".to_string(),
        "example.com".to_string(),
    );
    assert_eq!(fetched.stdout, "notAfter=Jan  5 12:00:00 2031 GMT\n");
    assert_eq!(fetched.stderr, "unable to load certificate");
    assert_eq!(fetched.organisation, "Org");
    assert_eq!(fetched.domain, "example.com");
}

#[test]
fn diagnostics_of_white_space_are_no_diagnostics() {
    let fetched = cmd_output("out".to_string(), " \n\t\r\n".to_string(), String::new(), "h".to_string());
    assert_eq!(fetched.stderr, "");
    let fetched = cmd_output("out".to_string(), String::new(), String::new(), "h".to_string());
    assert_eq!(fetched.stderr, "");
}

#[test]
fn trimming_agrees_with_the_standard_library() {
    let texts = ["", " ", "a", " a ", "\u{A0}a b\u{3000}", "\n\ta\r\n", "a \u{200B} ", "\u{2028}x\u{2029}", " \u{85} "];
    for text in texts {
        let fetched = cmd_output(String::new(), text.to_string(), String::new(), String::new());
        assert_eq!(fetched.stderr, text.trim(), "{:?}", text);
    }
}
