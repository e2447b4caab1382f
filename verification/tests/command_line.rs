use lport::args::{parse_invocation, parse_mode, read_port, ArgError, Invocation, Mode, USAGE_EXIT_CODE};

fn words(line: &str) -> Vec<String> {
    line.split_whitespace().map(|w| w.to_string()).collect()
}

#[test]
fn no_arguments_show_the_dashboard() {
    assert_eq!(parse_mode(&words("")), Ok(Mode::Dashboard { dev: false }));
    assert_eq!(parse_mode(&words("--dev")), Ok(Mode::Dashboard { dev: true }));
    assert_eq!(parse_mode(&words("--dev --dev")), Ok(Mode::Dashboard { dev: true }));
}

#[test]
fn info_takes_ports_in_order() {
    assert_eq!(parse_mode(&words("info 8080")), Ok(Mode::Info { ports: vec![8080] }));
    assert_eq!(
        parse_mode(&words("info 8080 5432 8080")),
        Ok(Mode::Info { ports: vec![8080, 5432, 8080] })
    );
}

#[test]
fn ports_alone_are_short_for_info() {
    assert_eq!(parse_mode(&words("8080")), Ok(Mode::Info { ports: vec![8080] }));
    assert_eq!(parse_mode(&words("8080 5432")), Ok(Mode::Info { ports: vec![8080, 5432] }));
    for line in ["1", "65535 80 80", "+80 0443"] {
        assert_eq!(parse_mode(&words(line)), parse_mode(&words(&format!("info {}", line))));
    }
}

#[test]
fn kill_takes_ports_and_flags() {
    assert_eq!(
        parse_mode(&words("kill 3000")),
        Ok(Mode::Kill { ports: vec![3000], force: false, yes: false })
    );
    assert_eq!(
        parse_mode(&words("kill -9 3000 8080")),
        Ok(Mode::Kill { ports: vec![3000, 8080], force: true, yes: false })
    );
    assert_eq!(
        parse_mode(&words("kill -y 3000")),
        Ok(Mode::Kill { ports: vec![3000], force: false, yes: true })
    );
}

#[test]
fn kill_flags_may_stand_anywhere() {
    let expected = Ok(Mode::Kill { ports: vec![3000, 8080], force: true, yes: true });
    assert_eq!(parse_mode(&words("kill -9 -y 3000 8080")), expected);
    assert_eq!(parse_mode(&words("kill 3000 --force 8080 --yes")), expected);
    assert_eq!(parse_mode(&words("kill 3000 8080 -y --force")), expected);
}

#[test]
fn ports_are_between_one_and_65535() {
    assert_eq!(read_port("1"), Some(1));
    assert_eq!(read_port("65535"), Some(65535));
    assert_eq!(read_port("+80"), Some(80));
    assert_eq!(read_port("0080"), Some(80));
    for bad in ["0", "65536", "-1", "", "+", "80a", " 80", "4294967376", "８０"] {
        assert_eq!(read_port(bad), None, "{}", bad);
    }
}

#[test]
fn wrong_arguments_are_named() {
    let cases = [
        ("--foo", "error: unknown argument '--foo'"),
        ("--dev foo", "error: unknown argument 'foo'"),
        ("8080 abc", "error: unknown argument '8080'"),
        ("0", "error: unknown argument '0'"),
        ("--dev 8080", "error: unknown argument '8080'"),
        ("--dev info 80", "error: unknown argument '--dev'"),
        ("-y kill 80", "error: unknown argument '-y'"),
        ("info 80 abc", "error: invalid port 'abc'"),
        ("info 0", "error: invalid port '0'"),
        ("kill 70000", "error: invalid port '70000'"),
        ("kill -8 80", "error: invalid port '-8'"),
        ("info", "error: 'lport info' requires at least one port number."),
        ("kill -9 -y", "error: 'lport kill' requires at least one port number."),
    ];
    for (line, message) in cases {
        match parse_mode(&words(line)) {
            Err(e) => assert_eq!(e.message(), message),
            Ok(m) => panic!("{} was accepted as {:?}", line, m),
        }
    }
    assert_eq!(USAGE_EXIT_CODE, 2);
}

#[test]
fn each_argument_error_has_its_variant() {
    assert_eq!(parse_mode(&words("x")), Err(ArgError::UnknownArgument { arg: "x".to_string() }));
    assert_eq!(parse_mode(&words("info x")), Err(ArgError::InvalidPort { arg: "x".to_string() }));
    assert_eq!(parse_mode(&words("info")), Err(ArgError::InfoWithoutPort));
    assert_eq!(parse_mode(&words("kill")), Err(ArgError::KillWithoutPort));
}

#[test]
fn info_is_looked_for_before_kill() {
    assert_eq!(
        parse_mode(&words("kill info 80")),
        Err(ArgError::UnknownArgument { arg: "kill".to_string() })
    );
    assert_eq!(
        parse_mode(&words("info kill 80")),
        Err(ArgError::InvalidPort { arg: "kill".to_string() })
    );
}

#[test]
fn help_and_version_come_first() {
    assert_eq!(parse_invocation(&words("info -h")), Ok(Invocation::Help));
    assert_eq!(parse_invocation(&words("-V --help")), Ok(Invocation::Help));
    assert_eq!(parse_invocation(&words("nonsense --version")), Ok(Invocation::Version));
    assert_eq!(
        parse_invocation(&words("--dev")),
        Ok(Invocation::Run { mode: Mode::Dashboard { dev: true } })
    );
    assert_eq!(parse_invocation(&words("info")), Err(ArgError::InfoWithoutPort));
}
