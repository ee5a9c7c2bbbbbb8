use ysh::ast::{Builtin, CdError, Cmd, Invoke, WithEnv};
use ysh::env::EnvVar;
use ysh::parse::{Parse, ParseError, ParseInto};

#[test]
fn without_env() {
    let text = r#"command argument "complex argument""#;
    let with_env = WithEnv::parse_from(text).expect("source is correct");

    let WithEnv { env, cmd } = with_env;
    assert_eq!(env.count(), 0);
    match cmd {
        Cmd::Builtin(_) => panic!("'command' is not a builtin"),
        Cmd::Invoke(Invoke { command, args }) => {
            assert_eq!(command, "command");
            assert_eq!(args.clone().count(), 2);
            assert_eq!(args.collect(), vec!["argument", "complex argument"]);
        },
    }
}

#[test]
fn with_env() {
    let text = r#"TEST=1 AUTHOR=myrrlyn cd 'complex path'"#;
    let with_env = WithEnv::parse_from(text).expect("source is correct");

    let WithEnv { env, cmd } = with_env;
    assert_eq!(env.clone().count(), 2);
    assert_eq!(
        env.collect(),
        vec![EnvVar::from(("TEST", "1")), EnvVar::from(("AUTHOR", "myrrlyn"))]
    );
    match cmd {
        Cmd::Invoke(_) => panic!("'cd' is a builtin"),
        Cmd::Builtin(Builtin::Cd(path)) => {
            assert_eq!(path, "complex path");
        },
        Cmd::Builtin(_) => panic!("'cd' is only the builtin 'Cd'"),
    }
}

#[test]
fn cd_is_never_an_invocation() {
    //  builtin matching takes priority over invocation, even though an
    //  executable named cd could exist externally
    match Cmd::parse_from("cd /somewhere").expect("cd with a path parses") {
        Cmd::Builtin(Builtin::Cd(path)) => assert_eq!(path, "/somewhere"),
        _ => panic!("'cd' must resolve to the Cd builtin"),
    }

    //  a cd without its path is the matched builtin's failure, not an
    //  invocation of an external cd
    match Cmd::parse_from("cd") {
        Err(ParseError::Other(CdError::NoPath)) => {},
        _ => panic!("'cd' without a path must fail with the no-path condition"),
    }
}

#[test]
fn builtins_parse() {
    assert!(matches!(Builtin::parse_from("clear"), Ok(Builtin::Clear)));
    assert!(matches!(Builtin::parse_from("exit"), Ok(Builtin::Exit)));
    match Builtin::parse_from("cd over/there") {
        Ok(Builtin::Cd(path)) => assert_eq!(path, "over/there"),
        _ => panic!("cd must parse with its path"),
    }
    //  a quoted builtin name is still the builtin: the producer strips quotes
    assert!(matches!(Builtin::parse_from("'exit'"), Ok(Builtin::Exit)));
}

#[test]
fn parse_error_variants() {
    assert!(matches!(Builtin::parse_from(""), Err(ParseError::NoInput)));
    assert!(matches!(Builtin::parse_from("emacs"), Err(ParseError::Unrecognized)));
    assert!(matches!(Builtin::parse_from("cd"), Err(ParseError::Other(CdError::NoPath))));
    assert!(matches!(Cmd::parse_from(""), Err(ParseError::NoInput)));
    assert!(matches!(WithEnv::parse_from("A=1"), Err(ParseError::NoInput)));
}

#[test]
fn parse_into_reads_from_text() {
    let cmd: Result<Cmd, _> = "exit".parse_into();
    assert!(matches!(cmd, Ok(Cmd::Builtin(Builtin::Exit))));

    let owned = String::from("clear");
    let cmd: Result<Cmd, _> = owned.parse_into();
    assert!(matches!(cmd, Ok(Cmd::Builtin(Builtin::Clear))));
}

#[test]
fn invocation_text_round_trip() {
    let inv = Invoke::parse_from("echo one 'two words'").expect("an invocation");
    assert_eq!(inv.command, "echo");
    assert_eq!(inv.to_text(), "echo one two words");
}

#[test]
fn arguments_are_tokens() {
    //  quoted arguments arrive as single tokens, without their quotes, and
    //  an unquoted meta-sequence is taken verbatim as a word
    let inv = Invoke::parse_from(r#"prog -a "b c" 'd e' $var"#).expect("an invocation");
    assert_eq!(inv.args.collect(), vec!["-a", "b c", "d e", "$var"]);
}
