use ysh::token::{atom, compose, dquote, keyval, shell_meta, squote, trim_start, word, TokenError};

#[test]
fn applicative() {
    compose(str::trim_start, squote, "  'squoted'").expect("squote must succeed");

    trim_start(squote, "  'squoted'").expect("squote must succeed");
}

#[test]
fn token_word() {
    let (rest, part) = word("hello world").expect("word must succeed");
    assert_eq!(part, "hello");
    assert_eq!(rest, " world");

    //  a blank string is NOT a word
    assert!(word("").is_err());
}

#[test]
fn token_squote() {
    let (rest, part) = squote("'hello world' is one token").expect("squote must succeed");
    assert_eq!(part, "hello world");
    assert_eq!(rest, " is one token");
}

#[test]
fn dquote_plain() {
    let (rest, part) = dquote(r#""hello world" is one token"#).expect("dquote must succeed");
    //  dquote's return does not include the quotes
    assert_eq!(part, "hello world");
    assert_eq!(rest, " is one token");
}

#[test]
fn dquote_escapes() {
    let (rest, part) =
        dquote(r#""hello \\ \"world\"" may have backslashes"#).expect("dquote must succeed");
    //  dquote does nothing with \ except skip one character
    assert_eq!(part, r#"hello \\ \"world\""#);
    assert_eq!(rest, " may have backslashes");
}

#[test]
fn dquote_shell() {
    let (_, part) = dquote(r#""dquote $(may "nest")""#).expect("dquote must succeed");

    assert_eq!(part, "dquote $(may \"nest\")");
}

#[test]
fn dquote_edge() {
    //  must have opening and closing quotes
    assert!(dquote("hello").is_err());
    assert!(dquote("\"unterminated").is_err());
    //  must not be empty
    assert!(dquote("").is_err());
    //  may be empty inside
    assert!(dquote(r#""""#).is_ok());
}

#[test]
fn subshell() {
    let (_, v) = shell_meta("$var").expect("shell_meta must succeed");
    assert_eq!(v, "var");

    let (r, v) = shell_meta("${var},").expect("shell_meta must succeed");
    assert_eq!(v, "{var}");
    assert_eq!(r, ",");

    let (r, s) = shell_meta("$(subshell),").expect("shell_meta must succeed");
    assert_eq!(s, "(subshell)");
    assert_eq!(r, ",");
}

#[test]
fn nested_subshell() {
    let (_, s) = shell_meta("$(cmd \"inner string\")").expect("shell_meta must succeed");

    assert_eq!(s, "(cmd \"inner string\")");
}

#[test]
fn token_keyval() {
    let (rest, (key, val)) = keyval("hello=world pair").expect("keyval must succeed");
    assert_eq!(key, "hello");
    assert_eq!(val, "world");
    assert_eq!(rest, " pair");
}

#[test]
fn keyval_edge() {
    assert!(keyval("one two=three").is_err());
    assert!(keyval("one=\"two three\"").is_ok());
    match keyval("one=\"two three\"") {
        Ok((_, (_, val))) => assert_eq!(val, "two three"),
        _ => panic!("keyval must succeed"),
    }
}

#[test]
fn squote_well_formed() {
    //  the single-quote producer returns the body verbatim and stops at the
    //  closing quote, with no backslash interpretation
    let (rest, part) = squote(r#"'a \ b' tail"#).expect("squote must succeed");
    assert_eq!(part, r#"a \ b"#);
    assert_eq!(rest, " tail");

    //  an unterminated single quote is incomplete
    assert!(matches!(squote("'never ends"), Err(TokenError::Incomplete)));
    assert!(matches!(squote("'"), Err(TokenError::Incomplete)));
    //  a window that does not start with a quote is unrecognized
    assert!(matches!(squote("plain"), Err(TokenError::Unrecognized)));
    assert!(matches!(squote(""), Err(TokenError::Incomplete)));
}

#[test]
fn word_errors() {
    assert!(matches!(word(""), Err(TokenError::Incomplete)));
    assert!(matches!(word(" hello"), Err(TokenError::Unrecognized)));
    //  a word may run to the end of the window
    let (rest, part) = word("alone").expect("word must succeed");
    assert_eq!(part, "alone");
    assert_eq!(rest, "");
}

#[test]
fn empty_dquote() {
    //  empty double quotes produce an empty token and an empty remainder
    let (rest, part) = dquote(r#""""#).expect("dquote must succeed");
    assert_eq!(part, "");
    assert_eq!(rest, "");
}

#[test]
fn nested_subshell_whole() {
    //  a subshell containing a subshell is one token, consumed whole
    let (rest, s) = shell_meta("$(cmd $(inner))").expect("shell_meta must succeed");
    assert_eq!(s, "(cmd $(inner))");
    assert_eq!(rest, "");
}

#[test]
fn shell_meta_edge() {
    //  a bare dollar sign awaits more input
    assert!(matches!(shell_meta("$"), Err(TokenError::Incomplete)));
    assert!(matches!(shell_meta(""), Err(TokenError::Incomplete)));
    //  whitespace after the dollar sign is not a word
    assert!(matches!(shell_meta("$ var"), Err(TokenError::Unrecognized)));
    //  an unclosed bracket awaits more input
    assert!(matches!(shell_meta("$(unclosed"), Err(TokenError::Incomplete)));
    assert!(matches!(shell_meta("${unclosed"), Err(TokenError::Incomplete)));
    //  a window that does not start with a dollar sign is unrecognized
    assert!(matches!(shell_meta("var"), Err(TokenError::Unrecognized)));
}

#[test]
fn dquote_meta_failure_propagates() {
    //  a dollar sign inside a double quote hands off to the meta producer;
    //  its failure is the double quote's failure
    assert!(dquote(r#""a $ b""#).is_err());
}

#[test]
fn keyval_errors() {
    //  no equals sign at all: more input could still bring one
    assert!(matches!(keyval("plain"), Err(TokenError::Incomplete)));
    //  nothing before the equals sign
    assert!(matches!(keyval("=value"), Err(TokenError::Unrecognized)));
    //  nothing after the equals sign
    assert!(matches!(keyval("key="), Err(TokenError::Incomplete)));
    //  whitespace directly after the equals sign breaks the pair
    assert!(matches!(keyval("key= value"), Err(TokenError::Unrecognized)));
}

#[test]
fn atom_priority() {
    //  the quoted forms are recognized first; anything else is a word, and a
    //  shell meta-sequence is not an alternative at this level
    let (rem, dquo) = trim_start(atom, "\"hello\" 'world' ${shell:-1} word").expect("atom");
    assert_eq!(dquo, "hello");
    let (rem, squo) = trim_start(atom, rem).expect("atom");
    assert_eq!(squo, "world");
    let (rem, meta) = trim_start(atom, rem).expect("atom");
    assert_eq!(meta, "${shell:-1}");
    let (_, w) = trim_start(atom, rem).expect("atom");
    assert_eq!(w, "word");
}
