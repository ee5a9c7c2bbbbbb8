use ysh::st::{not_found_report, State};

#[test]
fn prompt_text() {
    let state = State::new(
        String::from("/home/someone"),
        String::from("box"),
        String::from("someone"),
    );
    assert_eq!(state.prompt(), "someone@box:/home/someone % ");
}

#[test]
fn default_state_is_empty() {
    let state = State::default();
    assert_eq!(state.prompt(), "@: % ");
}

#[test]
fn set_pwd_replaces_directory() {
    let mut state = State::new(String::from("/a"), String::from("h"), String::from("u"));
    state.set_pwd(String::from("/b/c"));
    assert_eq!(state.prompt(), "u@h:/b/c % ");
}

#[test]
fn not_found_text() {
    assert_eq!(not_found_report("gitt"), "ysh: command not found: gitt");
}
