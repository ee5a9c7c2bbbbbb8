use ysh::env::{EnvIter, EnvVar};

#[test]
fn env() {
    let text = r#"KEY=val TEST="good work" echo $TEST"#;
    let mut envs = EnvIter::new(text);

    let EnvVar { key, value } = envs.next().expect("source text runs twice");
    assert_eq!(key, "KEY");
    assert_eq!(value, "val");

    let EnvVar { key, value } = envs.next().expect("source text runs twice");
    assert_eq!(key, "TEST");
    assert_eq!(value, "good work");

    assert!(envs.next().is_none());
}

#[test]
fn env_scan_is_idempotent() {
    //  once the scan has stopped, re-running it on its own remainder yields
    //  nothing further, and the remainder does not move
    let mut envs = EnvIter::new("A=1 B=2 echo C=3");
    assert!(envs.next().is_some());
    assert!(envs.next().is_some());
    assert!(envs.next().is_none());
    let rest = envs.remainder();

    let mut again = EnvIter::new(rest);
    assert!(again.next().is_none());
    assert_eq!(again.remainder(), rest);
}

#[test]
fn env_assignments_are_a_prefix() {
    //  an assignment after the command proper has begun is not recognized
    let mut envs = EnvIter::new("prog X=1");
    assert!(envs.next().is_none());
    assert_eq!(envs.remainder(), "prog X=1");
}

#[test]
fn env_counts_and_collects() {
    let envs = EnvIter::new("A=1 B='two' run");
    assert_eq!(envs.count(), 2);

    let envs = EnvIter::new("A=1 B='two' run");
    let vars = envs.collect();
    assert_eq!(
        vars,
        vec![EnvVar::from(("A", "1")), EnvVar::from(("B", "two"))]
    );
}

#[test]
fn env_quoted_values() {
    //  a single-quoted value is taken verbatim between its quotes
    let mut envs = EnvIter::new("PATHY='a b c' go");
    let var = envs.next().expect("one assignment");
    assert_eq!(var.key, "PATHY");
    assert_eq!(var.value, "a b c");
    assert_eq!(envs.remainder(), " go");
}
