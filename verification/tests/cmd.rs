use amba::Cmd;

#[test]
fn runner_starts_with_no_accepted_outcomes() {
    let c = Cmd::get();
    assert_eq!(c.accepted, 0);
}

#[test]
fn remove_dir_all_accepts_successful_outcomes() {
    let mut c = Cmd::get();
    c.remove_dir_all(Ok(()));
    c.remove_dir_all(Ok(()));
    assert_eq!(c.accepted, 2);
}
