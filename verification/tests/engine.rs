use wasm_rr::engine::{
    exit_code, guest_arguments, guest_arguments_named, judge, GuestOutcome, RunVerdict,
};

#[test]
fn the_guest_sees_the_file_name_and_the_arguments() {
    assert_eq!(
        guest_arguments("prog.wasm", &vec!["alpha".to_string(), "beta".to_string()]),
        vec!["prog.wasm".to_string(), "alpha".to_string(), "beta".to_string()]
    );
    assert_eq!(
        guest_arguments("target/wasm32-wasip2/debug/read_file.wasm", &vec![]),
        vec!["read_file.wasm".to_string()]
    );
}

#[test]
fn a_path_without_a_file_name_gives_the_default_name() {
    assert_eq!(guest_arguments("..", &vec!["x".to_string()]), vec!["component".to_string(), "x".to_string()]);
    assert_eq!(guest_arguments("/", &vec![]), vec!["component".to_string()]);
    assert_eq!(guest_arguments_named(None, &vec![]), vec!["component".to_string()]);
    assert_eq!(
        guest_arguments_named(Some("a.wasm".to_string()), &vec!["b".to_string()]),
        vec!["a.wasm".to_string(), "b".to_string()]
    );
}

#[test]
fn an_exit_is_no_failure() {
    assert_eq!(judge(GuestOutcome::Completed), RunVerdict::Finalize);
    assert_eq!(judge(GuestOutcome::Exited), RunVerdict::Finalize);
    assert_eq!(judge(GuestOutcome::Failed), RunVerdict::Fail);
    assert_eq!(judge(GuestOutcome::Trapped), RunVerdict::Propagate);
}

#[test]
fn a_status_without_a_code_is_recorded_as_zero_or_one() {
    assert_eq!(exit_code(true), 0);
    assert_eq!(exit_code(false), 1);
}
