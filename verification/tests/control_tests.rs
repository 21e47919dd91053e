use nopickie::alert::plan_alert;
use nopickie::resolver::{
    interpreter_candidates, resolve_engine, resolve_interpreter, resolve_script, ResolveError,
};
use nopickie::shell::{
    dispatch_menu, plan_debug_toggle, screenshots_path, str_eq, AppState, DebugDirective,
    MenuCommand, WindowDirective,
};
use nopickie::supervisor::{StartDecision, StopDecision, Supervisor};

#[test]
fn repeated_start_spawns_nothing() {
    let mut s = Supervisor::new();
    assert!(!s.is_running(false));
    assert_eq!(s.begin_start(false), StartDecision::SpawnEngine);
    s.spawn_succeeded();
    assert!(s.is_running(false));
    for _ in 0..10 {
        assert_eq!(s.begin_start(false), StartDecision::AlreadyRunning);
        assert!(s.is_running(false));
    }
}

#[test]
fn stop_when_not_running_is_a_noop() {
    let mut s = Supervisor::new();
    assert_eq!(s.stop(), StopDecision::AlreadyStopped);
    assert!(!s.is_running(false));
    s.begin_start(false);
    s.spawn_succeeded();
    assert_eq!(s.stop(), StopDecision::TerminateEngine);
    assert_eq!(s.stop(), StopDecision::AlreadyStopped);
}

#[test]
fn start_self_heals_an_exited_process() {
    let mut s = Supervisor::new();
    s.begin_start(false);
    s.spawn_succeeded();
    // The probe reports the process gone: the slot is cleaned up and a new
    // spawn goes ahead.
    assert_eq!(s.begin_start(true), StartDecision::SpawnEngine);
    assert!(!s.is_running(false));
}

#[test]
fn is_running_self_heals() {
    let mut s = Supervisor::new();
    s.begin_start(false);
    s.spawn_succeeded();
    assert!(!s.is_running(true));
    assert!(!s.is_running(false));
}

#[test]
fn alert_shown_once_shaken_twice() {
    // First presentation: no surface yet.
    let first = plan_alert(false, false);
    assert!(first.create_surface);
    assert!(first.shake);
    assert!(first.show);
    // The surface stays visible; the second presentation only shakes.
    let second = plan_alert(true, true);
    assert!(!second.create_surface);
    assert!(second.shake);
    assert!(!second.show);
    let shows = [first, second].iter().filter(|p| p.show).count();
    assert_eq!(shows, 1);
}

#[test]
fn alert_reshows_a_hidden_surface() {
    let p = plan_alert(true, false);
    assert!(!p.create_surface);
    assert!(p.shake);
    assert!(p.show);
}

#[test]
fn script_error_names_both_attempted_paths() {
    let err = resolve_script("/app/resources", false, false).unwrap_err();
    match err {
        ResolveError::ScriptNotFound { primary, fallback } => {
            assert_eq!(primary, "/app/resources/python/main_simple.py");
            assert_eq!(fallback, "/app/resources/_up_/python/main_simple.py");
        }
        ResolveError::InterpreterNotFound => panic!("wrong error"),
    }
}

#[test]
fn primary_script_location_wins_over_fallback() {
    let (dir, script) = resolve_script("/base", true, true).unwrap();
    assert_eq!(dir, "/base/python");
    assert_eq!(script, "/base/python/main_simple.py");
    let (dir, script) = resolve_script("/base", false, true).unwrap();
    assert_eq!(dir, "/base/_up_/python");
    assert_eq!(script, "/base/_up_/python/main_simple.py");
}

#[test]
fn interpreter_search_order_is_fixed() {
    let candidates = interpreter_candidates();
    assert_eq!(candidates.len(), 6);
    assert_eq!(
        candidates[0],
        "/Library/Frameworks/Python.framework/Versions/3.11/bin/python3"
    );
    assert_eq!(candidates[5], "/usr/bin/python3");

    let first_and_fourth = vec![true, false, false, true, false, false];
    let chosen = resolve_interpreter(&first_and_fourth, &None).unwrap();
    assert_eq!(chosen, candidates[0]);

    let only_fourth = vec![false, false, false, true, false, false];
    let chosen = resolve_interpreter(&only_fourth, &None).unwrap();
    assert_eq!(chosen, "/usr/local/bin/python3");
}

#[test]
fn interpreter_falls_back_to_path_search() {
    let none = vec![false; 6];
    let chosen = resolve_interpreter(&none, &Some(String::from("/somewhere/python3"))).unwrap();
    assert_eq!(chosen, "/somewhere/python3");
    let err = resolve_interpreter(&none, &None).unwrap_err();
    assert!(matches!(err, ResolveError::InterpreterNotFound));
    assert_eq!(err.message(), "python3 not found: install Python 3.10 or newer");
}

#[test]
fn engine_resolution_composes() {
    let exists = vec![false, false, false, false, false, true];
    let rp = resolve_engine("/r", true, false, &exists, &None).unwrap();
    assert_eq!(rp.interpreter_path, "/usr/bin/python3");
    assert_eq!(rp.script_path, "/r/python/main_simple.py");
    assert_eq!(rp.working_directory, "/r/python");

    let err = resolve_engine("/r", false, false, &exists, &None).unwrap_err();
    assert!(err.message().contains("/r/python/main_simple.py"));
    assert!(err.message().contains("/r/_up_/python/main_simple.py"));

    let none = vec![false; 6];
    let err = resolve_engine("/r", true, false, &none, &None).unwrap_err();
    assert!(matches!(err, ResolveError::InterpreterNotFound));
}

#[test]
fn menu_dispatch_table() {
    assert_eq!(dispatch_menu("toggle_main"), MenuCommand::ToggleMain);
    assert_eq!(dispatch_menu("toggle_debug"), MenuCommand::ToggleDebug);
    assert_eq!(dispatch_menu("start_stop"), MenuCommand::StartStop);
    assert_eq!(dispatch_menu("status"), MenuCommand::ShowStatus);
    assert_eq!(dispatch_menu("view_screenshots"), MenuCommand::ViewScreenshots);
    assert_eq!(dispatch_menu("quit"), MenuCommand::Quit);
    assert_eq!(dispatch_menu("something_else"), MenuCommand::Unrecognized);
    assert_eq!(dispatch_menu(""), MenuCommand::Unrecognized);
}

#[test]
fn window_state_toggles() {
    let mut st = AppState::new();
    assert!(!st.main_is_hidden);
    assert!(st.debug_is_hidden);
    assert_eq!(st.toggle_main(), WindowDirective::Hide);
    assert!(st.main_is_hidden);
    assert_eq!(st.toggle_main(), WindowDirective::ShowAndFocus);
    assert!(!st.main_is_hidden);
    assert_eq!(st.toggle_debug(false), DebugDirective::CreateVisible);
    assert!(!st.debug_is_hidden);
    assert_eq!(st.toggle_debug(true), DebugDirective::Hide);
    assert_eq!(st.toggle_debug(true), DebugDirective::ShowAndFocus);
    st.on_main_close_requested();
    assert!(st.main_is_hidden);
    st.on_reopen();
    assert!(!st.main_is_hidden);
}

#[test]
fn debug_window_command_goes_by_visibility() {
    assert_eq!(plan_debug_toggle(false, false), DebugDirective::CreateVisible);
    assert_eq!(plan_debug_toggle(true, true), DebugDirective::Hide);
    assert_eq!(plan_debug_toggle(true, false), DebugDirective::ShowAndFocus);
}

#[test]
fn screenshots_folder_under_home() {
    assert_eq!(
        screenshots_path("/Users/someone"),
        "/Users/someone/Pictures/NoPickie/screenshots"
    );
}

#[test]
fn string_comparison_by_content() {
    assert!(str_eq("abc", "abc"));
    assert!(!str_eq("abc", "abd"));
    assert!(!str_eq("abc", "ab"));
}
