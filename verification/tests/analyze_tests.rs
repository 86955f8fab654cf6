use pulse::analyze::analyze_processes;
use pulse::analyze::heavy_processes;
use pulse::analyze::parse_pid;
use pulse::analyze::wants_termination;
use pulse::analyze::Decision;
use pulse::process::ProcessInfo;

fn proc(pid: i32, cpu_tenths: u32, memory_mb: u64) -> ProcessInfo {
    ProcessInfo { pid, name: format!("proc{}", pid), cpu_tenths, memory_mb }
}

#[test]
fn heavy_thresholds_are_exact() {
    let list = vec![
        proc(1, 200, 0),    // cpu at the bound: heavy
        proc(2, 199, 499),  // below both bounds: not heavy
        proc(3, 0, 500),    // memory at the bound: heavy
        proc(4, 1000, 1000),// above both: heavy
        proc(5, 0, 0),      // idle: not heavy
    ];
    let heavy = heavy_processes(&list);
    let pids: Vec<i32> = heavy.iter().map(|p| p.pid).collect();
    assert_eq!(pids, vec![1, 3, 4]);
}

#[test]
fn heavy_subset_keeps_input_order() {
    let list = vec![proc(9, 300, 0), proc(2, 250, 0), proc(7, 0, 600)];
    let heavy = heavy_processes(&list);
    let pids: Vec<i32> = heavy.iter().map(|p| p.pid).collect();
    assert_eq!(pids, vec![9, 2, 7]);
}

#[test]
fn all_clear_when_nothing_is_heavy() {
    let list = vec![proc(1, 10, 10)];
    assert_eq!(analyze_processes(&list, "y", "42"), Decision::AllClear);
    assert_eq!(analyze_processes(&Vec::new(), "y", "42"), Decision::AllClear);
}

#[test]
fn declining_never_terminates() {
    let list = vec![proc(1, 300, 0)];
    assert_eq!(analyze_processes(&list, "n", "42"), Decision::NoAction);
    assert_eq!(analyze_processes(&list, "", "42"), Decision::NoAction);
    assert_eq!(analyze_processes(&list, "yes", "42"), Decision::NoAction);
}

#[test]
fn invalid_pid_ends_without_side_effects() {
    let list = vec![proc(1, 300, 0)];
    assert_eq!(analyze_processes(&list, "y", "abc"), Decision::InvalidPid);
    assert_eq!(analyze_processes(&list, "y", ""), Decision::InvalidPid);
    assert_eq!(analyze_processes(&list, "y", "12a"), Decision::InvalidPid);
}

#[test]
fn valid_pid_is_forwarded_even_if_not_listed() {
    let list = vec![proc(1, 300, 0)];
    assert_eq!(analyze_processes(&list, "y", "9999999"), Decision::Terminate(9999999));
}

#[test]
fn non_positive_pids_are_rejected() {
    let list = vec![proc(1, 300, 0)];
    assert_eq!(analyze_processes(&list, "y", "0"), Decision::InvalidPid);
    assert_eq!(analyze_processes(&list, "y", "-5"), Decision::InvalidPid);
}

#[test]
fn confirmation_is_trimmed_and_case_insensitive() {
    assert!(wants_termination("y"));
    assert!(wants_termination("Y"));
    assert!(wants_termination(" y \n"));
    assert!(wants_termination("\tY\r\n"));
    assert!(!wants_termination("yes"));
    assert!(!wants_termination("n"));
    assert!(!wants_termination(""));
    assert!(!wants_termination("y y"));
}

#[test]
fn pid_parse_matches_integer_grammar() {
    assert_eq!(parse_pid(" 42 \n"), Some(42));
    assert_eq!(parse_pid("+7"), Some(7));
    assert_eq!(parse_pid("-5"), Some(-5));
    assert_eq!(parse_pid("2147483647"), Some(2147483647));
    assert_eq!(parse_pid("-2147483648"), Some(-2147483648));
    assert_eq!(parse_pid("2147483648"), None);
    assert_eq!(parse_pid("abc"), None);
    assert_eq!(parse_pid("4 2"), None);
    assert_eq!(parse_pid(""), None);
    assert_eq!(parse_pid("+"), None);
}
