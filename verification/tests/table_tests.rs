use pulse::cpu::parse_cpu_table;

#[test]
fn parses_rows_after_header() {
    let m = parse_cpu_table("  PID %CPU\n  101 45.2\n  202 0.0\n");
    assert_eq!(m.cpu_for(101), 452);
    assert_eq!(m.cpu_for(202), 0);
    assert_eq!(m.cpu_for(303), 0);
}

#[test]
fn header_row_is_skipped_even_if_numeric() {
    let m = parse_cpu_table("1 9.9\n2 2.0\n");
    assert_eq!(m.cpu_for(1), 0);
    assert_eq!(m.cpu_for(2), 20);
}

#[test]
fn carriage_returns_are_stripped() {
    let m = parse_cpu_table("PID %CPU\r\n7 3.5\r\n");
    assert_eq!(m.cpu_for(7), 35);
}

#[test]
fn malformed_rows_are_skipped() {
    let m = parse_cpu_table("PID %CPU\nxyz 1.0\n12\n13 abc\n 14  7.25 extra\n\n15 1.e\n");
    assert_eq!(m.cpu_for(12), 0);
    assert_eq!(m.cpu_for(13), 0);
    assert_eq!(m.cpu_for(14), 72); // extra fraction digits truncate; extra tokens ignored
    assert_eq!(m.cpu_for(15), 0);
}

#[test]
fn integer_cpu_values_read_as_whole_percent() {
    let m = parse_cpu_table("PID %CPU\n5 12\n");
    assert_eq!(m.cpu_for(5), 120);
}

#[test]
fn later_rows_override_earlier_ones() {
    let m = parse_cpu_table("PID %CPU\n9 1.0\n9 2.5\n");
    assert_eq!(m.cpu_for(9), 25);
}

#[test]
fn missing_final_newline_is_fine() {
    let m = parse_cpu_table("PID %CPU\n33 8.1");
    assert_eq!(m.cpu_for(33), 81);
}

#[test]
fn empty_and_header_only_tables_are_empty() {
    let m = parse_cpu_table("");
    assert_eq!(m.cpu_for(1), 0);
    let m = parse_cpu_table("PID %CPU\n");
    assert_eq!(m.cpu_for(1), 0);
}

#[test]
fn oversized_values_are_rejected() {
    let m = parse_cpu_table("PID %CPU\n1 99999999999.9\n2 429496729.5\n");
    assert_eq!(m.cpu_for(1), 0);
    assert_eq!(m.cpu_for(2), 4294967295);
}
