use pulse::text::temp_status;
use pulse::text::truncate;
use pulse::text::TempState;

#[test]
fn short_names_are_padded() {
    assert_eq!(truncate("ab", 5), "ab   ");
    assert_eq!(truncate("abcd", 4), "abcd");
    assert_eq!(truncate("", 3), "   ");
}

#[test]
fn long_names_end_with_an_ellipsis() {
    assert_eq!(truncate("abcdef", 4), "abc…");
    assert_eq!(truncate("xy", 1), "…");
    assert_eq!(truncate("héllo wörld", 6), "héllo…");
}

#[test]
fn temperature_states_match_the_bounds() {
    assert_eq!(temp_status(Some(599)), TempState::Normal);
    assert_eq!(temp_status(Some(600)), TempState::Warm);
    assert_eq!(temp_status(Some(799)), TempState::Warm);
    assert_eq!(temp_status(Some(800)), TempState::Hot);
    assert_eq!(temp_status(None), TempState::Unknown);
}

#[test]
fn temperature_labels() {
    assert_eq!(temp_status(Some(200)).label(), "OK");
    assert_eq!(temp_status(Some(700)).label(), "WARM");
    assert_eq!(temp_status(Some(950)).label(), "HOT");
    assert_eq!(temp_status(None).label(), "N/A");
}
