use kgram_search::parse::parse_row;
use kgram_search::SearchError;

#[test]
fn parses_a_well_formed_row() {
    let d = parse_row("7\t@u\tUser Name\t hello there ").unwrap();
    assert_eq!(d.id, 7);
    assert_eq!(d.user_id, "@u");
    assert_eq!(d.user_name, "User Name");
    assert_eq!(d.body, "hello there");
}

#[test]
fn parses_the_largest_id() {
    let d = parse_row("18446744073709551615\t@u\tU\tbody").unwrap();
    assert_eq!(d.id, u64::MAX);
}

#[test]
fn rejects_rows_off_the_schema() {
    let bad = [
        "1\t@u\tonly three",
        "1\t@u\tU\tbody\textra",
        "x1\t@u\tU\tbody",
        "18446744073709551616\t@u\tU\tbody",
        "1\tu\tU\tbody",
        "1\t@u\t\tbody",
        "1\t@u\tU\t",
        "",
    ];
    for line in bad {
        assert_eq!(parse_row(line).unwrap_err(), SearchError::CorpusMalformed);
    }
}
