use vsfold::{get_next_number, line_matches_start_line, ErrorKind, Folder, START_LINE};

#[test]
fn bare_number_below_thousand() {
    let (n, rest) = get_next_number("471,91.25,18.39,401.92,81.02,\"Raytracer.exe\",").unwrap();
    assert_eq!(n, 471);
    assert_eq!(rest, "91.25,18.39,401.92,81.02,\"Raytracer.exe\",");
}

#[test]
fn quoted_grouped_number() {
    let (n, rest) = get_next_number("\"2,893,824\",54.37,4.21,0.04,0.00,\"Raytracer.exe\",").unwrap();
    assert_eq!(n, 2893824);
    assert_eq!(rest, "54.37,4.21,0.04,0.00,\"Raytracer.exe\",");
}

#[test]
fn leading_comma_is_passed_over() {
    let (n, rest) = get_next_number(",12,rest").unwrap();
    assert_eq!(n, 12);
    assert_eq!(rest, "rest");
    let (n, rest) = get_next_number(",\"1,000\",rest").unwrap();
    assert_eq!(n, 1000);
    assert_eq!(rest, "rest");
}

#[test]
fn quoted_small_number() {
    let (n, rest) = get_next_number("\"7\",x").unwrap();
    assert_eq!(n, 7);
    assert_eq!(rest, "x");
}

#[test]
fn middle_group_of_two_digits_is_refused() {
    let e = get_next_number("\"12,34\",x").unwrap_err();
    assert_eq!(e.kind, ErrorKind::MalformedNumber);
    assert_eq!(e.line, "\"12,34\",x");
}

#[test]
fn fraction_is_refused() {
    let e = get_next_number("12.5,x").unwrap_err();
    assert_eq!(e.kind, ErrorKind::MalformedNumber);
    let e = get_next_number("\"12.5\",x").unwrap_err();
    assert_eq!(e.kind, ErrorKind::MalformedNumber);
    let e = get_next_number("1.500,x").unwrap_err();
    assert_eq!(e.kind, ErrorKind::MalformedNumber);
}

#[test]
fn ungrouped_large_number_is_refused() {
    let e = get_next_number("1234,x").unwrap_err();
    assert_eq!(e.kind, ErrorKind::MalformedNumber);
    let e = get_next_number("\"1234,567\",x").unwrap_err();
    assert_eq!(e.kind, ErrorKind::MalformedNumber);
}

#[test]
fn empty_or_unterminated_number_is_refused() {
    assert_eq!(get_next_number(",x").unwrap_err().kind, ErrorKind::MalformedNumber);
    assert_eq!(get_next_number("12").unwrap_err().kind, ErrorKind::MalformedNumber);
    assert_eq!(get_next_number("\"1,000").unwrap_err().kind, ErrorKind::MalformedNumber);
    assert_eq!(get_next_number("\",123\",x").unwrap_err().kind, ErrorKind::MalformedNumber);
}

#[test]
fn number_too_large_for_usize_is_refused() {
    let e = get_next_number("\"999,999,999,999,999,999,999,999,999\",x").unwrap_err();
    assert_eq!(e.kind, ErrorKind::MalformedNumber);
    let (n, _) = get_next_number("\"18,446,744,073,709,551,615\",x").unwrap();
    assert_eq!(n as u64, u64::MAX);
}

#[test]
fn header_exact() {
    assert!(line_matches_start_line(START_LINE));
}

#[test]
fn header_with_marker_and_white_space() {
    let line = format!("  \t\u{feff}{}\r\n", START_LINE);
    assert!(line_matches_start_line(&line));
    let line = format!("\u{3000}\u{feff}\u{feff}{}  ", START_LINE);
    assert!(line_matches_start_line(&line));
}

#[test]
fn header_with_more_after_it() {
    let line = format!("{}Extra Column,", START_LINE);
    assert!(line_matches_start_line(&line));
}

#[test]
fn other_first_lines_are_not_headers() {
    assert!(!line_matches_start_line(""));
    assert!(!line_matches_start_line("Level,Function Name,Number of Calls,"));
    assert!(!line_matches_start_line("1,\"Main\",1,100.00,0.00,10.00,0.00,\"app.exe\","));
    let line = format!("x{}", START_LINE);
    assert!(!line_matches_start_line(&line));
    let line = format!("\u{200b}{}", START_LINE);
    assert!(!line_matches_start_line(&line));
}

#[test]
fn applicability_reads_the_first_line() {
    let mut folder = Folder::new();
    let input = format!("{}\n1,\"Main\",1,100.00,0.00,10.00,0.00,\"app.exe\",\n", START_LINE);
    assert_eq!(folder.is_applicable(&input), Some(true));
    let input = format!("\u{feff}{}\r\nmore", START_LINE);
    assert_eq!(folder.is_applicable(&input), Some(true));
    let input = format!("something else\n{}\n", START_LINE);
    assert_eq!(folder.is_applicable(&input), Some(false));
    assert_eq!(folder.is_applicable(""), Some(false));
}

#[test]
fn error_message_names_the_line() {
    let e = get_next_number("12.5,x").unwrap_err();
    let m = e.message();
    assert!(m.starts_with("Invalid number in line: "));
    assert!(m.ends_with("12.5,x"));
}
