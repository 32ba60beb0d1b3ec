use parsekit::calendar::days_in_month;
use parsekit::scanner::Scanner;

fn scanner(text: &str) -> Scanner {
    Scanner::new(text.chars().collect())
}

#[test]
fn next_and_current_walk_the_text() {
    let mut s = scanner("ab");
    assert_eq!(s.buffer_pos(), -1);
    assert_eq!(s.current(), None);
    assert_eq!(s.next(), Some('a'));
    assert_eq!(s.current(), Some('a'));
    assert_eq!(s.peek(), Some('b'));
    assert_eq!(s.buffer_pos(), 0);
    assert_eq!(s.next(), Some('b'));
    assert_eq!(s.next(), None);
    assert_eq!(s.buffer_pos(), 2);
    assert_eq!(s.current(), None);
}

#[test]
fn set_buffer_pos_stays_inside_the_buffer() {
    let mut s = scanner("abc");
    s.next();
    s.next();
    assert!(s.set_buffer_pos(-1));
    assert!(s.set_buffer_pos(2));
    assert!(!s.set_buffer_pos(3));
    assert!(!s.set_buffer_pos(-2));
    assert_eq!(s.buffer_pos(), 2);
}

#[test]
fn extract_takes_up_to_the_cursor() {
    let mut s = scanner("hello world");
    for _ in 0..5 {
        s.next();
    }
    assert_eq!(s.extract_string(), "hello");
    assert_eq!(s.buffer_pos(), -1);
    assert_eq!(s.next(), Some(' '));
    assert_eq!(s.extract(), vec![' ']);
    assert_eq!(s.extract(), Vec::<char>::new());
}

#[test]
fn accept_moves_only_on_a_match() {
    let mut s = scanner("xy");
    assert_eq!(s.accept(&'y'), None);
    assert_eq!(s.buffer_pos(), -1);
    assert_eq!(s.accept(&'x'), Some('x'));
    assert_eq!(s.accept_any(&['a', 'b']), None);
    assert_eq!(s.accept_any(&['a', 'y']), Some('y'));
    assert_eq!(s.accept_any(&['a', 'y']), None);
}

#[test]
fn skip_all_reports_whether_it_moved() {
    let mut s = scanner("aaab");
    assert!(s.skip_all(&['a']));
    assert_eq!(s.buffer_pos(), 2);
    assert!(!s.skip_all(&['a']));
    assert_eq!(s.extract_string(), "aaa");
}

#[test]
fn scan_number_forms() {
    assert_eq!(scanner("-12.5e+3i rest").scan_number(), Some(format!("-12.5e+3i")));
    assert_eq!(scanner("12.x").scan_number(), Some(format!("12")));
    assert_eq!(scanner("12e+x").scan_number(), Some(format!("12")));
    assert_eq!(scanner("3.4e-2").scan_number(), Some(format!("3.4e-2")));
    assert_eq!(scanner("+x").scan_number(), None);
    let mut s = scanner("-x");
    assert_eq!(s.scan_number(), None);
    assert_eq!(s.buffer_pos(), -1);
    assert_eq!(s.next(), Some('-'));
}

#[test]
fn scan_math_op_forms() {
    assert_eq!(scanner("<=1").scan_math_op(), Some(format!("<=")));
    assert_eq!(scanner("<1").scan_math_op(), Some(format!("<")));
    assert_eq!(scanner("**2").scan_math_op(), Some(format!("**")));
    assert_eq!(scanner("*2").scan_math_op(), Some(format!("*")));
    assert_eq!(scanner("%2").scan_math_op(), Some(format!("%")));
    assert_eq!(scanner("a").scan_math_op(), None);
}

#[test]
fn scan_identifier_and_whitespace() {
    let mut s = scanner(" \t\n_a1+b");
    assert_eq!(s.scan_identifier(), None);
    assert_eq!(s.scan_whitespace(), Some(format!(" \t\n")));
    assert_eq!(s.scan_identifier(), Some(format!("_a1")));
    assert_eq!(s.scan_identifier(), None);
    assert_eq!(s.scan_whitespace(), Some(String::new()));
    assert_eq!(scanner("9a").scan_identifier(), None);
}

#[test]
fn days_in_each_month() {
    let expect = [31, 28, 31, 30, 31, 30, 31, 31, 30, 31, 30, 31];
    for m in 1..=12u32 {
        assert_eq!(days_in_month(m, 2015), expect[(m - 1) as usize]);
    }
    assert_eq!(days_in_month(2, 2016), 29);
    assert_eq!(days_in_month(2, 1900), 28);
    assert_eq!(days_in_month(2, 2000), 29);
}

#[test]
fn test_dateadd() {
    let dt = (2016, 9, 5);
    let date_add = |dt: (i32, u32, u32), y, m, d| parsekit::calendar::date_add(dt.0, dt.1, dt.2, y, m, d);
    assert_eq!(date_add(dt, 0, 0, 30), (2016, 10, 5));
    assert_eq!(date_add(dt, 0, 0, 1234), (2020, 1, 22));
    assert_eq!(date_add(dt, 0, 0, 365), (2017, 9, 5));
    assert_eq!(date_add(dt, 0, 0, 2541), (2023, 8, 21));
    assert_eq!(date_add(dt, 0, 1, 0), (2016, 10, 5));
    let dt = (2016, 1, 30);
    assert_eq!(date_add(dt, 0, 1, 0), (2016, 2, 29));
    assert_eq!(date_add(dt, 0, 2, 0), (2016, 3, 30));
    assert_eq!(date_add(dt, 0, 12, 0), (2017, 1, 30));
}

#[test]
fn date_add_crosses_years_and_clips_the_day() {
    let date_add = parsekit::calendar::date_add;
    assert_eq!(date_add(2015, 12, 31, 0, 0, 1), (2016, 1, 1));
    assert_eq!(date_add(2015, 12, 31, 0, 2, 0), (2016, 2, 29));
    assert_eq!(date_add(2016, 2, 29, 1, 0, 0), (2017, 2, 28));
    assert_eq!(date_add(2016, 2, 29, -4, 0, 0), (2012, 2, 29));
    assert_eq!(date_add(2016, 11, 30, 0, 14, 0), (2018, 1, 30));
    assert_eq!(date_add(2016, 3, 1, 0, 0, 0), (2016, 3, 1));
}

#[test]
fn start_of_the_next_month_and_year() {
    assert_eq!(parsekit::calendar::startof_next_month(2016, 12), (2017, 1));
    assert_eq!(parsekit::calendar::startof_next_month(2016, 2), (2016, 3));
    assert_eq!(parsekit::calendar::startof_next_year(2016), 2017);
}
