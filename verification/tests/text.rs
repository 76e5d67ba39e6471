use aoc_days::text::lines_of;

#[test]
fn environment_works() {
    assert_eq!(2 + 2, 4);
}

#[test]
fn lines_split_like_str_lines() {
    assert_eq!(lines_of("a\r\nb\n\nc"), vec!["a", "b", "", "c"]);
    assert_eq!(lines_of("a\n"), vec!["a"]);
    assert_eq!(lines_of("a\r"), vec!["a\r"]);
    assert_eq!(lines_of(""), Vec::<String>::new());
}
