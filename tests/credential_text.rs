use sshpass::first_line;

#[test]
fn first_line_strips_only_the_line_break() {
    assert_eq!(first_line("abc  \nrest of file\n"), "abc  ");
    assert_eq!(first_line("pw \nx"), "pw ");
    assert_eq!(first_line("only line"), "only line");
    assert_eq!(first_line("[package]"), "[package]");
    assert_eq!(first_line("tabbed\t"), "tabbed\t");
    assert_eq!(first_line(""), "");
    assert_eq!(first_line("\nsecond"), "");
    assert_eq!(first_line("crlf\r\n"), "crlf\r");
}

#[test]
fn first_line_ignores_rest_of_text() {
    let a = first_line("pw\nAAA");
    let b = first_line("pw\nBBB\nCCC");
    assert_eq!(a, b);
    assert_eq!(a, "pw");
}
