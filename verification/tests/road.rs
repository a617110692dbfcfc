use aisd_tree::road::{key_text, start_line};

#[test]
fn key_text_is_decimal() {
    assert_eq!(key_text(0), "0");
    assert_eq!(key_text(7), "7");
    assert_eq!(key_text(10), "10");
    assert_eq!(key_text(1234567890), "1234567890");
    assert_eq!(key_text(usize::MAX), format!("{:?}", usize::MAX));
    for k in [9usize, 99, 100, 101, 4096, 65535] {
        assert_eq!(key_text(k), format!("{:?}", k));
    }
}

#[test]
fn root_line_has_only_the_margin() {
    assert_eq!(start_line(""), "   ");
}

#[test]
fn child_lines_get_a_corner() {
    assert_eq!(start_line("u"), "   ╭──");
    assert_eq!(start_line("d"), "   ╰──");
}

#[test]
fn a_bar_stands_where_the_road_turns() {
    assert_eq!(start_line("ud"), "   │  ╰──");
    assert_eq!(start_line("du"), "   │  ╭──");
    assert_eq!(start_line("uu"), "      ╭──");
    assert_eq!(start_line("dd"), "      ╰──");
    assert_eq!(start_line("uudd"), "      │     ╰──");
    assert_eq!(start_line("udud"), "   │  │  │  ╰──");
}
