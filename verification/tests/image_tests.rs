use editor::colour::RGB;
use editor::image::{
    construct_buffer, make_char_sheet, make_data, read_until, unix_newlines, FmtChar,
};

fn rgb(r: u8, g: u8, b: u8) -> RGB {
    RGB { r, g, b, default: false }
}

fn cell(ch: char, fg: RGB, bg: RGB) -> FmtChar {
    FmtChar { ch, fg, bg }
}

fn chars(s: &str) -> Vec<char> {
    s.chars().collect()
}

#[test]
fn read_until_finds_first() {
    let data = chars("ab;cd;e");
    assert_eq!(read_until(';', &data, 0), (chars("ab"), 2));
    assert_eq!(read_until(';', &data, 3), (chars("cd"), 5));
    assert_eq!(read_until(';', &data, 2), (chars(""), 2));
}

#[test]
fn make_data_plain_text_is_white_on_black() {
    let rows = make_data(chars("ab\nc"));
    let w = rgb(255, 255, 255);
    let k = rgb(0, 0, 0);
    assert_eq!(rows, vec![vec![cell('a', w, k), cell('b', w, k)], vec![cell('c', w, k)]]);
}

#[test]
fn make_data_reads_colours() {
    let text = "\x1b[38;2;1;2;3m\x1b[48;2;4;5;6mA\x1b[0mB\nC\n";
    let rows = make_data(chars(text));
    assert_eq!(
        rows,
        vec![
            vec![cell('A', rgb(1, 2, 3), rgb(4, 5, 6)), cell('B', rgb(255, 255, 255), rgb(0, 0, 0))],
            vec![cell('C', rgb(255, 255, 255), rgb(0, 0, 0))],
        ]
    );
}

#[test]
fn make_data_ignores_other_codes() {
    let text = "\x1b[38;2;9;9;9m\x1b[1;2;3;4;5mX";
    assert_eq!(make_data(chars(text)), vec![vec![cell('X', rgb(9, 9, 9), rgb(0, 0, 0))]]);
}

#[test]
fn make_data_drops_one_empty_last_row() {
    let w = rgb(255, 255, 255);
    let k = rgb(0, 0, 0);
    assert_eq!(make_data(chars("")), Vec::<Vec<FmtChar>>::new());
    assert_eq!(make_data(chars("\n")), vec![Vec::<FmtChar>::new()]);
    assert_eq!(make_data(chars("a\n\n")), vec![vec![cell('a', w, k)], vec![]]);
    assert_eq!(make_data(chars("a\n")), vec![vec![cell('a', w, k)]]);
}

#[test]
fn make_data_accepts_plus_and_leading_zeros() {
    let text = "\x1b[38;2;+1;002;3mZ";
    assert_eq!(make_data(chars(text)), vec![vec![cell('Z', rgb(1, 2, 3), rgb(0, 0, 0))]]);
}

#[test]
fn char_sheet_drops_trailing_empty_lines() {
    assert_eq!(make_char_sheet("ab\ncd\n\n\n".to_string()), vec![chars("ab"), chars("cd")]);
    assert_eq!(make_char_sheet("".to_string()), Vec::<Vec<char>>::new());
    assert_eq!(make_char_sheet("\n\n".to_string()), Vec::<Vec<char>>::new());
    assert_eq!(make_char_sheet("\n\nx".to_string()), vec![chars(""), chars(""), chars("x")]);
    assert_eq!(make_char_sheet("█▓\n░ ".to_string()), vec![chars("█▓"), chars("░ ")]);
}

#[test]
fn buffer_uses_true_colour_sequences() {
    let data = vec![vec![cell('A', rgb(1, 2, 3), rgb(40, 50, 255))], vec![]];
    let buffer = construct_buffer(&data);
    assert_eq!(buffer, "\x1b[38;2;1;2;3m\x1b[48;2;40;50;255mA\r\n\r\n");
}

#[test]
fn buffer_of_empty_image_is_empty() {
    assert_eq!(construct_buffer(&vec![]), "");
}

#[test]
fn unix_newlines_replaces_crlf() {
    assert_eq!(unix_newlines(&"a\r\nb\r\r\n".to_string()), "a\nb\r\n");
    assert_eq!(unix_newlines(&"\r\n\r\n".to_string()), "\n\n");
    assert_eq!(unix_newlines(&"\r".to_string()), "\r");
    for s in ["", "x", "\r\r\n\n", "a\rb\nc\r\n"] {
        assert_eq!(unix_newlines(&s.to_string()), s.replace("\r\n", "\n"));
    }
}

#[test]
fn saved_image_reads_back() {
    let data = vec![
        vec![cell('A', rgb(1, 2, 3), rgb(4, 5, 6)), cell('\r', rgb(0, 0, 0), rgb(255, 255, 255))],
        vec![],
        vec![cell('█', rgb(100, 200, 250), rgb(9, 99, 199)), cell('\t', rgb(7, 8, 9), rgb(10, 11, 12))],
    ];
    let saved = unix_newlines(&construct_buffer(&data));
    assert_eq!(make_data(saved.chars().collect()), data);
}

#[test]
fn is_picture_accepts_what_make_data_reads() {
    assert!(editor::image::is_picture(&chars("abc")));
    assert!(editor::image::is_picture(&chars("")));
    assert!(editor::image::is_picture(&chars("\x1b[0m")));
    assert!(editor::image::is_picture(&chars("\x1b[38;2;1;2;3mx\n\x1b[48;5;0;0;0m")));
}

#[test]
fn is_picture_rejects_broken_sequences() {
    assert!(!editor::image::is_picture(&chars("\x1b[38;2;1;2")));
    assert!(!editor::image::is_picture(&chars("\x1b[0")));
    assert!(!editor::image::is_picture(&chars("a\x1b")));
    assert!(!editor::image::is_picture(&chars("\x1b[38;2;1;2;300m")));
    assert!(!editor::image::is_picture(&chars("\x1b[38;2;1;x;3m")));
    assert!(!editor::image::is_picture(&chars("\x1b[38;2;1;2;3")));
}

#[test]
fn buffer_matches_termion_output() {
    for (r, g, b) in [(0u8, 0u8, 0u8), (9, 10, 99), (100, 199, 255), (7, 250, 31)] {
        let c = cell('q', rgb(r, g, b), rgb(b, r, g));
        let expected = format!(
            "{}{}q\r\n",
            termion::color::Fg(termion::color::Rgb(r, g, b)),
            termion::color::Bg(termion::color::Rgb(b, r, g)),
        );
        assert_eq!(construct_buffer(&vec![vec![c]]), expected);
    }
}
