use editor::colour::RGB;
use editor::editor::{palette, Action, Editor, Focus, Input, Tool};
use editor::image::{construct_buffer, make_data, unix_newlines, FmtChar};

fn rgb(r: u8, g: u8, b: u8) -> RGB {
    RGB { r, g, b, default: false }
}

fn image(w: usize, h: usize) -> Vec<Vec<FmtChar>> {
    let c = FmtChar { ch: '.', fg: rgb(255, 255, 255), bg: rgb(0, 0, 0) };
    vec![vec![c; w]; h]
}

fn sheet() -> Vec<Vec<char>> {
    vec!["abcd".chars().collect(), "efgh".chars().collect(), "ijkl".chars().collect()]
}

fn fresh() -> Editor {
    Editor::new(image(5, 4), sheet())
}

#[test]
fn palette_has_sixteen_colours() {
    let p = palette();
    assert_eq!(p.len(), 16);
    assert_eq!(p[0], rgb(255, 255, 255));
    assert_eq!(p[2], rgb(0xff, 0x66, 0x00));
    assert_eq!(p[7], rgb(0x00, 0x98, 0xfe));
    assert_eq!(p[15], rgb(0, 0, 0));
}

#[test]
fn new_editor_starts_in_place() {
    let e = fresh();
    assert_eq!(e.width, 5);
    assert_eq!(e.height, 4);
    assert_eq!((e.img_cur_x, e.img_cur_y), (3, 2));
    assert_eq!((e.tool_cur_x, e.tool_cur_y), (1, 1));
    assert_eq!((e.char_cur_x, e.char_cur_y), (3, 6));
    assert_eq!(e.curr_fg, rgb(0, 0, 0));
    assert_eq!(e.curr_bg, rgb(255, 255, 255));
    assert_eq!(e.pen_char, '█');
    assert_eq!(e.focus, Focus::Image);
    assert_eq!(e.tool, Tool::Unset);
    assert!(!e.tool_down);
    assert_eq!(e.curr_buffer, construct_buffer(&e.data));
}

#[test]
fn quit_keys_change_nothing() {
    let mut e = fresh();
    assert!(matches!(e.handle_event(Input::Ctrl('q')), Action::Quit));
    assert!(matches!(e.handle_event(Input::Ctrl('c')), Action::Quit));
    assert_eq!((e.img_cur_x, e.img_cur_y), (3, 2));
    assert_eq!(e.focus, Focus::Image);
}

#[test]
fn save_gives_unix_text() {
    let mut e = fresh();
    let expected = unix_newlines(&e.curr_buffer);
    match e.handle_event(Input::Ctrl('s')) {
        Action::Save(t) => {
            assert_eq!(t, expected);
            assert_eq!(make_data(t.chars().collect()), e.data);
        }
        _ => panic!("no save"),
    }
}

#[test]
fn other_keys_redraw() {
    let mut e = fresh();
    assert!(matches!(e.handle_event(Input::Other), Action::Redraw));
    assert!(matches!(e.handle_event(Input::Left), Action::Redraw));
}

#[test]
fn tab_and_ctrl_e_switch_focus() {
    let mut e = fresh();
    e.handle_event(Input::Char('\t'));
    assert_eq!(e.focus, Focus::Toolbox);
    e.handle_event(Input::Char('\t'));
    assert_eq!(e.focus, Focus::Image);
    e.handle_event(Input::Ctrl('e'));
    assert_eq!(e.focus, Focus::Charsheet);
    e.handle_event(Input::Char('\t'));
    assert_eq!(e.focus, Focus::Charsheet);
    e.handle_event(Input::Ctrl('e'));
    assert_eq!(e.focus, Focus::Image);
}

#[test]
fn image_cursor_is_clamped() {
    let mut e = fresh();
    for _ in 0..10 {
        e.handle_event(Input::Right);
    }
    assert_eq!(e.img_cur_x, 5);
    for _ in 0..10 {
        e.handle_event(Input::Up);
    }
    assert_eq!(e.img_cur_y, 1);
    for _ in 0..10 {
        e.handle_event(Input::Down);
    }
    assert_eq!(e.img_cur_y, 4);
}

#[test]
fn toolbox_picks_colours() {
    let mut e = fresh();
    e.handle_event(Input::Char('\t'));
    e.handle_event(Input::Right);
    e.handle_event(Input::Right);
    e.handle_event(Input::Char('\n'));
    assert_eq!(e.curr_fg, rgb(0xff, 0x66, 0x00));
    assert_eq!(e.selected_colour(), rgb(0xff, 0x66, 0x00));
    e.handle_event(Input::Down);
    e.handle_event(Input::Backspace);
    assert_eq!(e.curr_bg, rgb(0x00, 0x01, 0xcd));
    for _ in 0..9 {
        e.handle_event(Input::Right);
        e.handle_event(Input::Down);
    }
    assert_eq!((e.tool_cur_x, e.tool_cur_y), (4, 4));
    e.handle_event(Input::Char('d'));
    assert!(e.curr_fg.default);
    e.handle_event(Input::Ctrl('d'));
    assert!(e.curr_bg.default);
    e.handle_event(Input::Char('d'));
    assert!(!e.curr_fg.default);
}

#[test]
fn charsheet_sets_pen() {
    let mut e = fresh();
    e.handle_event(Input::Ctrl('e'));
    assert_eq!((e.char_cur_x, e.char_cur_y), (3, 3));
    assert_eq!(e.pen_char, 'k');
    e.handle_event(Input::Left);
    e.handle_event(Input::Up);
    assert_eq!(e.pen_char, 'f');
}

#[test]
fn pen_draws_on_every_key() {
    let mut e = fresh();
    e.handle_event(Input::Char('p'));
    assert_eq!(e.tool, Tool::Pen);
    e.handle_event(Input::Char('\n'));
    assert!(e.tool_down);
    assert_eq!(e.data[1][2], FmtChar { ch: '█', fg: rgb(0, 0, 0), bg: rgb(255, 255, 255) });
    e.handle_event(Input::Right);
    assert_eq!(e.data[1][3].ch, '█');
    assert_eq!(e.curr_buffer, construct_buffer(&e.data));
    assert_eq!(e.cursor_colours(), (rgb(0, 0, 0), rgb(255, 255, 255)));
}

#[test]
fn lifted_tool_cursor_is_white_on_black() {
    let e = fresh();
    assert_eq!(e.cursor_colours(), (rgb(255, 255, 255), rgb(0, 0, 0)));
}

#[test]
fn tool_changes_only_while_lifted() {
    let mut e = fresh();
    e.handle_event(Input::Char('o'));
    assert_eq!(e.tool, Tool::Paint);
    e.handle_event(Input::Char('\n'));
    e.handle_event(Input::Char('t'));
    assert_eq!(e.tool, Tool::Paint);
}

#[test]
fn paint_keeps_characters_and_default_colours() {
    let mut e = fresh();
    e.handle_event(Input::Char('\t'));
    e.handle_event(Input::Char('\n'));
    e.handle_event(Input::Ctrl('d'));
    e.handle_event(Input::Char('\t'));
    e.handle_event(Input::Char('o'));
    e.handle_event(Input::Char('\n'));
    assert_eq!(e.data[1][2], FmtChar { ch: '.', fg: rgb(255, 255, 255), bg: rgb(0, 0, 0) });
}

#[test]
fn text_types_and_moves_right() {
    let mut e = fresh();
    e.handle_event(Input::Char('t'));
    e.handle_event(Input::Char('\n'));
    assert_eq!(e.tool, Tool::Text);
    e.handle_event(Input::Char('h'));
    e.handle_event(Input::Char('i'));
    assert_eq!(e.data[1][2].ch, 'h');
    assert_eq!(e.data[1][3].ch, 'i');
    assert_eq!(e.img_cur_x, 5);
    e.handle_event(Input::Char('!'));
    assert_eq!(e.data[1][4].ch, '!');
    assert_eq!(e.img_cur_x, 6);
    e.handle_event(Input::Other);
    assert_eq!(e.img_cur_x, 5);
    assert_eq!(e.curr_buffer, construct_buffer(&e.data));
}

#[test]
fn edits_survive_saving() {
    let mut e = fresh();
    e.handle_event(Input::Char('t'));
    e.handle_event(Input::Char('\n'));
    e.handle_event(Input::Char('x'));
    e.handle_event(Input::Char('\t'));
    e.handle_event(Input::Down);
    e.handle_event(Input::Char('\n'));
    e.handle_event(Input::Char('\t'));
    e.handle_event(Input::Char('y'));
    match e.handle_event(Input::Ctrl('s')) {
        Action::Save(t) => assert_eq!(make_data(t.chars().collect()), e.data),
        _ => panic!("no save"),
    }
}

#[test]
fn zero_width_image_refuses_left() {
    let mut e = Editor::new(vec![vec![]], sheet());
    assert!(e.accepts(Input::Right));
    e.handle_event(Input::Right);
    assert_eq!(e.img_cur_x, 0);
    assert!(!e.accepts(Input::Left));
    assert!(e.accepts(Input::Ctrl('q')));
}

#[test]
fn empty_sheet_row_refuses_charsheet() {
    let e = Editor::new(image(3, 3), vec![vec![], vec!['a']]);
    assert!(!e.accepts(Input::Ctrl('e')));
    let e = Editor::new(image(3, 3), vec![]);
    assert!(!e.accepts(Input::Ctrl('e')));
}

#[test]
fn short_sheet_row_refuses_charsheet() {
    let mut e = Editor::new(image(3, 3), vec!["abc".chars().collect(), "d".chars().collect()]);
    assert!(!e.accepts(Input::Ctrl('e')));
    e.char_cur_y = 1;
    assert!(e.accepts(Input::Ctrl('e')));
    e.handle_event(Input::Ctrl('e'));
    assert_eq!(e.pen_char, 'c');
}

#[test]
fn regular_editor_takes_every_key() {
    let mut e = fresh();
    let keys = [
        Input::Left, Input::Right, Input::Up, Input::Down, Input::Backspace, Input::Other,
        Input::Char('\n'), Input::Char('t'), Input::Char('p'), Input::Char('o'), Input::Char('\t'),
        Input::Char('z'), Input::Ctrl('e'), Input::Ctrl('d'), Input::Ctrl('s'),
    ];
    let mut seed: usize = 7;
    for _ in 0..2000 {
        seed = (seed * 1103515245 + 12345) % 2147483648;
        let input = keys[seed % keys.len()];
        assert!(e.accepts(input));
        e.handle_event(input);
        assert!(1 <= e.tool_cur_x && e.tool_cur_x <= 4);
        assert_eq!(e.data.len(), 4);
        assert!(e.data.iter().all(|r| r.len() == 5));
        assert_eq!(e.curr_buffer, construct_buffer(&e.data));
    }
}
