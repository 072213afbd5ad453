use vstd::prelude::*;
use crate::colour::{RGB, html_colour};
use crate::image::{
    FmtChar, rows_view, screen_text, construct_buffer, crlf_to_lf, unix_newlines, decoded, picture,
};
use crate::roundtrip::{plain_cell, plain_image, lemma_save_reads_back};

verus! {

/// The pane that key presses go to.
#[derive(Clone, Copy, Debug, PartialEq, Eq, Structural)]
pub enum Focus {
    Image,
    Toolbox,
    Charsheet,
}

/// What pressing the tool down does to the image.
#[derive(Clone, Copy, Debug, PartialEq, Eq, Structural)]
pub enum Tool {
    /// No tool chosen yet.
    Unset,
    Pen,
    Paint,
    Text,
}

/// A key press as the editor sees it.
#[derive(Clone, Copy, Debug, PartialEq, Eq, Structural)]
pub enum Input {
    Ctrl(char),
    Char(char),
    Left,
    Right,
    Up,
    Down,
    Backspace,
    /// Any other key or terminal event.
    Other,
}

/// What the program around the editor does after a key press.
#[derive(Debug)]
pub enum Action {
    /// Leave the editor.
    Quit,
    /// Write this text to the picture file, then draw the screen.
    Save(String),
    /// Draw the screen.
    Redraw,
}

/// The sixteen colours of the toolbox, as `0xRRGGBB` codes, row by row.
pub open spec fn palette_codes() -> Seq<u32> {
    seq![
        0xffffff, 0xffff01, 0xff6600, 0xde0000,
        0xff0198, 0x330099, 0x0001cd, 0x0098fe,
        0x01ab02, 0x016701, 0x673301, 0x9a6634,
        0xbbbbbb, 0x888888, 0x444444, 0x000000,
    ]
}

/// The sixteen colours of the toolbox, row by row.
pub open spec fn palette_colours() -> Seq<RGB> {
    palette_codes().map_values(|n: u32| html_colour(n))
}

/// The colours of the toolbox.
pub fn palette() -> (v: Vec<RGB>)
    ensures
        v@ == palette_colours(),
{
    let mut v: Vec<RGB> = Vec::new();
    v.push(RGB::from_html(0xffffff));
    v.push(RGB::from_html(0xffff01));
    v.push(RGB::from_html(0xff6600));
    v.push(RGB::from_html(0xde0000));
    v.push(RGB::from_html(0xff0198));
    v.push(RGB::from_html(0x330099));
    v.push(RGB::from_html(0x0001cd));
    v.push(RGB::from_html(0x0098fe));
    v.push(RGB::from_html(0x01ab02));
    v.push(RGB::from_html(0x016701));
    v.push(RGB::from_html(0x673301));
    v.push(RGB::from_html(0x9a6634));
    v.push(RGB::from_html(0xbbbbbb));
    v.push(RGB::from_html(0x888888));
    v.push(RGB::from_html(0x444444));
    v.push(RGB::from_html(0x000000));
    assert(v@ =~= palette_colours());
    v
}

/// Everything the editor keeps between key presses.
pub struct Editor {
    /// The image, row by row.
    pub data: Vec<Vec<FmtChar>>,
    /// The characters the pen can draw, row by row.
    pub char_sheet: Vec<Vec<char>>,
    /// The toolbox colours.
    pub colours: Vec<RGB>,
    /// The length of the first row, cut to 16 bits.
    pub width: u16,
    /// The number of rows, cut to 16 bits.
    pub height: u16,
    pub img_cur_x: u16,
    pub img_cur_y: u16,
    pub tool_cur_x: u16,
    pub tool_cur_y: u16,
    pub char_cur_x: u16,
    pub char_cur_y: u16,
    pub curr_fg: RGB,
    pub curr_bg: RGB,
    pub pen_char: char,
    pub focus: Focus,
    pub tool: Tool,
    pub tool_down: bool,
    /// The text that draws the image on the terminal.
    pub curr_buffer: String,
}

/// The editor's state as values.
#[verifier::ext_equal]
pub struct EditorView {
    pub data: Seq<Seq<FmtChar>>,
    pub char_sheet: Seq<Seq<char>>,
    pub colours: Seq<RGB>,
    pub width: u16,
    pub height: u16,
    pub img_cur_x: u16,
    pub img_cur_y: u16,
    pub tool_cur_x: u16,
    pub tool_cur_y: u16,
    pub char_cur_x: u16,
    pub char_cur_y: u16,
    pub curr_fg: RGB,
    pub curr_bg: RGB,
    pub pen_char: char,
    pub focus: Focus,
    pub tool: Tool,
    pub tool_down: bool,
    pub buffer: Seq<char>,
}

impl View for Editor {
    type V = EditorView;

    open spec fn view(&self) -> EditorView {
        EditorView {
            data: rows_view(self.data@),
            char_sheet: rows_view(self.char_sheet@),
            colours: self.colours@,
            width: self.width,
            height: self.height,
            img_cur_x: self.img_cur_x,
            img_cur_y: self.img_cur_y,
            tool_cur_x: self.tool_cur_x,
            tool_cur_y: self.tool_cur_y,
            char_cur_x: self.char_cur_x,
            char_cur_y: self.char_cur_y,
            curr_fg: self.curr_fg,
            curr_bg: self.curr_bg,
            pen_char: self.pen_char,
            focus: self.focus,
            tool: self.tool,
            tool_down: self.tool_down,
            buffer: self.curr_buffer@,
        }
    }
}

impl EditorView {
    /// What holds after every key press: the toolbox cursor is on the 4x4
    /// palette, the character cursor is at least (1, 1), the screen text draws
    /// the image, and width and height are those of the image.
    pub open spec fn wf(self) -> bool {
        &&& self.colours == palette_colours()
        &&& 1 <= self.tool_cur_x <= 4
        &&& 1 <= self.tool_cur_y <= 4
        &&& 1 <= self.char_cur_x
        &&& 1 <= self.char_cur_y
        &&& self.data.len() >= 1
        &&& self.width == self.data[0].len() as u16
        &&& self.height == self.data.len() as u16
        &&& self.buffer == screen_text(self.data)
    }

    /// The image cursor's colours (foreground, background): the current colours
    /// while the pen or paint is down, else white on black.
    pub open spec fn cursor_colours(self) -> (RGB, RGB) {
        if (self.tool == Tool::Paint || self.tool == Tool::Pen) && self.tool_down {
            (self.curr_fg, self.curr_bg)
        } else {
            (crate::colour::rgb(255, 255, 255), crate::colour::rgb(0, 0, 0))
        }
    }

    /// The toolbox colour under the toolbox cursor.
    pub open spec fn picked(self) -> RGB {
        self.colours[(self.tool_cur_y - 1) * 4 + (self.tool_cur_x - 1)]
    }
}

pub open spec fn is_quit(input: Input) -> bool {
    input == Input::Ctrl('c') || input == Input::Ctrl('q')
}

/// `Ctrl-e` switches to the character sheet and back to the image; `Tab`
/// switches between the image and the toolbox.
pub open spec fn next_focus(f: Focus, input: Input) -> Focus {
    if input == Input::Ctrl('e') {
        if f != Focus::Charsheet {
            Focus::Charsheet
        } else {
            Focus::Image
        }
    } else if input == Input::Char('\t') {
        if f == Focus::Image {
            Focus::Toolbox
        } else if f == Focus::Toolbox {
            Focus::Image
        } else {
            f
        }
    } else {
        f
    }
}

pub open spec fn moved_x(x: u16, input: Input) -> u16 {
    if input == Input::Left {
        (x - 1) as u16
    } else if input == Input::Right {
        (x + 1) as u16
    } else {
        x
    }
}

pub open spec fn moved_y(y: u16, input: Input) -> u16 {
    if input == Input::Up {
        (y - 1) as u16
    } else if input == Input::Down {
        (y + 1) as u16
    } else {
        y
    }
}

/// An arrow key does not take a 16-bit cursor below 0 or above 65535.
pub open spec fn move_fits(x: u16, y: u16, input: Input) -> bool {
    &&& input == Input::Left ==> x >= 1
    &&& input == Input::Right ==> x < 0xffff
    &&& input == Input::Up ==> y >= 1
    &&& input == Input::Down ==> y < 0xffff
}

/// A cursor coordinate raised to at least 1, then lowered to at most `hi`.
pub open spec fn clamp_cursor(v: u16, hi: u16) -> u16 {
    let lifted: u16 = if v < 1 { 1 } else { v };
    if lifted > hi {
        hi
    } else {
        lifted
    }
}

pub open spec fn toggle_default(c: RGB) -> RGB {
    RGB { r: c.r, g: c.g, b: c.b, default: !c.default }
}

/// A cell with the character `ch`, taking each current colour that is not
/// marked default.
pub open spec fn painted(cell: FmtChar, fg: RGB, bg: RGB, ch: char) -> FmtChar {
    FmtChar {
        ch: ch,
        fg: if fg.default { cell.fg } else { fg },
        bg: if bg.default { cell.bg } else { bg },
    }
}

impl EditorView {
    pub open spec fn with_focus(self, f: Focus) -> EditorView {
        EditorView { focus: f, ..self }
    }

    /// Arrows move the toolbox cursor within the 4x4 palette; Enter takes the
    /// colour under it as foreground, Backspace as background; `d` and `Ctrl-d`
    /// switch the foreground's and the background's default mark.
    pub open spec fn toolbox_step(self, input: Input) -> EditorView {
        let fg = if input == Input::Char('\n') {
            self.picked()
        } else if input == Input::Char('d') {
            toggle_default(self.curr_fg)
        } else {
            self.curr_fg
        };
        let bg = if input == Input::Backspace {
            self.picked()
        } else if input == Input::Ctrl('d') {
            toggle_default(self.curr_bg)
        } else {
            self.curr_bg
        };
        EditorView {
            tool_cur_x: clamp_cursor(moved_x(self.tool_cur_x, input), 4),
            tool_cur_y: clamp_cursor(moved_y(self.tool_cur_y, input), 4),
            curr_fg: fg,
            curr_bg: bg,
            ..self
        }
    }

    pub open spec fn sheet_x(self, input: Input) -> u16 {
        clamp_cursor(moved_x(self.char_cur_x, input), self.char_sheet[0].len() as u16)
    }

    pub open spec fn sheet_y(self, input: Input) -> u16 {
        clamp_cursor(moved_y(self.char_cur_y, input), self.char_sheet.len() as u16)
    }

    /// Arrows move the character cursor within the first row's width and the
    /// sheet's height; the pen takes the character under it.
    pub open spec fn charsheet_step(self, input: Input) -> EditorView {
        let x = self.sheet_x(input);
        let y = self.sheet_y(input);
        EditorView {
            char_cur_x: x,
            char_cur_y: y,
            pen_char: self.char_sheet[y - 1][x - 1],
            ..self
        }
    }

    /// The character sheet handles the key without leaving its bounds.
    pub open spec fn charsheet_ok(self, input: Input) -> bool {
        let x = self.sheet_x(input);
        let y = self.sheet_y(input);
        &&& move_fits(self.char_cur_x, self.char_cur_y, input)
        &&& self.char_sheet.len() >= 1
        &&& 1 <= y <= self.char_sheet.len()
        &&& 1 <= x <= self.char_sheet[y - 1].len()
    }

    pub open spec fn image_x(self, input: Input) -> u16 {
        clamp_cursor(moved_x(self.img_cur_x, input), self.width)
    }

    pub open spec fn image_y(self, input: Input) -> u16 {
        clamp_cursor(moved_y(self.img_cur_y, input), self.height)
    }

    /// Enter lifts or lowers the tool.
    pub open spec fn next_down(self, input: Input) -> bool {
        if input == Input::Char('\n') {
            !self.tool_down
        } else {
            self.tool_down
        }
    }

    /// While the tool is lifted, `t`, `p` and `o` choose text, pen and paint.
    pub open spec fn next_tool(self, input: Input) -> Tool {
        if !self.next_down(input) {
            if input == Input::Char('t') {
                Tool::Text
            } else if input == Input::Char('p') {
                Tool::Pen
            } else if input == Input::Char('o') {
                Tool::Paint
            } else {
                self.tool
            }
        } else {
            self.tool
        }
    }

    /// The character that the key types with the text tool down, if it types one.
    pub open spec fn typed(self, input: Input) -> Option<char> {
        match input {
            Input::Char(c) => if c != '\n' && self.next_tool(input) == Tool::Text && self.next_down(input) {
                Some(c)
            } else {
                None
            },
            _ => None,
        }
    }

    /// The key changes the cell under the image cursor.
    pub open spec fn edits(self, input: Input) -> bool {
        let tool = self.next_tool(input);
        let down = self.next_down(input);
        ||| self.typed(input) is Some
        ||| tool == Tool::Pen && down
        ||| tool == Tool::Paint && down
    }

    /// The image with the cell under the image cursor painted and given `ch`,
    /// and the screen text drawn anew.
    pub open spec fn with_cell(self, ch: char) -> EditorView {
        let x = self.img_cur_x - 1;
        let y = self.img_cur_y - 1;
        let row = self.data[y];
        let data = self.data.update(y, row.update(x, painted(row[x], self.curr_fg, self.curr_bg, ch)));
        EditorView { data: data, buffer: screen_text(data), ..self }
    }

    /// Arrows move the image cursor within the width and height; Enter lifts or
    /// lowers the tool; a lifted tool can be changed. With the tool down, text
    /// writes the typed character and moves right, the pen draws the pen
    /// character, and paint colours the cell; any key then redraws the screen text.
    pub open spec fn image_step(self, input: Input) -> EditorView {
        let moved = EditorView {
            img_cur_x: self.image_x(input),
            img_cur_y: self.image_y(input),
            tool_down: self.next_down(input),
            tool: self.next_tool(input),
            ..self
        };
        if self.typed(input) is Some {
            let typed = moved.with_cell(self.typed(input).unwrap());
            EditorView { img_cur_x: (typed.img_cur_x + 1) as u16, ..typed }
        } else if moved.tool == Tool::Text && moved.tool_down {
            moved
        } else if moved.tool == Tool::Pen && moved.tool_down {
            moved.with_cell(moved.pen_char)
        } else if moved.tool == Tool::Paint && moved.tool_down {
            let x = moved.img_cur_x - 1;
            let y = moved.img_cur_y - 1;
            moved.with_cell(moved.data[y][x].ch)
        } else {
            moved
        }
    }

    /// The image handles the key without leaving its bounds.
    pub open spec fn image_ok(self, input: Input) -> bool {
        let x = self.image_x(input);
        let y = self.image_y(input);
        &&& move_fits(self.img_cur_x, self.img_cur_y, input)
        &&& self.edits(input) ==> 1 <= y <= self.data.len() && 1 <= x <= self.data[y - 1].len()
        &&& self.typed(input) is Some ==> x < 0xffff
    }

    /// The editor after a key press.
    pub open spec fn step(self, input: Input) -> EditorView {
        if is_quit(input) {
            self
        } else {
            let v = self.with_focus(next_focus(self.focus, input));
            if v.focus == Focus::Toolbox {
                v.toolbox_step(input)
            } else if v.focus == Focus::Charsheet {
                v.charsheet_step(input)
            } else {
                v.image_step(input)
            }
        }
    }

    /// The key press stays within the cursors' range and the image's and the
    /// character sheet's bounds.
    pub open spec fn accepts(self, input: Input) -> bool {
        let v = self.with_focus(next_focus(self.focus, input));
        ||| is_quit(input)
        ||| {
            &&& v.focus == Focus::Charsheet ==> v.charsheet_ok(input)
            &&& v.focus == Focus::Image ==> v.image_ok(input)
        }
    }
}

/// The cursor after an arrow key, or `None` where it would leave the 16-bit range.
fn moved_cursor(x: u16, y: u16, input: Input) -> (r: Option<(u16, u16)>)
    ensures
        r is Some <==> move_fits(x, y, input),
        r matches Some(p) ==> p == (moved_x(x, input), moved_y(y, input)),
{
    match input {
        Input::Left => if x >= 1 { Some((x - 1, y)) } else { None },
        Input::Right => if x < 0xffff { Some((x + 1, y)) } else { None },
        Input::Up => if y >= 1 { Some((x, y - 1)) } else { None },
        Input::Down => if y < 0xffff { Some((x, y + 1)) } else { None },
        _ => Some((x, y)),
    }
}

fn clamp(v: u16, hi: u16) -> (r: u16)
    ensures
        r == clamp_cursor(v, hi),
{
    let mut r = v;
    if r < 1 {
        r = 1;
    }
    if r > hi {
        r = hi;
    }
    r
}

impl Editor {
    /// A fresh editor on an image and a character sheet: cursors at their start
    /// places, black on white, the block character as pen, no tool, image focused.
    pub fn new(data: Vec<Vec<FmtChar>>, char_sheet: Vec<Vec<char>>) -> (e: Editor)
        requires
            data@.len() >= 1,
        ensures
            e@.wf(),
            e@.data == rows_view(data@),
            e@.char_sheet == rows_view(char_sheet@),
            e.img_cur_x == 3 && e.img_cur_y == 2,
            e.tool_cur_x == 1 && e.tool_cur_y == 1,
            e.char_cur_x == 3 && e.char_cur_y == 6,
            e.curr_fg == crate::colour::rgb(0, 0, 0),
            e.curr_bg == crate::colour::rgb(255, 255, 255),
            e.pen_char == '\u{2588}',
            e.focus == Focus::Image,
            e.tool == Tool::Unset,
            !e.tool_down,
            regular_image(rows_view(data@)) && regular_sheet(rows_view(char_sheet@)) ==> e@.regular(),
    {
        let width: u16 = data[0].len() as u16;
        let height: u16 = data.len() as u16;
        let curr_buffer = construct_buffer(&data);
        Editor {
            data: data,
            char_sheet: char_sheet,
            colours: palette(),
            width: width,
            height: height,
            img_cur_x: 3,
            img_cur_y: 2,
            tool_cur_x: 1,
            tool_cur_y: 1,
            char_cur_x: 3,
            char_cur_y: 6,
            curr_fg: RGB::new(0, 0, 0),
            curr_bg: RGB::new(255, 255, 255),
            pen_char: '\u{2588}',
            focus: Focus::Image,
            tool: Tool::Unset,
            tool_down: false,
            curr_buffer: curr_buffer,
        }
    }

    /// The toolbox colour under the toolbox cursor.
    pub fn selected_colour(&self) -> (c: RGB)
        requires
            self@.wf(),
        ensures
            c == self@.picked(),
    {
        self.colours[((self.tool_cur_y - 1) * 4 + (self.tool_cur_x - 1)) as usize]
    }

    /// The image cursor's colours (foreground, background).
    pub fn cursor_colours(&self) -> (c: (RGB, RGB))
        ensures
            c == self@.cursor_colours(),
    {
        if (self.tool == Tool::Paint || self.tool == Tool::Pen) && self.tool_down {
            (self.curr_fg, self.curr_bg)
        } else {
            (RGB::new(255, 255, 255), RGB::new(0, 0, 0))
        }
    }

    /// Whether `handle_event` takes this key press: the cursors stay in their
    /// 16-bit range and every read or write of the image and the character
    /// sheet is within bounds.
    pub fn accepts(&self, input: Input) -> (b: bool)
        requires
            self@.wf(),
        ensures
            b == self@.accepts(input),
    {
        let quit = match input {
            Input::Ctrl(c) => c == 'c' || c == 'q',
            _ => false,
        };
        if quit {
            return true;
        }
        let mut focus = self.focus;
        match input {
            Input::Ctrl(c) => {
                if c == 'e' {
                    if focus != Focus::Charsheet {
                        focus = Focus::Charsheet;
                    } else {
                        focus = Focus::Image;
                    }
                }
            },
            Input::Char(c) => {
                if c == '\t' {
                    if focus == Focus::Image {
                        focus = Focus::Toolbox;
                    } else if focus == Focus::Toolbox {
                        focus = Focus::Image;
                    }
                }
            },
            _ => {},
        }
        assert(focus == next_focus(self.focus, input));
        if focus == Focus::Charsheet {
            let (x, y) = match moved_cursor(self.char_cur_x, self.char_cur_y, input) {
                Some(p) => p,
                None => return false,
            };
            if self.char_sheet.len() == 0 {
                return false;
            }
            let x = clamp(x, self.char_sheet[0].len() as u16);
            let y = clamp(y, self.char_sheet.len() as u16);
            return 1 <= y && (y as usize) <= self.char_sheet.len() && 1 <= x && (x as usize)
                <= self.char_sheet[y as usize - 1].len();
        }
        if focus == Focus::Image {
            let (x, y) = match moved_cursor(self.img_cur_x, self.img_cur_y, input) {
                Some(p) => p,
                None => return false,
            };
            let x = clamp(x, self.width);
            let y = clamp(y, self.height);
            let down = match input {
                Input::Char(c) => if c == '\n' { !self.tool_down } else { self.tool_down },
                _ => self.tool_down,
            };
            let mut tool = self.tool;
            if !down {
                match input {
                    Input::Char(c) => {
                        if c == 't' {
                            tool = Tool::Text;
                        } else if c == 'p' {
                            tool = Tool::Pen;
                        } else if c == 'o' {
                            tool = Tool::Paint;
                        }
                    },
                    _ => {},
                }
            }
            let typed = match input {
                Input::Char(c) => c != '\n' && tool == Tool::Text && down,
                _ => false,
            };
            let ghost w = self@.with_focus(focus);
            assert(down == w.next_down(input));
            assert(tool == w.next_tool(input));
            assert(typed == (w.typed(input) is Some));
            let edits = typed || (tool == Tool::Pen && down) || (tool == Tool::Paint && down);
            if edits && !(1 <= y && (y as usize) <= self.data.len() && 1 <= x && (x as usize)
                <= self.data[y as usize - 1].len()) {
                return false;
            }
            if typed && x >= 0xffff {
                return false;
            }
            return true;
        }
        true
    }

    fn toolbox_key(&mut self, input: Input)
        requires
            old(self)@.wf(),
        ensures
            final(self)@ == old(self)@.toolbox_step(input),
    {
        match input {
            Input::Left => self.tool_cur_x -= 1,
            Input::Right => self.tool_cur_x += 1,
            Input::Up => self.tool_cur_y -= 1,
            Input::Down => self.tool_cur_y += 1,
            Input::Char(c) => {
                if c == '\n' {
                    self.curr_fg = self.selected_colour();
                } else if c == 'd' {
                    self.curr_fg.default = !self.curr_fg.default;
                }
            },
            Input::Backspace => {
                self.curr_bg = self.selected_colour();
            },
            Input::Ctrl(c) => {
                if c == 'd' {
                    self.curr_bg.default = !self.curr_bg.default;
                }
            },
            Input::Other => {},
        }
        if self.tool_cur_x < 1 {
            self.tool_cur_x = 1;
        }
        if self.tool_cur_y < 1 {
            self.tool_cur_y = 1;
        }
        if self.tool_cur_x > 4 {
            self.tool_cur_x = 4;
        }
        if self.tool_cur_y > 4 {
            self.tool_cur_y = 4;
        }
        assert(self@ =~= old(self)@.toolbox_step(input));
    }

    fn charsheet_key(&mut self, input: Input)
        requires
            old(self)@.wf(),
            old(self)@.charsheet_ok(input),
        ensures
            final(self)@ == old(self)@.charsheet_step(input),
    {
        match input {
            Input::Left => self.char_cur_x -= 1,
            Input::Right => self.char_cur_x += 1,
            Input::Up => self.char_cur_y -= 1,
            Input::Down => self.char_cur_y += 1,
            _ => {},
        }
        if self.char_cur_x < 1 {
            self.char_cur_x = 1;
        }
        if self.char_cur_y < 1 {
            self.char_cur_y = 1;
        }
        if self.char_cur_x > self.char_sheet[0].len() as u16 {
            self.char_cur_x = self.char_sheet[0].len() as u16;
        }
        if self.char_cur_y > self.char_sheet.len() as u16 {
            self.char_cur_y = self.char_sheet.len() as u16;
        }
        self.pen_char = self.char_sheet[self.char_cur_y as usize - 1][self.char_cur_x as usize - 1];
        assert(self@ =~= old(self)@.charsheet_step(input));
    }

    /// Paints the cell under the image cursor, gives it `ch`, and draws the
    /// screen text anew.
    fn paint_cursor_cell(&mut self, ch: char)
        requires
            1 <= old(self).img_cur_y <= old(self).data@.len(),
            1 <= old(self).img_cur_x <= old(self).data@[old(self).img_cur_y - 1]@.len(),
        ensures
            final(self)@ == old(self)@.with_cell(ch),
    {
        let y = (self.img_cur_y - 1) as usize;
        let x = (self.img_cur_x - 1) as usize;
        let fg = self.curr_fg;
        let bg = self.curr_bg;
        let ghost before = self.data@;
        let mut cell = self.data[y][x];
        if !fg.default {
            cell.fg = fg;
        }
        if !bg.default {
            cell.bg = bg;
        }
        cell.ch = ch;
        assert(cell == painted(before[y as int]@[x as int], fg, bg, ch));
        self.data[y][x] = cell;
        assert(self.data@[y as int]@ =~= before[y as int]@.update(x as int, cell));
        assert forall|k: int| 0 <= k < before.len() && k != y implies self.data@[k] == before[k] by {}
        assert(rows_view(self.data@) =~= old(self)@.with_cell(ch).data);
        self.curr_buffer = construct_buffer(&self.data);
        assert(self@ =~= old(self)@.with_cell(ch));
    }

    fn image_key(&mut self, input: Input)
        requires
            old(self)@.wf(),
            old(self)@.image_ok(input),
        ensures
            final(self)@ == old(self)@.image_step(input),
    {
        let ghost v = old(self)@;
        match input {
            Input::Left => self.img_cur_x -= 1,
            Input::Right => self.img_cur_x += 1,
            Input::Up => self.img_cur_y -= 1,
            Input::Down => self.img_cur_y += 1,
            Input::Char(c) => {
                if c == '\n' {
                    self.tool_down = !self.tool_down;
                }
            },
            _ => {},
        }
        if self.img_cur_x < 1 {
            self.img_cur_x = 1;
        }
        if self.img_cur_y < 1 {
            self.img_cur_y = 1;
        }
        if self.img_cur_x > self.width {
            self.img_cur_x = self.width;
        }
        if self.img_cur_y > self.height {
            self.img_cur_y = self.height;
        }
        if !self.tool_down {
            match input {
                Input::Char(c) => {
                    if c == 't' {
                        self.tool = Tool::Text;
                    } else if c == 'p' {
                        self.tool = Tool::Pen;
                    } else if c == 'o' {
                        self.tool = Tool::Paint;
                    }
                },
                _ => {},
            }
        }
        let ghost moved = EditorView {
            img_cur_x: v.image_x(input),
            img_cur_y: v.image_y(input),
            tool_down: v.next_down(input),
            tool: v.next_tool(input),
            ..v
        };
        assert(self@ =~= moved);
        if self.tool == Tool::Text && self.tool_down {
            match input {
                Input::Char(c) => {
                    if c != '\n' {
                        self.paint_cursor_cell(c);
                        self.img_cur_x += 1;
                    }
                },
                _ => {},
            }
        } else if self.tool == Tool::Pen && self.tool_down {
            let pen = self.pen_char;
            self.paint_cursor_cell(pen);
        } else if self.tool == Tool::Paint && self.tool_down {
            let here = self.data[(self.img_cur_y - 1) as usize][(self.img_cur_x - 1) as usize].ch;
            self.paint_cursor_cell(here);
        }
        assert(self@ =~= v.image_step(input));
    }

    /// Reacts to a key press: `Ctrl-c` and `Ctrl-q` quit and change nothing;
    /// `Ctrl-s` asks to save the screen text with `\n` line ends; then the focus
    /// may change and the focused pane handles the key.
    pub fn handle_event(&mut self, input: Input) -> (action: Action)
        requires
            old(self)@.wf(),
            old(self)@.accepts(input),
        ensures
            final(self)@.wf(),
            final(self)@ == old(self)@.step(input),
            action is Quit <==> is_quit(input),
            action is Save <==> input == Input::Ctrl('s'),
            action matches Action::Save(t) ==> t@ == crlf_to_lf(old(self)@.buffer),
    {
        let mut action = Action::Redraw;
        match input {
            Input::Ctrl(c) => {
                if c == 'c' || c == 'q' {
                    return Action::Quit;
                } else if c == 's' {
                    action = Action::Save(unix_newlines(&self.curr_buffer));
                } else if c == 'e' {
                    if self.focus != Focus::Charsheet {
                        self.focus = Focus::Charsheet;
                    } else {
                        self.focus = Focus::Image;
                    }
                }
            },
            Input::Char(c) => {
                if c == '\t' {
                    if self.focus == Focus::Image {
                        self.focus = Focus::Toolbox;
                    } else if self.focus == Focus::Toolbox {
                        self.focus = Focus::Image;
                    }
                }
            },
            _ => {},
        }
        assert(self@ =~= old(self)@.with_focus(next_focus(old(self).focus, input)));
        if self.focus == Focus::Toolbox {
            self.toolbox_key(input);
        }
        if self.focus == Focus::Charsheet {
            self.charsheet_key(input);
        }
        if self.focus == Focus::Image {
            self.image_key(input);
        }
        action
    }
}

/// What a save writes reads back as the image: for an editor whose image has
/// only plain cells, the text of `Action::Save` (the screen text with `\n`
/// line ends) is a well-formed picture that describes the editor's image.
pub proof fn lemma_saved_text_reads_back(v: EditorView)
    requires
        v.wf(),
        plain_image(v.data),
    ensures
        decoded(crlf_to_lf(v.buffer)) is Some,
        picture(crlf_to_lf(v.buffer)) == v.data,
{
    lemma_save_reads_back(v.data);
}

/// Two images with the same number of rows and the same row lengths.
pub open spec fn same_shape(a: Seq<Seq<FmtChar>>, b: Seq<Seq<FmtChar>>) -> bool {
    &&& a.len() == b.len()
    &&& forall|i: int| 0 <= i < a.len() ==> (#[trigger] a[i]).len() == b[i].len()
}

/// A key press never changes the size of the image or of any row.
pub proof fn lemma_step_keeps_shape(v: EditorView, input: Input)
    requires
        v.wf(),
        v.accepts(input),
    ensures
        same_shape(v.step(input).data, v.data),
{
    let w = v.with_focus(next_focus(v.focus, input));
    if !is_quit(input) && w.focus == Focus::Image && w.edits(input) {
        let x = w.image_x(input) - 1;
        let y = w.image_y(input) - 1;
        assert forall|i: int| 0 <= i < v.data.len() implies (#[trigger] v.step(input).data[i]).len()
            == v.data[i].len() by {
            if i == y {
                assert(v.step(input).data[i] == v.data[i].update(x, v.step(input).data[i][x]));
            }
        }
    }
}

/// A key press keeps every cell of the image plain, as long as the pen
/// character and a typed character are neither a newline nor ESC.
pub proof fn lemma_step_keeps_plain(v: EditorView, input: Input)
    requires
        v.wf(),
        v.accepts(input),
        plain_image(v.data),
        v.pen_char != '\n' && v.pen_char != '\u{1b}',
        input != Input::Char('\u{1b}'),
    ensures
        plain_image(v.step(input).data),
{
    let w = v.with_focus(next_focus(v.focus, input));
    let n = v.step(input);
    if !is_quit(input) && w.focus == Focus::Image && w.edits(input) {
        let x = w.image_x(input) - 1;
        let y = w.image_y(input) - 1;
        assert forall|i: int, j: int| 0 <= i < n.data.len() && 0 <= j < n.data[i].len()
            implies plain_cell(#[trigger] n.data[i][j]) by {
            if i == y && j == x {
                assert(plain_cell(v.data[i][j]));
            } else {
                assert(n.data[i][j] == v.data[i][j]);
                assert(plain_cell(v.data[i][j]));
            }
        }
    }
}

/// A rectangular image of at least one column, small enough that its cursor
/// never reaches the end of the 16-bit range.
pub open spec fn regular_image(data: Seq<Seq<FmtChar>>) -> bool {
    &&& 1 <= data.len() <= 0xfffe
    &&& 1 <= data[0].len() <= 0xfffd
    &&& forall|i: int| 0 <= i < data.len() ==> (#[trigger] data[i]).len() == data[0].len()
}

/// A character sheet whose rows are all at least as long as the first, which is
/// not empty, and small enough for 16-bit cursors.
pub open spec fn regular_sheet(sheet: Seq<Seq<char>>) -> bool {
    &&& 1 <= sheet.len() <= 0xfffe
    &&& 1 <= sheet[0].len() <= 0xfffe
    &&& forall|i: int| 0 <= i < sheet.len() ==> (#[trigger] sheet[i]).len() >= sheet[0].len()
}

impl EditorView {
    /// An editor on a regular image and sheet, with its cursors in range.
    pub open spec fn regular(self) -> bool {
        &&& self.wf()
        &&& regular_image(self.data)
        &&& regular_sheet(self.char_sheet)
        &&& 1 <= self.img_cur_x <= 0xfffe
        &&& 1 <= self.img_cur_y <= 0xfffe
        &&& self.char_cur_x <= 0xfffe
        &&& self.char_cur_y <= 0xfffe
    }
}

/// On a regular image and sheet the editor takes every key press, and stays
/// regular: no key press can run a cursor out of range or out of the image.
pub proof fn lemma_regular_accepts(v: EditorView, input: Input)
    requires
        v.regular(),
    ensures
        v.accepts(input),
        v.step(input).regular(),
{
    let w = v.with_focus(next_focus(v.focus, input));
    assert(v.width == v.data[0].len());
    assert(v.height == v.data.len());
    assert((v.char_sheet[0].len() as u16) == v.char_sheet[0].len());
    assert((v.char_sheet.len() as u16) == v.char_sheet.len());
    if w.focus == Focus::Image {
        let y = w.image_y(input);
        assert(v.data[y - 1].len() == v.data[0].len());
    }
    if w.focus == Focus::Charsheet {
        let y = w.sheet_y(input);
        assert(v.char_sheet[y - 1].len() >= v.char_sheet[0].len());
    }
    lemma_step_keeps_shape(v, input);
    let n = v.step(input);
    assert forall|i: int| 0 <= i < n.data.len() implies (#[trigger] n.data[i]).len() == n.data[0].len() by {
        assert(n.data[i].len() == v.data[i].len());
        assert(n.data[0].len() == v.data[0].len());
    }
}

/// `Ctrl-c` and `Ctrl-q` change nothing. `Ctrl-e` focuses the character sheet
/// from any other pane and the image from the character sheet. `Tab` moves
/// between the image and the toolbox and does nothing on the character sheet.
/// No other key changes the focus.
#[verifier::rlimit(40)]
pub proof fn lemma_focus_keys(v: EditorView, input: Input)
    requires
        v.wf(),
        v.accepts(input),
    ensures
        input == Input::Ctrl('c') || input == Input::Ctrl('q') ==> v.step(input) == v,
        input == Input::Ctrl('e') && v.focus != Focus::Charsheet ==> v.step(input).focus == Focus::Charsheet,
        input == Input::Ctrl('e') && v.focus == Focus::Charsheet ==> v.step(input).focus == Focus::Image,
        input == Input::Char('\t') && v.focus == Focus::Image ==> v.step(input).focus == Focus::Toolbox,
        input == Input::Char('\t') && v.focus == Focus::Toolbox ==> v.step(input).focus == Focus::Image,
        input == Input::Char('\t') && v.focus == Focus::Charsheet ==> v.step(input).focus == Focus::Charsheet,
        input != Input::Ctrl('e') && input != Input::Char('\t') ==> v.step(input).focus == v.focus,
{
}

/// In the toolbox: Enter makes the foreground the palette entry under the
/// toolbox cursor and Backspace the background, neither marked default; `d`
/// and `Ctrl-d` flip only the default mark of the foreground and the
/// background; arrows move the cursor one step within the 4x4 palette; the
/// image, its screen text and the pen stay as they were.
#[verifier::rlimit(40)]
pub proof fn lemma_toolbox_keys(v: EditorView, input: Input)
    requires
        v.wf(),
        v.accepts(input),
        !is_quit(input),
        v.step(input).focus == Focus::Toolbox,
    ensures
        ({
            let n = v.step(input);
            let entry = v.colours[(v.tool_cur_y - 1) * 4 + (v.tool_cur_x - 1)];
            &&& n.data == v.data
            &&& n.buffer == v.buffer
            &&& n.pen_char == v.pen_char
            &&& n.tool == v.tool && n.tool_down == v.tool_down
            &&& n.img_cur_x == v.img_cur_x && n.img_cur_y == v.img_cur_y
            &&& 1 <= n.tool_cur_x <= 4 && 1 <= n.tool_cur_y <= 4
            &&& input == Input::Char('\n') ==> n.curr_fg == entry && !n.curr_fg.default
                && n.curr_bg == v.curr_bg
            &&& input == Input::Backspace ==> n.curr_bg == entry && !n.curr_bg.default
                && n.curr_fg == v.curr_fg
            &&& input == Input::Char('d') ==> n.curr_fg.default == !v.curr_fg.default
                && n.curr_fg.r == v.curr_fg.r && n.curr_fg.g == v.curr_fg.g
                && n.curr_fg.b == v.curr_fg.b && n.curr_bg == v.curr_bg
            &&& input == Input::Ctrl('d') ==> n.curr_bg.default == !v.curr_bg.default
                && n.curr_bg.r == v.curr_bg.r && n.curr_bg.g == v.curr_bg.g
                && n.curr_bg.b == v.curr_bg.b && n.curr_fg == v.curr_fg
            &&& input != Input::Char('\n') && input != Input::Backspace && input != Input::Char('d')
                && input != Input::Ctrl('d') ==> n.curr_fg == v.curr_fg && n.curr_bg == v.curr_bg
            &&& input == Input::Right ==> n.tool_cur_x == (if v.tool_cur_x < 4 { v.tool_cur_x + 1 } else { 4 })
                && n.tool_cur_y == v.tool_cur_y
            &&& input == Input::Left ==> n.tool_cur_x == (if v.tool_cur_x > 1 { v.tool_cur_x - 1 } else { 1 })
                && n.tool_cur_y == v.tool_cur_y
            &&& input == Input::Down ==> n.tool_cur_y == (if v.tool_cur_y < 4 { v.tool_cur_y + 1 } else { 4 })
                && n.tool_cur_x == v.tool_cur_x
            &&& input == Input::Up ==> n.tool_cur_y == (if v.tool_cur_y > 1 { v.tool_cur_y - 1 } else { 1 })
                && n.tool_cur_x == v.tool_cur_x
        }),
{
    let k = (v.tool_cur_y - 1) * 4 + (v.tool_cur_x - 1);
    assert(0 <= k < 16);
    crate::colour::lemma_html_colour_channels(palette_codes()[k]);
}

/// On the character sheet the cursor lands inside the sheet and the pen takes
/// the character under it; the image, the colours and the tool stay as they were.
#[verifier::rlimit(40)]
pub proof fn lemma_charsheet_keys(v: EditorView, input: Input)
    requires
        v.wf(),
        v.accepts(input),
        !is_quit(input),
        v.step(input).focus == Focus::Charsheet,
    ensures
        ({
            let n = v.step(input);
            &&& 1 <= n.char_cur_y <= v.char_sheet.len()
            &&& 1 <= n.char_cur_x <= v.char_sheet[n.char_cur_y - 1].len()
            &&& n.pen_char == v.char_sheet[n.char_cur_y - 1][n.char_cur_x - 1]
            &&& n.data == v.data && n.buffer == v.buffer
            &&& n.curr_fg == v.curr_fg && n.curr_bg == v.curr_bg
            &&& n.tool == v.tool && n.tool_down == v.tool_down
            &&& n.img_cur_x == v.img_cur_x && n.img_cur_y == v.img_cur_y
        }),
{
}

/// The character of a plain key press.
pub open spec fn key_char(input: Input) -> Option<char> {
    match input {
        Input::Char(c) => Some(c),
        _ => None,
    }
}

/// The cell at column `x`, row `y` (counted from 0) has the character `ch`,
/// each current colour that is not marked default, and otherwise its old
/// colour; every other cell is as before, and the shape is the same.
pub open spec fn painted_at(
    old_data: Seq<Seq<FmtChar>>,
    new_data: Seq<Seq<FmtChar>>,
    x: int,
    y: int,
    ch: char,
    fg: RGB,
    bg: RGB,
) -> bool {
    &&& 0 <= y < old_data.len() && 0 <= x < old_data[y].len()
    &&& same_shape(new_data, old_data)
    &&& new_data[y][x].ch == ch
    &&& !fg.default ==> new_data[y][x].fg == fg
    &&& fg.default ==> new_data[y][x].fg == old_data[y][x].fg
    &&& !bg.default ==> new_data[y][x].bg == bg
    &&& bg.default ==> new_data[y][x].bg == old_data[y][x].bg
    &&& forall|i: int, j: int|
        0 <= i < old_data.len() && 0 <= j < old_data[i].len() && (i != y || j != x)
            ==> #[trigger] new_data[i][j] == old_data[i][j]
}

/// On the image (a key that keeps the image focused): Enter lifts or lowers the
/// tool and a tool is chosen only while lifted; with the paint tool down the
/// cell under the cursor takes the current colours and keeps its character;
/// with the pen down it also takes the pen character; a character typed with
/// the text tool down lands in the cell left of the new cursor, in the current
/// colours. Only these change the image, and the current colours never change.
#[verifier::rlimit(40)]
pub proof fn lemma_image_keys(v: EditorView, input: Input)
    requires
        v.wf(),
        v.accepts(input),
        !is_quit(input),
        v.focus == Focus::Image,
        input != Input::Ctrl('e'),
        input != Input::Char('\t'),
    ensures
        ({
            let n = v.step(input);
            let x = n.img_cur_x - 1;
            let y = n.img_cur_y - 1;
            &&& n.focus == Focus::Image
            &&& n.curr_fg == v.curr_fg && n.curr_bg == v.curr_bg && n.pen_char == v.pen_char
            &&& n.tool_down == (if input == Input::Char('\n') { !v.tool_down } else { v.tool_down })
            &&& n.tool_down ==> n.tool == v.tool
            &&& !n.tool_down && input == Input::Char('t') ==> n.tool == Tool::Text
            &&& !n.tool_down && input == Input::Char('p') ==> n.tool == Tool::Pen
            &&& !n.tool_down && input == Input::Char('o') ==> n.tool == Tool::Paint
            &&& !n.tool_down && input != Input::Char('t') && input != Input::Char('p')
                && input != Input::Char('o') ==> n.tool == v.tool
            &&& !n.tool_down ==> n.data == v.data
            &&& v.tool == Tool::Unset ==> n.data == v.data
            &&& v.tool == Tool::Paint && n.tool_down ==> painted_at(
                v.data, n.data, x, y, v.data[y][x].ch, v.curr_fg, v.curr_bg)
            &&& v.tool == Tool::Pen && n.tool_down ==> painted_at(
                v.data, n.data, x, y, v.pen_char, v.curr_fg, v.curr_bg)
            &&& v.tool == Tool::Text && n.tool_down && key_char(input) is Some
                && key_char(input).unwrap() != '\n' ==> n.img_cur_x >= 2 && painted_at(
                v.data, n.data, x - 1, y, key_char(input).unwrap(), v.curr_fg, v.curr_bg)
            &&& v.tool == Tool::Text && n.tool_down && !(key_char(input) is Some
                && key_char(input).unwrap() != '\n') ==> n.data == v.data
            &&& n.buffer == screen_text(n.data)
        }),
{
    let w = v.with_focus(next_focus(v.focus, input));
    assert(w == v);
    let n = v.step(input);
    lemma_step_keeps_shape(v, input);
    if w.edits(input) {
        let x = w.image_x(input) - 1;
        let y = w.image_y(input) - 1;
        assert forall|i: int, j: int|
            0 <= i < v.data.len() && 0 <= j < v.data[i].len() && (i != y || j != x)
                implies #[trigger] n.data[i][j] == v.data[i][j] by {
            if i == y {
                assert(n.data[i] == v.data[i].update(x, n.data[i][x]));
            }
        }
    }
}

/// A coordinate raised to at least 1 and then lowered to at most `hi`, as a number.
pub open spec fn kept_within(v: int, hi: int) -> int {
    if v < 1 {
        if 1 > hi { hi } else { 1 }
    } else if v > hi {
        hi
    } else {
        v
    }
}

/// On the image an arrow moves the cursor one step its way, and the cursor is
/// then kept within 1..width and 1..height; a typed character moves it one
/// further right.
#[verifier::rlimit(40)]
pub proof fn lemma_image_cursor(v: EditorView, input: Input)
    requires
        v.wf(),
        v.accepts(input),
        !is_quit(input),
        v.focus == Focus::Image,
        input != Input::Ctrl('e'),
        input != Input::Char('\t'),
    ensures
        ({
            let n = v.step(input);
            let dx: int = if input == Input::Left { -1 } else if input == Input::Right { 1 } else { 0 };
            let dy: int = if input == Input::Up { -1 } else if input == Input::Down { 1 } else { 0 };
            let typed: int = if v.tool == Tool::Text && n.tool_down && key_char(input) is Some
                && key_char(input).unwrap() != '\n' { 1 } else { 0 };
            &&& n.img_cur_x == kept_within(v.img_cur_x + dx, v.width as int) + typed
            &&& n.img_cur_y == kept_within(v.img_cur_y + dy, v.height as int)
        }),
{
}

/// On the character sheet an arrow moves the cursor one step its way, and the
/// cursor is then kept within the first row's length and the number of rows.
#[verifier::rlimit(40)]
pub proof fn lemma_charsheet_cursor(v: EditorView, input: Input)
    requires
        v.wf(),
        v.accepts(input),
        !is_quit(input),
        v.step(input).focus == Focus::Charsheet,
        v.char_sheet.len() <= 0xffff,
        v.char_sheet[0].len() <= 0xffff,
    ensures
        ({
            let n = v.step(input);
            let dx: int = if input == Input::Left { -1 } else if input == Input::Right { 1 } else { 0 };
            let dy: int = if input == Input::Up { -1 } else if input == Input::Down { 1 } else { 0 };
            &&& n.char_cur_x == kept_within(v.char_cur_x + dx, v.char_sheet[0].len() as int)
            &&& n.char_cur_y == kept_within(v.char_cur_y + dy, v.char_sheet.len() as int)
        }),
{
}

/// The image cursor shows the current colours while the pen or paint is down
/// and white on black otherwise.
pub proof fn lemma_cursor_colours(v: EditorView)
    ensures
        (v.tool == Tool::Pen || v.tool == Tool::Paint) && v.tool_down ==> v.cursor_colours() == (
        v.curr_fg, v.curr_bg),
        !((v.tool == Tool::Pen || v.tool == Tool::Paint) && v.tool_down) ==> v.cursor_colours() == (
        RGB { r: 255, g: 255, b: 255, default: false }, RGB { r: 0, g: 0, b: 0, default: false }),
{
}

/// The toolbox colours, row by row: white, yellow, orange, red; pink, purple,
/// blue, light blue; green, dark green, brown, light brown; light grey, grey,
/// dark grey, black. None is marked default.
pub proof fn lemma_palette_colours()
    ensures
        palette_colours() == seq![
            RGB { r: 0xff, g: 0xff, b: 0xff, default: false },
            RGB { r: 0xff, g: 0xff, b: 0x01, default: false },
            RGB { r: 0xff, g: 0x66, b: 0x00, default: false },
            RGB { r: 0xde, g: 0x00, b: 0x00, default: false },
            RGB { r: 0xff, g: 0x01, b: 0x98, default: false },
            RGB { r: 0x33, g: 0x00, b: 0x99, default: false },
            RGB { r: 0x00, g: 0x01, b: 0xcd, default: false },
            RGB { r: 0x00, g: 0x98, b: 0xfe, default: false },
            RGB { r: 0x01, g: 0xab, b: 0x02, default: false },
            RGB { r: 0x01, g: 0x67, b: 0x01, default: false },
            RGB { r: 0x67, g: 0x33, b: 0x01, default: false },
            RGB { r: 0x9a, g: 0x66, b: 0x34, default: false },
            RGB { r: 0xbb, g: 0xbb, b: 0xbb, default: false },
            RGB { r: 0x88, g: 0x88, b: 0x88, default: false },
            RGB { r: 0x44, g: 0x44, b: 0x44, default: false },
            RGB { r: 0x00, g: 0x00, b: 0x00, default: false },
        ],
{
    assert(palette_colours() =~= seq![
        RGB { r: 0xff, g: 0xff, b: 0xff, default: false },
        RGB { r: 0xff, g: 0xff, b: 0x01, default: false },
        RGB { r: 0xff, g: 0x66, b: 0x00, default: false },
        RGB { r: 0xde, g: 0x00, b: 0x00, default: false },
        RGB { r: 0xff, g: 0x01, b: 0x98, default: false },
        RGB { r: 0x33, g: 0x00, b: 0x99, default: false },
        RGB { r: 0x00, g: 0x01, b: 0xcd, default: false },
        RGB { r: 0x00, g: 0x98, b: 0xfe, default: false },
        RGB { r: 0x01, g: 0xab, b: 0x02, default: false },
        RGB { r: 0x01, g: 0x67, b: 0x01, default: false },
        RGB { r: 0x67, g: 0x33, b: 0x01, default: false },
        RGB { r: 0x9a, g: 0x66, b: 0x34, default: false },
        RGB { r: 0xbb, g: 0xbb, b: 0xbb, default: false },
        RGB { r: 0x88, g: 0x88, b: 0x88, default: false },
        RGB { r: 0x44, g: 0x44, b: 0x44, default: false },
        RGB { r: 0x00, g: 0x00, b: 0x00, default: false },
    ]);
}

} // verus!
