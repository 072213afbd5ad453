use vstd::prelude::*;
use crate::colour::{RGB, rgb};
use crate::decimal::{parse_u8, parsed_u8};
use crate::escape::{fg_escape, bg_escape, fg_sequence, bg_sequence};

verus! {

/// One cell of the image: a character with its foreground and background.
#[derive(Clone, Copy, Debug, PartialEq, Eq, Structural)]
pub struct FmtChar {
    pub ch: char,
    pub fg: RGB,
    pub bg: RGB,
}

/// What a picture holds: escape commands that change the current colours.
#[derive(Clone, Copy, Debug, PartialEq, Eq, Structural)]
pub enum Escape {
    /// `ESC ? 0 m`: white on black again.
    Reset,
    /// `38` with three channels: a new foreground.
    Foreground(RGB),
    /// `48` with three channels: a new background.
    Background(RGB),
    /// Any other code with three channels: no change.
    Ignored,
}

/// The first index at or after `i` that holds `c`, or the length if none does.
pub open spec fn find_from(s: Seq<char>, c: char, i: nat) -> nat
    decreases s.len() - i,
{
    if i >= s.len() {
        s.len()
    } else if s[i as int] == c {
        i
    } else {
        find_from(s, c, i + 1)
    }
}

/// `find_from` lands at or after `i`, on a `c` when it lands inside, past no `c`.
pub proof fn lemma_find_from(s: Seq<char>, c: char, i: nat)
    ensures
        i <= s.len() ==> i <= find_from(s, c, i) <= s.len(),
        i > s.len() ==> find_from(s, c, i) == s.len(),
        find_from(s, c, i) < s.len() ==> s[find_from(s, c, i) as int] == c,
        forall|k: int| i <= k < find_from(s, c, i) ==> s[k] != c,
        (exists|k: int| i <= k < s.len() && s[k] == c) ==> find_from(s, c, i) < s.len(),
    decreases s.len() - i,
{
    if i < s.len() && s[i as int] != c {
        lemma_find_from(s, c, i + 1);
    }
}

/// The escape command that starts at `i` (which holds ESC) and the index just
/// after it, or `None` where the text breaks off or a channel is no byte.
/// The character after ESC is skipped unread; `0m` resets; otherwise five
/// `;`/`m`-terminated fields follow: a code, one field skipped, and the three
/// channels.
pub open spec fn escape_at(s: Seq<char>, i: nat) -> Option<(nat, Escape)> {
    let j = i + 2;
    if j + 2 > s.len() {
        None
    } else if s[j as int] == '0' && s[(j + 1) as int] == 'm' {
        Some(((j + 2) as nat, Escape::Reset))
    } else {
        let p1 = find_from(s, ';', j);
        let p2 = find_from(s, ';', p1 + 1);
        let p3 = find_from(s, ';', p2 + 1);
        let p4 = find_from(s, ';', p3 + 1);
        let p5 = find_from(s, 'm', p4 + 1);
        if p5 >= s.len() {
            None
        } else {
            match (
                parsed_u8(s.subrange((p2 + 1) as int, p3 as int)),
                parsed_u8(s.subrange((p3 + 1) as int, p4 as int)),
                parsed_u8(s.subrange((p4 + 1) as int, p5 as int)),
            ) {
                (Some(r), Some(g), Some(b)) => {
                    let code = s.subrange(j as int, p1 as int);
                    Some(
                        (
                            (p5 + 1) as nat,
                            if code == seq!['3', '8'] {
                                Escape::Foreground(rgb(r, g, b))
                            } else if code == seq!['4', '8'] {
                                Escape::Background(rgb(r, g, b))
                            } else {
                                Escape::Ignored
                            },
                        ),
                    )
                },
                _ => None,
            }
        }
    }
}

/// The colours (foreground, background) after an escape command.
pub open spec fn apply_escape(e: Escape, fg: RGB, bg: RGB) -> (RGB, RGB) {
    match e {
        Escape::Reset => (rgb(255, 255, 255), rgb(0, 0, 0)),
        Escape::Foreground(c) => (c, bg),
        Escape::Background(c) => (fg, c),
        Escape::Ignored => (fg, bg),
    }
}

/// An escape command ends after it starts and within the text.
pub proof fn lemma_escape_at_bounds(s: Seq<char>, i: nat)
    ensures
        escape_at(s, i) matches Some((n, _)) ==> i + 4 <= n <= s.len(),
{
    let j = i + 2;
    if j + 2 <= s.len() && !(s[j as int] == '0' && s[(j + 1) as int] == 'm') {
        let p1 = find_from(s, ';', j);
        let p2 = find_from(s, ';', p1 + 1);
        let p3 = find_from(s, ';', p2 + 1);
        let p4 = find_from(s, ';', p3 + 1);
        lemma_find_from(s, ';', j);
        lemma_find_from(s, ';', p1 + 1);
        lemma_find_from(s, ';', p2 + 1);
        lemma_find_from(s, ';', p3 + 1);
        lemma_find_from(s, 'm', p4 + 1);
    }
}

/// The cells that the text from index `i` on stands for, starting with the
/// colours `fg` and `bg`: each character other than ESC is a cell in the current
/// colours, and each escape command changes them. `None` where an escape
/// command is broken.
pub open spec fn decode(s: Seq<char>, i: nat, fg: RGB, bg: RGB) -> Option<Seq<FmtChar>>
    decreases s.len() - i,
{
    if i >= s.len() {
        Some(Seq::empty())
    } else if s[i as int] != '\u{1b}' {
        match decode(s, i + 1, fg, bg) {
            Some(rest) => Some(seq![FmtChar { ch: s[i as int], fg, bg }] + rest),
            None => None,
        }
    } else {
        match escape_at(s, i) {
            None => None,
            Some((next, e)) => {
                proof {
                    lemma_escape_at_bounds(s, i);
                }
                decode(s, next, apply_escape(e, fg, bg).0, apply_escape(e, fg, bg).1)
            },
        }
    }
}

/// The cells of a whole picture text, which starts white on black.
pub open spec fn decoded(s: Seq<char>) -> Option<Seq<FmtChar>> {
    decode(s, 0, rgb(255, 255, 255), rgb(0, 0, 0))
}

/// `s` cut at every element for which `is_break` holds; the breaks themselves
/// are dropped. There is always one more piece than there are breaks.
pub open spec fn split_lines<T>(s: Seq<T>, is_break: spec_fn(T) -> bool) -> Seq<Seq<T>>
    decreases s.len(),
{
    if s.len() == 0 {
        seq![Seq::empty()]
    } else {
        let rows = split_lines(s.drop_last(), is_break);
        if is_break(s.last()) {
            rows.push(Seq::empty())
        } else {
            rows.update(rows.len() - 1, rows.last().push(s.last()))
        }
    }
}

/// A split has at least one piece.
pub proof fn lemma_split_lines_nonempty<T>(s: Seq<T>, is_break: spec_fn(T) -> bool)
    ensures
        split_lines(s, is_break).len() >= 1,
    decreases s.len(),
{
    if s.len() > 0 {
        lemma_split_lines_nonempty(s.drop_last(), is_break);
    }
}

pub open spec fn is_newline_cell(c: FmtChar) -> bool {
    c.ch == '\n'
}

pub open spec fn cell_break() -> spec_fn(FmtChar) -> bool {
    |c: FmtChar| is_newline_cell(c)
}

/// The rows of an image: the cells cut at newlines.
pub open spec fn cell_lines(cells: Seq<FmtChar>) -> Seq<Seq<FmtChar>> {
    split_lines(cells, cell_break())
}

/// `rows` without its last row, when that row is empty.
pub open spec fn drop_empty_last<T>(rows: Seq<Seq<T>>) -> Seq<Seq<T>> {
    if rows.len() > 0 && rows.last().len() == 0 {
        rows.drop_last()
    } else {
        rows
    }
}

pub open spec fn rows_view<T>(v: Seq<Vec<T>>) -> Seq<Seq<T>> {
    v.map_values(|r: Vec<T>| r@)
}

/// The image that a picture text describes.
pub open spec fn picture(s: Seq<char>) -> Seq<Seq<FmtChar>> {
    drop_empty_last(cell_lines(decoded(s).unwrap()))
}

/// Copies `data[start..end]`.
fn copy_range(data: &Vec<char>, start: usize, end: usize) -> (r: Vec<char>)
    requires
        start <= end <= data.len(),
    ensures
        r@ == data@.subrange(start as int, end as int),
{
    let mut r: Vec<char> = Vec::new();
    let mut k = start;
    while k < end
        invariant
            start <= k <= end <= data.len(),
            r@ == data@.subrange(start as int, k as int),
        decreases end - k,
    {
        r.push(data[k]);
        k = k + 1;
        assert(r@ =~= data@.subrange(start as int, k as int));
    }
    r
}

/// The characters from `pos` up to the next `ch`, and the index of that `ch`.
pub fn read_until(ch: char, data: &Vec<char>, pos: usize) -> (r: (Vec<char>, usize))
    requires
        exists|k: int| pos <= k < data@.len() && data@[k] == ch,
    ensures
        r.1 == find_from(data@, ch, pos as nat),
        pos <= r.1 < data@.len(),
        data@[r.1 as int] == ch,
        forall|k: int| pos <= k < r.1 ==> data@[k] != ch,
        r.0@ == data@.subrange(pos as int, r.1 as int),
{
    proof {
        lemma_find_from(data@, ch, pos as nat);
    }
    let start = pos;
    let mut pos = pos;
    while data[pos] != ch
        invariant
            start <= pos <= find_from(data@, ch, start as nat) < data@.len(),
            find_from(data@, ch, pos as nat) == find_from(data@, ch, start as nat),
        decreases data@.len() - pos,
    {
        proof {
            lemma_find_from(data@, ch, (pos + 1) as nat);
        }
        assert(pos < data.len());
        pos += 1;
    }
    proof {
        lemma_find_from(data@, ch, start as nat);
    }
    (copy_range(data, start, pos), pos)
}

proof fn lemma_push_concat<T>(a: Seq<T>, x: T, r: Seq<T>)
    ensures
        a.push(x) + r == a + (seq![x] + r),
{
    assert(a.push(x) + r =~= a + (seq![x] + r));
}

/// A character other than ESC stands for one cell in the current colours.
proof fn lemma_decode_plain(s: Seq<char>, i: nat, fg: RGB, bg: RGB)
    requires
        i < s.len(),
        s[i as int] != '\u{1b}',
        decode(s, i, fg, bg) is Some,
    ensures
        decode(s, i + 1, fg, bg) is Some,
        decode(s, i, fg, bg).unwrap() == seq![FmtChar { ch: s[i as int], fg, bg }] + decode(
            s,
            i + 1,
            fg,
            bg,
        ).unwrap(),
{
}

/// Reads the escape command that starts at `pos` (which holds ESC).
fn parse_escape(data: &Vec<char>, pos: usize) -> (r: (usize, Escape))
    requires
        escape_at(data@, pos as nat) is Some,
    ensures
        (r.0 as nat, r.1) == escape_at(data@, pos as nat).unwrap(),
{
    let ghost s = data@;
    proof {
        lemma_escape_at_bounds(s, pos as nat);
    }
    assert(pos + 4 <= data.len());
    let j = pos + 2;
    if data[j] == '0' && data[j + 1] == 'm' {
        return (j + 2, Escape::Reset);
    }
    let ghost p1 = find_from(s, ';', j as nat);
    let ghost p2 = find_from(s, ';', p1 + 1);
    let ghost p3 = find_from(s, ';', p2 + 1);
    let ghost p4 = find_from(s, ';', p3 + 1);
    let ghost p5 = find_from(s, 'm', p4 + 1);
    proof {
        lemma_find_from(s, ';', j as nat);
        lemma_find_from(s, ';', p1 + 1);
        lemma_find_from(s, ';', p2 + 1);
        lemma_find_from(s, ';', p3 + 1);
        lemma_find_from(s, 'm', p4 + 1);
        assert(s[p1 as int] == ';');
        assert(s[p2 as int] == ';');
        assert(s[p3 as int] == ';');
        assert(s[p4 as int] == ';');
        assert(s[p5 as int] == 'm');
    }
    let (first_num, npos) = read_until(';', data, j);
    let (_second_num, npos) = read_until(';', data, npos + 1);
    let (rv, npos) = read_until(';', data, npos + 1);
    let (gv, npos) = read_until(';', data, npos + 1);
    let (bv, npos) = read_until('m', data, npos + 1);
    let r = parse_u8(&rv).unwrap();
    let g = parse_u8(&gv).unwrap();
    let b = parse_u8(&bv).unwrap();
    let e = if first_num.len() == 2 && first_num[0] == '3' && first_num[1] == '8' {
        assert(first_num@ =~= seq!['3', '8']);
        Escape::Foreground(RGB::new(r, g, b))
    } else if first_num.len() == 2 && first_num[0] == '4' && first_num[1] == '8' {
        assert(first_num@ =~= seq!['4', '8']);
        Escape::Background(RGB::new(r, g, b))
    } else {
        assert(first_num@ != seq!['3', '8']);
        assert(first_num@ != seq!['4', '8']);
        Escape::Ignored
    };
    (npos + 1, e)
}

fn apply(e: Escape, fg: RGB, bg: RGB) -> (r: (RGB, RGB))
    ensures
        r == apply_escape(e, fg, bg),
{
    match e {
        Escape::Reset => (RGB::new(255, 255, 255), RGB::new(0, 0, 0)),
        Escape::Foreground(c) => (c, bg),
        Escape::Background(c) => (fg, c),
        Escape::Ignored => (fg, bg),
    }
}

/// Reads a picture text: characters in the current colours, colours changed by
/// true-colour escape commands, rows ended by newlines. A last row left empty
/// by a final newline is dropped.
pub fn make_data(data: Vec<char>) -> (rows: Vec<Vec<FmtChar>>)
    requires
        decoded(data@) is Some,
    ensures
        rows_view(rows@) == picture(data@),
{
    let mut out: Vec<FmtChar> = Vec::new();
    let mut pos: usize = 0;
    let mut bg = RGB::new(0, 0, 0);
    let mut fg = RGB::new(255, 255, 255);
    let ghost all = decoded(data@).unwrap();

    while pos < data.len()
        invariant
            pos <= data@.len(),
            all == decoded(data@).unwrap(),
            decode(data@, pos as nat, fg, bg) is Some,
            out@ + decode(data@, pos as nat, fg, bg).unwrap() == all,
        decreases data@.len() - pos,
    {
        if data[pos] == '\u{1b}' {
            let ghost old_pos = pos;
            proof {
                lemma_escape_at_bounds(data@, pos as nat);
            }
            let (npos, e) = parse_escape(&data, pos);
            let colours = apply(e, fg, bg);
            fg = colours.0;
            bg = colours.1;
            pos = npos;
        } else {
            let ghost old_out = out@;
            let item = FmtChar { ch: data[pos], fg: fg, bg: bg };
            proof {
                lemma_decode_plain(data@, pos as nat, fg, bg);
                lemma_push_concat(old_out, item, decode(data@, (pos + 1) as nat, fg, bg).unwrap());
            }
            out.push(item);
            pos += 1;
        }
    }
    assert(out@ =~= all);

    let ghost br = cell_break();
    let mut n: Vec<Vec<FmtChar>> = Vec::new();
    let mut cur: Vec<FmtChar> = Vec::new();
    let mut k: usize = 0;
    while k < out.len()
        invariant
            k <= out@.len(),
            out@ == all,
            br == cell_break(),
            rows_view(n@).push(cur@) == split_lines(all.take(k as int), br),
        decreases out@.len() - k,
    {
        let c = out[k];
        let ghost prev = all.take(k as int);
        assert(all.take(k + 1).drop_last() =~= prev);
        assert(all.take(k + 1).last() == c);
        proof {
            lemma_split_lines_nonempty(prev, br);
        }
        if c.ch == '\n' {
            let done = cur;
            n.push(done);
            cur = Vec::new();
            assert(rows_view(n@).push(cur@) =~= split_lines(prev, br).push(Seq::empty()));
        } else {
            cur.push(c);
            assert(rows_view(n@).push(cur@) =~= split_lines(prev, br).update(
                split_lines(prev, br).len() - 1,
                split_lines(prev, br).last().push(c),
            ));
        }
        k += 1;
    }
    assert(all.take(out@.len() as int) =~= all);
    if cur.len() > 0 {
        n.push(cur);
        assert(rows_view(n@) =~= split_lines(all, br));
    } else {
        assert(rows_view(n@) =~= split_lines(all, br).drop_last());
    }
    n
}

/// The characters of a string, in order.
fn string_chars(txt: &String) -> (v: Vec<char>)
    ensures
        v@ == txt@,
{
    broadcast use vstd::string::group_string_axioms;

    let mut v: Vec<char> = Vec::new();
    for c in it: txt.chars()
        invariant
            it.seq() == txt@,
            v@ == txt@.take(it.index()),
    {
        v.push(c);
        assert(v@ =~= txt@.take(it.index() + 1));
    }
    assert(v@ =~= txt@);
    v
}

/// `rows` without the empty rows at its end.
pub open spec fn trim_empty_tail<T>(rows: Seq<Seq<T>>) -> Seq<Seq<T>>
    decreases rows.len(),
{
    if rows.len() > 0 && rows.last().len() == 0 {
        trim_empty_tail(rows.drop_last())
    } else {
        rows
    }
}

pub open spec fn line_break() -> spec_fn(char) -> bool {
    |c: char| c == '\n'
}

/// The lines of a text, cut at newlines.
pub open spec fn char_lines(s: Seq<char>) -> Seq<Seq<char>> {
    split_lines(s, line_break())
}

/// The character sheet that a text describes: its lines, without the empty
/// lines at its end.
pub open spec fn char_sheet(s: Seq<char>) -> Seq<Seq<char>> {
    trim_empty_tail(char_lines(s))
}

/// Cuts a text into the rows of a character sheet; empty rows at the end are dropped.
pub fn make_char_sheet(txt: String) -> (ret: Vec<Vec<char>>)
    ensures
        rows_view(ret@) == char_sheet(txt@),
{
    let arr_1d = string_chars(&txt);
    let ghost all = txt@;
    let ghost br = line_break();
    let mut ret: Vec<Vec<char>> = Vec::new();
    let mut cur: Vec<char> = Vec::new();
    let mut k: usize = 0;
    while k < arr_1d.len()
        invariant
            k <= arr_1d@.len(),
            arr_1d@ == all,
            br == line_break(),
            rows_view(ret@).push(cur@) == split_lines(all.take(k as int), br),
        decreases arr_1d@.len() - k,
    {
        let ch = arr_1d[k];
        let ghost prev = all.take(k as int);
        assert(all.take(k + 1).drop_last() =~= prev);
        assert(all.take(k + 1).last() == ch);
        proof {
            lemma_split_lines_nonempty(prev, br);
        }
        if ch == '\n' {
            let done = cur;
            ret.push(done);
            cur = Vec::new();
            assert(rows_view(ret@).push(cur@) =~= split_lines(prev, br).push(Seq::empty()));
        } else {
            cur.push(ch);
            assert(rows_view(ret@).push(cur@) =~= split_lines(prev, br).update(
                split_lines(prev, br).len() - 1,
                split_lines(prev, br).last().push(ch),
            ));
        }
        k += 1;
    }
    assert(all.take(arr_1d@.len() as int) =~= all);
    ret.push(cur);
    assert(rows_view(ret@) =~= char_lines(all));
    while ret.len() > 0 && ret[ret.len() - 1].len() == 0
        invariant
            trim_empty_tail(rows_view(ret@)) == char_sheet(all),
        decreases ret@.len(),
    {
        let ghost before = rows_view(ret@);
        ret.pop();
        assert(rows_view(ret@) =~= before.drop_last());
    }
    ret
}

/// A cell on the screen: its foreground and background sequences, then its character.
pub open spec fn cell_text(c: FmtChar) -> Seq<char> {
    fg_escape(c.fg) + bg_escape(c.bg) + seq![c.ch]
}

/// The cells of a row, one after another.
pub open spec fn row_text(row: Seq<FmtChar>) -> Seq<char>
    decreases row.len(),
{
    if row.len() == 0 {
        Seq::empty()
    } else {
        row_text(row.drop_last()) + cell_text(row.last())
    }
}

/// The rows of an image, each ended by `\r\n`.
pub open spec fn screen_text(rows: Seq<Seq<FmtChar>>) -> Seq<char>
    decreases rows.len(),
{
    if rows.len() == 0 {
        Seq::empty()
    } else {
        screen_text(rows.drop_last()) + row_text(rows.last()) + seq!['\r', '\n']
    }
}

/// The text that draws an image on the terminal: every cell with its colours,
/// every row ended by `\r\n`.
pub fn construct_buffer(data: &Vec<Vec<FmtChar>>) -> (buffer: String)
    ensures
        buffer@ == screen_text(rows_view(data@)),
{
    let mut buffer = String::new();
    let mut i: usize = 0;
    while i < data.len()
        invariant
            i <= data@.len(),
            buffer@ == screen_text(rows_view(data@).take(i as int)),
        decreases data@.len() - i,
    {
        let e = &data[i];
        let ghost before = buffer@;
        let mut j: usize = 0;
        while j < e.len()
            invariant
                j <= e@.len(),
                buffer@ == before + row_text(e@.take(j as int)),
            decreases e@.len() - j,
        {
            let ch = e[j];
            let fg = fg_sequence(ch.fg.r, ch.fg.g, ch.fg.b);
            buffer.append(fg.as_str());
            let bg = bg_sequence(ch.bg.r, ch.bg.g, ch.bg.b);
            buffer.append(bg.as_str());
            buffer.push(ch.ch);
            assert(e@.take(j + 1).drop_last() =~= e@.take(j as int));
            j += 1;
            assert(buffer@ =~= before + row_text(e@.take(j as int)));
        }
        buffer.append("\r\n");
        proof {
            reveal_strlit("\r\n");
        }
        assert(e@.take(e@.len() as int) =~= e@);
        assert(rows_view(data@).take(i + 1).drop_last() =~= rows_view(data@).take(i as int));
        i += 1;
        assert(buffer@ =~= screen_text(rows_view(data@).take(i as int)));
    }
    assert(rows_view(data@).take(data@.len() as int) =~= rows_view(data@));
    buffer
}

/// `s` with every `\r\n` replaced by `\n`, matching from the left.
pub open spec fn crlf_to_lf(s: Seq<char>) -> Seq<char>
    decreases s.len(),
{
    if s.len() == 0 {
        Seq::empty()
    } else if s.len() >= 2 && s[0] == '\r' && s[1] == '\n' {
        seq!['\n'] + crlf_to_lf(s.skip(2))
    } else {
        seq![s[0]] + crlf_to_lf(s.skip(1))
    }
}

/// The text that saving the screen text writes: its line ends turned to `\n`
/// (what `replace("\r\n", "\n")` does).
pub fn unix_newlines(text: &String) -> (r: String)
    ensures
        r@ == crlf_to_lf(text@),
{
    let cs = string_chars(text);
    let ghost s = text@;
    let mut r = String::new();
    let mut i: usize = 0;
    assert(s.skip(0) =~= s);
    assert(r@ + crlf_to_lf(s) =~= crlf_to_lf(s));
    while i < cs.len()
        invariant
            cs@ == s,
            i <= s.len(),
            r@ + crlf_to_lf(s.skip(i as int)) == crlf_to_lf(s),
        decreases s.len() - i,
    {
        let ghost rest = s.skip(i as int);
        let ghost before = r@;
        if i + 1 < cs.len() && cs[i] == '\r' && cs[i + 1] == '\n' {
            assert(rest.skip(2) =~= s.skip(i + 2));
            r.push('\n');
            i += 2;
        } else {
            assert(rest.skip(1) =~= s.skip(i + 1));
            r.push(cs[i]);
            i += 1;
        }
        assert(r@ + crlf_to_lf(s.skip(i as int)) =~= before + crlf_to_lf(rest));
    }
    assert(s.skip(s.len() as int) =~= Seq::<char>::empty());
    assert(r@ =~= r@ + crlf_to_lf(s.skip(i as int)));
    r
}

/// No piece of a split holds a break.
pub proof fn lemma_split_lines_unbroken<T>(s: Seq<T>, is_break: spec_fn(T) -> bool)
    ensures
        forall|i: int, j: int|
            0 <= i < split_lines(s, is_break).len() && 0 <= j < split_lines(s, is_break)[i].len()
                ==> !is_break(#[trigger] split_lines(s, is_break)[i][j]),
    decreases s.len(),
{
    if s.len() > 0 {
        lemma_split_lines_unbroken(s.drop_last(), is_break);
        lemma_split_lines_nonempty(s.drop_last(), is_break);
        let rows = split_lines(s.drop_last(), is_break);
        let out = split_lines(s, is_break);
        assert forall|i: int, j: int| 0 <= i < out.len() && 0 <= j < out[i].len() implies !is_break(
            #[trigger] out[i][j],
        ) by {
            if !is_break(s.last()) && i == rows.len() - 1 && j == rows[i].len() {
                assert(out[i][j] == s.last());
            } else if i < rows.len() {
                assert(out[i][j] == rows[i][j]);
            }
        }
    }
}

/// The rows of a picture hold no newline cells.
pub proof fn lemma_picture_rows_unbroken(s: Seq<char>)
    requires
        decoded(s) is Some,
    ensures
        forall|i: int, j: int| 0 <= i < picture(s).len() && 0 <= j < picture(s)[i].len()
            ==> (#[trigger] picture(s)[i][j]).ch != '\n',
{
    let rows = cell_lines(decoded(s).unwrap());
    lemma_split_lines_unbroken(decoded(s).unwrap(), cell_break());
    assert forall|i: int, j: int| 0 <= i < picture(s).len() && 0 <= j < picture(s)[i].len()
        implies (#[trigger] picture(s)[i][j]).ch != '\n' by {
        assert(picture(s)[i] == rows[i]);
        assert(!(cell_break())(rows[i][j]));
    }
}

/// `trim_empty_tail` leaves no empty row at the end and only drops rows.
pub proof fn lemma_trim_empty_tail<T>(rows: Seq<Seq<T>>)
    ensures
        trim_empty_tail(rows).len() == 0 || trim_empty_tail(rows).last().len() > 0,
        trim_empty_tail(rows).len() <= rows.len(),
        trim_empty_tail(rows) == rows.take(trim_empty_tail(rows).len() as int),
    decreases rows.len(),
{
    if rows.len() > 0 && rows.last().len() == 0 {
        lemma_trim_empty_tail(rows.drop_last());
        let t = trim_empty_tail(rows.drop_last());
        assert(rows.drop_last().take(t.len() as int) =~= rows.take(t.len() as int));
    } else {
        assert(rows.take(rows.len() as int) =~= rows);
    }
}

/// A character sheet's rows are the text's lines, in order, up to the last
/// line that is not empty; none holds a newline.
pub proof fn lemma_char_sheet_lines(s: Seq<char>)
    ensures
        char_sheet(s).len() == 0 || char_sheet(s).last().len() > 0,
        char_sheet(s).len() <= char_lines(s).len(),
        char_sheet(s) == char_lines(s).take(char_sheet(s).len() as int),
        forall|i: int, j: int| 0 <= i < char_sheet(s).len() && 0 <= j < char_sheet(s)[i].len()
            ==> #[trigger] char_sheet(s)[i][j] != '\n',
{
    lemma_trim_empty_tail(char_lines(s));
    lemma_split_lines_unbroken(s, line_break());
    let lines = char_lines(s);
    assert forall|i: int, j: int| 0 <= i < char_sheet(s).len() && 0 <= j < char_sheet(s)[i].len()
        implies #[trigger] char_sheet(s)[i][j] != '\n' by {
        assert(char_sheet(s)[i] == lines[i]);
        assert(!(line_break())(lines[i][j]));
    }
}

/// The first index at or after `from` that holds `ch`, or the length if none does.
fn find_char(data: &Vec<char>, ch: char, from: usize) -> (r: usize)
    requires
        from <= data@.len(),
    ensures
        r == find_from(data@, ch, from as nat),
{
    let mut pos = from;
    while pos < data.len() && data[pos] != ch
        invariant
            from <= pos <= data@.len(),
            find_from(data@, ch, pos as nat) == find_from(data@, ch, from as nat),
        decreases data@.len() - pos,
    {
        pos += 1;
    }
    pos
}

/// The escape command at `pos`, or `None` where `escape_at` finds none.
fn check_escape(data: &Vec<char>, pos: usize) -> (r: Option<(usize, Escape)>)
    requires
        pos < data@.len(),
    ensures
        match r {
            Some((n, e)) => escape_at(data@, pos as nat) == Some((n as nat, e)),
            None => escape_at(data@, pos as nat) is None,
        },
{
    let len = data.len();
    if len < 4 || pos > len - 4 {
        return None;
    }
    let j = pos + 2;
    if data[j] == '0' && data[j + 1] == 'm' {
        return Some((j + 2, Escape::Reset));
    }
    let ghost s = data@;
    proof {
        lemma_find_from(s, ';', (s.len() + 1) as nat);
        lemma_find_from(s, 'm', (s.len() + 1) as nat);
        lemma_find_from(s, ';', j as nat);
    }
    let p1 = find_char(data, ';', j);
    if p1 >= len {
        return None;
    }
    proof {
        lemma_find_from(s, ';', (p1 + 1) as nat);
    }
    let p2 = find_char(data, ';', p1 + 1);
    if p2 >= len {
        return None;
    }
    proof {
        lemma_find_from(s, ';', (p2 + 1) as nat);
    }
    let p3 = find_char(data, ';', p2 + 1);
    if p3 >= len {
        return None;
    }
    proof {
        lemma_find_from(s, ';', (p3 + 1) as nat);
    }
    let p4 = find_char(data, ';', p3 + 1);
    if p4 >= len {
        return None;
    }
    proof {
        lemma_find_from(s, 'm', (p4 + 1) as nat);
    }
    let p5 = find_char(data, 'm', p4 + 1);
    if p5 >= len {
        return None;
    }
    let first_num = copy_range(data, j, p1);
    let rv = copy_range(data, p2 + 1, p3);
    let gv = copy_range(data, p3 + 1, p4);
    let bv = copy_range(data, p4 + 1, p5);
    let r = match parse_u8(&rv) {
        Some(v) => v,
        None => return None,
    };
    let g = match parse_u8(&gv) {
        Some(v) => v,
        None => return None,
    };
    let b = match parse_u8(&bv) {
        Some(v) => v,
        None => return None,
    };
    let e = if first_num.len() == 2 && first_num[0] == '3' && first_num[1] == '8' {
        assert(first_num@ =~= seq!['3', '8']);
        Escape::Foreground(RGB::new(r, g, b))
    } else if first_num.len() == 2 && first_num[0] == '4' && first_num[1] == '8' {
        assert(first_num@ =~= seq!['4', '8']);
        Escape::Background(RGB::new(r, g, b))
    } else {
        assert(first_num@ != seq!['3', '8']);
        assert(first_num@ != seq!['4', '8']);
        Escape::Ignored
    };
    Some((p5 + 1, e))
}

/// Whether a text is a picture that `make_data` reads: every escape command in
/// it is complete and its channels are bytes.
pub fn is_picture(data: &Vec<char>) -> (b: bool)
    ensures
        b == (decoded(data@) is Some),
{
    let mut pos: usize = 0;
    let mut bg = RGB::new(0, 0, 0);
    let mut fg = RGB::new(255, 255, 255);
    while pos < data.len()
        invariant
            pos <= data@.len(),
            (decoded(data@) is Some) == (decode(data@, pos as nat, fg, bg) is Some),
        decreases data@.len() - pos,
    {
        if data[pos] == '\u{1b}' {
            proof {
                lemma_escape_at_bounds(data@, pos as nat);
            }
            match check_escape(data, pos) {
                None => return false,
                Some((npos, e)) => {
                    let colours = apply(e, fg, bg);
                    fg = colours.0;
                    bg = colours.1;
                    pos = npos;
                },
            }
        } else {
            pos += 1;
        }
    }
    true
}

/// Lines put back together with a newline between each two.
pub open spec fn join_lines(rows: Seq<Seq<char>>) -> Seq<char>
    decreases rows.len(),
{
    if rows.len() == 0 {
        Seq::empty()
    } else if rows.len() == 1 {
        rows[0]
    } else {
        join_lines(rows.drop_last()) + seq!['\n'] + rows.last()
    }
}

proof fn lemma_join_split(s: Seq<char>)
    ensures
        join_lines(char_lines(s)) == s,
    decreases s.len(),
{
    if s.len() == 0 {
        assert(char_lines(s) =~= seq![Seq::<char>::empty()]);
        assert(s =~= Seq::<char>::empty());
    } else {
        let prev = s.drop_last();
        lemma_join_split(prev);
        lemma_split_lines_nonempty(prev, line_break());
        let rows = char_lines(prev);
        if s.last() == '\n' {
            assert(char_lines(s) == rows.push(Seq::empty()));
            assert(rows.push(Seq::<char>::empty()).drop_last() =~= rows);
            assert(join_lines(char_lines(s)) =~= s);
        } else {
            let out = rows.update(rows.len() - 1, rows.last().push(s.last()));
            assert(char_lines(s) == out);
            assert(s =~= prev.push(s.last()));
            if rows.len() == 1 {
                assert(join_lines(rows) == rows[0]);
                assert(out[0] == rows[0].push(s.last()));
                assert(join_lines(out) == out[0]);
                assert(join_lines(out) =~= s);
            } else {
                assert(out.drop_last() =~= rows.drop_last());
                assert(join_lines(out) =~= s);
            }
        }
    }
}

proof fn lemma_join_trim(rows: Seq<Seq<char>>)
    ensures
        join_lines(trim_empty_tail(rows)).len() <= join_lines(rows).len(),
        join_lines(rows).take(join_lines(trim_empty_tail(rows)).len() as int) == join_lines(trim_empty_tail(rows)),
        forall|k: int| join_lines(trim_empty_tail(rows)).len() <= k < join_lines(rows).len()
            ==> #[trigger] join_lines(rows)[k] == '\n',
    decreases rows.len(),
{
    let j = join_lines(rows);
    if rows.len() > 0 && rows.last().len() == 0 {
        lemma_join_trim(rows.drop_last());
        let jt = join_lines(trim_empty_tail(rows));
        let jp = join_lines(rows.drop_last());
        if rows.len() == 1 {
            assert(rows.drop_last() =~= Seq::<Seq<char>>::empty());
            assert(j =~= Seq::<char>::empty());
        } else {
            assert(j =~= jp + seq!['\n']);
            assert(j.take(jt.len() as int) =~= jp.take(jt.len() as int));
            assert forall|k: int| jt.len() <= k < j.len() implies #[trigger] j[k] == '\n' by {
                if k < jp.len() {
                    assert(j[k] == jp[k]);
                }
            }
        }
    } else {
        assert(j.take(j.len() as int) =~= j);
    }
}

/// A text is its character sheet's rows joined by newlines, followed by
/// nothing but newlines.
pub proof fn lemma_char_sheet_join(s: Seq<char>)
    ensures
        join_lines(char_sheet(s)).len() <= s.len(),
        s.take(join_lines(char_sheet(s)).len() as int) == join_lines(char_sheet(s)),
        forall|k: int| join_lines(char_sheet(s)).len() <= k < s.len() ==> #[trigger] s[k] == '\n',
{
    lemma_join_split(s);
    lemma_join_trim(char_lines(s));
}

} // verus!
