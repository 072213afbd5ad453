use vstd::prelude::*;
use crate::colour::{RGB, rgb};
use crate::decimal::{decimal_text, is_digit, lemma_parse_decimal_text};
use crate::escape::{truecolour_escape, fg_escape, bg_escape};
use crate::image::{
    Escape, FmtChar, escape_at, find_from, decode, decoded, picture, cell_lines, cell_break,
    split_lines, cell_text, row_text, lemma_split_lines_nonempty, crlf_to_lf, screen_text,
};
use crate::decimal::all_digits;

verus! {

proof fn lemma_find_at(s: Seq<char>, c: char, a: nat, b: nat)
    requires
        a <= b < s.len(),
        s[b as int] == c,
        forall|k: int| a <= k < b ==> s[k] != c,
    ensures
        find_from(s, c, a) == b,
    decreases b - a,
{
    if a < b {
        lemma_find_at(s, c, a + 1, b);
    }
}

/// Where the parts of a true-colour sequence written at `p` stand.
proof fn lemma_escape_layout(t: Seq<char>, p: int, lead: char, r: u8, g: u8, b: u8)
    requires
        0 <= p,
        p + truecolour_escape(lead, r, g, b).len() <= t.len(),
        t.subrange(p, p + truecolour_escape(lead, r, g, b).len() as int)
            == truecolour_escape(lead, r, g, b),
    ensures
        ({
            let lr = decimal_text(r).len() as int;
            let lg = decimal_text(g).len() as int;
            let lb = decimal_text(b).len() as int;
            let p3 = p + 7 + lr;
            let p4 = p3 + 1 + lg;
            let p5 = p4 + 1 + lb;
            &&& truecolour_escape(lead, r, g, b).len() == p5 + 1 - p
            &&& t[p] == '\u{1b}'
            &&& t[p + 2] == lead
            &&& t[p + 3] == '8'
            &&& t[p + 4] == ';'
            &&& t[p + 5] == '2'
            &&& t[p + 6] == ';'
            &&& t.subrange(p + 7, p3) == decimal_text(r)
            &&& t[p3] == ';'
            &&& t.subrange(p3 + 1, p4) == decimal_text(g)
            &&& t[p4] == ';'
            &&& t.subrange(p4 + 1, p5) == decimal_text(b)
            &&& t[p5] == 'm'
        }),
{
    let e = truecolour_escape(lead, r, g, b);
    let dr = decimal_text(r);
    let dg = decimal_text(g);
    let db = decimal_text(b);
    let lr = dr.len() as int;
    let lg = dg.len() as int;
    let lb = db.len() as int;
    let h = seq!['\u{1b}', '[', lead, '8', ';', '2', ';'];
    let a1 = h + dr;
    let a2 = a1 + seq![';'];
    let a3 = a2 + dg;
    let a4 = a3 + seq![';'];
    let a5 = a4 + db;
    assert(e == a5 + seq!['m']);
    let p3 = p + 7 + lr;
    let p4 = p3 + 1 + lg;
    let p5 = p4 + 1 + lb;
    assert forall|k: int| 0 <= k < e.len() implies t[p + k] == e[k] by {
        assert(t.subrange(p, p + e.len())[k] == e[k]);
    }
    assert(e[0] == h[0]);
    assert(e[2] == h[2]);
    assert(e[3] == h[3]);
    assert(e[4] == h[4]);
    assert(e[5] == h[5]);
    assert(e[6] == h[6]);
    assert(t.subrange(p + 7, p3) =~= dr) by {
        assert forall|k: int| 0 <= k < lr implies t.subrange(p + 7, p3)[k] == dr[k] by {
            assert(e[7 + k] == a1[7 + k]);
            assert(t[p + 7 + k] == e[7 + k]);
        }
    }
    assert(e[7 + lr] == a2[7 + lr]);
    assert(t.subrange(p3 + 1, p4) =~= dg) by {
        assert forall|k: int| 0 <= k < lg implies t.subrange(p3 + 1, p4)[k] == dg[k] by {
            assert(e[8 + lr + k] == a3[8 + lr + k]);
            assert(t[p + 8 + lr + k] == e[8 + lr + k]);
        }
    }
    assert(e[8 + lr + lg] == a4[8 + lr + lg]);
    assert(t.subrange(p4 + 1, p5) =~= db) by {
        assert forall|k: int| 0 <= k < lb implies t.subrange(p4 + 1, p5)[k] == db[k] by {
            assert(e[9 + lr + lg + k] == a5[9 + lr + lg + k]);
            assert(t[p + 9 + lr + lg + k] == e[9 + lr + lg + k]);
        }
    }
    assert(e[9 + lr + lg + lb] == 'm');
    assert(t[p5] == e[p5 - p]);
}

/// The field up to position `b` holds only digits, so the first `c` from `a` is at `b`.
proof fn lemma_find_after_digits(t: Seq<char>, c: char, a: int, b: int)
    requires
        0 <= a <= b < t.len(),
        t[b] == c,
        c == ';' || c == 'm',
        all_digits(t.subrange(a, b)),
    ensures
        find_from(t, c, a as nat) == b,
{
    assert forall|k: int| a <= k < b implies t[k] != c by {
        assert(t[k] == t.subrange(a, b)[k - a]);
        assert(is_digit(t.subrange(a, b)[k - a]));
    }
    lemma_find_at(t, c, a as nat, b as nat);
}

/// A true-colour sequence written at `p` is read back as the colour it sets.
pub proof fn lemma_escape_reads(t: Seq<char>, p: nat, lead: char, r: u8, g: u8, b: u8)
    requires
        lead == '3' || lead == '4',
        p + truecolour_escape(lead, r, g, b).len() <= t.len(),
        t.subrange(p as int, p + truecolour_escape(lead, r, g, b).len() as int)
            == truecolour_escape(lead, r, g, b),
    ensures
        escape_at(t, p) == Some(
            (
                (p + truecolour_escape(lead, r, g, b).len()) as nat,
                if lead == '3' {
                    Escape::Foreground(rgb(r, g, b))
                } else {
                    Escape::Background(rgb(r, g, b))
                },
            ),
        ),
{
    let pi = p as int;
    lemma_escape_layout(t, pi, lead, r, g, b);
    lemma_parse_decimal_text(r);
    lemma_parse_decimal_text(g);
    lemma_parse_decimal_text(b);
    let lr = decimal_text(r).len() as int;
    let lg = decimal_text(g).len() as int;
    let lb = decimal_text(b).len() as int;
    let p3 = pi + 7 + lr;
    let p4 = p3 + 1 + lg;
    let p5 = p4 + 1 + lb;
    lemma_find_at(t, ';', (pi + 2) as nat, (pi + 4) as nat);
    lemma_find_at(t, ';', (pi + 5) as nat, (pi + 6) as nat);
    lemma_find_after_digits(t, ';', pi + 7, p3);
    lemma_find_after_digits(t, ';', p3 + 1, p4);
    lemma_find_after_digits(t, 'm', p4 + 1, p5);
    assert(t.subrange(pi + 2, pi + 4) =~= seq![lead, '8']);
}

/// A cell that a picture text can hold: no newline, no ESC, and real colours.
pub open spec fn plain_cell(c: FmtChar) -> bool {
    c.ch != '\n' && c.ch != '\u{1b}' && !c.fg.default && !c.bg.default
}

/// Every cell of the image is plain.
pub open spec fn plain_image(rows: Seq<Seq<FmtChar>>) -> bool {
    forall|i: int, j: int| 0 <= i < rows.len() && 0 <= j < rows[i].len() ==> plain_cell(#[trigger] rows[i][j])
}

/// The rows of an image, each ended by `\n`: what a saved picture file holds.
pub open spec fn file_text(rows: Seq<Seq<FmtChar>>) -> Seq<char>
    decreases rows.len(),
{
    if rows.len() == 0 {
        Seq::empty()
    } else {
        file_text(rows.drop_last()) + row_text(rows.last()) + seq!['\n']
    }
}

pub open spec fn prepend_cells(cs: Seq<FmtChar>, o: Option<Seq<FmtChar>>) -> Option<Seq<FmtChar>> {
    match o {
        Some(t) => Some(cs + t),
        None => None,
    }
}

/// The colours in force after a row has been read, starting from `fg` and `bg`.
pub open spec fn end_colours(r: Seq<FmtChar>, fg: RGB, bg: RGB) -> (RGB, RGB) {
    if r.len() == 0 {
        (fg, bg)
    } else {
        (r.last().fg, r.last().bg)
    }
}

/// A cell written at `p` is read back as itself.
proof fn lemma_cell_reads(t: Seq<char>, p: nat, c: FmtChar, fg: RGB, bg: RGB)
    requires
        plain_cell(c),
        p + cell_text(c).len() <= t.len(),
        t.subrange(p as int, p + cell_text(c).len() as int) == cell_text(c),
    ensures
        decode(t, p, fg, bg) == prepend_cells(
            seq![c],
            decode(t, (p + cell_text(c).len()) as nat, c.fg, c.bg),
        ),
{
    let ef = fg_escape(c.fg);
    let eb = bg_escape(c.bg);
    let pi = p as int;
    let q1 = pi + ef.len();
    let q2 = q1 + eb.len();
    assert(cell_text(c) == ef + eb + seq![c.ch]);
    assert(t.subrange(pi, q1) =~= ef) by {
        assert forall|k: int| 0 <= k < ef.len() implies t.subrange(pi, q1)[k] == ef[k] by {
            assert(t.subrange(pi, q2 + 1)[k] == cell_text(c)[k]);
        }
    }
    assert(t.subrange(q1, q2) =~= eb) by {
        assert forall|k: int| 0 <= k < eb.len() implies t.subrange(q1, q2)[k] == eb[k] by {
            assert(t.subrange(pi, q2 + 1)[ef.len() + k] == cell_text(c)[ef.len() + k]);
        }
    }
    assert(t[q2] == c.ch) by {
        assert(t.subrange(pi, q2 + 1)[q2 - pi] == cell_text(c)[q2 - pi]);
    }
    lemma_escape_reads(t, p, '3', c.fg.r, c.fg.g, c.fg.b);
    lemma_escape_reads(t, q1 as nat, '4', c.bg.r, c.bg.g, c.bg.b);
    assert(rgb(c.fg.r, c.fg.g, c.fg.b) == c.fg);
    assert(rgb(c.bg.r, c.bg.g, c.bg.b) == c.bg);
    assert(t[pi] == '\u{1b}') by {
        assert(t.subrange(pi, q1)[0] == ef[0]);
    }
    assert(t[q1] == '\u{1b}') by {
        assert(t.subrange(q1, q2)[0] == eb[0]);
    }
    assert(decode(t, p, fg, bg) == decode(t, q1 as nat, c.fg, bg));
    assert(decode(t, q1 as nat, c.fg, bg) == decode(t, q2 as nat, c.fg, c.bg));
    assert(FmtChar { ch: t[q2], fg: c.fg, bg: c.bg } == c);
}

proof fn lemma_row_text_front(r: Seq<FmtChar>)
    requires
        r.len() > 0,
    ensures
        row_text(r) == cell_text(r[0]) + row_text(r.skip(1)),
    decreases r.len(),
{
    if r.len() == 1 {
        assert(r.drop_last() =~= Seq::<FmtChar>::empty());
        assert(r.skip(1) =~= Seq::<FmtChar>::empty());
        assert(row_text(r) =~= cell_text(r[0]) + row_text(r.skip(1)));
    } else {
        lemma_row_text_front(r.drop_last());
        assert(r.drop_last().skip(1) =~= r.skip(1).drop_last());
        assert(r.skip(1).last() == r.last());
        assert(row_text(r) =~= cell_text(r[0]) + row_text(r.skip(1)));
    }
}

/// A row written at `p` is read back as itself.
proof fn lemma_row_reads(t: Seq<char>, p: nat, r: Seq<FmtChar>, fg: RGB, bg: RGB)
    requires
        forall|j: int| 0 <= j < r.len() ==> plain_cell(#[trigger] r[j]),
        p + row_text(r).len() <= t.len(),
        t.subrange(p as int, p + row_text(r).len() as int) == row_text(r),
    ensures
        decode(t, p, fg, bg) == prepend_cells(
            r,
            decode(
                t,
                (p + row_text(r).len()) as nat,
                end_colours(r, fg, bg).0,
                end_colours(r, fg, bg).1,
            ),
        ),
    decreases r.len(),
{
    let pi = p as int;
    if r.len() == 0 {
        match decode(t, p, fg, bg) {
            Some(x) => {
                assert(r + x =~= x);
            },
            None => {},
        }
    } else {
        lemma_row_text_front(r);
        let c = r[0];
        let rest = r.skip(1);
        let lc = cell_text(c).len() as int;
        let lt = row_text(r).len() as int;
        assert(t.subrange(pi, pi + lc) =~= cell_text(c)) by {
            assert forall|k: int| 0 <= k < lc implies t.subrange(pi, pi + lc)[k] == cell_text(c)[k] by {
                assert(t.subrange(pi, pi + lt)[k] == row_text(r)[k]);
            }
        }
        assert(t.subrange(pi + lc, pi + lt) =~= row_text(rest)) by {
            assert forall|k: int| 0 <= k < lt - lc implies t.subrange(pi + lc, pi + lt)[k]
                == row_text(rest)[k] by {
                assert(t.subrange(pi, pi + lt)[lc + k] == row_text(r)[lc + k]);
            }
        }
        lemma_cell_reads(t, p, c, fg, bg);
        lemma_row_reads(t, (pi + lc) as nat, rest, c.fg, c.bg);
        assert(end_colours(rest, c.fg, c.bg) == end_colours(r, fg, bg)) by {
            if rest.len() > 0 {
                assert(rest.last() == r.last());
            }
        }
        match decode(t, (pi + lt) as nat, end_colours(r, fg, bg).0, end_colours(r, fg, bg).1) {
            Some(x) => {
                assert(seq![c] + (rest + x) =~= r + x);
            },
            None => {},
        }
    }
}

proof fn lemma_file_text_front(rows: Seq<Seq<FmtChar>>)
    requires
        rows.len() > 0,
    ensures
        file_text(rows) == row_text(rows[0]) + seq!['\n'] + file_text(rows.skip(1)),
    decreases rows.len(),
{
    if rows.len() == 1 {
        assert(rows.drop_last() =~= Seq::<Seq<FmtChar>>::empty());
        assert(rows.skip(1) =~= Seq::<Seq<FmtChar>>::empty());
        assert(file_text(rows) =~= row_text(rows[0]) + seq!['\n'] + file_text(rows.skip(1)));
    } else {
        lemma_file_text_front(rows.drop_last());
        assert(rows.drop_last().skip(1) =~= rows.skip(1).drop_last());
        assert(rows.skip(1).last() == rows.last());
        assert(file_text(rows) =~= row_text(rows[0]) + seq!['\n'] + file_text(rows.skip(1)));
    }
}

/// A sequence without breaks is one piece.
proof fn lemma_split_no_break<T>(r: Seq<T>, br: spec_fn(T) -> bool)
    requires
        forall|k: int| 0 <= k < r.len() ==> !br(#[trigger] r[k]),
    ensures
        split_lines(r, br) == seq![r],
    decreases r.len(),
{
    if r.len() == 0 {
        assert(r =~= Seq::<T>::empty());
        assert(split_lines(r, br) =~= seq![r]);
    } else {
        assert forall|k: int| 0 <= k < r.drop_last().len() implies !br(#[trigger] r.drop_last()[k]) by {
            assert(r.drop_last()[k] == r[k]);
        }
        lemma_split_no_break(r.drop_last(), br);
        assert(!br(r[r.len() - 1]));
        assert(r.drop_last().push(r.last()) =~= r);
        let prev = split_lines(r.drop_last(), br);
        assert(prev.update(prev.len() - 1, prev.last().push(r.last())) =~= seq![r]);
        assert(split_lines(r, br) =~= seq![r]);
    }
}

/// A piece without breaks, then a break: that piece comes first.
proof fn lemma_split_after<T>(r: Seq<T>, n: T, y: Seq<T>, br: spec_fn(T) -> bool)
    requires
        forall|k: int| 0 <= k < r.len() ==> !br(#[trigger] r[k]),
        br(n),
    ensures
        split_lines(r + seq![n] + y, br) == seq![r] + split_lines(y, br),
    decreases y.len(),
{
    let s = r + seq![n] + y;
    if y.len() == 0 {
        lemma_split_no_break(r, br);
        assert(s.drop_last() =~= r);
        assert(split_lines(s, br) =~= seq![r] + split_lines(y, br));
    } else {
        lemma_split_after(r, n, y.drop_last(), br);
        assert(s.drop_last() =~= r + seq![n] + y.drop_last());
        lemma_split_lines_nonempty(y.drop_last(), br);
        assert(split_lines(s, br) =~= seq![r] + split_lines(y, br));
    }
}

/// The saved text of an image, read from `p` to its end, stands for the image's
/// rows followed by one empty row.
proof fn lemma_file_reads(t: Seq<char>, p: nat, rows: Seq<Seq<FmtChar>>, fg: RGB, bg: RGB)
    requires
        plain_image(rows),
        p + file_text(rows).len() == t.len(),
        t.subrange(p as int, t.len() as int) == file_text(rows),
    ensures
        decode(t, p, fg, bg) is Some,
        cell_lines(decode(t, p, fg, bg).unwrap()) == rows.push(Seq::empty()),
    decreases rows.len(),
{
    let pi = p as int;
    if rows.len() == 0 {
        assert(split_lines(Seq::<FmtChar>::empty(), cell_break()) =~= rows.push(Seq::empty()));
    } else {
        lemma_file_text_front(rows);
        let r0 = rows[0];
        let rest = rows.skip(1);
        let lr = row_text(r0).len() as int;
        let q = pi + lr;
        let ft = file_text(rows);
        assert forall|j: int| 0 <= j < r0.len() implies plain_cell(#[trigger] r0[j]) by {
            assert(plain_cell(rows[0][j]));
        }
        assert(plain_image(rest)) by {
            assert forall|i: int, j: int| 0 <= i < rest.len() && 0 <= j < rest[i].len()
                implies plain_cell(#[trigger] rest[i][j]) by {
                assert(rest[i] == rows[i + 1]);
                assert(plain_cell(rows[i + 1][j]));
            }
        }
        assert(t.subrange(pi, q) =~= row_text(r0)) by {
            assert forall|k: int| 0 <= k < lr implies t.subrange(pi, q)[k] == row_text(r0)[k] by {
                assert(t.subrange(pi, t.len() as int)[k] == ft[k]);
            }
        }
        assert(t[q] == '\n') by {
            assert(t.subrange(pi, t.len() as int)[lr] == ft[lr]);
        }
        assert(t.subrange(q + 1, t.len() as int) =~= file_text(rest)) by {
            assert forall|k: int| 0 <= k < t.len() - q - 1 implies t.subrange(q + 1, t.len() as int)[k]
                == file_text(rest)[k] by {
                assert(t.subrange(pi, t.len() as int)[lr + 1 + k] == ft[lr + 1 + k]);
            }
        }
        lemma_row_reads(t, p, r0, fg, bg);
        let ec = end_colours(r0, fg, bg);
        lemma_file_reads(t, (q + 1) as nat, rest, ec.0, ec.1);
        let y = decode(t, (q + 1) as nat, ec.0, ec.1).unwrap();
        let nl = FmtChar { ch: '\n', fg: ec.0, bg: ec.1 };
        assert(decode(t, q as nat, ec.0, ec.1) == Some(seq![nl] + y));
        assert(decode(t, p, fg, bg) == Some(r0 + (seq![nl] + y)));
        assert(r0 + (seq![nl] + y) =~= r0 + seq![nl] + y);
        assert forall|k: int| 0 <= k < r0.len() implies !(cell_break())(#[trigger] r0[k]) by {
            assert(plain_cell(r0[k]));
        }
        lemma_split_after(r0, nl, y, cell_break());
        assert(seq![r0] + rest.push(Seq::empty()) =~= rows.push(Seq::empty()));
    }
}

/// Saved text reads back: the file text of a plain image is a well-formed
/// picture, and the picture it describes is the image.
pub proof fn lemma_file_text_reads_back(rows: Seq<Seq<FmtChar>>)
    requires
        plain_image(rows),
    ensures
        decoded(file_text(rows)) is Some,
        picture(file_text(rows)) == rows,
{
    let t = file_text(rows);
    assert(t.subrange(0, t.len() as int) =~= t);
    lemma_file_reads(t, 0, rows, rgb(255, 255, 255), rgb(0, 0, 0));
    assert(rows.push(Seq::empty()).drop_last() =~= rows);
}

pub open spec fn no_newline(s: Seq<char>) -> bool {
    forall|k: int| 0 <= k < s.len() ==> s[k] != '\n'
}

proof fn lemma_no_newline_concat(a: Seq<char>, b: Seq<char>)
    requires
        no_newline(a),
        no_newline(b),
    ensures
        no_newline(a + b),
{
    assert forall|k: int| 0 <= k < (a + b).len() implies (a + b)[k] != '\n' by {
        if k < a.len() {
            assert((a + b)[k] == a[k]);
        } else {
            assert((a + b)[k] == b[k - a.len()]);
        }
    }
}

proof fn lemma_digits_no_newline(d: Seq<char>)
    requires
        all_digits(d),
    ensures
        no_newline(d),
{
    assert forall|k: int| 0 <= k < d.len() implies d[k] != '\n' by {
        assert(is_digit(d[k]));
    }
}

proof fn lemma_escape_no_newline(lead: char, r: u8, g: u8, b: u8)
    requires
        lead != '\n',
    ensures
        no_newline(truecolour_escape(lead, r, g, b)),
{
    lemma_parse_decimal_text(r);
    lemma_parse_decimal_text(g);
    lemma_parse_decimal_text(b);
    lemma_digits_no_newline(decimal_text(r));
    lemma_digits_no_newline(decimal_text(g));
    lemma_digits_no_newline(decimal_text(b));
    let h = seq!['\u{1b}', '[', lead, '8', ';', '2', ';'];
    assert(no_newline(h));
    assert(no_newline(seq![';']));
    assert(no_newline(seq!['m']));
    lemma_no_newline_concat(h, decimal_text(r));
    lemma_no_newline_concat(h + decimal_text(r), seq![';']);
    lemma_no_newline_concat(h + decimal_text(r) + seq![';'], decimal_text(g));
    lemma_no_newline_concat(h + decimal_text(r) + seq![';'] + decimal_text(g), seq![';']);
    lemma_no_newline_concat(
        h + decimal_text(r) + seq![';'] + decimal_text(g) + seq![';'],
        decimal_text(b),
    );
    lemma_no_newline_concat(
        h + decimal_text(r) + seq![';'] + decimal_text(g) + seq![';'] + decimal_text(b),
        seq!['m'],
    );
}

proof fn lemma_row_text_no_newline(r: Seq<FmtChar>)
    requires
        forall|j: int| 0 <= j < r.len() ==> (#[trigger] r[j]).ch != '\n',
    ensures
        no_newline(row_text(r)),
    decreases r.len(),
{
    if r.len() > 0 {
        let c = r.last();
        assert(c == r[r.len() - 1]);
        assert forall|j: int| 0 <= j < r.drop_last().len() implies (#[trigger] r.drop_last()[j]).ch
            != '\n' by {
            assert(r.drop_last()[j] == r[j]);
        }
        lemma_row_text_no_newline(r.drop_last());
        lemma_escape_no_newline('3', c.fg.r, c.fg.g, c.fg.b);
        lemma_escape_no_newline('4', c.bg.r, c.bg.g, c.bg.b);
        assert(no_newline(seq![c.ch]));
        lemma_no_newline_concat(fg_escape(c.fg), bg_escape(c.bg));
        lemma_no_newline_concat(fg_escape(c.fg) + bg_escape(c.bg), seq![c.ch]);
        lemma_no_newline_concat(row_text(r.drop_last()), cell_text(c));
    }
}

/// Replacing line ends splits at any seam that does not cut a `\r\n` in two.
proof fn lemma_crlf_concat(a: Seq<char>, b: Seq<char>)
    requires
        !(a.len() > 0 && b.len() > 0 && a.last() == '\r' && b[0] == '\n'),
    ensures
        crlf_to_lf(a + b) == crlf_to_lf(a) + crlf_to_lf(b),
    decreases a.len(),
{
    let s = a + b;
    if a.len() == 0 {
        assert(s =~= b);
        assert(crlf_to_lf(a) =~= Seq::<char>::empty());
        assert(crlf_to_lf(s) =~= crlf_to_lf(a) + crlf_to_lf(b));
    } else if a.len() >= 2 && a[0] == '\r' && a[1] == '\n' {
        assert(s[0] == a[0] && s[1] == a[1]);
        assert(s.skip(2) =~= a.skip(2) + b);
        lemma_crlf_concat(a.skip(2), b);
        assert(crlf_to_lf(s) =~= crlf_to_lf(a) + crlf_to_lf(b));
    } else if a.len() == 1 {
        assert(s[0] == a[0]);
        assert(s.skip(1) =~= b);
        assert(a.skip(1) =~= Seq::<char>::empty());
        assert(crlf_to_lf(a) =~= seq![a[0]]);
        assert(crlf_to_lf(s) =~= crlf_to_lf(a) + crlf_to_lf(b));
    } else {
        assert(s[0] == a[0] && s[1] == a[1]);
        assert(s.skip(1) =~= a.skip(1) + b);
        lemma_crlf_concat(a.skip(1), b);
        assert(crlf_to_lf(s) =~= crlf_to_lf(a) + crlf_to_lf(b));
    }
}

proof fn lemma_crlf_no_newline(s: Seq<char>)
    requires
        no_newline(s),
    ensures
        crlf_to_lf(s) == s,
    decreases s.len(),
{
    if s.len() > 0 {
        assert(no_newline(s.skip(1))) by {
            assert forall|k: int| 0 <= k < s.skip(1).len() implies s.skip(1)[k] != '\n' by {
                assert(s.skip(1)[k] == s[k + 1]);
            }
        }
        if s.len() >= 2 {
            assert(s[1] != '\n');
        }
        lemma_crlf_no_newline(s.skip(1));
        assert(crlf_to_lf(s) =~= s);
    }
}

/// Turning the screen text's `\r\n` into `\n` gives the file text, as long as
/// no cell holds a newline.
pub proof fn lemma_screen_to_file(rows: Seq<Seq<FmtChar>>)
    requires
        forall|i: int, j: int| 0 <= i < rows.len() && 0 <= j < rows[i].len() ==> (#[trigger] rows[i][j]).ch != '\n',
    ensures
        crlf_to_lf(screen_text(rows)) == file_text(rows),
    decreases rows.len(),
{
    if rows.len() > 0 {
        let prev = rows.drop_last();
        let r = rows.last();
        assert forall|i: int, j: int| 0 <= i < prev.len() && 0 <= j < prev[i].len() implies (#[trigger] prev[i][j]).ch != '\n' by {
            assert(prev[i] == rows[i]);
        }
        lemma_screen_to_file(prev);
        assert forall|j: int| 0 <= j < r.len() implies (#[trigger] r[j]).ch != '\n' by {
            assert(r == rows[rows.len() - 1]);
        }
        lemma_row_text_no_newline(r);
        let a = screen_text(prev);
        let crlf = seq!['\r', '\n'];
        if a.len() > 0 {
            assert(a.last() == '\n');
        }
        lemma_crlf_concat(a, row_text(r));
        lemma_crlf_concat(a + row_text(r), crlf);
        lemma_crlf_no_newline(row_text(r));
        assert(crlf.skip(2) =~= Seq::<char>::empty());
        assert(crlf[0] == '\r' && crlf[1] == '\n' && crlf.len() == 2);
        assert(crlf_to_lf(crlf.skip(2)) =~= Seq::<char>::empty());
        assert(crlf_to_lf(crlf) =~= seq!['\n']);
    }
}

/// Saving an image and reading the saved text back gives the image again:
/// the text is a well-formed picture and describes the same rows.
pub proof fn lemma_save_reads_back(rows: Seq<Seq<FmtChar>>)
    requires
        plain_image(rows),
    ensures
        decoded(crlf_to_lf(screen_text(rows))) is Some,
        picture(crlf_to_lf(screen_text(rows))) == rows,
{
    assert forall|i: int, j: int| 0 <= i < rows.len() && 0 <= j < rows[i].len() implies (#[trigger] rows[i][j]).ch != '\n' by {
        assert(plain_cell(rows[i][j]));
    }
    lemma_screen_to_file(rows);
    lemma_file_text_reads_back(rows);
}

proof fn lemma_find_from_shift(p: Seq<char>, t: Seq<char>, c: char, i: nat)
    ensures
        find_from(p + t, c, p.len() + i) == p.len() + find_from(t, c, i),
    decreases t.len() - i,
{
    let s = p + t;
    if i < t.len() {
        assert(s[p.len() + i as int] == t[i as int]);
        if t[i as int] != c {
            lemma_find_from_shift(p, t, c, i + 1);
        }
    }
}

proof fn lemma_subrange_shift(p: Seq<char>, t: Seq<char>, a: int, b: int)
    requires
        0 <= a <= b <= t.len(),
    ensures
        (p + t).subrange(p.len() + a, p.len() + b) == t.subrange(a, b),
{
    assert((p + t).subrange(p.len() + a, p.len() + b) =~= t.subrange(a, b));
}

#[verifier::rlimit(50)]
#[verifier::spinoff_prover]
proof fn lemma_escape_at_shift(p: Seq<char>, t: Seq<char>, i: nat)
    ensures
        escape_at(p + t, p.len() + i) == match escape_at(t, i) {
            Some((n, e)) => Some(((p.len() + n) as nat, e)),
            None => None,
        },
{
    let s = p + t;
    let q = p.len();
    let j = i + 2;
    if j + 2 <= t.len() {
        assert(s[(q + j) as int] == t[j as int]);
        assert(s[(q + j + 1) as int] == t[(j + 1) as int]);
        if !(t[j as int] == '0' && t[(j + 1) as int] == 'm') {
            let p1 = find_from(t, ';', j);
            lemma_find_from_shift(p, t, ';', j);
            crate::image::lemma_find_from(t, ';', j);
            let p2 = find_from(t, ';', p1 + 1);
            lemma_find_from_shift(p, t, ';', p1 + 1);
            crate::image::lemma_find_from(t, ';', p1 + 1);
            let p3 = find_from(t, ';', p2 + 1);
            lemma_find_from_shift(p, t, ';', p2 + 1);
            crate::image::lemma_find_from(t, ';', p2 + 1);
            let p4 = find_from(t, ';', p3 + 1);
            lemma_find_from_shift(p, t, ';', p3 + 1);
            crate::image::lemma_find_from(t, ';', p3 + 1);
            let p5 = find_from(t, 'm', p4 + 1);
            lemma_find_from_shift(p, t, 'm', p4 + 1);
            crate::image::lemma_find_from(t, 'm', p4 + 1);
            assert(find_from(s, ';', q + j) == q + p1);
            assert(find_from(s, ';', q + p1 + 1) == q + p2);
            assert(find_from(s, ';', q + p2 + 1) == q + p3);
            assert(find_from(s, ';', q + p3 + 1) == q + p4);
            assert(find_from(s, 'm', q + p4 + 1) == q + p5);
            if p5 < t.len() {
                lemma_subrange_shift(p, t, (p2 + 1) as int, p3 as int);
                lemma_subrange_shift(p, t, (p3 + 1) as int, p4 as int);
                lemma_subrange_shift(p, t, (p4 + 1) as int, p5 as int);
                lemma_subrange_shift(p, t, j as int, p1 as int);
            }
        }
    }
}

/// What text stands for does not depend on text before it.
proof fn lemma_decode_shift(p: Seq<char>, t: Seq<char>, i: nat, fg: RGB, bg: RGB)
    ensures
        decode(p + t, p.len() + i, fg, bg) == decode(t, i, fg, bg),
    decreases t.len() - i,
{
    let s = p + t;
    if i < t.len() {
        assert(s[p.len() + i as int] == t[i as int]);
        if t[i as int] != '\u{1b}' {
            lemma_decode_shift(p, t, i + 1, fg, bg);
        } else {
            lemma_escape_at_shift(p, t, i);
            crate::image::lemma_escape_at_bounds(t, i);
            match escape_at(t, i) {
                Some((n, e)) => {
                    lemma_decode_shift(p, t, n, crate::image::apply_escape(e, fg, bg).0,
                        crate::image::apply_escape(e, fg, bg).1);
                },
                None => {},
            }
        }
    }
}

/// A character other than ESC stands for one cell in the colours in force,
/// followed by what the rest stands for.
pub proof fn lemma_decode_plain_char(ch: char, t: Seq<char>, fg: RGB, bg: RGB)
    requires
        ch != '\u{1b}',
    ensures
        decode(seq![ch] + t, 0, fg, bg) == prepend_cells(seq![FmtChar { ch: ch, fg: fg, bg: bg }], decode(t, 0, fg, bg)),
{
    lemma_decode_shift(seq![ch], t, 0, fg, bg);
    assert((seq![ch] + t)[0] == ch);
}

/// `ESC [0m` brings back white on black, whatever the colours before it.
pub proof fn lemma_decode_reset(t: Seq<char>, fg: RGB, bg: RGB)
    ensures
        decode(seq!['\u{1b}', '[', '0', 'm'] + t, 0, fg, bg) == decode(
            t,
            0,
            RGB { r: 255, g: 255, b: 255, default: false },
            RGB { r: 0, g: 0, b: 0, default: false },
        ),
{
    let r = seq!['\u{1b}', '[', '0', 'm'];
    let s = r + t;
    assert(s[0] == '\u{1b}' && s[2] == '0' && s[3] == 'm');
    lemma_decode_shift(r, t, 0, rgb(255, 255, 255), rgb(0, 0, 0));
}

/// A foreground sequence followed by text reads as the text in that foreground;
/// a background sequence likewise sets the background.
pub proof fn lemma_decode_colour_escapes(c: RGB, t: Seq<char>, fg: RGB, bg: RGB)
    requires
        !c.default,
    ensures
        decode(fg_escape(c) + t, 0, fg, bg) == decode(t, 0, c, bg),
        decode(bg_escape(c) + t, 0, fg, bg) == decode(t, 0, fg, c),
{
    let ef = fg_escape(c);
    let eb = bg_escape(c);
    assert((ef + t).subrange(0, ef.len() as int) =~= ef);
    assert((eb + t).subrange(0, eb.len() as int) =~= eb);
    lemma_escape_reads(ef + t, 0, '3', c.r, c.g, c.b);
    lemma_escape_reads(eb + t, 0, '4', c.r, c.g, c.b);
    assert(rgb(c.r, c.g, c.b) == c);
    assert((ef + t)[0] == ef[0]);
    assert((eb + t)[0] == eb[0]);
    lemma_decode_shift(ef, t, 0, c, bg);
    lemma_decode_shift(eb, t, 0, fg, c);
}

/// The screen text is the file text with one more character per row: each row
/// ends in `\r\n` on the screen and in `\n` in the file.
pub proof fn lemma_screen_text_length(rows: Seq<Seq<FmtChar>>)
    ensures
        screen_text(rows).len() == file_text(rows).len() + rows.len(),
        rows.len() > 0 ==> screen_text(rows)[screen_text(rows).len() - 2] == '\r'
            && screen_text(rows)[screen_text(rows).len() - 1] == '\n',
    decreases rows.len(),
{
    if rows.len() > 0 {
        lemma_screen_text_length(rows.drop_last());
    }
}

} // verus!
