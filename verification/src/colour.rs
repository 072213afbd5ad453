use vstd::prelude::*;

verus! {

/// A 24-bit colour. A colour marked `default` is one that painting leaves alone.
#[derive(Clone, Copy, Debug, PartialEq, Eq, Structural)]
pub struct RGB {
    pub r: u8,
    pub g: u8,
    pub b: u8,
    pub default: bool,
}

/// The colour with the given channels, not marked as default.
pub open spec fn rgb(r: u8, g: u8, b: u8) -> RGB {
    RGB { r, g, b, default: false }
}

/// The colour that `0xRRGGBB` names; bits above the lowest 24 are ignored.
pub open spec fn html_colour(n: u32) -> RGB {
    rgb(((n / 0x10000) % 0x100) as u8, ((n / 0x100) % 0x100) as u8, (n % 0x100) as u8)
}

/// Text drawn on `c` is black when `c` is light (channel sum above 384), else white.
pub open spec fn inverted(c: RGB) -> RGB {
    if c.r + c.g + c.b > 384 {
        rgb(0, 0, 0)
    } else {
        rgb(255, 255, 255)
    }
}

/// The upper-case hexadecimal digit of `d < 16`.
pub open spec fn hex_digit(d: u8) -> char {
    if d < 10 {
        (d + 48) as char
    } else {
        (d + 55) as char
    }
}

/// Two upper-case hexadecimal digits of a byte.
pub open spec fn hex2(v: u8) -> Seq<char> {
    seq![hex_digit(v / 16), hex_digit(v % 16)]
}

/// `#RRGGBB`, or `default` for a colour marked as default.
pub open spec fn html_text(c: RGB) -> Seq<char> {
    if c.default {
        "default"@
    } else {
        seq!['#'] + hex2(c.r) + hex2(c.g) + hex2(c.b)
    }
}

/// `String::push` appends the one character to the end of the string, as std
/// documents it; the contract states just that.
pub assume_specification[ String::push ](s: &mut String, ch: char)
    ensures
        final(s)@ == old(s)@.push(ch),
;

fn hex_char(d: u8) -> (c: char)
    requires
        d < 16,
    ensures
        c == hex_digit(d),
{
    if d < 10 {
        (48u8 + d) as char
    } else {
        (55u8 + d) as char
    }
}

impl RGB {
    pub fn new(r: u8, g: u8, b: u8) -> (c: RGB)
        ensures
            c == rgb(r, g, b),
    {
        RGB { r: r, g: g, b: b, default: false }
    }

    pub fn from_html(n: u32) -> (c: RGB)
        ensures
            c == html_colour(n),
    {
        let r: u8 = ((n >> 16) & 0xFF) as u8;
        let g: u8 = ((n >> 8) & 0xFF) as u8;
        let b: u8 = ((n >> 0) & 0xFF) as u8;
        assert(((n >> 16) & 0xFF) == (n / 0x10000) % 0x100) by (bit_vector);
        assert(((n >> 8) & 0xFF) == (n / 0x100) % 0x100) by (bit_vector);
        assert(((n >> 0) & 0xFF) == n % 0x100) by (bit_vector);
        RGB { r: r, g: g, b: b, default: false }
    }

    pub fn get_inverted(&self) -> (c: RGB)
        ensures
            c == inverted(*self),
    {
        let txt_col: RGB;
        if self.r as u16 + self.g as u16 + self.b as u16 > 384 {
            txt_col = RGB::new(0, 0, 0);
        } else {
            txt_col = RGB::new(255, 255, 255);
        }
        txt_col
    }

    pub fn to_html_string(&self) -> (s: String)
        ensures
            s@ == html_text(*self),
    {
        if self.default {
            return String::from_str("default");
        }
        let mut s = String::new();
        s.push('#');
        s.push(hex_char(self.r / 16));
        s.push(hex_char(self.r % 16));
        s.push(hex_char(self.g / 16));
        s.push(hex_char(self.g % 16));
        s.push(hex_char(self.b / 16));
        s.push(hex_char(self.b % 16));
        assert(s@ =~= seq!['#'] + hex2(self.r) + hex2(self.g) + hex2(self.b));
        s
    }
}

/// The value of an upper-case hexadecimal digit, or 16 for any other character.
pub open spec fn hex_value(ch: char) -> int {
    if '0' <= ch && ch <= '9' {
        ch as int - 48
    } else if 'A' <= ch && ch <= 'F' {
        ch as int - 55
    } else {
        16
    }
}

/// Text drawn on a colour is white when the channels sum to at most 384 and
/// black when they sum to more; it is never marked default.
pub proof fn lemma_inverted_contrast(c: RGB)
    ensures
        c.r as int + c.g as int + c.b as int <= 384 ==> inverted(c) == (RGB { r: 255, g: 255, b: 255, default: false }),
        c.r as int + c.g as int + c.b as int > 384 ==> inverted(c) == (RGB { r: 0, g: 0, b: 0, default: false }),
{
}

/// The channels of `from_html(n)` spell the low 24 bits of `n`, red highest.
pub proof fn lemma_html_colour_channels(n: u32)
    ensures
        html_colour(n).r as int * 0x10000 + html_colour(n).g as int * 0x100 + html_colour(n).b as int
            == n as int % 0x1000000,
        !html_colour(n).default,
{
    assert(((n / 0x10000) % 0x100) * 0x10000 + ((n / 0x100) % 0x100) * 0x100 + n % 0x100 == n % 0x1000000)
        by (nonlinear_arith);
}

proof fn lemma_hex_digit_value(d: u8)
    requires
        d < 16,
    ensures
        hex_value(hex_digit(d)) == d,
{
    if d < 10 {
        assert((d + 48) as char as int == d + 48);
    } else {
        assert((d + 55) as char as int == d + 55);
    }
}

/// The text of a colour not marked default is `#` and six upper-case hex
/// digits, two for each channel, red first; a colour marked default reads
/// `default`.
pub proof fn lemma_html_text_digits(c: RGB)
    ensures
        c.default ==> html_text(c) == "default"@,
        !c.default ==> {
            let t = html_text(c);
            &&& t.len() == 7
            &&& t[0] == '#'
            &&& forall|k: int| 1 <= k < 7 ==> 0 <= #[trigger] hex_value(t[k]) < 16
            &&& hex_value(t[1]) * 16 + hex_value(t[2]) == c.r
            &&& hex_value(t[3]) * 16 + hex_value(t[4]) == c.g
            &&& hex_value(t[5]) * 16 + hex_value(t[6]) == c.b
        },
{
    if !c.default {
        let t = html_text(c);
        lemma_hex_digit_value(c.r / 16);
        lemma_hex_digit_value(c.r % 16);
        lemma_hex_digit_value(c.g / 16);
        lemma_hex_digit_value(c.g % 16);
        lemma_hex_digit_value(c.b / 16);
        lemma_hex_digit_value(c.b % 16);
        assert(t =~= seq!['#', hex_digit(c.r / 16), hex_digit(c.r % 16), hex_digit(c.g / 16),
            hex_digit(c.g % 16), hex_digit(c.b / 16), hex_digit(c.b % 16)]);
    }
}

} // verus!
