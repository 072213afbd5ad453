use vstd::prelude::*;

verus! {

pub open spec fn is_digit(c: char) -> bool {
    '0' <= c && c <= '9'
}

pub open spec fn digit_value(c: char) -> nat {
    (c as int - 48) as nat
}

/// The decimal digit for `d < 10`.
pub open spec fn digit_char(d: u8) -> char {
    (d + 48) as char
}

pub open spec fn all_digits(s: Seq<char>) -> bool {
    forall|i: int| 0 <= i < s.len() ==> is_digit(#[trigger] s[i])
}

/// The number that a string of decimal digits spells.
pub open spec fn decimal_value(s: Seq<char>) -> nat
    decreases s.len(),
{
    if s.len() == 0 {
        0
    } else {
        decimal_value(s.drop_last()) * 10 + digit_value(s.last())
    }
}

/// The digits of a number written for an unsigned type: one leading `+` is allowed.
pub open spec fn unsigned_digits(s: Seq<char>) -> Seq<char> {
    if s.len() > 0 && s[0] == '+' {
        s.skip(1)
    } else {
        s
    }
}

/// What parsing `s` as a `u8` gives: one or more digits after an optional `+`,
/// spelling at most 255.
pub open spec fn parsed_u8(s: Seq<char>) -> Option<u8> {
    let d = unsigned_digits(s);
    if d.len() > 0 && all_digits(d) && decimal_value(d) <= 255 {
        Some(decimal_value(d) as u8)
    } else {
        None
    }
}

/// The decimal text of a byte, without leading zeros.
pub open spec fn decimal_text(v: u8) -> Seq<char> {
    if v < 10 {
        seq![digit_char(v)]
    } else if v < 100 {
        seq![digit_char(v / 10), digit_char(v % 10)]
    } else {
        seq![digit_char(v / 100), digit_char((v / 10) % 10), digit_char(v % 10)]
    }
}

proof fn lemma_digit_char(d: u8)
    requires
        d < 10,
    ensures
        is_digit(digit_char(d)),
        digit_value(digit_char(d)) == d,
        digit_char(d) != '+',
{
    assert((d + 48) as char as int == d + 48);
}

/// A string of digits spells at least what any of its prefixes spells.
pub proof fn lemma_decimal_value_prefix(s: Seq<char>, k: int)
    requires
        0 <= k <= s.len(),
    ensures
        decimal_value(s.take(k)) <= decimal_value(s),
    decreases s.len() - k,
{
    if k < s.len() {
        lemma_decimal_value_prefix(s, k + 1);
        assert(s.take(k + 1).drop_last() =~= s.take(k));
    } else {
        assert(s.take(k) =~= s);
    }
}

/// Parsing the decimal text of a byte gives the byte back.
pub proof fn lemma_parse_decimal_text(v: u8)
    ensures
        parsed_u8(decimal_text(v)) == Some(v),
        all_digits(decimal_text(v)),
{
    let t = decimal_text(v);
    if v < 10 {
        lemma_digit_char(v);
        assert(t.drop_last() =~= Seq::<char>::empty());
        assert(decimal_value(Seq::<char>::empty()) == 0);
        assert(t.last() == digit_char(v));
        assert(decimal_value(t) == v);
    } else if v < 100 {
        lemma_digit_char(v / 10);
        lemma_digit_char(v % 10);
        let one = seq![digit_char(v / 10)];
        assert(t.drop_last() =~= one);
        assert(one.drop_last() =~= Seq::<char>::empty());
        assert(decimal_value(Seq::<char>::empty()) == 0);
        assert(one.last() == one[0]);
        assert(decimal_value(one) == v / 10);
        assert(decimal_value(t) == v);
    } else {
        lemma_digit_char(v / 100);
        lemma_digit_char((v / 10) % 10);
        lemma_digit_char(v % 10);
        assert(t.drop_last() =~= seq![digit_char(v / 100), digit_char((v / 10) % 10)]);
        let one = seq![digit_char(v / 100)];
        assert(t.drop_last().drop_last() =~= one);
        assert(one.drop_last() =~= Seq::<char>::empty());
        assert(decimal_value(Seq::<char>::empty()) == 0);
        assert(one.last() == one[0]);
        assert(decimal_value(one) == v / 100);
        assert(decimal_value(t.drop_last()) == (v / 100) * 10 + (v / 10) % 10);
        assert(decimal_value(t) == v);
    }
    assert(unsigned_digits(t) == t);
}

/// Parses a byte written in decimal, as `str::parse::<u8>` does.
pub fn parse_u8(s: &Vec<char>) -> (r: Option<u8>)
    ensures
        r == parsed_u8(s@),
{
    let len = s.len();
    let start: usize = if len > 0 && s[0] == '+' { 1 } else { 0 };
    let ghost d = unsigned_digits(s@);
    assert(d =~= s@.subrange(start as int, len as int));
    if start == len {
        return None;
    }
    let mut acc: u32 = 0;
    let mut i: usize = start;
    while i < len
        invariant
            start <= i <= len,
            len == s@.len(),
            d == s@.subrange(start as int, len as int),
            d == unsigned_digits(s@),
            acc <= 255,
            acc == decimal_value(d.take(i - start)),
            all_digits(d.take(i - start)),
        decreases len - i,
    {
        let c = s[i];
        if !('0' <= c && c <= '9') {
            assert(d[i - start] == c);
            assert(!is_digit(d[i - start]));
            assert(!all_digits(d));
            return None;
        }
        let dv = (c as u32) - 48;
        assert(d.take(i - start + 1).drop_last() =~= d.take(i - start));
        assert(digit_value(c) == dv);
        acc = acc * 10 + dv;
        i = i + 1;
        assert(acc == decimal_value(d.take(i - start)));
        assert(all_digits(d.take(i - start))) by {
            assert forall|k: int| 0 <= k < i - start implies is_digit(#[trigger] d.take(i - start)[k]) by {
                if k < i - start - 1 {
                    assert(d.take(i - start)[k] == d.take(i - start - 1)[k]);
                }
            }
        }
        if acc > 255 {
            proof {
                lemma_decimal_value_prefix(d, i - start);
            }
            return None;
        }
    }
    assert(d.take(len - start) =~= d);
    Some(acc as u8)
}

/// One leading `+` changes nothing, as long as digits or anything else but
/// another `+` follow.
pub proof fn lemma_parse_plus(s: Seq<char>)
    requires
        s.len() > 0,
        s[0] != '+',
    ensures
        parsed_u8(seq!['+'] + s) == parsed_u8(s),
{
    assert((seq!['+'] + s).skip(1) =~= s);
}

proof fn lemma_decimal_value_leading_zero(d: Seq<char>)
    ensures
        decimal_value(seq!['0'] + d) == decimal_value(d),
    decreases d.len(),
{
    if d.len() == 0 {
        let z = seq!['0'];
        assert(z.drop_last() =~= Seq::<char>::empty());
        assert(z.last() == '0');
        assert('0' as int == 48);
        assert(decimal_value(Seq::<char>::empty()) == 0);
        assert(decimal_value(z) == 0);
        assert(seq!['0'] + d =~= z);
        assert(decimal_value(d) == 0);
    } else {
        lemma_decimal_value_leading_zero(d.drop_last());
        assert((seq!['0'] + d).drop_last() =~= seq!['0'] + d.drop_last());
        assert((seq!['0'] + d).last() == d.last());
        assert(decimal_value(seq!['0'] + d) == decimal_value((seq!['0'] + d).drop_last()) * 10
            + digit_value(d.last()));
    }
}

/// A leading zero does not change the number.
pub proof fn lemma_parse_leading_zero(d: Seq<char>)
    requires
        d.len() > 0,
        all_digits(d),
    ensures
        parsed_u8(seq!['0'] + d) == parsed_u8(d),
{
    lemma_decimal_value_leading_zero(d);
    assert('0' as int == 48);
    let z = seq!['0'] + d;
    assert(z[0] == '0');
    assert(all_digits(z)) by {
        assert forall|i: int| 0 <= i < z.len() implies is_digit(#[trigger] z[i]) by {
            if i > 0 {
                assert(z[i] == d[i - 1]);
            }
        }
    }
    assert(unsigned_digits(z) == z);
    assert(unsigned_digits(d) == d);
}

/// Any character other than a digit, except one leading `+`, makes the text no byte.
pub proof fn lemma_parse_rejects_non_digit(s: Seq<char>, k: int)
    requires
        0 <= k < s.len(),
        !is_digit(s[k]),
        !(k == 0 && s[0] == '+'),
    ensures
        parsed_u8(s) is None,
{
    let d = unsigned_digits(s);
    if s.len() > 0 && s[0] == '+' {
        assert(d[k - 1] == s[k]);
    } else {
        assert(d[k] == s[k]);
    }
}

/// Appending a digit multiplies the number by ten and adds the digit, as long
/// as the result still fits in a byte.
pub proof fn lemma_parse_append_digit(d: Seq<char>, c: char, v: u8)
    requires
        d.len() > 0,
        d[0] != '+',
        parsed_u8(d) == Some(v),
        is_digit(c),
        v * 10 + (c as int - 48) <= 255,
    ensures
        parsed_u8(d.push(c)) == Some((v * 10 + (c as int - 48)) as u8),
{
    let e = d.push(c);
    assert(e[0] == d[0]);
    assert(unsigned_digits(d) == d);
    assert(unsigned_digits(e) == e);
    assert(e.drop_last() =~= d);
    assert(all_digits(e)) by {
        assert forall|i: int| 0 <= i < e.len() implies is_digit(#[trigger] e[i]) by {
            if i < d.len() {
                assert(e[i] == d[i]);
            }
        }
    }
}

/// Every byte has exactly one decimal text without leading zeros, and parsing
/// gives the byte back: different bytes have different texts.
pub proof fn lemma_decimal_text_unique(a: u8, b: u8)
    ensures
        decimal_text(a) == decimal_text(b) ==> a == b,
{
    lemma_parse_decimal_text(a);
    lemma_parse_decimal_text(b);
}

} // verus!
