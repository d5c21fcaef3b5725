//! What holds of the text primitives on all texts.

use crate::text;
use vstd::prelude::*;
use vstd::utf8::*;

verus! {

/// Trimming cuts off whitespace at both ends, all of it, and nothing else.
pub proof fn law_trim_cuts_whitespace_only(s: Seq<char>)
    ensures
        exists|i: int, j: int|
            0 <= i <= j <= s.len() && text::trim(s) == #[trigger] s.subrange(i, j) && (forall|k: int|
                0 <= k < i ==> text::is_space(#[trigger] s[k])) && (forall|k: int|
                j <= k < s.len() ==> text::is_space(#[trigger] s[k])) && (i < j
                ==> !text::is_space(s[i]) && !text::is_space(s[j - 1])),
{
    let a = text::trim_start(s);
    let b = text::trim_end(a);
    text::lemma_trim_start_range(s);
    text::lemma_trim_end_range(a);
    let i = s.len() - a.len();
    let j = i + b.len();
    assert(b == s.subrange(i, j));
    assert forall|k: int| 0 <= k < i implies text::is_space(#[trigger] s[k]) by {
        assert(s.take(i)[k] == s[k]);
    }
    assert forall|k: int| j <= k < s.len() implies text::is_space(#[trigger] s[k]) by {
        assert(a.skip(b.len() as int)[k - j] == s[k]);
    }
    if i < j {
        assert(a[0] == s[i]);
        assert(b.last() == s[j - 1]);
    }
}

/// Trimming the start or the end alone cuts off the whitespace there and nothing else.
pub proof fn law_half_trims_cut_whitespace_only(s: Seq<char>)
    ensures
        exists|i: int|
            0 <= i <= s.len() && text::trim_start(s) == #[trigger] s.skip(i) && (forall|k: int|
                0 <= k < i ==> text::is_space(#[trigger] s[k])) && (i < s.len()
                ==> !text::is_space(s[i])),
        exists|j: int|
            0 <= j <= s.len() && text::trim_end(s) == #[trigger] s.take(j) && (forall|k: int|
                j <= k < s.len() ==> text::is_space(#[trigger] s[k])) && (j > 0
                ==> !text::is_space(s[j - 1])),
{
    text::lemma_trim_start_range(s);
    text::lemma_trim_end_range(s);
    let i = s.len() - text::trim_start(s).len();
    let j = text::trim_end(s).len() as int;
    assert(text::trim_start(s) == s.skip(i));
    assert forall|k: int| 0 <= k < i implies text::is_space(#[trigger] s[k]) by {
        assert(s.take(i)[k] == s[k]);
    }
    if i < s.len() {
        assert(s.skip(i)[0] == s[i]);
    }
    assert(text::trim_end(s) == s.take(j));
    assert forall|k: int| j <= k < s.len() implies text::is_space(#[trigger] s[k]) by {
        assert(s.skip(j)[k - j] == s[k]);
    }
    if j > 0 {
        assert(s.take(j).last() == s[j - 1]);
    }
}

/// Text is blank exactly if nothing is left of it after trimming, which is the case exactly if
/// each of its characters is whitespace.
pub proof fn law_blank_text_has_no_other_characters(s: Seq<char>)
    ensures
        text::is_blank(s) <==> forall|i: int| 0 <= i < s.len() ==> text::is_space(#[trigger] s[i]),
        text::is_blank(s) <==> text::trim(s) == Seq::<char>::empty(),
{
    text::lemma_trim_blank(s);
    if text::trim(s).len() == 0 {
        assert(text::trim(s) == Seq::<char>::empty());
    }
}

/// Cutting a character off the end takes all its copies there and nothing else.
pub proof fn law_end_matches_are_cut(s: Seq<char>, c: char)
    ensures
        ({
            let r = text::trim_end_matches(s, c);
            &&& r.len() <= s.len()
            &&& r == s.take(r.len() as int)
            &&& forall|k: int| r.len() <= k < s.len() ==> #[trigger] s[k] == c
            &&& r.len() > 0 ==> r.last() != c
        }),
    decreases s.len(),
{
    if s.len() > 0 && s.last() == c {
        let d = s.drop_last();
        law_end_matches_are_cut(d, c);
        let r = text::trim_end_matches(s, c);
        assert(d.take(r.len() as int) == s.take(r.len() as int));
        assert forall|k: int| r.len() <= k < s.len() implies #[trigger] s[k] == c by {
            if k < d.len() {
                assert(d[k] == s[k]);
            }
        }
    } else {
        assert(s.take(s.len() as int) == s);
    }
}

/// A line that ends in a line feed is the first of the lines, the others being those of the
/// rest; a carriage return before the line feed does not belong to it. Text without a line feed
/// is one line, and no text is no line.
pub proof fn law_lines_end_at_line_feeds(line: Seq<char>, rest: Seq<char>)
    requires
        forall|i: int| 0 <= i < line.len() ==> #[trigger] line[i] != '\n',
    ensures
        line.len() > 0 ==> text::lines(line) == seq![line],
        text::lines(Seq::<char>::empty()) == Seq::<Seq<char>>::empty(),
        (line.len() == 0 || line.last() != '\r') ==> text::lines(line + seq!['\n'] + rest) == seq![
            line,
        ] + text::lines(rest),
        text::lines(line + seq!['\r', '\n'] + rest) == seq![line] + text::lines(rest),
{
    text::lemma_first_newline_at(line, line.len() as int);
    let s = line + seq!['\n'] + rest;
    let k = line.len() as int;
    assert forall|i: int| 0 <= i < k implies #[trigger] s[i] != '\n' by {
        assert(s[i] == line[i]);
    }
    text::lemma_first_newline_at(s, k);
    assert(s.take(k) == line);
    assert(s.skip(k + 1) == rest);
    let t = line + seq!['\r', '\n'] + rest;
    assert forall|i: int| 0 <= i < k + 1 implies #[trigger] t[i] != '\n' by {
        if i < k {
            assert(t[i] == line[i]);
        }
    }
    text::lemma_first_newline_at(t, k + 1);
    assert(t.take(k + 1) == line.push('\r'));
    assert(line.push('\r').drop_last() == line);
    assert(t.skip(k + 2) == rest);
}

/// Joining puts the separator between the parts: one part stands alone, and two lists are joined
/// each for itself with the separator between them.
pub proof fn law_join_puts_separators_between(
    a: Seq<Seq<char>>,
    b: Seq<Seq<char>>,
    x: Seq<char>,
    sep: Seq<char>,
)
    ensures
        text::join(seq![x], sep) == x,
        text::join(Seq::<Seq<char>>::empty(), sep) == Seq::<char>::empty(),
        a.len() > 0 && b.len() > 0 ==> text::join(a + b, sep) == text::join(a, sep) + sep
            + text::join(b, sep),
    decreases b.len(),
{
    if a.len() > 0 && b.len() > 0 {
        assert((a + b).drop_last() == a + b.drop_last());
        assert((a + b).last() == b.last());
        if b.len() == 1 {
            assert(a + b.drop_last() == a);
            assert(text::join(a + b, sep) == text::join(a, sep) + sep + b.last());
        } else {
            law_join_puts_separators_between(a, b.drop_last(), x, sep);
            assert(text::join(a + b, sep) == text::join(a, sep) + sep + text::join(
                b.drop_last(),
                sep,
            ) + sep + b.last());
            assert(text::join(a + b, sep) == text::join(a, sep) + sep + (text::join(
                b.drop_last(),
                sep,
            ) + sep + b.last()));
        }
    }
}

/// A pattern occurs exactly in the texts that can be written as something, the pattern, and
/// something.
pub proof fn law_occurrence_splits_the_text(s: Seq<char>, a: Seq<char>, p: Seq<char>, b: Seq<char>)
    ensures
        text::occurs(a + p + b, p),
        text::occurs(s, p) <==> exists|x: Seq<char>, y: Seq<char>| s == #[trigger] (x + p + y),
{
    let t = a + p + b;
    assert(t.subrange(a.len() as int, (a.len() + p.len()) as int) == p);
    if text::occurs(s, p) {
        let i = choose|i: int|
            0 <= i <= s.len() - p.len() && #[trigger] s.subrange(i, i + p.len()) == p;
        let x = s.take(i);
        let y = s.skip(i + p.len());
        assert(s =~= x + p + y) by {
            assert forall|k: int| 0 <= k < s.len() implies s[k] == (x + p + y)[k] by {
                if i <= k < i + p.len() {
                    assert(s.subrange(i, i + p.len())[k - i] == s[k]);
                }
            }
        }
    }
    if exists|x: Seq<char>, y: Seq<char>| s == #[trigger] (x + p + y) {
        let (x, y) = choose|x: Seq<char>, y: Seq<char>| s == #[trigger] (x + p + y);
        assert(s.subrange(x.len() as int, (x.len() + p.len()) as int) == p);
    }
}

/// Decimal notation consists of digits, denotes the number, and has no needless zero in front.
pub proof fn law_decimal_denotes_the_number(n: nat)
    ensures
        text::decimal(n).len() > 0,
        forall|i: int|
            0 <= i < text::decimal(n).len() ==> '0' <= #[trigger] text::decimal(n)[i] <= '9',
        text::decimal_value(text::decimal(n)) == n,
        text::decimal(n).len() > 1 ==> text::decimal(n)[0] != '0',
    decreases n,
{
    text::lemma_decimal_value(n);
    if n >= 10 {
        law_decimal_denotes_the_number(n / 10);
        text::lemma_decimal_value(n / 10);
        assert(text::decimal(n)[0] == text::decimal(n / 10)[0]);
        if text::decimal(n / 10).len() == 1 {
            let d = text::decimal(n / 10);
            assert(d.drop_last() == Seq::<char>::empty());
            assert(text::decimal_value(d.drop_last()) == 0);
            assert(text::decimal_value(d) == text::digit_value(d[0]));
        }
    }
}

/// Padding puts copies of the character in front until the width is reached, and changes nothing
/// else.
pub proof fn law_padding_fills_the_front(s: Seq<char>, width: nat, c: char)
    ensures
        ({
            let r = text::pad_front(s, width, c);
            &&& r.len() == if s.len() < width {
                width
            } else {
                s.len()
            }
            &&& r.skip(r.len() - s.len()) == s
            &&& forall|i: int| 0 <= i < r.len() - s.len() ==> #[trigger] r[i] == c
        }),
{
    let r = text::pad_front(s, width, c);
    assert(r.skip(r.len() - s.len()) == s);
}

/// The value of a hexadecimal digit in lower case.
pub open spec fn hex_value(c: char) -> int {
    if '0' <= c <= '9' {
        c as int - 48
    } else {
        c as int - 87
    }
}

/// Hexadecimal notation has two digits for each byte, the higher one first, in lower case.
pub proof fn law_hex_denotes_the_bytes(bytes: Seq<u8>, i: int)
    requires
        0 <= i < bytes.len(),
    ensures
        ({
            let h = text::hex(bytes);
            &&& h.len() == 2 * bytes.len()
            &&& '0' <= h[2 * i] <= '9' || 'a' <= h[2 * i] <= 'f'
            &&& '0' <= h[2 * i + 1] <= '9' || 'a' <= h[2 * i + 1] <= 'f'
            &&& 16 * hex_value(h[2 * i]) + hex_value(h[2 * i + 1]) == bytes[i]
        }),
{
    let b = bytes[i];
    let h = text::hex(bytes);
    assert(h[2 * i] == text::digit_char((b / 16) as nat));
    assert(h[2 * i + 1] == text::digit_char((b % 16) as nat));
}

/// The text between the ends of two prefixes is what stands there.
pub proof fn law_slices_are_cut_at_byte_offsets(x: Seq<char>, y: Seq<char>, z: Seq<char>)
    ensures
        ({
            let a = encode_utf8(x).len() as int;
            let b = a + encode_utf8(y).len();
            text::boundary(x + y + z, a) && text::boundary(x + y + z, b) && text::byte_slice(
                x + y + z,
                a,
                b,
            ) == y
        }),
{
    let s = x + y + z;
    let a = encode_utf8(x).len() as int;
    let b = a + encode_utf8(y).len();
    text::lemma_encode_add(x + y, z);
    text::lemma_encode_add(x, y);
    text::lemma_encode_add(x, y + z);
    assert(x + (y + z) == s);
    lemma_prefix_boundary(x, y + z);
    lemma_prefix_boundary(x + y, z);
    assert(encode_utf8(s).subrange(a, b) == encode_utf8(y));
    encode_utf8_decode_utf8(y);
}

/// A prefix ends at a boundary.
proof fn lemma_prefix_boundary(x: Seq<char>, y: Seq<char>)
    ensures
        text::boundary(x + y, encode_utf8(x).len() as int),
    decreases x.len(),
{
    encode_utf8_valid_utf8(x + y);
    if x.len() == 0 {
        is_char_boundary_start_end_of_seq(encode_utf8(x + y));
    } else {
        let r = x.drop_first();
        lemma_prefix_boundary(r, y);
        assert((x + y).drop_first() == r + y);
        assert((x + y)[0] == x[0]);
        let c = seq![x[0]];
        assert(c + r == x);
        assert(c + (r + y) == x + y);
        text::lemma_encode_add(c, r);
        text::lemma_encode_add(c, r + y);
        encode_utf8_valid_utf8(r + y);
        encode_utf8_valid_utf8(c);
        lemma_boundary_behind_scalar(x[0], r + y, encode_utf8(r).len() as int);
    }
}

/// A boundary of the rest is a boundary behind the first character.
proof fn lemma_boundary_behind_scalar(c: char, rest: Seq<char>, i: int)
    requires
        text::boundary(rest, i),
    ensures
        text::boundary(seq![c] + rest, encode_utf8(seq![c]).len() + i),
{
    let s = seq![c] + rest;
    encode_utf8_valid_utf8(s);
    encode_utf8_valid_utf8(rest);
    text::lemma_encode_add(seq![c], rest);
    text::lemma_boundary_range(encode_utf8(rest), i);
    assert(s.drop_first() == rest);
    assert(s[0] == c);
    assert(seq![c].drop_first() == Seq::<char>::empty());
    assert(encode_utf8(Seq::<char>::empty()) == Seq::<u8>::empty());
    assert(encode_utf8(seq![c]) == encode_scalar(c as u32));
    encode_utf8_first_scalar(s);
    assert(pop_first_scalar(encode_utf8(s)) == encode_utf8(rest));
}

/// Lines are counted from 1 and go up by one behind each line feed.
pub proof fn law_line_feeds_are_counted(s: Seq<char>, byte: int)
    requires
        0 <= byte < encode_utf8(s).len(),
    ensures
        text::line_at(s, 0) == 1,
        text::line_at(s, byte + 1) == text::line_at(s, byte) + if encode_utf8(s)[byte] == 10 {
            1int
        } else {
            0int
        },
{
    let b = encode_utf8(s);
    assert(b.take(0) == Seq::<u8>::empty());
    assert(b.take(byte + 1).drop_last() == b.take(byte));
}

} // verus!
