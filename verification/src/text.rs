//! Text primitives: whitespace trimming, line splitting, byte-range slicing and number
//! formatting, each against a specification on sequences of characters.

use vstd::prelude::*;
use vstd::utf8::*;

verus! {

/// `String::push` appends one character at the end of the string.
pub assume_specification[ String::push ](s: &mut String, ch: char)
    ensures
        final(s)@ == old(s)@.push(ch),
;

/// The characters of `s`, in order.
pub fn chars_of(s: &str) -> (v: Vec<char>)
    ensures
        v@ == s@,
{
    let mut v: Vec<char> = Vec::new();
    for c in it: s.chars()
        invariant
            it.seq() == s@,
            v@ == s@.take(it.index() as int),
    {
        v.push(c);
    }
    v
}

/// Whether two strings hold the same characters.
pub fn same_text(a: &str, b: &str) -> (r: bool)
    ensures
        r == (a@ == b@),
{
    let x = a.as_bytes();
    let y = b.as_bytes();
    proof {
        encode_utf8_decode_utf8(a@);
        encode_utf8_decode_utf8(b@);
    }
    if x.len() != y.len() {
        return false;
    }
    let mut i: usize = 0;
    while i < x.len()
        invariant
            x@ == encode_utf8(a@),
            y@ == encode_utf8(b@),
            x@.len() == y@.len(),
            i <= x@.len(),
            x@.take(i as int) == y@.take(i as int),
        decreases x@.len() - i,
    {
        if x[i] != y[i] {
            return false;
        }
        i += 1;
        assert(x@.take(i as int) == x@.take(i - 1).push(x@[i - 1]));
        assert(y@.take(i as int) == y@.take(i - 1).push(y@[i - 1]));
    }
    assert(x@.take(i as int) == x@);
    assert(y@.take(i as int) == y@);
    true
}

/// The characters with Unicode's `White_Space` property.
pub open spec fn is_space(c: char) -> bool {
    let n = c as u32;
    ||| 0x09 <= n <= 0x0d
    ||| n == 0x20
    ||| n == 0x85
    ||| n == 0xa0
    ||| n == 0x1680
    ||| 0x2000 <= n <= 0x200a
    ||| n == 0x2028
    ||| n == 0x2029
    ||| n == 0x202f
    ||| n == 0x205f
    ||| n == 0x3000
}

/// Whether `c` is a whitespace character.
pub fn is_whitespace(c: char) -> (r: bool)
    ensures
        r == is_space(c),
{
    let n = c as u32;
    (0x09 <= n && n <= 0x0d) || n == 0x20 || n == 0x85 || n == 0xa0 || n == 0x1680
        || (0x2000 <= n && n <= 0x200a) || n == 0x2028 || n == 0x2029 || n == 0x202f
        || n == 0x205f || n == 0x3000
}

/// Whether every character of `s` is whitespace.
pub open spec fn is_blank(s: Seq<char>) -> bool {
    forall|i: int| 0 <= i < s.len() ==> is_space(#[trigger] s[i])
}

/// `s` without its leading whitespace.
pub open spec fn trim_start(s: Seq<char>) -> Seq<char>
    decreases s.len(),
{
    if s.len() > 0 && is_space(s[0]) {
        trim_start(s.drop_first())
    } else {
        s
    }
}

/// `s` without its trailing whitespace.
pub open spec fn trim_end(s: Seq<char>) -> Seq<char>
    decreases s.len(),
{
    if s.len() > 0 && is_space(s.last()) {
        trim_end(s.drop_last())
    } else {
        s
    }
}

/// `s` without leading and trailing whitespace.
pub open spec fn trim(s: Seq<char>) -> Seq<char> {
    trim_end(trim_start(s))
}

/// `s` without the copies of `c` at its end.
pub open spec fn trim_end_matches(s: Seq<char>, c: char) -> Seq<char>
    decreases s.len(),
{
    if s.len() > 0 && s.last() == c {
        trim_end_matches(s.drop_last(), c)
    } else {
        s
    }
}

/// Trimming leaves nothing exactly of blank text.
pub proof fn lemma_trim_blank(s: Seq<char>)
    ensures
        trim(s).len() == 0 <==> is_blank(s),
{
    lemma_trim_start_range(s);
    lemma_trim_end_range(trim_start(s));
    let k = s.len() - trim_start(s).len();
    if is_blank(s) {
        if trim_start(s).len() > 0 {
            assert(is_space(s[k]));
        }
    }
    if trim(s).len() == 0 {
        assert forall|i: int| 0 <= i < s.len() implies is_space(#[trigger] s[i]) by {
            if i >= k {
                assert(s[i] == trim_start(s).skip(0)[i - k]);
            } else {
                assert(s[i] == s.take(k)[i]);
            }
        }
    }
}

/// `trim_start` removes a blank prefix and stops at the first other character.
pub proof fn lemma_trim_start_range(s: Seq<char>)
    ensures
        trim_start(s).len() <= s.len(),
        trim_start(s) == s.skip(s.len() - trim_start(s).len()),
        is_blank(s.take(s.len() - trim_start(s).len())),
        trim_start(s).len() > 0 ==> !is_space(trim_start(s)[0]),
    decreases s.len(),
{
    if s.len() > 0 && is_space(s[0]) {
        let r = s.drop_first();
        lemma_trim_start_range(r);
        let k = r.len() - trim_start(r).len();
        assert(r.skip(k) == s.skip(k + 1));
        assert forall|i: int| 0 <= i < k + 1 implies is_space(#[trigger] s.take(k + 1)[i]) by {
            if i > 0 {
                assert(r.take(k)[i - 1] == s[i]);
            }
        }
    } else {
        assert(s.skip(0) == s);
    }
}

/// `trim_end` removes a blank suffix and stops at the last other character.
pub proof fn lemma_trim_end_range(s: Seq<char>)
    ensures
        trim_end(s).len() <= s.len(),
        trim_end(s) == s.take(trim_end(s).len() as int),
        is_blank(s.skip(trim_end(s).len() as int)),
        trim_end(s).len() > 0 ==> !is_space(trim_end(s).last()),
    decreases s.len(),
{
    if s.len() > 0 && is_space(s.last()) {
        let r = s.drop_last();
        lemma_trim_end_range(r);
        let k = trim_end(r).len() as int;
        assert(r.take(k) == s.take(k));
        assert forall|i: int| 0 <= i < s.len() - k implies is_space(#[trigger] s.skip(k)[i]) by {
            if i < s.len() - k - 1 {
                assert(r.skip(k)[i] == s[i + k]);
            }
        }
    } else {
        assert(s.take(s.len() as int) == s);
    }
}

/// Text that neither begins nor ends with whitespace is its own trimming.
pub proof fn lemma_trim_trimmed(s: Seq<char>)
    requires
        s.len() > 0 ==> !is_space(s[0]) && !is_space(s.last()),
    ensures
        trim(s) == s,
{
}

/// Position of the first non-blank character in `cs` from `lo` on, or `hi`.
fn skip_blank(cs: &Vec<char>, lo: usize, hi: usize) -> (k: usize)
    requires
        lo <= hi <= cs@.len(),
    ensures
        lo <= k <= hi,
        trim_start(cs@.subrange(lo as int, hi as int)) == cs@.subrange(k as int, hi as int),
{
    let mut k: usize = lo;
    while k < hi && is_whitespace(cs[k])
        invariant
            lo <= k <= hi <= cs@.len(),
            trim_start(cs@.subrange(lo as int, hi as int)) == trim_start(
                cs@.subrange(k as int, hi as int),
            ),
        decreases hi - k,
    {
        assert(cs@.subrange(k as int, hi as int).drop_first() == cs@.subrange(k + 1, hi as int));
        k += 1;
    }
    k
}

/// End of the text of `cs` between `lo` and `hi` once trailing blanks are left out.
fn drop_blank(cs: &Vec<char>, lo: usize, hi: usize) -> (k: usize)
    requires
        lo <= hi <= cs@.len(),
    ensures
        lo <= k <= hi,
        trim_end(cs@.subrange(lo as int, hi as int)) == cs@.subrange(lo as int, k as int),
{
    let mut k: usize = hi;
    while k > lo && is_whitespace(cs[k - 1])
        invariant
            lo <= k <= hi <= cs@.len(),
            trim_end(cs@.subrange(lo as int, hi as int)) == trim_end(
                cs@.subrange(lo as int, k as int),
            ),
        decreases k - lo,
    {
        assert(cs@.subrange(lo as int, k as int).drop_last() == cs@.subrange(lo as int, k - 1));
        k -= 1;
    }
    k
}

/// `s` without leading and trailing whitespace.
pub fn trimmed(s: &str) -> (r: &str)
    ensures
        r@ == trim(s@),
{
    let cs = chars_of(s);
    assert(s@.subrange(0, s@.len() as int) == s@);
    let lo = skip_blank(&cs, 0, cs.len());
    let hi = drop_blank(&cs, lo, cs.len());
    s.substring_char(lo, hi)
}

/// `s` without its leading whitespace.
pub fn trimmed_start(s: &str) -> (r: &str)
    ensures
        r@ == trim_start(s@),
{
    let cs = chars_of(s);
    assert(s@.subrange(0, s@.len() as int) == s@);
    let lo = skip_blank(&cs, 0, cs.len());
    s.substring_char(lo, cs.len())
}

/// `s` without its trailing whitespace.
pub fn trimmed_end(s: &str) -> (r: &str)
    ensures
        r@ == trim_end(s@),
{
    let cs = chars_of(s);
    assert(s@.subrange(0, s@.len() as int) == s@);
    let hi = drop_blank(&cs, 0, cs.len());
    s.substring_char(0, hi)
}

/// `s` without the copies of `c` at its end.
pub fn trimmed_end_matches(s: &str, c: char) -> (r: &str)
    ensures
        r@ == trim_end_matches(s@, c),
{
    let cs = chars_of(s);
    let mut k: usize = cs.len();
    assert(s@.take(k as int) == s@);
    while k > 0 && cs[k - 1] == c
        invariant
            cs@ == s@,
            k <= cs@.len(),
            trim_end_matches(s@, c) == trim_end_matches(s@.take(k as int), c),
        decreases k,
    {
        assert(s@.take(k as int).drop_last() == s@.take(k - 1));
        k -= 1;
    }
    assert(s@.take(k as int) == s@.subrange(0, k as int));
    s.substring_char(0, k)
}

/// Whether `s` holds nothing but whitespace.
pub fn blank(s: &str) -> (r: bool)
    ensures
        r == is_blank(s@),
{
    let t = trimmed(s);
    proof {
        lemma_trim_blank(s@);
    }
    t.is_empty()
}

/// The line that ends in a line feed, without the carriage return before that line feed.
pub open spec fn strip_cr(s: Seq<char>) -> Seq<char> {
    if s.len() > 0 && s.last() == '\r' {
        s.drop_last()
    } else {
        s
    }
}

/// The lines of `s`: each ends at a line feed, or at a carriage return followed by one,
/// neither of which belongs to the line; the last line may lack its ending.
pub open spec fn lines(s: Seq<char>) -> Seq<Seq<char>>
    decreases s.len(),
{
    if s.len() == 0 {
        Seq::empty()
    } else {
        let k = first_newline(s);
        proof {
            lemma_first_newline(s);
        }
        if k < s.len() {
            seq![strip_cr(s.take(k))] + lines(s.skip(k + 1))
        } else {
            seq![s]
        }
    }
}

/// Position of the first line feed in `s`, or its length.
pub open spec fn first_newline(s: Seq<char>) -> int
    decreases s.len(),
{
    if s.len() == 0 || s[0] == '\n' {
        0
    } else {
        1 + first_newline(s.drop_first())
    }
}

/// `first_newline` is the least position of a line feed.
pub proof fn lemma_first_newline(s: Seq<char>)
    ensures
        0 <= first_newline(s) <= s.len(),
        first_newline(s) < s.len() ==> s[first_newline(s)] == '\n',
        forall|i: int| 0 <= i < first_newline(s) ==> #[trigger] s[i] != '\n',
    decreases s.len(),
{
    if s.len() > 0 && s[0] != '\n' {
        let r = s.drop_first();
        lemma_first_newline(r);
        assert forall|i: int| 0 <= i < first_newline(s) implies #[trigger] s[i] != '\n' by {
            if i > 0 {
                assert(s[i] == r[i - 1]);
            }
        }
    }
}

/// The first line feed stands where the text before it holds none.
pub proof fn lemma_first_newline_at(s: Seq<char>, k: int)
    requires
        0 <= k <= s.len(),
        k < s.len() ==> s[k] == '\n',
        forall|i: int| 0 <= i < k ==> #[trigger] s[i] != '\n',
    ensures
        first_newline(s) == k,
{
    lemma_first_newline(s);
}

/// The characters held by each string of a list.
pub open spec fn views(v: Seq<String>) -> Seq<Seq<char>> {
    v.map_values(|s: String| s@)
}

/// The parts in order, with `sep` between neighbours.
pub open spec fn join(parts: Seq<Seq<char>>, sep: Seq<char>) -> Seq<char>
    decreases parts.len(),
{
    if parts.len() == 0 {
        Seq::empty()
    } else if parts.len() == 1 {
        parts[0]
    } else {
        join(parts.drop_last(), sep) + sep + parts.last()
    }
}

/// The text of `cs` between `lo` and `hi`.
fn string_between(cs: &Vec<char>, lo: usize, hi: usize) -> (r: String)
    requires
        lo <= hi <= cs@.len(),
    ensures
        r@ == cs@.subrange(lo as int, hi as int),
{
    let mut r = String::new();
    let mut i: usize = lo;
    while i < hi
        invariant
            lo <= i <= hi <= cs@.len(),
            r@ == cs@.subrange(lo as int, i as int),
        decreases hi - i,
    {
        r.push(cs[i]);
        i += 1;
    }
    r
}

/// The lines of `s`.
pub fn lines_of(s: &str) -> (r: Vec<String>)
    ensures
        views(r@) == lines(s@),
{
    let cs = chars_of(s);
    let mut r: Vec<String> = Vec::new();
    let mut lo: usize = 0;
    assert(s@.skip(0) == s@);
    assert(views(r@) + lines(s@) == lines(s@));
    while lo < cs.len()
        invariant
            cs@ == s@,
            lo <= cs@.len(),
            views(r@) + lines(s@.skip(lo as int)) == lines(s@),
        decreases cs@.len() - lo,
    {
        let ghost rest = s@.skip(lo as int);
        let mut k: usize = lo;
        while k < cs.len() && cs[k] != '\n'
            invariant
                cs@ == s@,
                lo <= k <= cs@.len(),
                forall|i: int| lo <= i < k ==> cs@[i] != '\n',
            decreases cs@.len() - k,
        {
            k += 1;
        }
        proof {
            lemma_first_newline_at(rest, k - lo);
        }
        let ghost before = r@;
        if k < cs.len() {
            let end: usize = if k > lo && cs[k - 1] == '\r' {
                k - 1
            } else {
                k
            };
            let line = string_between(&cs, lo, end);
            assert(line@ == strip_cr(rest.take(k - lo)));
            r.push(line);
            assert(rest.skip(k - lo + 1) == s@.skip(k + 1));
            assert(views(r@) == views(before).push(line@));
            assert(views(r@) + lines(s@.skip(k + 1)) == views(before) + (seq![line@] + lines(
                s@.skip(k + 1),
            )));
            lo = k + 1;
        } else {
            let line = string_between(&cs, lo, k);
            assert(line@ == rest);
            r.push(line);
            assert(views(r@) == views(before).push(line@));
            assert(s@.skip(k as int) == Seq::<char>::empty());
            assert(views(r@) + lines(s@.skip(k as int)) == views(before) + seq![line@]);
            lo = k;
        }
    }
    assert(s@.skip(lo as int) == Seq::<char>::empty());
    assert(views(r@) + lines(s@.skip(lo as int)) == views(r@));
    r
}

/// The parts from `lo` up to `hi`, with `sep` between neighbours.
pub fn join_between(parts: &Vec<String>, lo: usize, hi: usize, sep: &str) -> (r: String)
    requires
        lo <= hi <= parts@.len(),
    ensures
        r@ == join(views(parts@).subrange(lo as int, hi as int), sep@),
{
    let mut r = String::new();
    let mut i: usize = lo;
    let ghost all = views(parts@);
    while i < hi
        invariant
            lo <= i <= hi <= parts@.len(),
            all == views(parts@),
            r@ == join(all.subrange(lo as int, i as int), sep@),
        decreases hi - i,
    {
        let ghost next = all.subrange(lo as int, i + 1);
        assert(next.drop_last() == all.subrange(lo as int, i as int));
        assert(next.last() == parts@[i as int]@);
        if i > lo {
            r.append(sep);
        } else {
            assert(r@ + parts@[i as int]@ == parts@[i as int]@);
        }
        r.append(parts[i].as_str());
        i += 1;
    }
    r
}

/// Whether `pat` occurs in `s`.
pub open spec fn occurs(s: Seq<char>, pat: Seq<char>) -> bool {
    exists|i: int|
        0 <= i <= s.len() - pat.len() && #[trigger] s.subrange(i, i + pat.len()) == pat
}

/// Whether `pat` stands in `cs` at position `at`.
fn matches_at(cs: &Vec<char>, pat: &Vec<char>, at: usize) -> (r: bool)
    requires
        at + pat@.len() <= cs@.len(),
    ensures
        r == (cs@.subrange(at as int, at + pat@.len()) == pat@),
{
    let total = cs.len();
    let mut i: usize = 0;
    while i < pat.len()
        invariant
            i <= pat@.len(),
            total == cs@.len(),
            at + pat@.len() <= cs@.len(),
            forall|j: int| 0 <= j < i ==> cs@[at + j] == pat@[j],
        decreases pat@.len() - i,
    {
        if cs[at + i] != pat[i] {
            assert(cs@.subrange(at as int, at + pat@.len())[i as int] != pat@[i as int]);
            return false;
        }
        i += 1;
    }
    assert(cs@.subrange(at as int, at + pat@.len()) == pat@);
    true
}

/// Whether `s` begins with `prefix`.
pub fn has_prefix(s: &str, prefix: &str) -> (r: bool)
    ensures
        r == prefix@.is_prefix_of(s@),
{
    let cs = chars_of(s);
    let pat = chars_of(prefix);
    pat.len() <= cs.len() && matches_at(&cs, &pat, 0)
}

/// Whether `pat` occurs in `s`.
pub fn contains(s: &str, pat: &str) -> (r: bool)
    ensures
        r == occurs(s@, pat@),
{
    let cs = chars_of(s);
    let p = chars_of(pat);
    if p.len() > cs.len() {
        return false;
    }
    let last: usize = cs.len() - p.len();
    let mut i: usize = 0;
    while i <= last
        invariant
            cs@ == s@,
            p@ == pat@,
            last == cs@.len() - p@.len(),
            i <= last + 1,
            forall|j: int| 0 <= j < i ==> #[trigger] s@.subrange(j, j + pat@.len()) != pat@,
        decreases last + 1 - i,
    {
        if matches_at(&cs, &p, i) {
            return true;
        }
        if i == last {
            return false;
        }
        i += 1;
    }
    false
}

/// The character of a decimal or hexadecimal digit.
pub open spec fn digit_char(d: nat) -> char {
    if d < 10 {
        (48 + d) as char
    } else {
        (87 + d) as char
    }
}

/// The decimal notation of `n`.
pub open spec fn decimal(n: nat) -> Seq<char>
    decreases n,
{
    if n < 10 {
        seq![digit_char(n)]
    } else {
        decimal(n / 10).push(digit_char(n % 10))
    }
}

/// `s` with copies of `c` in front, up to `width` characters.
pub open spec fn pad_front(s: Seq<char>, width: nat, c: char) -> Seq<char> {
    if s.len() < width {
        Seq::new((width - s.len()) as nat, |i: int| c) + s
    } else {
        s
    }
}

/// The lower-case hexadecimal notation of `bytes`, two digits for each.
pub open spec fn hex(bytes: Seq<u8>) -> Seq<char> {
    Seq::new(
        2 * bytes.len(),
        |i: int|
            if i % 2 == 0 {
                digit_char((bytes[i / 2] / 16) as nat)
            } else {
                digit_char((bytes[i / 2] % 16) as nat)
            },
    )
}

/// The character of a decimal or hexadecimal digit.
fn digit(d: u8) -> (c: char)
    requires
        d < 16,
    ensures
        c == digit_char(d as nat),
{
    if d < 10 {
        (48 + d) as char
    } else {
        (87 + d) as char
    }
}

/// Writes `n` in decimal notation behind `out`.
pub fn push_decimal(out: &mut String, n: usize)
    ensures
        final(out)@ == old(out)@ + decimal(n as nat),
    decreases n,
{
    if n >= 10 {
        push_decimal(out, n / 10);
    }
    out.push(digit((n % 10) as u8));
}

/// The decimal notation of `n`, with zeros in front up to `width` digits.
pub fn padded_decimal(n: usize, width: usize) -> (r: String)
    ensures
        r@ == pad_front(decimal(n as nat), width as nat, '0'),
{
    let mut digits = String::new();
    push_decimal(&mut digits, n);
    assert(digits@ == decimal(n as nat));
    let len = digits.as_str().unicode_len();
    let mut r = String::new();
    let mut i: usize = len;
    while i < width
        invariant
            digits@.len() == len,
            len <= i,
            i <= width || i == len,
            r@ == Seq::new((i - len) as nat, |k: int| '0'),
        decreases width - i,
    {
        r.push('0');
        i += 1;
    }
    r.append(digits.as_str());
    r
}

/// The lower-case hexadecimal notation of `bytes`.
pub fn hex_of(bytes: &Vec<u8>) -> (r: String)
    ensures
        r@ == hex(bytes@),
{
    let mut r = String::new();
    let mut i: usize = 0;
    while i < bytes.len()
        invariant
            i <= bytes@.len(),
            r@ == hex(bytes@.take(i as int)),
        decreases bytes@.len() - i,
    {
        let b = bytes[i];
        r.push(digit(b / 16));
        r.push(digit(b % 16));
        i += 1;
        let ghost now = hex(bytes@.take(i as int));
        assert(r@ == now);
    }
    assert(bytes@.take(i as int) == bytes@);
    r
}

/// Whether `i` is a byte offset of `s` at which a character begins, or the end of `s`.
pub open spec fn boundary(s: Seq<char>, i: int) -> bool {
    is_char_boundary(encode_utf8(s), i)
}

/// The characters of `s` between two byte offsets.
pub open spec fn byte_slice(s: Seq<char>, a: int, b: int) -> Seq<char> {
    decode_utf8(encode_utf8(s).subrange(a, b))
}

/// A character boundary lies within the bytes.
pub proof fn lemma_boundary_range(bytes: Seq<u8>, i: int)
    requires
        valid_utf8(bytes),
        is_char_boundary(bytes, i),
    ensures
        0 <= i <= bytes.len(),
{
}

/// Cutting off a prefix at a boundary keeps the later boundaries.
proof fn lemma_boundary_skip(bytes: Seq<u8>, a: int, b: int)
    requires
        valid_utf8(bytes),
        is_char_boundary(bytes, a),
        is_char_boundary(bytes, b),
        a <= b,
    ensures
        is_char_boundary(bytes.subrange(a, bytes.len() as int), b - a),
    decreases bytes.len(),
{
    if a == 0 {
        assert(bytes.subrange(0, bytes.len() as int) == bytes);
    } else {
        let n = length_of_first_scalar(bytes);
        let rest = pop_first_scalar(bytes);
        lemma_boundary_range(rest, a - n);
        lemma_boundary_skip(rest, a - n, b - n);
        assert(rest.subrange(a - n, rest.len() as int) == bytes.subrange(a, bytes.len() as int));
    }
}

/// The bytes between two boundaries are the encoding of the characters between them.
pub proof fn lemma_byte_slice(s: Seq<char>, a: int, b: int)
    requires
        boundary(s, a),
        boundary(s, b),
        a <= b,
    ensures
        0 <= a,
        b <= encode_utf8(s).len(),
        valid_utf8(encode_utf8(s).subrange(a, b)),
        encode_utf8(byte_slice(s, a, b)) == encode_utf8(s).subrange(a, b),
{
    let bytes = encode_utf8(s);
    encode_utf8_valid_utf8(s);
    lemma_boundary_range(bytes, a);
    lemma_boundary_range(bytes, b);
    let tail = bytes.subrange(a, bytes.len() as int);
    valid_utf8_split(bytes, a);
    lemma_boundary_skip(bytes, a, b);
    valid_utf8_split(tail, b - a);
    assert(tail.subrange(0, b - a) == bytes.subrange(a, b));
    decode_utf8_encode_utf8(bytes.subrange(a, b));
}

/// Slices that meet at a boundary join to the slice over both.
pub proof fn lemma_byte_slice_join(s: Seq<char>, a: int, b: int, c: int)
    requires
        boundary(s, a),
        boundary(s, b),
        boundary(s, c),
        a <= b <= c,
    ensures
        byte_slice(s, a, c) == byte_slice(s, a, b) + byte_slice(s, b, c),
{
    let bytes = encode_utf8(s);
    encode_utf8_valid_utf8(s);
    lemma_byte_slice(s, a, c);
    lemma_byte_slice(s, a, b);
    let tail = bytes.subrange(a, bytes.len() as int);
    valid_utf8_split(bytes, a);
    lemma_boundary_skip(bytes, a, b);
    lemma_boundary_skip(bytes, a, c);
    lemma_boundary_take(tail, b - a, c - a);
    let mid = tail.subrange(0, c - a);
    assert(mid == bytes.subrange(a, c));
    decode_utf8_split(mid, b - a);
    assert(mid.subrange(0, b - a) == bytes.subrange(a, b));
    assert(mid.subrange(b - a, mid.len() as int) == bytes.subrange(b, c));
}

/// Cutting off a suffix at a boundary keeps the earlier boundaries.
proof fn lemma_boundary_take(bytes: Seq<u8>, a: int, b: int)
    requires
        valid_utf8(bytes),
        is_char_boundary(bytes, a),
        is_char_boundary(bytes, b),
        a <= b,
    ensures
        is_char_boundary(bytes.subrange(0, b), a),
    decreases bytes.len(),
{
    valid_utf8_split(bytes, b);
    if a != 0 {
        let n = length_of_first_scalar(bytes);
        let rest = pop_first_scalar(bytes);
        lemma_boundary_range(rest, a - n);
        lemma_boundary_range(rest, b - n);
        lemma_boundary_take(rest, a - n, b - n);
        assert(pop_first_scalar(bytes.subrange(0, b)) == rest.subrange(0, b - n));
    }
}

/// The slice over all of `s` is `s`; its ends are boundaries.
pub proof fn lemma_byte_slice_all(s: Seq<char>)
    ensures
        boundary(s, 0),
        boundary(s, encode_utf8(s).len() as int),
        byte_slice(s, 0, encode_utf8(s).len() as int) == s,
        encode_utf8(s).len() == 0 <==> s.len() == 0,
{
    let bytes = encode_utf8(s);
    encode_utf8_valid_utf8(s);
    is_char_boundary_start_end_of_seq(bytes);
    assert(bytes.subrange(0, bytes.len() as int) == bytes);
    encode_utf8_decode_utf8(s);
}

/// An empty range holds no characters.
pub proof fn lemma_byte_slice_empty(s: Seq<char>, a: int)
    requires
        boundary(s, a),
    ensures
        byte_slice(s, a, a) == Seq::<char>::empty(),
{
    encode_utf8_valid_utf8(s);
    lemma_boundary_range(encode_utf8(s), a);
    assert(encode_utf8(s).subrange(a, a) == Seq::<u8>::empty());
}

/// Whether the text between two byte offsets can be taken, if they ascend.
pub open spec fn cuttable(s: Seq<char>, a: int, b: int) -> bool {
    a < b ==> boundary(s, a) && boundary(s, b)
}

/// Number of line feeds in a byte sequence.
pub open spec fn newlines(bytes: Seq<u8>) -> nat
    decreases bytes.len(),
{
    if bytes.len() == 0 {
        0
    } else {
        newlines(bytes.drop_last()) + if bytes.last() == 10 {
            1nat
        } else {
            0nat
        }
    }
}

/// The 1-based line of a byte offset.
pub open spec fn line_at(s: Seq<char>, byte: int) -> int {
    newlines(encode_utf8(s).take(byte)) as int + 1
}

/// The number of line feeds before each byte offset of `s`, its end included.
pub fn newline_counts(s: &str) -> (r: Vec<usize>)
    ensures
        r@.len() == encode_utf8(s@).len() + 1,
        forall|i: int|
            0 <= i < r@.len() ==> #[trigger] r@[i] + 1 == line_at(s@, i) && r@[i] <= i,
{
    let bytes = s.as_bytes();
    let ghost b = encode_utf8(s@);
    let mut r: Vec<usize> = Vec::new();
    let mut count: usize = 0;
    let mut i: usize = 0;
    r.push(0);
    assert(b.take(0) == Seq::<u8>::empty());
    while i < bytes.len()
        invariant
            bytes@ == b,
            b == encode_utf8(s@),
            i <= b.len(),
            count <= i,
            count == newlines(b.take(i as int)),
            r@.len() == i + 1,
            forall|k: int|
                0 <= k < r@.len() ==> #[trigger] r@[k] + 1 == line_at(s@, k) && r@[k] <= k,
        decreases b.len() - i,
    {
        assert(b.take(i + 1).drop_last() == b.take(i as int));
        if bytes[i] == 10 {
            count += 1;
        }
        i += 1;
        r.push(count);
    }
    r
}

/// The text of `s` between two byte offsets.
pub fn slice_bytes(s: &str, a: usize, b: usize) -> (r: &str)
    requires
        boundary(s@, a as int),
        boundary(s@, b as int),
        a <= b,
    ensures
        r@ == byte_slice(s@, a as int, b as int),
{
    let (_, tail) = s.split_at(a);
    proof {
        encode_utf8_valid_utf8(s@);
        lemma_boundary_skip(encode_utf8(s@), a as int, b as int);
    }
    let (r, _) = tail.split_at(b - a);
    proof {
        lemma_byte_slice(s@, a as int, b as int);
        assert(encode_utf8(r@) == encode_utf8(s@).subrange(a as int, b as int));
        encode_utf8_decode_utf8(r@);
    }
    r
}

/// The encoding of joined texts is their joined encodings.
pub proof fn lemma_encode_add(a: Seq<char>, b: Seq<char>)
    ensures
        encode_utf8(a + b) == encode_utf8(a) + encode_utf8(b),
    decreases a.len(),
{
    if a.len() == 0 {
        assert(a + b == b);
    } else {
        lemma_encode_add(a.drop_first(), b);
        assert((a + b).drop_first() == a.drop_first() + b);
        assert((a + b)[0] == a[0]);
    }
}

/// A character takes at most four bytes.
pub proof fn lemma_encode_len(s: Seq<char>)
    ensures
        encode_utf8(s).len() <= 4 * s.len(),
    decreases s.len(),
{
    if s.len() > 0 {
        lemma_encode_len(s.drop_first());
    }
}

/// Ten to the power of `k`.
pub open spec fn pow10(k: nat) -> nat
    decreases k,
{
    if k == 0 {
        1
    } else {
        10 * pow10((k - 1) as nat)
    }
}

/// A number below ten to the power of `k` has at most `k` digits.
pub proof fn lemma_decimal_len(n: nat, k: nat)
    requires
        k > 0,
        n < pow10(k),
    ensures
        decimal(n).len() <= k,
    decreases k,
{
    if n >= 10 {
        if k == 1 {
            assert(pow10(1) == 10) by {
                reveal_with_fuel(pow10, 2);
            }
        } else {
            lemma_decimal_len(n / 10, (k - 1) as nat);
        }
    }
}

/// A machine word has at most twenty decimal digits.
pub proof fn lemma_usize_digits(n: usize)
    ensures
        decimal(n as nat).len() <= 20,
{
    assert(pow10(20) == 100_000_000_000_000_000_000) by {
        reveal_with_fuel(pow10, 21);
    }
    lemma_decimal_len(n as nat, 20);
}

/// The value of a digit character.
pub open spec fn digit_value(c: char) -> int {
    c as int - 48
}

/// The number that a sequence of digits denotes.
pub open spec fn decimal_value(s: Seq<char>) -> int
    decreases s.len(),
{
    if s.len() == 0 {
        0
    } else {
        10 * decimal_value(s.drop_last()) + digit_value(s.last())
    }
}

/// Decimal notation denotes the number and consists of digits.
pub proof fn lemma_decimal_value(n: nat)
    ensures
        decimal_value(decimal(n)) == n,
        decimal(n).len() > 0,
        forall|i: int| 0 <= i < decimal(n).len() ==> '0' <= #[trigger] decimal(n)[i] <= '9',
    decreases n,
{
    if n < 10 {
        assert(decimal(n).drop_last() == Seq::<char>::empty());
        assert(decimal_value(Seq::<char>::empty()) == 0);
        assert(decimal(n) == seq![digit_char(n)]);
    } else {
        lemma_decimal_value(n / 10);
        assert(decimal(n).drop_last() == decimal(n / 10));
    }
}

/// Zeros in front of digits do not change the number.
pub proof fn lemma_padded_value(s: Seq<char>, width: nat)
    ensures
        decimal_value(pad_front(s, width, '0')) == decimal_value(s),
    decreases s.len(),
{
    let r = pad_front(s, width, '0');
    if s.len() < width {
        let zeros = Seq::new((width - s.len()) as nat, |i: int| '0');
        lemma_zeros_value(zeros, s);
    }
}

proof fn lemma_zeros_value(zeros: Seq<char>, s: Seq<char>)
    requires
        forall|i: int| 0 <= i < zeros.len() ==> zeros[i] == '0',
    ensures
        decimal_value(zeros + s) == decimal_value(s),
    decreases s.len(), zeros.len(),
{
    let r = zeros + s;
    if s.len() > 0 {
        assert(r.drop_last() == zeros + s.drop_last());
        lemma_zeros_value(zeros, s.drop_last());
    } else if zeros.len() > 0 {
        assert(r.drop_last() == zeros.drop_last() + s);
        lemma_zeros_value(zeros.drop_last(), s);
    } else {
        assert(r == s);
    }
}

} // verus!
