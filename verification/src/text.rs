//! Strings as sequences of characters: equality, cutting at ASCII
//! delimiters, lines and joins.
use vstd::prelude::*;
use vstd::utf8::*;

verus! {

/// The character that ends a line.
pub open spec fn line_feed() -> char {
    '\n'
}

/// The byte that encodes a line feed.
pub const LINE_FEED_BYTE: u8 = 10;

/// Number of bytes that `s` takes in UTF-8.
pub open spec fn utf8_len(s: Seq<char>) -> nat {
    encode_utf8(s).len()
}

/// Two strings with the same UTF-8 bytes hold the same characters.
pub proof fn lemma_utf8_injective(a: Seq<char>, b: Seq<char>)
    requires
        encode_utf8(a) == encode_utf8(b),
    ensures
        a == b,
{
    encode_utf8_decode_utf8(a);
    encode_utf8_decode_utf8(b);
}

/// Only the empty string has an empty encoding.
pub proof fn lemma_utf8_len_zero(s: Seq<char>)
    ensures
        utf8_len(s) == 0 <==> s.len() == 0,
{
    if s.len() > 0 {
        encode_utf8_first_scalar(s);
    }
}

/// The encoding of two strings in a row is the two encodings in a row.
pub proof fn lemma_utf8_concat(a: Seq<char>, b: Seq<char>)
    ensures
        encode_utf8(a + b) == encode_utf8(a) + encode_utf8(b),
    decreases a.len(),
{
    if a.len() == 0 {
        assert(a + b =~= b);
        assert(encode_utf8(a) + encode_utf8(b) =~= encode_utf8(b));
    } else {
        lemma_utf8_concat(a.drop_first(), b);
        assert((a + b).drop_first() =~= a.drop_first() + b);
        assert(encode_utf8(a + b) =~= encode_utf8(a) + encode_utf8(b));
    }
}

/// A string takes at least one byte for each character.
pub proof fn lemma_utf8_len_bound(s: Seq<char>)
    ensures
        s.len() <= utf8_len(s),
    decreases s.len(),
{
    if s.len() > 0 {
        lemma_utf8_len_bound(s.drop_first());
        assert(encode_scalar(s[0] as u32).len() >= 1);
    }
}

/// An ASCII character is encoded as the one byte of its code.
pub proof fn lemma_ascii_scalar(b: u8)
    requires
        b < 0x80,
    ensures
        encode_scalar((b as char) as u32) == seq![b],
        codepoint_width_1(b) == (b as char) as u32,
{
    let c = (b as char) as u32;
    assert(c == b as u32);
    assert((c & 0x7F) as u8 == b) by (bit_vector)
        requires
            c == b as u32,
            b < 0x80,
    ;
    assert((b & 0x7F) as u32 == c) by (bit_vector)
        requires
            c == b as u32,
            b < 0x80,
    ;
}

/// A string that holds an ASCII character has that character's byte in its
/// encoding.
pub proof fn lemma_ascii_char_byte(s: Seq<char>, j: int, b: u8)
    requires
        b < 0x80,
        0 <= j < s.len(),
        s[j] == b as char,
    ensures
        exists|i: int| 0 <= i < encode_utf8(s).len() && encode_utf8(s)[i] == b,
    decreases s.len(),
{
    let head = encode_scalar(s[0] as u32);
    let tail = encode_utf8(s.drop_first());
    assert(encode_utf8(s) == head + tail);
    if j == 0 {
        lemma_ascii_scalar(b);
        assert(encode_utf8(s)[0] == b);
    } else {
        assert(s.drop_first()[j - 1] == s[j]);
        lemma_ascii_char_byte(s.drop_first(), j - 1, b);
        let i = choose|i: int| 0 <= i < tail.len() && tail[i] == b;
        assert(encode_utf8(s)[head.len() + i] == tail[i]);
    }
}

/// A string whose encoding lacks the byte of an ASCII character lacks the
/// character.
pub proof fn lemma_no_byte_no_char(s: Seq<char>, b: u8)
    requires
        b < 0x80,
        forall|i: int| 0 <= i < encode_utf8(s).len() ==> encode_utf8(s)[i] != b,
    ensures
        forall|j: int| 0 <= j < s.len() ==> s[j] != b as char,
{
    assert forall|j: int| 0 <= j < s.len() implies s[j] != b as char by {
        if s[j] == b as char {
            lemma_ascii_char_byte(s, j, b);
        }
    }
}

/// The characters of an optional string.
pub open spec fn opt_view(s: Option<String>) -> Option<Seq<char>> {
    match s {
        Some(s) => Some(s@),
        None => None,
    }
}

/// The lower-case form of a string, as Unicode defines it.
pub uninterp spec fn lowercase_of(s: Seq<char>) -> Seq<char>;

/// `str::to_lowercase` of the standard library. Its result is a function of
/// the characters alone; the contract gives it the name `lowercase_of` and
/// claims nothing more of it.
#[verifier::external_body]
pub(crate) fn to_lowercase(s: &str) -> (r: String)
    ensures
        r@ == lowercase_of(s@),
{
    s.to_lowercase()
}

/// Whether `needle` stands somewhere in `hay`, character by character.
pub open spec fn has_substring(hay: Seq<char>, needle: Seq<char>) -> bool {
    exists|i: int|
        0 <= i <= hay.len() - needle.len() && #[trigger] hay.subrange(i, i + needle.len()) == needle
}

/// `str::contains` of the standard library, for a string as the pattern:
/// whether the pattern matches a part of the string.
#[verifier::external_body]
pub(crate) fn str_contains(hay: &str, needle: &str) -> (r: bool)
    ensures
        r == has_substring(hay@, needle@),
{
    hay.contains(needle)
}

/// Whether two string slices hold the same characters.
pub fn str_eq(a: &str, b: &str) -> (r: bool)
    ensures
        r == (a@ == b@),
{
    let x = a.as_bytes();
    let y = b.as_bytes();
    if x.len() != y.len() {
        return false;
    }
    let n = x.len();
    let mut i: usize = 0;
    while i < n
        invariant
            n == x@.len(),
            n == y@.len(),
            i <= n,
            x@ == encode_utf8(a@),
            y@ == encode_utf8(b@),
            forall|j: int| 0 <= j < i ==> x@[j] == y@[j],
        decreases n - i,
    {
        if x[i] != y[i] {
            return false;
        }
        i += 1;
    }
    proof {
        assert(x@ =~= y@);
        lemma_utf8_injective(a@, b@);
    }
    true
}

/// Cuts a string at byte `p`, which is its end or holds an ASCII byte.
pub(crate) fn split_at_ascii<'a>(s: &'a str, p: usize) -> (r: (&'a str, &'a str))
    requires
        p <= utf8_len(s@),
        p < utf8_len(s@) ==> encode_utf8(s@)[p as int] < 0x80,
    ensures
        s@ == r.0@ + r.1@,
        encode_utf8(r.0@) == encode_utf8(s@).subrange(0, p as int),
        encode_utf8(r.1@) == encode_utf8(s@).subrange(p as int, utf8_len(s@) as int),
        p < utf8_len(s@) ==> r.1@.len() > 0 && r.1@[0] == encode_utf8(s@)[p as int] as char,
        p >= utf8_len(s@) ==> r.1@.len() == 0,
{
    let ghost b = encode_utf8(s@);
    proof {
        encode_utf8_valid_utf8(s@);
        if p < b.len() {
            is_char_boundary_iff_not_is_continuation_byte(b, p as int);
        } else {
            is_char_boundary_start_end_of_seq(b);
        }
    }
    let (head, tail) = s.split_at(p);
    proof {
        decode_utf8_split(b, p as int);
        encode_utf8_decode_utf8(s@);
        encode_utf8_decode_utf8(head@);
        encode_utf8_decode_utf8(tail@);
        assert(s@ =~= head@ + tail@);
        lemma_utf8_len_zero(tail@);
        if p < b.len() {
            let c = encode_utf8(tail@)[0];
            assert(c == b[p as int]);
            encode_utf8_first_scalar(tail@);
            lemma_ascii_scalar(c);
            char_u32_cast(tail@[0], tail@[0] as u32);
            char_u32_cast(c as char, (c as char) as u32);
            assert(tail@[0] == c as char);
        }
    }
    (head, tail)
}

/// Drops the first character of a string, which is ASCII.
pub(crate) fn drop_first_ascii<'a>(s: &'a str) -> (r: &'a str)
    requires
        s@.len() > 0,
        (s@[0] as u32) < 0x80,
    ensures
        r@ == s@.drop_first(),
{
    let ghost b = encode_utf8(s@);
    proof {
        encode_utf8_valid_utf8(s@);
        encode_utf8_first_scalar(s@);
        reveal_with_fuel(is_char_boundary, 2);
        assert(is_char_boundary(b, 1));
        decode_utf8_split(b, 1);
        encode_utf8_decode_utf8(s@);
    }
    let (_, rest) = s.split_at(1);
    proof {
        encode_utf8_decode_utf8(rest@);
        assert(decode_utf8(b.subrange(0, 1)).len() == 1) by {
            reveal_with_fuel(decode_utf8, 2);
            reveal_with_fuel(valid_utf8, 2);
            assert(pop_first_scalar(b.subrange(0, 1)) =~= Seq::<u8>::empty());
            valid_utf8_split(b, 1);
        }
        assert(rest@ =~= s@.drop_first());
    }
    rest
}

/// The digits of a number in base ten, without leading zeros.
pub open spec fn decimal(n: nat) -> Seq<char>
    decreases n,
{
    if n < 10 {
        seq![('0' as nat + n) as char]
    } else {
        decimal(n / 10).push(('0' as nat + n % 10) as char)
    }
}

/// A number in base ten.
pub fn to_decimal(n: u128) -> (r: String)
    ensures
        r@ == decimal(n as nat),
{
    let digits = "0123456789";
    proof {
        reveal_strlit("0123456789");
    }
    let mut low: Vec<usize> = Vec::new();
    let mut rest = n;
    while rest >= 10
        invariant
            forall|k: int| 0 <= k < low@.len() ==> (#[trigger] low@[k]) < 10,
            decimal(n as nat) == decimal(rest as nat) + Seq::new(
                low@.len(),
                |k: int| ('0' as nat + low@[low@.len() - 1 - k]) as char,
            ),
        decreases rest,
    {
        let ghost before = low@;
        let ghost tail = Seq::new(
            before.len(),
            |k: int| ('0' as nat + before[before.len() - 1 - k]) as char,
        );
        low.push((rest % 10) as usize);
        proof {
            let now = Seq::new(low@.len(), |k: int| ('0' as nat + low@[low@.len() - 1 - k]) as char);
            assert(now =~= seq![('0' as nat + rest % 10) as char] + tail);
            assert(decimal(rest as nat) =~= decimal((rest / 10) as nat) + seq![
                ('0' as nat + rest % 10) as char,
            ]);
        }
        rest = rest / 10;
    }
    low.push(rest as usize);
    let mut text = String::new();
    let mut at: usize = low.len();
    let ghost whole = Seq::new(low@.len(), |k: int| ('0' as nat + low@[low@.len() - 1 - k]) as char);
    proof {
        assert(whole =~= decimal(n as nat));
    }
    while at > 0
        invariant
            at <= low@.len(),
            digits@ == "0123456789"@,
            digits.is_ascii(),
            digits@.len() == 10,
            forall|d: int| 0 <= d < 10 ==> digits@[d] == ('0' as nat + d) as char,
            forall|k: int| 0 <= k < low@.len() ==> (#[trigger] low@[k]) < 10,
            whole == Seq::new(low@.len(), |k: int| ('0' as nat + low@[low@.len() - 1 - k]) as char),
            text@ == whole.subrange(0, low@.len() - at),
        decreases at,
    {
        at -= 1;
        let d = low[at];
        let digit = digits.substring_ascii(d, d + 1);
        proof {
            assert(digit@ =~= seq![whole[low@.len() - 1 - at]]);
            assert(whole.subrange(0, low@.len() - at) =~= whole.subrange(0, low@.len() - at - 1)
                + digit@);
        }
        text.append(digit);
    }
    assert(whole.subrange(0, low@.len() as int) =~= whole);
    text
}

/// Index of the first line feed of `s`, or its length where it has none.
pub open spec fn first_line_feed(s: Seq<char>) -> nat
    decreases s.len(),
{
    if s.len() == 0 || s[0] == line_feed() {
        0
    } else {
        1 + first_line_feed(s.drop_first())
    }
}

/// The lines of a text. A line ends at a line feed or at the end of the text;
/// the line feed is not part of it, and a text that ends in a line feed has
/// no empty last line.
pub open spec fn split_lines(s: Seq<char>) -> Seq<Seq<char>>
    decreases s.len(),
{
    if s.len() == 0 {
        Seq::empty()
    } else {
        let k = first_line_feed(s) as int;
        if k >= s.len() {
            seq![s]
        } else {
            seq![s.subrange(0, k)] + split_lines(s.subrange(k + 1, s.len() as int))
        }
    }
}

/// The lines joined by single line feeds, with none at the end.
pub open spec fn join_lines(lines: Seq<Seq<char>>) -> Seq<char>
    decreases lines.len(),
{
    if lines.len() == 0 {
        Seq::empty()
    } else if lines.len() == 1 {
        lines[0]
    } else {
        join_lines(lines.drop_last()) + seq![line_feed()] + lines.last()
    }
}

/// Where `first_line_feed` points: within bounds, at a line feed unless at
/// the end, with no line feed before it.
pub proof fn lemma_first_line_feed(s: Seq<char>)
    ensures
        first_line_feed(s) <= s.len(),
        first_line_feed(s) < s.len() ==> s[first_line_feed(s) as int] == line_feed(),
        forall|j: int| 0 <= j < first_line_feed(s) ==> s[j] != line_feed(),
    decreases s.len(),
{
    if s.len() == 0 || s[0] == line_feed() {
    } else {
        let t = s.drop_first();
        lemma_first_line_feed(t);
        assert forall|j: int| 0 <= j < first_line_feed(s) implies s[j] != line_feed() by {
            if j > 0 {
                assert(s[j] == t[j - 1]);
            }
        }
    }
}

/// A text has no more lines than characters.
pub proof fn lemma_line_count(s: Seq<char>)
    ensures
        split_lines(s).len() <= s.len(),
    decreases s.len(),
{
    if s.len() > 0 {
        lemma_first_line_feed(s);
        let k = first_line_feed(s) as int;
        if k < s.len() {
            lemma_line_count(s.subrange(k + 1, s.len() as int));
        }
    }
}

/// A prefix without line feeds, followed by nothing or by a line feed, ends
/// at the first line feed.
pub proof fn lemma_first_line_feed_at(s: Seq<char>, k: int)
    requires
        0 <= k <= s.len(),
        forall|j: int| 0 <= j < k ==> s[j] != line_feed(),
        k < s.len() ==> s[k] == line_feed(),
    ensures
        first_line_feed(s) == k,
{
    lemma_first_line_feed(s);
    let f = first_line_feed(s) as int;
    if f < k {
        assert(s[f] == line_feed());
    } else if f > k {
        assert(s[k] != line_feed());
    }
}

/// Cuts the first line off a text: the line, and what follows its line feed.
fn cut_line<'a>(rest: &'a str) -> (r: (&'a str, &'a str))
    ensures
        r.0@ == rest@.subrange(0, first_line_feed(rest@) as int),
        first_line_feed(rest@) < rest@.len() ==> r.1@ == rest@.subrange(
            first_line_feed(rest@) as int + 1,
            rest@.len() as int,
        ),
        first_line_feed(rest@) >= rest@.len() ==> r.1@.len() == 0,
{
    let bytes = rest.as_bytes();
    let n = bytes.len();
    let mut p: usize = 0;
    while p < n && bytes[p] != LINE_FEED_BYTE
        invariant
            n == bytes@.len(),
            p <= n,
            forall|j: int| 0 <= j < p ==> bytes@[j] != LINE_FEED_BYTE,
        decreases n - p,
    {
        p += 1;
    }
    let (line, tail) = split_at_ascii(rest, p);
    proof {
        lemma_no_byte_no_char(line@, LINE_FEED_BYTE);
        assert(line@ =~= rest@.subrange(0, line@.len() as int));
        assert(tail@ =~= rest@.subrange(line@.len() as int, rest@.len() as int));
        lemma_first_line_feed_at(rest@, line@.len() as int);
    }
    if p < n {
        let after = drop_first_ascii(tail);
        proof {
            assert(after@ =~= rest@.subrange(line@.len() as int + 1, rest@.len() as int));
        }
        (line, after)
    } else {
        (line, tail)
    }
}

/// The character contents of a list of string slices.
pub open spec fn str_views(v: Seq<&str>) -> Seq<Seq<char>> {
    Seq::new(v.len(), |i: int| v[i]@)
}

/// Splits a text into its lines.
pub fn lines_of<'a>(text: &'a str) -> (lines: Vec<&'a str>)
    ensures
        str_views(lines@) == split_lines(text@),
{
    let mut lines: Vec<&'a str> = Vec::new();
    let mut rest: &'a str = text;
    assert(str_views(lines@) + split_lines(rest@) =~= split_lines(text@));
    while !rest.is_empty()
        invariant
            split_lines(text@) == str_views(lines@) + split_lines(rest@),
        decreases rest@.len(),
    {
        let ghost before = lines@;
        let ghost whole = rest@;
        let (line, after) = cut_line(rest);
        lines.push(line);
        rest = after;
        proof {
            lemma_first_line_feed(whole);
            let k = first_line_feed(whole) as int;
            if k >= whole.len() {
                assert(line@ =~= whole);
                assert(split_lines(rest@) =~= Seq::<Seq<char>>::empty());
            }
            assert(split_lines(whole) =~= seq![line@] + split_lines(rest@));
            assert(str_views(lines@) =~= str_views(before) + seq![line@]);
            assert(str_views(lines@) + split_lines(rest@) =~= str_views(before) + split_lines(
                whole,
            ));
        }
    }
    assert(str_views(lines@) + split_lines(rest@) =~= str_views(lines@));
    lines
}

} // verus!
