//! Text handling: trimming, ASCII case, splitting, decimal numbers.

use vstd::prelude::*;
use vstd::utf8::{encode_scalar, encode_utf8};

verus! {

/// `String::push` of the standard library: appends one character.
pub assume_specification[ String::push ](s: &mut String, c: char)
    ensures
        final(s)@ == old(s)@.push(c),
;

/// Whether `c` has the Unicode `White_Space` property.
pub open spec fn is_white(c: char) -> bool {
    ||| '\u{9}' <= c <= '\u{d}'
    ||| c == '\u{20}'
    ||| c == '\u{85}'
    ||| c == '\u{a0}'
    ||| c == '\u{1680}'
    ||| '\u{2000}' <= c <= '\u{200a}'
    ||| c == '\u{2028}'
    ||| c == '\u{2029}'
    ||| c == '\u{202f}'
    ||| c == '\u{205f}'
    ||| c == '\u{3000}'
}

/// `s` without the white space it begins with.
pub open spec fn trimmed_start(s: Seq<char>) -> Seq<char>
    decreases s.len(),
{
    if s.len() > 0 && is_white(s[0]) {
        trimmed_start(s.drop_first())
    } else {
        s
    }
}

/// `s` without the white space it ends with.
pub open spec fn trimmed_end(s: Seq<char>) -> Seq<char>
    decreases s.len(),
{
    if s.len() > 0 && is_white(s.last()) {
        trimmed_end(s.drop_last())
    } else {
        s
    }
}

/// `s` without the white space around it.
pub open spec fn trimmed(s: Seq<char>) -> Seq<char> {
    trimmed_end(trimmed_start(s))
}

/// `s` without the white space and the dots it begins with, however mixed.
pub open spec fn bare_start(s: Seq<char>) -> Seq<char>
    decreases s.len(),
{
    if s.len() > 0 && (is_white(s[0]) || s[0] == '.') {
        bare_start(s.drop_first())
    } else {
        s
    }
}

/// An ASCII capital in lower case; any other character as it is.
pub open spec fn lower_char(c: char) -> char {
    if 'A' <= c <= 'Z' {
        (c as u8 + 32) as char
    } else {
        c
    }
}

/// `s` with its ASCII capitals in lower case.
pub open spec fn lowered(s: Seq<char>) -> Seq<char> {
    s.map_values(|c: char| lower_char(c))
}

/// The pieces of `s` between the occurrences of `sep`.
pub open spec fn pieces(s: Seq<char>, sep: char) -> Seq<Seq<char>>
    decreases s.len(),
{
    if s.len() == 0 {
        seq![Seq::empty()]
    } else {
        let before = pieces(s.drop_last(), sep);
        if s.last() == sep {
            before.push(Seq::empty())
        } else {
            before.drop_last().push(before.last().push(s.last()))
        }
    }
}

/// The contents of each text.
pub open spec fn views(v: Seq<String>) -> Seq<Seq<char>> {
    v.map_values(|t: String| t@)
}

/// The contents of an optional text.
pub open spec fn opt_text(t: Option<String>) -> Option<Seq<char>> {
    match t {
        Some(s) => Some(s@),
        None => None,
    }
}

/// The contents of an optional reference to a text.
pub open spec fn opt_str(t: Option<&str>) -> Option<Seq<char>> {
    match t {
        Some(s) => Some(s@),
        None => None,
    }
}

/// Where the last `c` of `s` stands, if it has one.
pub open spec fn last_index(s: Seq<char>, c: char) -> Option<int>
    decreases s.len(),
{
    if s.len() == 0 {
        None
    } else if s.last() == c {
        Some(s.len() - 1)
    } else {
        last_index(s.drop_last(), c)
    }
}

/// Whether `part` occurs in `s`.
pub open spec fn occurs_in(part: Seq<char>, s: Seq<char>) -> bool {
    exists|i: int|
        0 <= i <= s.len() - part.len() && #[trigger] s.subrange(i, i + part.len()) == part
}

/// Whether `c` is an ASCII digit.
pub open spec fn is_digit(c: char) -> bool {
    '0' <= c <= '9'
}

/// Whether `s` is one or more ASCII digits.
pub open spec fn is_decimal(s: Seq<char>) -> bool {
    s.len() > 0 && forall|i: int| 0 <= i < s.len() ==> is_digit(#[trigger] s[i])
}

/// Lowering leaves small letters and other characters alone, and makes no
/// capital.
pub proof fn lower_char_facts(c: char)
    ensures
        lower_char(lower_char(c)) == lower_char(c),
        lower_char(c) == '.' <==> c == '.',
        lower_char(c) == ',' <==> c == ',',
        is_white(lower_char(c)) <==> is_white(c),
        !('A' <= lower_char(c) <= 'Z'),
{
}

/// Lowering twice is lowering once.
pub proof fn lowered_twice(s: Seq<char>)
    ensures
        lowered(lowered(s)) == lowered(s),
{
    assert forall|i: int| 0 <= i < s.len() implies lowered(lowered(s))[i] == lowered(s)[i] by {
        lower_char_facts(s[i]);
    }
    assert(lowered(lowered(s)) =~= lowered(s));
}

/// What is left of a text has neither white space nor a dot in front.
pub proof fn bare_start_is_bare(s: Seq<char>)
    ensures
        bare_start(s).len() > 0 ==> !is_white(bare_start(s)[0]) && bare_start(s)[0] != '.',
        bare_start(s).len() <= s.len(),
        bare_start(s) == s.skip(s.len() - bare_start(s).len()),
    decreases s.len(),
{
    if s.len() > 0 && (is_white(s[0]) || s[0] == '.') {
        bare_start_is_bare(s.drop_first());
        let k = bare_start(s).len();
        assert(s.drop_first().skip(s.len() - 1 - k) =~= s.skip(s.len() - k));
    } else {
        assert(s.skip(0) =~= s);
    }
}

/// What is left of a text has no white space behind, and is a start of it.
pub proof fn trimmed_end_is_trimmed(s: Seq<char>)
    ensures
        trimmed_end(s).len() > 0 ==> !is_white(trimmed_end(s).last()),
        trimmed_end(s).len() <= s.len(),
        trimmed_end(s) == s.take(trimmed_end(s).len() as int),
    decreases s.len(),
{
    if s.len() > 0 && is_white(s.last()) {
        trimmed_end_is_trimmed(s.drop_last());
        let k = trimmed_end(s).len() as int;
        assert(s.drop_last().take(k) =~= s.take(k));
    } else {
        assert(s.take(s.len() as int) =~= s);
    }
}

/// The pieces between separators hold none.
pub proof fn pieces_hold_no_separator(s: Seq<char>, sep: char)
    ensures
        pieces(s, sep).len() > 0,
        forall|i: int| 0 <= i < pieces(s, sep).len() ==> !(#[trigger] pieces(s, sep)[i]).contains(sep),
    decreases s.len(),
{
    if s.len() > 0 {
        let before = pieces(s.drop_last(), sep);
        pieces_hold_no_separator(s.drop_last(), sep);
        let all = pieces(s, sep);
        assert forall|i: int| 0 <= i < all.len() implies !(#[trigger] all[i]).contains(sep) by {
            if i < before.len() - 1 {
                assert(all[i] == before[i]);
            } else if s.last() == sep {
                if i < before.len() {
                    assert(all[i] == before[i]);
                }
            } else {
                let old_piece = before[before.len() - 1];
                assert(!old_piece.contains(sep));
                if all[i].contains(sep) {
                    let k = choose|k: int| 0 <= k < all[i].len() && all[i][k] == sep;
                    if k < old_piece.len() {
                        assert(old_piece[k] == sep);
                        assert(old_piece.contains(sep));
                    }
                }
            }
        }
    }
}

/// The last occurrence of a character is one.
pub proof fn last_index_in_range(s: Seq<char>, c: char)
    ensures
        last_index(s, c) matches Some(i) ==> 0 <= i < s.len() && s[i] == c,
    decreases s.len(),
{
    if s.len() > 0 && s.last() != c {
        last_index_in_range(s.drop_last(), c);
    }
}

/// The number that the digits `s` write.
pub open spec fn decimal_value(s: Seq<char>) -> nat
    decreases s.len(),
{
    if s.len() == 0 {
        0
    } else {
        (10 * decimal_value(s.drop_last()) + (s.last() as u32 - '0' as u32)) as nat
    }
}

/// The number that `s` writes as an unsigned integer: digits, after an optional
/// plus sign.
pub open spec fn unsigned_value(s: Seq<char>) -> Option<nat> {
    let digits = if s.len() > 0 && s[0] == '+' {
        s.drop_first()
    } else {
        s
    };
    if is_decimal(digits) {
        Some(decimal_value(digits))
    } else {
        None
    }
}

/// The number that `s` writes as a signed integer: digits, after an optional
/// sign.
pub open spec fn signed_value(s: Seq<char>) -> Option<int> {
    if s.len() > 0 && s[0] == '-' {
        if is_decimal(s.drop_first()) {
            Some(-(decimal_value(s.drop_first()) as int))
        } else {
            None
        }
    } else {
        match unsigned_value(s) {
            Some(n) => Some(n as int),
            None => None,
        }
    }
}

/// The decimal digits of `n`, without leading zeros.
pub open spec fn digits_of(n: nat) -> Seq<char>
    decreases n,
{
    if n < 10 {
        seq![(n + 48) as u8 as char]
    } else {
        digits_of(n / 10).push((n % 10 + 48) as u8 as char)
    }
}

/// The digits written for a number read back as that number.
pub proof fn digits_read_back(n: nat)
    ensures
        is_decimal(digits_of(n)),
        decimal_value(digits_of(n)) == n,
    decreases n,
{
    reveal_with_fuel(decimal_value, 2);
    if n >= 10 {
        digits_read_back(n / 10);
        assert(digits_of(n).drop_last() =~= digits_of(n / 10));
    } else {
        assert(digits_of(n).drop_last() =~= Seq::<char>::empty());
    }
}

/// Different numbers are written differently.
pub proof fn digits_differ(a: nat, b: nat)
    requires
        digits_of(a) == digits_of(b),
    ensures
        a == b,
{
    digits_read_back(a);
    digits_read_back(b);
}

/// The bytes of two texts in a row are those of each.
pub proof fn encode_append(a: Seq<char>, b: Seq<char>)
    ensures
        encode_utf8(a + b) == encode_utf8(a) + encode_utf8(b),
    decreases a.len(),
{
    if a.len() == 0 {
        assert(a + b =~= b);
        assert(encode_utf8(a) + encode_utf8(b) =~= encode_utf8(b));
    } else {
        assert((a + b).drop_first() =~= a.drop_first() + b);
        encode_append(a.drop_first(), b);
        assert(encode_utf8(a + b) =~= encode_utf8(a) + encode_utf8(b));
    }
}

/// A character outside ASCII has no byte below 128; one in ASCII is its own
/// byte.
proof fn scalar_bytes(c: u32)
    ensures
        c < 128 ==> encode_scalar(c) == seq![c as u8],
        c >= 128 ==> encode_scalar(c).len() > 0 && forall|i: int|
            0 <= i < encode_scalar(c).len() ==> #[trigger] encode_scalar(c)[i] >= 128,
{
    if c < 128 {
        assert((c & 0x7F) as u8 == c as u8) by (bit_vector)
            requires
                c < 128,
        ;
        assert(encode_scalar(c) =~= seq![c as u8]);
    } else {
        assert(0xC0u8 | ((c >> 6) & 0x1F) as u8 >= 128) by (bit_vector);
        assert(0xE0u8 | ((c >> 12) & 0x0F) as u8 >= 128) by (bit_vector);
        assert(0xF0u8 | ((c >> 18) & 0x7) as u8 >= 128) by (bit_vector);
        assert(0x80u8 | (c & 0x3F) as u8 >= 128) by (bit_vector);
        assert(0x80u8 | ((c >> 6) & 0x3F) as u8 >= 128) by (bit_vector);
        assert(0x80u8 | ((c >> 12) & 0x3F) as u8 >= 128) by (bit_vector);
    }
}

/// A character is known by its code, and one in ASCII by the byte of that code.
proof fn char_codes(a: char, b: char)
    ensures
        a as u32 == b as u32 <==> a == b,
        b < '\u{80}' ==> (b as u32) < 128 && b as u8 == b as u32,
{
}

/// The first byte of a text is an ASCII character if and only if the text
/// starts with it.
pub proof fn first_byte(s: Seq<char>, c: char)
    requires
        s.len() > 0,
        c < '\u{80}',
    ensures
        encode_utf8(s).len() > 0,
        encode_utf8(s)[0] == c as u8 <==> s[0] == c,
{
    let first: char = s[0];
    scalar_bytes(first as u32);
    let e = encode_scalar(first as u32);
    assert(encode_utf8(s)[0] == e[0]);
    char_codes(first, c);
}

/// The bytes of a text hold an ASCII character if and only if the text does.
pub proof fn ascii_byte_occurs(s: Seq<char>, c: char)
    requires
        c < '\u{80}',
    ensures
        encode_utf8(s).contains(c as u8) <==> s.contains(c),
    decreases s.len(),
{
    if s.len() > 0 {
        let rest = s.drop_first();
        let first: char = s[0];
        let head = encode_scalar(first as u32);
        let tail = encode_utf8(rest);
        scalar_bytes(first as u32);
        char_codes(first, c);
        ascii_byte_occurs(rest, c);
        let all = encode_utf8(s);
        assert(all == head + tail);
        if all.contains(c as u8) {
            let k = choose|k: int| 0 <= k < all.len() && all[k] == c as u8;
            if k < head.len() {
                assert(head[k] == c as u8);
                assert(s[0] == c);
            } else {
                assert(tail[k - head.len()] == c as u8);
                let j = choose|j: int| 0 <= j < rest.len() && rest[j] == c;
                assert(s[j + 1] == c);
            }
        }
        if s.contains(c) {
            let j = choose|j: int| 0 <= j < s.len() && s[j] == c;
            if j == 0 {
                assert(all[0] == c as u8);
            } else {
                assert(rest[j - 1] == c);
                let k = choose|k: int| 0 <= k < tail.len() && tail[k] == c as u8;
                assert(all[head.len() + k] == c as u8);
            }
        }
    }
}

/// The characters of `s`.
pub fn chars_of(s: &str) -> (r: Vec<char>)
    ensures
        r@ == s@,
{
    let mut out: Vec<char> = Vec::new();
    for c in it: s.chars()
        invariant
            it.seq() == s@,
            out@ == it.seq().take(it.index() as int),
    {
        out.push(c);
    }
    out
}

/// The text made of the characters `from..to` of `chars`.
pub fn text_of(chars: &Vec<char>, from: usize, to: usize) -> (r: String)
    requires
        from <= to <= chars@.len(),
    ensures
        r@ == chars@.subrange(from as int, to as int),
{
    let mut out = String::new();
    let mut i: usize = from;
    while i < to
        invariant
            from <= i <= to <= chars@.len(),
            out@ == chars@.subrange(from as int, i as int),
        decreases to - i,
    {
        out.push(chars[i]);
        i = i + 1;
        assert(chars@.subrange(from as int, i as int) =~= chars@.subrange(
            from as int,
            i - 1,
        ).push(chars@[i - 1]));
    }
    out
}

/// Whether `c` is white space.
fn white(c: char) -> (r: bool)
    ensures
        r == is_white(c),
{
    ('\u{9}' <= c && c <= '\u{d}') || c == '\u{20}' || c == '\u{85}' || c == '\u{a0}' || c
        == '\u{1680}' || ('\u{2000}' <= c && c <= '\u{200a}') || c == '\u{2028}' || c == '\u{2029}'
        || c == '\u{202f}' || c == '\u{205f}' || c == '\u{3000}'
}

/// The characters from `from` on, without the white space they end with.
fn trim_end(chars: &Vec<char>, from: usize) -> (r: String)
    requires
        from <= chars@.len(),
    ensures
        r@ == trimmed_end(chars@.skip(from as int)),
{
    let n: usize = chars.len();
    let mut to: usize = n;
    let ghost rest = chars@.skip(from as int);
    assert(chars@.subrange(from as int, n as int) =~= rest);
    while from < to && white(chars[to - 1])
        invariant
            from <= to <= chars@.len(),
            trimmed_end(rest) == trimmed_end(chars@.subrange(from as int, to as int)),
        decreases to - from,
    {
        assert(chars@.subrange(from as int, to as int).drop_last() =~= chars@.subrange(
            from as int,
            to - 1,
        ));
        to = to - 1;
    }
    text_of(chars, from, to)
}

/// `s` without the white space around it.
pub fn trim(s: &str) -> (r: String)
    ensures
        r@ == trimmed(s@),
{
    let chars = chars_of(s);
    let n: usize = chars.len();
    let mut from: usize = 0;
    assert(s@.skip(0) =~= s@);
    while from < n && white(chars[from])
        invariant
            chars@ == s@,
            n == s@.len(),
            from <= n,
            trimmed_start(s@) == trimmed_start(s@.skip(from as int)),
        decreases n - from,
    {
        assert(s@.skip(from as int).drop_first() =~= s@.skip(from + 1));
        from = from + 1;
    }
    trim_end(&chars, from)
}

/// `s` without the white space and the dots it begins with, and without the
/// white space it ends with.
pub fn strip_bare(s: &str) -> (r: String)
    ensures
        r@ == trimmed_end(bare_start(s@)),
{
    let chars = chars_of(s);
    let n: usize = chars.len();
    let mut from: usize = 0;
    assert(s@.skip(0) =~= s@);
    while from < n && (white(chars[from]) || chars[from] == '.')
        invariant
            chars@ == s@,
            n == s@.len(),
            from <= n,
            bare_start(s@) == bare_start(s@.skip(from as int)),
        decreases n - from,
    {
        assert(s@.skip(from as int).drop_first() =~= s@.skip(from + 1));
        from = from + 1;
    }
    trim_end(&chars, from)
}

/// `s` with its ASCII capitals in lower case.
pub fn to_lower(s: &str) -> (r: String)
    ensures
        r@ == lowered(s@),
{
    let mut out = String::new();
    for c in it: s.chars()
        invariant
            it.seq() == s@,
            out@ == lowered(it.seq().take(it.index() as int)),
    {
        if 'A' <= c && c <= 'Z' {
            out.push((c as u8 + 32) as char);
        } else {
            out.push(c);
        }
        assert(lowered(it.seq().take(it.index() + 1)) =~= lowered(
            it.seq().take(it.index() as int),
        ).push(lower_char(c)));
    }
    assert(s@.take(s@.len() as int) =~= s@);
    out
}

/// The pieces of `s` between the occurrences of `sep`.
pub fn split(s: &str, sep: char) -> (r: Vec<String>)
    ensures
        views(r@) == pieces(s@, sep),
{
    let mut done: Vec<String> = Vec::new();
    let mut piece = String::new();
    assert(views(done@).push(piece@) =~= pieces(Seq::empty(), sep));
    for c in it: s.chars()
        invariant
            it.seq() == s@,
            views(done@).push(piece@) =~= pieces(it.seq().take(it.index() as int), sep),
    {
        let ghost before = views(done@).push(piece@);
        proof {
            assert(before.drop_last() =~= views(done@));
            assert(it.seq().take(it.index() + 1).drop_last() =~= it.seq().take(it.index() as int));
        }
        if c == sep {
            done.push(piece);
            assert(views(done@) =~= before);
            piece = String::new();
        } else {
            piece.push(c);
        }
    }
    assert(s@.take(s@.len() as int) =~= s@);
    let ghost before = views(done@).push(piece@);
    done.push(piece);
    assert(views(done@) =~= before);
    done
}

/// Where the last `c` of the characters stands, if there is one.
pub fn rfind(chars: &Vec<char>, c: char) -> (r: Option<usize>)
    ensures
        match r {
            Some(i) => i < chars@.len() && last_index(chars@, c) == Some(i as int),
            None => last_index(chars@, c) is None,
        },
{
    let mut i: usize = chars.len();
    assert(chars@.take(chars@.len() as int) =~= chars@);
    while i > 0
        invariant
            i <= chars@.len(),
            last_index(chars@, c) == last_index(chars@.take(i as int), c),
        decreases i,
    {
        if chars[i - 1] == c {
            return Some(i - 1);
        }
        assert(chars@.take(i as int).drop_last() =~= chars@.take(i - 1));
        i = i - 1;
    }
    None
}

/// Whether `part` occurs in `s`.
pub fn contains(s: &str, part: &str) -> (r: bool)
    ensures
        r == occurs_in(part@, s@),
{
    let hay = chars_of(s);
    let needle = chars_of(part);
    let mut i: usize = 0;
    while needle.len() <= hay.len() - i
        invariant
            hay@ == s@,
            needle@ == part@,
            i <= hay@.len(),
            forall|k: int|
                0 <= k < i && k <= s@.len() - part@.len() ==> #[trigger] s@.subrange(
                    k,
                    k + part@.len(),
                ) != part@,
        decreases hay@.len() - i,
    {
        let mut j: usize = 0;
        while j < needle.len() && hay[i + j] == needle[j]
            invariant
                hay@ == s@,
                needle@ == part@,
                j <= needle@.len(),
                i + needle.len() <= hay.len(),
                forall|k: int| 0 <= k < j ==> s@[i + k] == part@[k],
            decreases needle@.len() - j,
        {
            j = j + 1;
        }
        if j == needle.len() {
            assert(s@.subrange(i as int, i + part@.len()) =~= part@);
            return true;
        }
        assert(s@.subrange(i as int, i + part@.len())[j as int] != part@[j as int]);
        if i == hay.len() {
            return false;
        }
        i = i + 1;
    }
    false
}

/// A prefix of a number's digits never writes more than the whole.
proof fn decimal_value_grows(s: Seq<char>, i: int)
    requires
        is_decimal(s),
        0 <= i <= s.len(),
    ensures
        decimal_value(s.take(i)) <= decimal_value(s),
    decreases s.len() - i,
{
    if i < s.len() {
        assert(s.take(i + 1).drop_last() =~= s.take(i));
        assert(is_digit(s[i]));
        decimal_value_grows(s, i + 1);
    } else {
        assert(s.take(i) =~= s);
    }
}

/// The number that the characters `from..` write, if they are all digits and
/// the number fits.
fn decimal_from(chars: &Vec<char>, from: usize) -> (r: Option<u64>)
    requires
        from <= chars@.len(),
    ensures
        r == (if is_decimal(chars@.skip(from as int)) && decimal_value(chars@.skip(from as int))
            <= u64::MAX {
            Some(decimal_value(chars@.skip(from as int)) as u64)
        } else {
            None
        }),
{
    let ghost s = chars@.skip(from as int);
    if from == chars.len() {
        return None;
    }
    let mut acc: u64 = 0;
    let mut i: usize = from;
    while i < chars.len()
        invariant
            s == chars@.skip(from as int),
            from <= i <= chars@.len(),
            acc == decimal_value(s.take(i - from)),
            forall|k: int| 0 <= k < i - from ==> is_digit(#[trigger] s[k]),
        decreases chars@.len() - i,
    {
        let c = chars[i];
        assert(s[i - from] == c);
        if !('0' <= c && c <= '9') {
            return None;
        }
        let d: u64 = (c as u32 - '0' as u32) as u64;
        proof {
            assert(s.take(i - from + 1).drop_last() =~= s.take(i - from));
            if is_decimal(s) {
                decimal_value_grows(s, i - from + 1);
            }
        }
        if acc > (u64::MAX - d) / 10 {
            return None;
        }
        acc = acc * 10 + d;
        i = i + 1;
    }
    assert(s.take(s.len() as int) =~= s);
    Some(acc)
}

/// The unsigned integer that `s` writes, if it writes one that fits.
pub fn parse_u64(s: &str) -> (r: Option<u64>)
    ensures
        r == (match unsigned_value(s@) {
            Some(n) => if n <= u64::MAX {
                Some(n as u64)
            } else {
                None
            },
            None => None,
        }),
{
    let chars = chars_of(s);
    assert(s@.skip(0) =~= s@);
    assert(s@.len() > 0 ==> s@.skip(1) =~= s@.drop_first());
    if chars.len() > 0 && chars[0] == '+' {
        decimal_from(&chars, 1)
    } else {
        decimal_from(&chars, 0)
    }
}

/// The signed integer that `s` writes, if it writes one that fits.
pub fn parse_i64(s: &str) -> (r: Option<i64>)
    ensures
        r == (match signed_value(s@) {
            Some(n) => if i64::MIN <= n <= i64::MAX {
                Some(n as i64)
            } else {
                None
            },
            None => None,
        }),
{
    let chars = chars_of(s);
    assert(s@.skip(0) =~= s@);
    assert(s@.len() > 0 ==> s@.skip(1) =~= s@.drop_first());
    if chars.len() > 0 && chars[0] == '-' {
        match decimal_from(&chars, 1) {
            Some(n) => if n <= 0x7fff_ffff_ffff_ffff {
                Some(-(n as i64))
            } else if n == 0x8000_0000_0000_0000 {
                Some(i64::MIN)
            } else {
                None
            },
            None => None,
        }
    } else {
        match parse_u64(s) {
            Some(n) => if n <= 0x7fff_ffff_ffff_ffff {
                Some(n as i64)
            } else {
                None
            },
            None => None,
        }
    }
}

/// The decimal digits of `n`.
pub fn show_u64(n: u64) -> (r: String)
    ensures
        r@ == digits_of(n as nat),
    decreases n,
{
    let mut out = if n < 10 {
        String::new()
    } else {
        show_u64(n / 10)
    };
    out.push(((n % 10) as u8 + 48) as char);
    assert(n < 10 ==> out@ =~= digits_of(n as nat));
    out
}

} // verus!
