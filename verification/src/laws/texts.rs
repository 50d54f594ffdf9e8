//! Laws of text handling.

use crate::order::{bytes_before, bytes_lt, same_bytes, same_text, text_before, text_lt};
use crate::text::{
    bare_start, chars_of, contains, decimal_value, digits_of, digits_read_back, is_decimal,
    is_digit, is_white, last_index, lower_char, lowered, occurs_in, opt_str, opt_text, parse_i64,
    parse_u64, pieces, rfind, show_u64, split, strip_bare, text_of, to_lower, trim, trimmed,
    trimmed_end, trimmed_start, unsigned_value, views,
};
use vstd::prelude::*;
use vstd::utf8::encode_utf8;

verus! {

/// White space is what Unicode gives the property `White_Space`.
pub proof fn white_space_is_known(c: char)
    ensures
        is_white(c) <==> (0x9 <= c as u32 <= 0xd || c as u32 == 0x20 || c as u32 == 0x85 || c as u32
            == 0xa0 || c as u32 == 0x1680 || 0x2000 <= c as u32 <= 0x200a || c as u32 == 0x2028
            || c as u32 == 0x2029 || c as u32 == 0x202f || c as u32 == 0x205f || c as u32 == 0x3000),
{
}

/// Whether every character is white space.
pub open spec fn all_white(s: Seq<char>) -> bool {
    forall|i: int| 0 <= i < s.len() ==> is_white(#[trigger] s[i])
}

/// Whether a text neither starts nor ends with white space.
pub open spec fn no_white_ends(s: Seq<char>) -> bool {
    s.len() > 0 ==> !is_white(s[0]) && !is_white(s.last())
}

pub(crate) proof fn start_is_white(a: Seq<char>, m: Seq<char>)
    requires
        all_white(a),
        m.len() > 0 ==> !is_white(m[0]),
    ensures
        trimmed_start(a + m) == m,
    decreases a.len(),
{
    if a.len() > 0 {
        assert(is_white(a[0]));
        assert((a + m).drop_first() =~= a.drop_first() + m);
        assert forall|i: int| 0 <= i < a.drop_first().len() implies is_white(
            #[trigger] a.drop_first()[i],
        ) by {
            assert(is_white(a[i + 1]));
        }
        start_is_white(a.drop_first(), m);
    } else {
        assert(a + m =~= m);
    }
}

pub(crate) proof fn end_is_white(m: Seq<char>, b: Seq<char>)
    requires
        all_white(b),
        m.len() > 0 ==> !is_white(m.last()),
    ensures
        trimmed_end(m + b) == m,
    decreases b.len(),
{
    if b.len() > 0 {
        assert(is_white(b[b.len() - 1]));
        assert((m + b).drop_last() =~= m + b.drop_last());
        assert forall|i: int| 0 <= i < b.drop_last().len() implies is_white(
            #[trigger] b.drop_last()[i],
        ) by {
            assert(is_white(b[i]));
        }
        end_is_white(m, b.drop_last());
    } else {
        assert(m + b =~= m);
    }
}

/// Trimming takes off the white space at both ends, however much, and nothing
/// else.
pub proof fn trimming_takes_off_white_ends(
    s: &str,
    a: Seq<char>,
    m: Seq<char>,
    b: Seq<char>,
    r: String,
)
    requires
        call_ensures(trim, (s,), r),
        s@ == a + m + b,
        all_white(a),
        all_white(b),
        no_white_ends(m),
    ensures
        r@ == m,
        trimmed(s@) == m,
{
    if m.len() > 0 {
        assert(a + m + b =~= a + (m + b));
        assert((m + b)[0] == m[0]);
        start_is_white(a, m + b);
        end_is_white(m, b);
    } else {
        let none = Seq::<char>::empty();
        let all = a + b;
        assert(m =~= none);
        assert(s@ =~= all + none);
        assert forall|i: int| 0 <= i < all.len() implies is_white(#[trigger] all[i]) by {
            if i < a.len() {
                assert(is_white(a[i]));
            } else {
                assert(is_white(b[i - a.len()]));
            }
        }
        start_is_white(all, none);
        assert(trimmed_end(none) =~= none);
    }
}

/// Whether every character is white space or a dot.
pub open spec fn all_white_or_dots(s: Seq<char>) -> bool {
    forall|i: int| 0 <= i < s.len() ==> is_white(#[trigger] s[i]) || s[i] == '.'
}

/// Whether a text starts with neither white space nor a dot, and does not end
/// with white space.
pub open spec fn is_bare(s: Seq<char>) -> bool {
    s.len() > 0 ==> !is_white(s[0]) && s[0] != '.' && !is_white(s.last())
}

pub(crate) proof fn start_is_skipped(a: Seq<char>, m: Seq<char>)
    requires
        all_white_or_dots(a),
        m.len() > 0 ==> !is_white(m[0]) && m[0] != '.',
    ensures
        bare_start(a + m) == m,
    decreases a.len(),
{
    if a.len() > 0 {
        assert(is_white(a[0]) || a[0] == '.');
        assert((a + m).drop_first() =~= a.drop_first() + m);
        assert forall|i: int| 0 <= i < a.drop_first().len() implies is_white(
            #[trigger] a.drop_first()[i],
        ) || a.drop_first()[i] == '.' by {
            assert(is_white(a[i + 1]) || a[i + 1] == '.');
        }
        start_is_skipped(a.drop_first(), m);
    } else {
        assert(a + m =~= m);
    }
}

/// Stripping takes off the white space and dots in front and the white space
/// behind, however much of them, and nothing else.
pub proof fn stripping_bares(s: &str, a: Seq<char>, m: Seq<char>, b: Seq<char>, r: String)
    requires
        call_ensures(strip_bare, (s,), r),
        s@ == a + m + b,
        all_white_or_dots(a),
        all_white(b),
        is_bare(m),
        m.len() > 0 || b.len() == 0,
    ensures
        r@ == m,
        trimmed_end(bare_start(s@)) == m,
{
    assert(a + m + b =~= a + (m + b));
    if m.len() > 0 {
        assert((m + b)[0] == m[0]);
    } else {
        assert(m + b =~= m);
    }
    start_is_skipped(a, m + b);
    end_is_white(m, b);
}

/// Lowering makes each of the letters from `A` to `Z` small and keeps every other
/// character in its place.
pub proof fn lowering_goes_letter_by_letter(s: &str, r: String, i: int)
    requires
        call_ensures(to_lower, (s,), r),
        0 <= i < s@.len(),
    ensures
        r@.len() == s@.len(),
        r@ == lowered(s@),
        65 <= s@[i] as u32 <= 90 ==> r@[i] as u32 == s@[i] as u32 + 32,
        !(65 <= s@[i] as u32 <= 90) ==> r@[i] == s@[i],
{
    lowering_keeps_places(s@, i);
}

/// The same of what lowering is said to give.
pub proof fn lowering_keeps_places(s: Seq<char>, i: int)
    requires
        0 <= i < s.len(),
    ensures
        lowered(s).len() == s.len(),
        65 <= s[i] as u32 <= 90 ==> lowered(s)[i] as u32 == s[i] as u32 + 32,
        !(65 <= s[i] as u32 <= 90) ==> lowered(s)[i] == s[i],
{
    let c: char = s[i];
    lower_code(c);
}

proof fn lower_code(c: char)
    ensures
        65 <= c as u32 <= 90 ==> lower_char(c) as u32 == c as u32 + 32,
        !(65 <= c as u32 <= 90) ==> lower_char(c) == c,
{
}

proof fn piece_at_end(a: Seq<char>, b: Seq<char>, sep: char)
    requires
        !b.contains(sep),
    ensures
        pieces(a + seq![sep] + b, sep) == pieces(a, sep).push(b),
        pieces(b, sep) == seq![b],
    decreases b.len(),
{
    let whole = a + seq![sep] + b;
    if b.len() == 0 {
        assert(whole.drop_last() =~= a);
        assert(b =~= Seq::<char>::empty());
    } else {
        let rest = b.drop_last();
        assert(whole.drop_last() =~= a + seq![sep] + rest);
        assert(b.contains(b.last()));
        assert(!rest.contains(sep)) by {
            if rest.contains(sep) {
                let k = choose|k: int| 0 <= k < rest.len() && rest[k] == sep;
                assert(b[k] == sep);
            }
        }
        piece_at_end(a, rest, sep);
        assert(rest.push(b.last()) =~= b);
        assert(pieces(a, sep).push(rest).drop_last() =~= pieces(a, sep));
        assert(seq![rest].drop_last().push(b) =~= seq![b]);
        assert(whole.last() == b.last());
    }
}

/// Splitting cuts at every separator: a text without one is one piece, and what
/// follows the last separator is one piece more than what comes before it.
pub proof fn splitting_cuts_at_separators(
    whole: &str,
    before: &str,
    last: Seq<char>,
    sep: char,
    r: Vec<String>,
    front: Vec<String>,
)
    requires
        call_ensures(split, (whole, sep), r),
        call_ensures(split, (before, sep), front),
        !last.contains(sep),
    ensures
        whole@ == last ==> r@.len() == 1 && r@[0]@ == last,
        whole@ == before@ + seq![sep] + last ==> {
            &&& r@.len() == front@.len() + 1
            &&& r@.last()@ == last
            &&& forall|i: int| 0 <= i < front@.len() ==> (#[trigger] r@[i])@ == front@[i]@
        },
{
    piece_at_end(before@, last, sep);
    assert(views(r@) == pieces(whole@, sep) && views(r@).len() == r@.len());
    assert(views(front@) == pieces(before@, sep) && views(front@).len() == front@.len());
    if whole@ == last {
        assert(views(r@)[0] == r@[0]@);
    }
    if whole@ == before@ + seq![sep] + last {
        assert(views(r@)[r@.len() - 1] == r@.last()@);
        assert forall|i: int| 0 <= i < front@.len() implies (#[trigger] r@[i])@ == front@[i]@ by {
            assert(views(r@)[i] == views(front@)[i]);
        }
    }
}

/// A piece is what stands between two separators, or between one and an end.
pub proof fn pieces_are_between_separators(s: Seq<char>, sep: char, p: Seq<char>)
    ensures
        pieces(s, sep).contains(p) <==> is_piece(s, sep, p),
    decreases s.len(),
{
    if s.contains(sep) {
        let at = last_place(s, sep);
        let a = s.take(at);
        let b = s.skip(at + 1);
        assert(s =~= a + seq![sep] + b);
        assert(!b.contains(sep)) by {
            if b.contains(sep) {
                let k = choose|k: int| 0 <= k < b.len() && b[k] == sep;
                assert(s[at + 1 + k] == sep);
            }
        }
        piece_at_end(a, b, sep);
        pieces_are_between_separators(a, sep, p);
        let all = pieces(a, sep).push(b);
        assert(all.contains(p) <==> pieces(a, sep).contains(p) || p == b) by {
            if pieces(a, sep).contains(p) {
                let k = choose|k: int| 0 <= k < pieces(a, sep).len() && pieces(a, sep)[k] == p;
                assert(all[k] == p);
            }
            if p == b {
                assert(all[all.len() - 1] == p);
            }
            if all.contains(p) {
                let k = choose|k: int| 0 <= k < all.len() && all[k] == p;
                if k < pieces(a, sep).len() {
                    assert(pieces(a, sep)[k] == p);
                }
            }
        }
        if is_piece(s, sep, p) {
            let (i, j) = choose|i: int, j: int| #[trigger] is_between(s, sep, p, i, j);
            if j <= at {
                assert(a.subrange(i, j) =~= p);
                if j < at {
                    assert(a[j] == sep);
                }
                assert(is_between(a, sep, p, i, j));
            } else {
                if i <= at {
                    assert(p[at - i] == sep);
                    assert(p.contains(sep));
                }
                assert(i == at + 1);
                if j < s.len() {
                    assert(s[j] == sep);
                }
                assert(p =~= b);
            }
        }
        if is_piece(a, sep, p) {
            let (i, j) = choose|i: int, j: int| #[trigger] is_between(a, sep, p, i, j);
            assert(s.subrange(i, j) =~= p);
            assert(is_between(s, sep, p, i, j));
        }
        if p == b {
            assert(s.subrange(at + 1, s.len() as int) =~= p);
            assert(is_between(s, sep, p, at + 1, s.len() as int));
        }
    } else {
        piece_at_end(Seq::empty(), s, sep);
        assert(seq![s].contains(p) <==> p == s) by {
            assert(seq![s][0] == s);
        }
        if p == s {
            assert(s.subrange(0, s.len() as int) =~= p);
            assert(is_between(s, sep, p, 0, s.len() as int));
        }
        if is_piece(s, sep, p) {
            let (i, j) = choose|i: int, j: int| #[trigger] is_between(s, sep, p, i, j);
            if i > 0 {
                assert(s.contains(s[i - 1]));
            }
            if j < s.len() {
                assert(s.contains(s[j]));
            }
            assert(p =~= s);
        }
    }
}

/// Whether `p` is what stands from `i` to `j` between separators or ends.
pub open spec fn is_between(s: Seq<char>, sep: char, p: Seq<char>, i: int, j: int) -> bool {
    &&& 0 <= i <= j <= s.len()
    &&& i == 0 || s[i - 1] == sep
    &&& j == s.len() || s[j] == sep
    &&& p == s.subrange(i, j)
    &&& !p.contains(sep)
}

/// Whether `p` is a piece of `s`.
pub open spec fn is_piece(s: Seq<char>, sep: char, p: Seq<char>) -> bool {
    exists|i: int, j: int| #[trigger] is_between(s, sep, p, i, j)
}

pub(crate) proof fn last_place(s: Seq<char>, c: char) -> (at: int)
    requires
        s.contains(c),
    ensures
        0 <= at < s.len(),
        s[at] == c,
        forall|j: int| at < j < s.len() ==> s[j] != c,
        last_index(s, c) == Some(at),
    decreases s.len(),
{
    if s.last() == c {
        s.len() - 1
    } else {
        let rest = s.drop_last();
        let k = choose|k: int| 0 <= k < s.len() && s[k] == c;
        assert(rest[k] == c);
        let at = last_place(rest, c);
        assert forall|j: int| at < j < s.len() implies s[j] != c by {
            if j < rest.len() {
                assert(rest[j] != c);
            }
        }
        at
    }
}

pub(crate) proof fn no_place(s: Seq<char>, c: char)
    requires
        !s.contains(c),
    ensures
        last_index(s, c) is None,
    decreases s.len(),
{
    if s.len() > 0 {
        assert(s.contains(s.last()));
        assert(!s.drop_last().contains(c)) by {
            if s.drop_last().contains(c) {
                let k = choose|k: int| 0 <= k < s.drop_last().len() && s.drop_last()[k] == c;
                assert(s[k] == c);
            }
        }
        no_place(s.drop_last(), c);
    }
}

/// The place found for a character is its last.
pub proof fn last_one_is_found(chars: Vec<char>, c: char, r: Option<usize>)
    requires
        call_ensures(rfind, (&chars, c), r),
    ensures
        match r {
            Some(i) => i < chars@.len() && chars@[i as int] == c && forall|j: int|
                i < j < chars@.len() ==> chars@[j] != c,
            None => !chars@.contains(c),
        },
{
    if chars@.contains(c) {
        let _ = last_place(chars@, c);
    } else {
        no_place(chars@, c);
    }
}

/// A text contains another if and only if it is that one with something in front
/// and something behind.
pub proof fn containing_is_having_around(s: &str, part: &str, a: Seq<char>, b: Seq<char>, r: bool)
    requires
        call_ensures(contains, (s, part), r),
    ensures
        s@ == a + part@ + b ==> r && occurs_in(part@, s@),
        r ==> exists|x: Seq<char>, y: Seq<char>| s@ == #[trigger] (x + part@ + y),
        r == occurs_in(part@, s@),
{
    if s@ == a + part@ + b {
        assert(s@.subrange(a.len() as int, (a.len() + part@.len()) as int) =~= part@);
    }
    if occurs_in(part@, s@) {
        let i = choose|i: int|
            0 <= i <= s@.len() - part@.len() && #[trigger] s@.subrange(i, i + part@.len()) == part@;
        let x = s@.take(i);
        let y = s@.skip(i + part@.len());
        assert(s@ =~= x + part@ + y) by {
            assert forall|k: int| 0 <= k < s@.len() implies s@[k] == (x + part@ + y)[k] by {
                if i <= k < i + part@.len() {
                    assert(s@.subrange(i, i + part@.len())[k - i] == s@[k]);
                }
            }
        }
    }
}

/// A digit more is ten times the number and the digit; a single digit is itself,
/// a plus sign in front changes nothing, and what is no digit makes it no number.
pub proof fn reading_goes_digit_by_digit(
    whole: &str,
    front: &str,
    c: char,
    r: Option<u64>,
    f: Option<u64>,
)
    requires
        call_ensures(parse_u64, (whole,), r),
        call_ensures(parse_u64, (front,), f),
    ensures
        whole@ == seq![c] ==> r == (if 48 <= c as u32 <= 57 {
            Some((c as u32 - 48) as u64)
        } else {
            None
        }),
        whole@ == front@.push(c) && f is Some && 48 <= c as u32 <= 57 ==> r == (if f->0 * 10 + (
        c as u32 - 48) <= u64::MAX {
            Some((f->0 * 10 + (c as u32 - 48)) as u64)
        } else {
            None
        }),
        whole@ == front@.push(c) && front@.len() > 0 && front@ != seq!['+'] && f is None ==> r is None,
        whole@ == front@.push(c) && !(48 <= c as u32 <= 57) ==> r is None,
        whole@ == seq!['+'] + front@ && front@.len() > 0 && front@[0] != '+' ==> r == f,
        whole@ == seq!['+', '+'] + front@ ==> r is None,
        whole@.len() == 0 ==> r is None,
        whole@ == seq!['+'] ==> r is None,
{
    reading_push(front@, c);
    reading_push(Seq::empty(), c);
    assert(Seq::<char>::empty().push(c) =~= seq![c]);
    reading_plus(front@);
    if whole@.len() == 0 {
        assert(whole@ =~= Seq::<char>::empty());
    }
}

proof fn digit_code(c: char)
    ensures
        is_digit(c) <==> 48 <= c as u32 <= 57,
        c == '+' ==> !is_digit(c),
        c == '-' ==> !is_digit(c),
{
}

proof fn decimal_push(s: Seq<char>, c: char)
    ensures
        is_decimal(s.push(c)) <==> (s.len() == 0 || is_decimal(s)) && is_digit(c),
        is_digit(c) ==> decimal_value(s.push(c)) == 10 * decimal_value(s) + (c as u32 - 48),
{
    let all = s.push(c);
    digit_code(c);
    assert(all.drop_last() =~= s);
    if is_decimal(all) {
        assert(is_digit(all[all.len() - 1]));
        assert forall|i: int| 0 <= i < s.len() implies is_digit(#[trigger] s[i]) by {
            assert(is_digit(all[i]));
        }
    }
    if (s.len() == 0 || is_decimal(s)) && is_digit(c) {
        assert forall|i: int| 0 <= i < all.len() implies is_digit(#[trigger] all[i]) by {
            if i < s.len() {
                assert(all[i] == s[i]);
            }
        }
    }
}

/// One more character behind a text: how the number that it writes changes.
proof fn reading_push(front: Seq<char>, c: char)
    ensures
        ({
            let whole = unsigned_value(front.push(c));
            let before = unsigned_value(front);
            let digit = 48 <= c as u32 <= 57;
            &&& front.len() == 0 && digit ==> whole == Some((c as u32 - 48) as nat)
            &&& before is Some && digit ==> whole == Some((10 * before->0 + (c as u32 - 48)) as nat)
            &&& front.len() > 0 && front != seq!['+'] && before is None ==> whole is None
            &&& !digit ==> whole is None
        }),
{
    let whole = front.push(c);
    digit_code(c);
    digit_code('+');
    if front.len() > 0 && front[0] == '+' {
        let rest = front.drop_first();
        decimal_push(rest, c);
        assert(whole.drop_first() =~= rest.push(c));
        if front.len() == 1 {
            assert(front =~= seq!['+']);
        }
    } else {
        decimal_push(front, c);
        if front.len() == 0 {
            assert(decimal_value(front) == 0);
            assert(whole[0] == c);
            if c == '+' {
                assert(whole.drop_first() =~= Seq::<char>::empty());
            }
        }
    }
}

/// Signs that are not followed by a number write none, and a plus sign in front
/// of a number changes nothing.
proof fn reading_plus(front: Seq<char>)
    ensures
        front.len() > 0 && front[0] != '+' ==> unsigned_value(seq!['+'] + front) == unsigned_value(
            front,
        ),
        unsigned_value(seq!['+', '+'] + front) is None,
        unsigned_value(Seq::empty()) is None,
        unsigned_value(seq!['+']) is None,
{
    digit_code('+');
    assert((seq!['+'] + front).drop_first() =~= front);
    let two = seq!['+', '+'] + front;
    assert(!is_digit(two.drop_first()[0]));
    assert(seq!['+'].drop_first() =~= Seq::<char>::empty());
}

/// A minus sign in front of a number makes it negative; without one the number is
/// the unsigned one, as long as it fits.
pub proof fn sign_decides(whole: &str, digits: &str, r: Option<i64>, d: Option<u64>)
    requires
        call_ensures(parse_i64, (whole,), r),
        call_ensures(parse_u64, (digits,), d),
    ensures
        whole@ == digits@ && (whole@.len() == 0 || whole@[0] != '-') ==> r == (match d {
            Some(n) => if n <= i64::MAX {
                Some(n as i64)
            } else {
                None
            },
            None => None,
        }),
        whole@ == seq!['-'] + digits@ && digits@.len() > 0 && digits@[0] != '+' ==> match (r, d) {
            (Some(v), Some(n)) => v as int == -(n as int),
            (Some(_), None) => false,
            (None, Some(n)) => n > 0x8000_0000_0000_0000,
            (None, None) => true,
        },
        whole@ == seq!['-', '+'] + digits@ ==> r is None,
        whole@ == seq!['-'] ==> r is None,
{
    let none = Seq::<char>::empty();
    digit_code('+');
    if whole@ == seq!['-'] + digits@ {
        assert(whole@.drop_first() =~= digits@);
    }
    if whole@ == seq!['-', '+'] + digits@ {
        assert(whole@.drop_first()[0] == '+');
        assert(!is_digit(whole@.drop_first()[0]));
    }
    if whole@ == seq!['-'] {
        assert(whole@.drop_first() =~= none);
    }
}

/// A number that is written reads back as the same number; what is written is
/// digits, and starts with no zero unless the number is zero.
pub proof fn written_number_reads_back(n: u64, s: String, t: &str, r: Option<u64>)
    requires
        call_ensures(show_u64, (n,), s),
        call_ensures(parse_u64, (t,), r),
        t@ == s@,
    ensures
        r == Some(n),
        s@.len() > 0,
        forall|i: int| 0 <= i < s@.len() ==> 48 <= (#[trigger] s@[i]) as u32 <= 57,
        n > 0 ==> s@[0] as u32 != 48,
{
    digits_are_plain(n as nat);
    digits_read_back(n as nat);
    let d = digits_of(n as nat);
    assert(is_digit(d[0]));
    digit_code(d[0]);
    assert(d[0] != '+');
}

/// Written numbers are digits, the first of them no zero unless the number is
/// zero.
pub proof fn digits_are_plain(n: nat)
    ensures
        digits_of(n).len() > 0,
        forall|i: int| 0 <= i < digits_of(n).len() ==> 48 <= (#[trigger] digits_of(n)[i]) as u32
            <= 57,
        n > 0 ==> digits_of(n)[0] as u32 != 48,
        n < 10 ==> digits_of(n).len() == 1 && digits_of(n)[0] as u32 == 48 + n,
        n >= 10 ==> digits_of(n) == digits_of(n / 10) + digits_of(n % 10),
    decreases n,
{
    if n >= 10 {
        digits_are_plain(n / 10);
        assert(digits_of(n) =~= digits_of(n / 10) + digits_of(n % 10));
        assert forall|i: int| 0 <= i < digits_of(n).len() implies 48 <= (
        #[trigger] digits_of(n)[i]) as u32 <= 57 by {
            if i < digits_of(n / 10).len() {
                assert(digits_of(n)[i] == digits_of(n / 10)[i]);
            }
        }
    }
}

/// One byte string precedes another if and only if it is a proper start of it, or
/// has the smaller byte at the first place where they differ.
pub proof fn first_difference_decides(a: Seq<u8>, b: Seq<u8>, k: int)
    requires
        0 <= k <= a.len(),
        k <= b.len(),
        forall|i: int| 0 <= i < k ==> a[i] == b[i],
        k == a.len() || k == b.len() || a[k] != b[k],
    ensures
        bytes_lt(a, b) <==> (k < b.len() && (k == a.len() || a[k] < b[k])),
    decreases k,
{
    if k > 0 {
        assert(a[0] == b[0]);
        assert forall|i: int| 0 <= i < k - 1 implies a.drop_first()[i] == b.drop_first()[i] by {
            assert(a[i + 1] == b[i + 1]);
        }
        first_difference_decides(a.drop_first(), b.drop_first(), k - 1);
    }
}

/// Texts are compared by their bytes, at the first that differs.
pub proof fn texts_are_compared_by_bytes(a: &str, b: &str, k: int, r: bool)
    requires
        call_ensures(text_before, (a, b), r),
        0 <= k <= encode_utf8(a@).len(),
        k <= encode_utf8(b@).len(),
        forall|i: int| 0 <= i < k ==> encode_utf8(a@)[i] == encode_utf8(b@)[i],
        k == encode_utf8(a@).len() || k == encode_utf8(b@).len() || encode_utf8(a@)[k]
            != encode_utf8(b@)[k],
    ensures
        r == text_lt(a@, b@),
        r <==> (k < encode_utf8(b@).len() && (k == encode_utf8(a@).len() || encode_utf8(a@)[k]
            < encode_utf8(b@)[k])),
{
    first_difference_decides(encode_utf8(a@), encode_utf8(b@), k);
}

/// Byte strings are compared at the first byte that differs, and are the same if
/// none does.
pub proof fn bytes_are_compared_in_turn(a: &[u8], b: &[u8], k: int, before: bool, same: bool)
    requires
        call_ensures(bytes_before, (a, b), before),
        call_ensures(same_bytes, (a, b), same),
        0 <= k <= a@.len(),
        k <= b@.len(),
        forall|i: int| 0 <= i < k ==> a@[i] == b@[i],
        k == a@.len() || k == b@.len() || a@[k] != b@[k],
    ensures
        before <==> (k < b@.len() && (k == a@.len() || a@[k] < b@[k])),
        same <==> k == a@.len() && k == b@.len(),
{
    first_difference_decides(a@, b@, k);
    if k == a@.len() && k == b@.len() {
        assert(a@ =~= b@);
    }
}

/// Texts are the same if and only if they have the same characters.
pub proof fn same_texts_have_the_same_characters(a: &str, b: &str, r: bool)
    requires
        call_ensures(same_text, (a, b), r),
    ensures
        r <==> a@.len() == b@.len() && forall|i: int|
            0 <= i < a@.len() ==> #[trigger] a@[i] == b@[i],
{
    if a@.len() == b@.len() && forall|i: int| 0 <= i < a@.len() ==> #[trigger] a@[i] == b@[i] {
        assert(a@ =~= b@);
    }
}

/// Taking a text apart and putting a stretch of it together gives the characters
/// of that stretch.
pub proof fn stretch_has_its_characters(
    s: &str,
    chars: Vec<char>,
    from: usize,
    to: usize,
    r: String,
    i: int,
)
    requires
        call_ensures(chars_of, (s,), chars),
        from <= to <= s@.len(),
        call_ensures(text_of, (&chars, from, to), r),
    ensures
        chars@.len() == s@.len(),
        0 <= i < s@.len() ==> chars@[i] == s@[i],
        call_requires(text_of, (&chars, from, to)),
        r@.len() == to - from,
        0 <= i < r@.len() ==> r@[i] == s@[from + i],
{
}

/// A text that may be missing says what it holds, and a list of texts says what
/// each of them holds.
pub proof fn contents_are_what_is_held(
    text: Option<String>,
    part: Option<&str>,
    list: Seq<String>,
    i: int,
)
    ensures
        match text {
            Some(t) => opt_text(text) == Some(t@),
            None => opt_text(text) is None,
        },
        match part {
            Some(t) => opt_str(part) == Some(t@),
            None => opt_str(part) is None,
        },
        views(list).len() == list.len(),
        0 <= i < list.len() ==> views(list)[i] == list[i]@,
{
}

} // verus!
