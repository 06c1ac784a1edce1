//! Character-level helpers: reading a string into characters, splitting on a
//! separator, and decimal numbers in both directions.

use vstd::prelude::*;

verus! {

/// The characters of `s`, in order.
pub fn chars_of(s: &str) -> (v: Vec<char>)
    ensures
        v@ == s@,
{
    let mut v: Vec<char> = Vec::new();
    for c in it: s.chars()
        invariant
            v@ == it.seq().take(it.index()),
            it.seq() == s@,
    {
        v.push(c);
    }
    v
}

/// The pieces of `s` between occurrences of `sep`. There is always at least
/// one piece; a separator opens a new, empty piece, and any other character
/// extends the last piece.
pub open spec fn split_spec(s: Seq<char>, sep: char) -> Seq<Seq<char>>
    decreases s.len(),
{
    if s.len() == 0 {
        seq![Seq::<char>::empty()]
    } else {
        let before = split_spec(s.drop_last(), sep);
        if s.last() == sep {
            before.push(Seq::<char>::empty())
        } else {
            before.update(before.len() - 1, before.last().push(s.last()))
        }
    }
}

/// Whether `ranges` gives, piece by piece, the position in `s` of the pieces
/// of `s.subrange(lo, hi)` split on `sep`.
pub open spec fn ranges_split(
    ranges: Seq<(usize, usize)>,
    s: Seq<char>,
    lo: int,
    hi: int,
    sep: char,
) -> bool {
    let pieces = split_spec(s.subrange(lo, hi), sep);
    &&& ranges.len() == pieces.len()
    &&& forall|k: int|
        0 <= k < ranges.len() ==> {
            &&& lo <= (#[trigger] ranges[k]).0 <= ranges[k].1 <= hi
            &&& s.subrange(ranges[k].0 as int, ranges[k].1 as int) == pieces[k]
        }
}

/// Splits `chars[lo..hi]` on `sep` and returns where each piece lies.
pub fn split_ranges(chars: &Vec<char>, lo: usize, hi: usize, sep: char) -> (ranges: Vec<
    (usize, usize),
>)
    requires
        lo <= hi <= chars.len(),
    ensures
        ranges_split(ranges@, chars@, lo as int, hi as int, sep),
        ranges.len() >= 1,
{
    let mut ranges: Vec<(usize, usize)> = Vec::new();
    let mut start: usize = lo;
    let mut i: usize = lo;
    proof {
        assert(chars@.subrange(lo as int, lo as int) =~= Seq::<char>::empty());
    }
    while i < hi
        invariant
            lo <= start <= i <= hi <= chars.len(),
            ranges.len() + 1 == split_spec(chars@.subrange(lo as int, i as int), sep).len(),
            forall|k: int|
                0 <= k < ranges.len() ==> {
                    &&& lo <= (#[trigger] ranges[k]).0 <= ranges[k].1 <= i
                    &&& chars@.subrange(ranges[k].0 as int, ranges[k].1 as int) == split_spec(
                        chars@.subrange(lo as int, i as int),
                        sep,
                    )[k]
                },
            chars@.subrange(start as int, i as int) == split_spec(
                chars@.subrange(lo as int, i as int),
                sep,
            ).last(),
        decreases hi - i,
    {
        let ghost prev = split_spec(chars@.subrange(lo as int, i as int), sep);
        proof {
            let next = chars@.subrange(lo as int, i + 1);
            assert(next.drop_last() =~= chars@.subrange(lo as int, i as int));
            assert(next.last() == chars@[i as int]);
        }
        if chars[i] == sep {
            ranges.push((start, i));
            start = i + 1;
            proof {
                assert(chars@.subrange(start as int, i + 1) =~= Seq::<char>::empty());
            }
        } else {
            proof {
                assert(chars@.subrange(start as int, i + 1) =~= chars@.subrange(
                    start as int,
                    i as int,
                ).push(chars@[i as int]));
            }
        }
        i = i + 1;
    }
    ranges.push((start, hi));
    ranges
}

/// Whether `c` is one of the ten decimal digits.
pub open spec fn is_digit(c: char) -> bool {
    48 <= c as u32 <= 57
}

/// The number that the digit `c` stands for; 0 for any other character.
pub open spec fn digit_of(c: char) -> nat {
    if is_digit(c) {
        (c as u32 - 48) as nat
    } else {
        0
    }
}

/// Whether every character of `s` is a decimal digit.
pub open spec fn all_digits(s: Seq<char>) -> bool {
    forall|i: int| 0 <= i < s.len() ==> is_digit(#[trigger] s[i])
}

/// The number written by the digits `s`, most significant first.
pub open spec fn digits_value(s: Seq<char>) -> nat
    decreases s.len(),
{
    if s.len() == 0 {
        0
    } else {
        10 * digits_value(s.drop_last()) + digit_of(s.last())
    }
}

/// `s` without one leading plus sign, if it has one.
pub open spec fn without_plus(s: Seq<char>) -> Seq<char> {
    if s.len() > 0 && s[0] == '+' {
        s.subrange(1, s.len() as int)
    } else {
        s
    }
}

/// The 32-bit unsigned number that `s` writes in decimal: an optional plus
/// sign, then one or more digits whose value fits. Anything else is no number.
pub open spec fn parse_u32_spec(s: Seq<char>) -> Option<u32> {
    let d = without_plus(s);
    if d.len() > 0 && all_digits(d) && digits_value(d) <= u32::MAX {
        Some(digits_value(d) as u32)
    } else {
        None
    }
}

/// A prefix of a digit string never writes a larger number than the whole.
pub proof fn lemma_digits_value_prefix(s: Seq<char>, k: int)
    requires
        0 <= k <= s.len(),
    ensures
        digits_value(s.take(k)) <= digits_value(s),
    decreases s.len(),
{
    if k == s.len() {
        assert(s.take(k) =~= s);
    } else {
        assert(s.drop_last().take(k) =~= s.take(k));
        lemma_digits_value_prefix(s.drop_last(), k);
    }
}

/// Reads `chars[lo..hi]` as a 32-bit unsigned decimal number.
pub fn parse_u32(chars: &Vec<char>, lo: usize, hi: usize) -> (r: Option<u32>)
    requires
        lo <= hi <= chars.len(),
    ensures
        r == parse_u32_spec(chars@.subrange(lo as int, hi as int)),
{
    let ghost s = chars@.subrange(lo as int, hi as int);
    let mut i: usize = lo;
    if lo < hi && chars[lo] == '+' {
        i = lo + 1;
    }
    let first: usize = i;
    let ghost d = without_plus(s);
    proof {
        assert(d =~= chars@.subrange(first as int, hi as int));
    }
    if i == hi {
        return None;
    }
    let mut acc: u64 = 0;
    while i < hi
        invariant
            first <= i <= hi <= chars.len(),
            d == chars@.subrange(first as int, hi as int),
            d == without_plus(chars@.subrange(lo as int, hi as int)),
            all_digits(d.take(i - first)),
            acc == digits_value(d.take(i - first)),
            acc <= u32::MAX,
        decreases hi - i,
    {
        let c = chars[i];
        let code: u32 = c as u32;
        proof {
            assert(d[i - first] == c);
            assert(d.take(i - first + 1).drop_last() =~= d.take(i - first));
            assert(d.take(i - first + 1).last() == c);
        }
        if code < 48 || code > 57 {
            assert(!is_digit(d[i - first]));
            return None;
        }
        acc = acc * 10 + (code - 48) as u64;
        i = i + 1;
        if acc > 0xffff_ffff {
            proof {
                lemma_digits_value_prefix(d, i - first);
            }
            assert(digits_value(d) > u32::MAX);
            return None;
        }
    }
    proof {
        assert(d.take(i - first) =~= d);
    }
    Some(acc as u32)
}

/// The character for the digit `d`.
pub open spec fn digit_char(d: nat) -> char {
    (48 + d) as u8 as char
}

/// `n` written in decimal, without leading zeros.
pub open spec fn decimal(n: nat) -> Seq<char>
    decreases n,
{
    if n < 10 {
        seq![digit_char(n)]
    } else {
        decimal(n / 10).push(digit_char(n % 10))
    }
}

/// `i` written in decimal, with a minus sign when it is negative.
pub open spec fn signed_decimal(i: int) -> Seq<char> {
    if i < 0 {
        seq!['-'] + decimal((-i) as nat)
    } else {
        decimal(i as nat)
    }
}

fn digit_str(d: u8) -> (r: &'static str)
    requires
        d < 10,
    ensures
        r@ == seq![digit_char(d as nat)],
{
    proof {
        reveal_strlit("0");
        reveal_strlit("1");
        reveal_strlit("2");
        reveal_strlit("3");
        reveal_strlit("4");
        reveal_strlit("5");
        reveal_strlit("6");
        reveal_strlit("7");
        reveal_strlit("8");
        reveal_strlit("9");
    }
    let r = if d == 0 {
        "0"
    } else if d == 1 {
        "1"
    } else if d == 2 {
        "2"
    } else if d == 3 {
        "3"
    } else if d == 4 {
        "4"
    } else if d == 5 {
        "5"
    } else if d == 6 {
        "6"
    } else if d == 7 {
        "7"
    } else if d == 8 {
        "8"
    } else {
        "9"
    };
    assert(r@ =~= seq![digit_char(d as nat)]);
    r
}

/// Appends `n` in decimal to `out`.
pub fn push_decimal(out: &mut String, n: u64)
    ensures
        final(out)@ == old(out)@ + decimal(n as nat),
    decreases n,
{
    if n >= 10 {
        push_decimal(out, n / 10);
    }
    out.append(digit_str((n % 10) as u8));
    proof {
        if n >= 10 {
            assert(old(out)@ + decimal((n / 10) as nat) + seq![digit_char((n % 10) as nat)]
                =~= old(out)@ + decimal(n as nat));
        }
    }
}

/// Appends `i` in decimal to `out`, with a minus sign when it is negative.
pub fn push_signed_decimal(out: &mut String, i: i64)
    ensures
        final(out)@ == old(out)@ + signed_decimal(i as int),
{
    if i < 0 {
        proof {
            reveal_strlit("-");
        }
        out.append("-");
        let magnitude: u64 = if i == i64::MIN {
            0x8000_0000_0000_0000
        } else {
            (-i) as u64
        };
        push_decimal(out, magnitude);
        proof {
            assert("-"@ =~= seq!['-']);
            assert(old(out)@ + "-"@ + decimal(magnitude as nat) =~= old(out)@ + signed_decimal(
                i as int,
            ));
        }
    } else {
        push_decimal(out, i as u64);
    }
}

/// `String::push` appends the character to the end of the string.
pub assume_specification[ String::push ](s: &mut String, ch: char)
    ensures
        final(s)@ == old(s)@.push(ch),
;

/// The string of the characters `chars[lo..hi]`.
pub fn string_of(chars: &Vec<char>, lo: usize, hi: usize) -> (s: String)
    requires
        lo <= hi <= chars.len(),
    ensures
        s@ == chars@.subrange(lo as int, hi as int),
{
    let mut s = String::new();
    let mut i: usize = lo;
    while i < hi
        invariant
            lo <= i <= hi <= chars.len(),
            s@ == chars@.subrange(lo as int, i as int),
        decreases hi - i,
    {
        s.push(chars[i]);
        proof {
            assert(chars@.subrange(lo as int, i + 1) =~= chars@.subrange(lo as int, i as int).push(
                chars@[i as int],
            ));
        }
        i = i + 1;
    }
    s
}

/// A piece without the carriage return at its end, if it has one.
pub open spec fn without_cr(s: Seq<char>) -> Seq<char> {
    if s.len() > 0 && s.last() == '\r' {
        s.drop_last()
    } else {
        s
    }
}

/// The lines of a text: its pieces between line feeds, without a last
/// piece that is empty, each without the carriage return at its end.
pub open spec fn lines_spec(text: Seq<char>) -> Seq<Seq<char>> {
    let pieces = split_spec(text, '\n');
    let kept = if pieces.last().len() == 0 {
        pieces.drop_last()
    } else {
        pieces
    };
    kept.map_values(|p: Seq<char>| without_cr(p))
}

/// Whether `ranges` gives, line by line, the position in `s` of its lines.
pub open spec fn ranges_lines(ranges: Seq<(usize, usize)>, s: Seq<char>) -> bool {
    let lines = lines_spec(s);
    &&& ranges.len() == lines.len()
    &&& forall|k: int|
        0 <= k < ranges.len() ==> {
            &&& (#[trigger] ranges[k]).0 <= ranges[k].1 <= s.len()
            &&& s.subrange(ranges[k].0 as int, ranges[k].1 as int) == lines[k]
        }
}

/// Where each line of `chars` lies.
pub fn line_ranges(chars: &Vec<char>) -> (ranges: Vec<(usize, usize)>)
    ensures
        ranges_lines(ranges@, chars@),
{
    proof {
        assert(chars@.subrange(0, chars@.len() as int) =~= chars@);
    }
    let mut pieces = split_ranges(chars, 0, chars.len(), '\n');
    let ghost all = split_spec(chars@, '\n');
    let (a, b) = pieces[pieces.len() - 1];
    if a == b {
        pieces.pop();
    }
    let ghost kept = if all.last().len() == 0 {
        all.drop_last()
    } else {
        all
    };
    assert(pieces@.len() == kept.len());
    let mut ranges: Vec<(usize, usize)> = Vec::new();
    let mut k: usize = 0;
    while k < pieces.len()
        invariant
            k <= pieces.len(),
            pieces@.len() == kept.len(),
            forall|j: int|
                0 <= j < pieces.len() ==> {
                    &&& (#[trigger] pieces[j]).0 <= pieces[j].1 <= chars.len()
                    &&& chars@.subrange(pieces[j].0 as int, pieces[j].1 as int) == kept[j]
                },
            ranges.len() == k,
            forall|j: int|
                0 <= j < k ==> {
                    &&& (#[trigger] ranges[j]).0 <= ranges[j].1 <= chars.len()
                    &&& chars@.subrange(ranges[j].0 as int, ranges[j].1 as int) == without_cr(
                        kept[j],
                    )
                },
        decreases pieces.len() - k,
    {
        let (lo, hi) = pieces[k];
        if lo < hi && chars[hi - 1] == '\r' {
            proof {
                assert(chars@.subrange(lo as int, hi - 1) =~= chars@.subrange(
                    lo as int,
                    hi as int,
                ).drop_last());
            }
            ranges.push((lo, hi - 1));
        } else {
            ranges.push((lo, hi));
        }
        k = k + 1;
    }
    ranges
}

/// Whether `c` is white space, as Unicode defines it.
pub open spec fn is_space(c: char) -> bool {
    let u = c as u32;
    ||| 0x09 <= u <= 0x0d
    ||| u == 0x20
    ||| u == 0x85
    ||| u == 0xa0
    ||| u == 0x1680
    ||| 0x2000 <= u <= 0x200a
    ||| u == 0x2028
    ||| u == 0x2029
    ||| u == 0x202f
    ||| u == 0x205f
    ||| u == 0x3000
}

/// Whether `c` is white space.
pub fn is_whitespace(c: char) -> (r: bool)
    ensures
        r == is_space(c),
{
    let u: u32 = c as u32;
    (0x09 <= u && u <= 0x0d) || u == 0x20 || u == 0x85 || u == 0xa0 || u == 0x1680 || (0x2000 <= u
        && u <= 0x200a) || u == 0x2028 || u == 0x2029 || u == 0x202f || u == 0x205f || u == 0x3000
}

/// The first place from `i` on where `s` has a character that is white
/// space (`space` true) or is not (`space` false); the length if it has none.
pub open spec fn next_where(s: Seq<char>, i: int, space: bool) -> int
    decreases s.len() - i,
{
    if i < 0 || i >= s.len() {
        s.len() as int
    } else if is_space(s[i]) == space {
        i
    } else {
        next_where(s, i + 1, space)
    }
}

/// The first two words of a line, where it has two: a word is a longest
/// run of characters that are not white space.
pub open spec fn first_two_words(s: Seq<char>) -> Option<(Seq<char>, Seq<char>)> {
    let a = next_where(s, 0, false);
    let b = next_where(s, a, true);
    let c = next_where(s, b, false);
    let d = next_where(s, c, true);
    if c < s.len() {
        Some((s.subrange(a, b), s.subrange(c, d)))
    } else {
        None
    }
}

/// The first place in `chars[from..hi]` where the character is white space
/// or is not; `hi` if there is none.
pub fn scan(chars: &Vec<char>, from: usize, hi: usize, space: bool) -> (at: usize)
    requires
        from <= hi <= chars.len(),
    ensures
        from <= at <= hi,
        at - from == next_where(chars@.subrange(from as int, hi as int), 0, space),
{
    let ghost s = chars@.subrange(from as int, hi as int);
    let mut i: usize = from;
    while i < hi
        invariant
            from <= i <= hi <= chars.len(),
            s == chars@.subrange(from as int, hi as int),
            next_where(s, 0, space) == next_where(s, i - from, space),
        decreases hi - i,
    {
        assert(s[i - from] == chars@[i as int]);
        if is_whitespace(chars[i]) == space {
            return i;
        }
        i = i + 1;
    }
    i
}

/// Scanning a line from a later place finds what scanning the rest finds.
pub proof fn lemma_next_where_shift(s: Seq<char>, from: int, i: int, space: bool)
    requires
        0 <= from <= i <= s.len(),
    ensures
        next_where(s, i, space) == from + next_where(s.subrange(from, s.len() as int), i - from, space),
    decreases s.len() - i,
{
    let rest = s.subrange(from, s.len() as int);
    if i < s.len() {
        assert(rest[i - from] == s[i]);
        if is_space(s[i]) != space {
            lemma_next_where_shift(s, from, i + 1, space);
        }
    }
}

/// Where the first two words of `chars[lo..hi]` lie, where it has two.
pub fn two_words(chars: &Vec<char>, lo: usize, hi: usize) -> (r: Option<
    ((usize, usize), (usize, usize)),
>)
    requires
        lo <= hi <= chars.len(),
    ensures
        match r {
            Some((w1, w2)) => {
                &&& lo <= w1.0 <= w1.1 <= w2.0 <= w2.1 <= hi
                &&& first_two_words(chars@.subrange(lo as int, hi as int)) == Some(
                    (
                        chars@.subrange(w1.0 as int, w1.1 as int),
                        chars@.subrange(w2.0 as int, w2.1 as int),
                    ),
                )
            },
            None => first_two_words(chars@.subrange(lo as int, hi as int)) is None,
        },
{
    let ghost s = chars@.subrange(lo as int, hi as int);
    let a = scan(chars, lo, hi, false);
    let b = scan(chars, a, hi, true);
    let c = scan(chars, b, hi, false);
    let d = scan(chars, c, hi, true);
    proof {
        assert(s.subrange(0, s.len() as int) =~= s);
        assert(s.subrange(a - lo, s.len() as int) =~= chars@.subrange(a as int, hi as int));
        assert(s.subrange(b - lo, s.len() as int) =~= chars@.subrange(b as int, hi as int));
        assert(s.subrange(c - lo, s.len() as int) =~= chars@.subrange(c as int, hi as int));
        lemma_next_where_shift(s, a - lo, a - lo, true);
        lemma_next_where_shift(s, b - lo, b - lo, false);
        lemma_next_where_shift(s, c - lo, c - lo, true);
        assert(s.subrange(a - lo, b - lo) =~= chars@.subrange(a as int, b as int));
        assert(s.subrange(c - lo, d - lo) =~= chars@.subrange(c as int, d as int));
    }
    if c < hi {
        Some(((a, b), (c, d)))
    } else {
        None
    }
}

} // verus!
