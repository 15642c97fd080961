//! Exact character-level helpers shared by the parsers and printers:
//! decimal and hexadecimal numerals, character search, and splitting.

use vstd::prelude::*;
use vstd::string::StrSliceExecFns;

verus! {

/// A decimal digit.
pub open spec fn is_digit(c: char) -> bool {
    '0' <= c && c <= '9'
}

/// A hexadecimal digit.
pub open spec fn is_hex_digit(c: char) -> bool {
    is_digit(c) || ('a' <= c && c <= 'f') || ('A' <= c && c <= 'F')
}

/// Every character of the sequence is a decimal digit.
pub open spec fn all_digits(s: Seq<char>) -> bool {
    forall|i: int| 0 <= i < s.len() ==> is_digit(#[trigger] s[i])
}

/// Every character of the sequence is a hexadecimal digit.
pub open spec fn all_hex_digits(s: Seq<char>) -> bool {
    forall|i: int| 0 <= i < s.len() ==> is_hex_digit(#[trigger] s[i])
}

/// The digit character for a value below ten.
pub open spec fn digit_char(d: int) -> char {
    if d == 0 {
        '0'
    } else if d == 1 {
        '1'
    } else if d == 2 {
        '2'
    } else if d == 3 {
        '3'
    } else if d == 4 {
        '4'
    } else if d == 5 {
        '5'
    } else if d == 6 {
        '6'
    } else if d == 7 {
        '7'
    } else if d == 8 {
        '8'
    } else {
        '9'
    }
}

/// The lower-case hexadecimal digit character for a value below sixteen.
pub open spec fn hex_digit_char(d: int) -> char {
    if d < 10 {
        digit_char(d)
    } else if d == 10 {
        'a'
    } else if d == 11 {
        'b'
    } else if d == 12 {
        'c'
    } else if d == 13 {
        'd'
    } else if d == 14 {
        'e'
    } else {
        'f'
    }
}

/// The numeric value of a decimal digit character.
pub open spec fn digit_val(c: char) -> int {
    c as int - 48
}

/// The numeric value of a hexadecimal digit character.
pub open spec fn hex_digit_val(c: char) -> int {
    if is_digit(c) {
        digit_val(c)
    } else if 'a' <= c && c <= 'f' {
        c as int - 87
    } else {
        c as int - 55
    }
}

/// The value of a decimal numeral.
pub open spec fn dec_val(s: Seq<char>) -> nat
    decreases s.len(),
{
    if s.len() == 0 {
        0
    } else {
        dec_val(s.drop_last()) * 10 + (digit_val(s.last())) as nat
    }
}

/// The value of a hexadecimal numeral.
pub open spec fn hex_val(s: Seq<char>) -> nat
    decreases s.len(),
{
    if s.len() == 0 {
        0
    } else {
        hex_val(s.drop_last()) * 16 + (hex_digit_val(s.last())) as nat
    }
}

/// The canonical decimal numeral of a value: no leading zeros, at least
/// one digit.
pub open spec fn dec_digits(n: nat) -> Seq<char>
    decreases n,
{
    if n < 10 {
        seq![digit_char(n as int)]
    } else {
        dec_digits(n / 10).push(digit_char((n % 10) as int))
    }
}

/// The canonical lower-case hexadecimal numeral of a value.
pub open spec fn hex_digits(n: nat) -> Seq<char>
    decreases n,
{
    if n < 16 {
        seq![hex_digit_char(n as int)]
    } else {
        hex_digits(n / 16).push(hex_digit_char((n % 16) as int))
    }
}

/// The canonical decimal numeral reads back as its value.
pub proof fn lemma_dec_digits(n: nat)
    ensures
        dec_digits(n).len() >= 1,
        all_digits(dec_digits(n)),
        dec_val(dec_digits(n)) == n,
    decreases n,
{
    if n < 10 {
        let s = seq![digit_char(n as int)];
        assert(dec_digits(n) =~= s);
        assert(s.drop_last() =~= Seq::<char>::empty());
        assert(s.last() == digit_char(n as int));
        assert(digit_val(digit_char(n as int)) == n);
        assert(dec_val(s) == dec_val(Seq::<char>::empty()) * 10 + n);
    } else {
        lemma_dec_digits(n / 10);
        let s = dec_digits(n / 10).push(digit_char((n % 10) as int));
        assert(s.drop_last() =~= dec_digits(n / 10));
        assert forall|i: int| 0 <= i < s.len() implies is_digit(#[trigger] s[i]) by {
            if i < s.len() - 1 {
                assert(is_digit(dec_digits(n / 10)[i]));
            }
        }
    }
}

/// The canonical hexadecimal numeral reads back as its value.
pub proof fn lemma_hex_digits(n: nat)
    ensures
        hex_digits(n).len() >= 1,
        all_hex_digits(hex_digits(n)),
        hex_val(hex_digits(n)) == n,
    decreases n,
{
    if n < 16 {
        let s = seq![hex_digit_char(n as int)];
        assert(hex_digits(n) =~= s);
        assert(s.drop_last() =~= Seq::<char>::empty());
        assert(s.last() == hex_digit_char(n as int));
        assert(hex_digit_val(hex_digit_char(n as int)) == n);
        assert(hex_val(s) == hex_val(Seq::<char>::empty()) * 16 + n);
    } else {
        lemma_hex_digits(n / 16);
        let s = hex_digits(n / 16).push(hex_digit_char((n % 16) as int));
        assert(s.drop_last() =~= hex_digits(n / 16));
        assert forall|i: int| 0 <= i < s.len() implies is_hex_digit(#[trigger] s[i]) by {
            if i < s.len() - 1 {
                assert(is_hex_digit(hex_digits(n / 16)[i]));
            }
        }
    }
}

/// The index of the first occurrence of `c`, or a negative value when the
/// sequence does not contain it.
pub open spec fn find_char(s: Seq<char>, c: char) -> int
    decreases s.len(),
{
    if s.len() == 0 {
        -1
    } else if s[0] == c {
        0
    } else {
        let r = find_char(s.drop_first(), c);
        if r < 0 {
            -1
        } else {
            r + 1
        }
    }
}

/// What `find_char` returns: the first index holding `c`, or a negative
/// value exactly when no index holds it.
pub proof fn lemma_find_char(s: Seq<char>, c: char)
    ensures
        find_char(s, c) >= 0 ==> find_char(s, c) < s.len() && s[find_char(s, c)] == c,
        find_char(s, c) >= 0 ==> forall|k: int| 0 <= k < find_char(s, c) ==> s[k] != c,
        find_char(s, c) < 0 ==> forall|k: int| 0 <= k < s.len() ==> s[k] != c,
    decreases s.len(),
{
    if s.len() > 0 && s[0] != c {
        lemma_find_char(s.drop_first(), c);
        let r = find_char(s.drop_first(), c);
        if r >= 0 {
            assert forall|k: int| 0 <= k < r + 1 implies s[k] != c by {
                if k > 0 {
                    assert(s.drop_first()[k - 1] != c);
                }
            }
        } else {
            assert forall|k: int| 0 <= k < s.len() implies s[k] != c by {
                if k > 0 {
                    assert(s.drop_first()[k - 1] != c);
                }
            }
        }
    }
}

/// A position that holds `c` with nothing but other characters before it
/// is exactly what `find_char` returns.
pub proof fn lemma_find_char_is(s: Seq<char>, c: char, r: int)
    requires
        0 <= r < s.len(),
        s[r] == c,
        forall|k: int| 0 <= k < r ==> s[k] != c,
    ensures
        find_char(s, c) == r,
    decreases s.len(),
{
    if r > 0 {
        assert forall|k: int| 0 <= k < r - 1 implies s.drop_first()[k] != c by {
            assert(s[k + 1] != c);
        }
        lemma_find_char_is(s.drop_first(), c, r - 1);
    }
}

/// When no position holds `c`, `find_char` reports a negative value.
pub proof fn lemma_find_char_none(s: Seq<char>, c: char)
    requires
        forall|k: int| 0 <= k < s.len() ==> s[k] != c,
    ensures
        find_char(s, c) < 0,
    decreases s.len(),
{
    if s.len() > 0 {
        assert forall|k: int| 0 <= k < s.len() - 1 implies s.drop_first()[k] != c by {
            assert(s[k + 1] != c);
        }
        lemma_find_char_none(s.drop_first(), c);
    }
}

/// The pieces of a text between occurrences of one separator.
pub open spec fn split_on(s: Seq<char>, sep: char) -> Seq<Seq<char>>
    decreases s.len(),
{
    let d = find_char(s, sep);
    if d < 0 || d >= s.len() {
        seq![s]
    } else {
        seq![s.take(d)] + split_on(s.skip(d + 1), sep)
    }
}

/// A split has at least one piece.
pub proof fn lemma_split_on_nonempty(s: Seq<char>, sep: char)
    ensures
        split_on(s, sep).len() >= 1,
{
    let d = find_char(s, sep);
    if d < 0 || d >= s.len() {
        assert(split_on(s, sep) =~= seq![s]);
    } else {
        assert(split_on(s, sep) =~= seq![s.take(d)] + split_on(s.skip(d + 1), sep));
    }
}

/// The byte each piece names: an empty piece counts as zero when allowed,
/// every other piece must be a decimal numeral of at most 255.
pub open spec fn fold_u8_parts(parts: Seq<Seq<char>>, allow_empty: bool, acc: Seq<u8>) -> Option<
    Seq<u8>,
>
    decreases parts.len(),
{
    if parts.len() == 0 {
        Option::Some(acc)
    } else {
        let p = parts[0];
        if p.len() == 0 && allow_empty {
            fold_u8_parts(parts.drop_first(), allow_empty, acc.push(0))
        } else {
            match spec_parse_dec(p, 256) {
                Option::None => Option::None,
                Option::Some(v) => if v > 255 {
                    Option::None
                } else {
                    fold_u8_parts(parts.drop_first(), allow_empty, acc.push(v as u8))
                },
            }
        }
    }
}

/// Split on a separator and read each piece as a byte.
pub fn parse_u8_parts(s: &str, sep: char, allow_empty: bool) -> (r: Option<Vec<u8>>)
    ensures
        (r is Some) == (fold_u8_parts(split_on(s@, sep), allow_empty, Seq::empty()) is Some),
        r is Some ==> Some(r.unwrap()@) == fold_u8_parts(split_on(s@, sep), allow_empty, Seq::empty()),
{
    let mut out: Vec<u8> = Vec::new();
    let mut rest: &str = s;
    let ghost total = fold_u8_parts(split_on(s@, sep), allow_empty, Seq::empty());
    proof {
        assert(out@ =~= Seq::<u8>::empty());
    }
    loop
        invariant_except_break
            total == fold_u8_parts(split_on(rest@, sep), allow_empty, out@),
        invariant
            total == fold_u8_parts(split_on(s@, sep), allow_empty, Seq::empty()),
        ensures
            total == Option::Some(out@),
        decreases rest@.len(),
    {
        let n = rest.unicode_len();
        let (part, next, last): (&str, &str, bool) = match find_char_exec(rest, sep) {
            Some(d) => (rest.substring_char(0, d), rest.substring_char(d + 1, n), false),
            None => (rest, rest, true),
        };
        proof {
            if !last {
                let d = find_char(rest@, sep);
                assert(part@ =~= rest@.take(d));
                assert(next@ =~= rest@.skip(d + 1));
                assert(split_on(rest@, sep) =~= seq![part@] + split_on(next@, sep));
                assert((seq![part@] + split_on(next@, sep)).drop_first() =~= split_on(next@, sep));
            } else {
                assert(split_on(rest@, sep) =~= seq![rest@]);
                assert(seq![rest@].drop_first() =~= Seq::<Seq<char>>::empty());
            }
        }
        let pn = part.unicode_len();
        if pn == 0 && allow_empty {
            out.push(0);
        } else {
            match parse_dec_capped(part, 256) {
                Some(v) if v <= 255 => {
                    out.push(v as u8);
                },
                _ => {
                    return None;
                },
            }
        }
        if last {
            proof {
                assert(fold_u8_parts(Seq::<Seq<char>>::empty(), allow_empty, out@)
                    == Option::Some(out@));
            }
            break ;
        }
        rest = next;
    }
    Some(out)
}

/// An ASCII blank.
pub open spec fn is_ws(c: char) -> bool {
    c == ' ' || c == '\t' || c == '\n' || c == '\r'
}

/// The index of the first blank, or a negative value without one.
pub open spec fn find_ws(s: Seq<char>) -> int
    decreases s.len(),
{
    if s.len() == 0 {
        -1
    } else if is_ws(s[0]) {
        0
    } else {
        let r = find_ws(s.drop_first());
        if r < 0 {
            -1
        } else {
            r + 1
        }
    }
}

/// A position holding a blank with none before it is what `find_ws` finds.
proof fn lemma_find_ws_is(s: Seq<char>, r: int)
    requires
        0 <= r < s.len(),
        is_ws(s[r]),
        forall|k: int| 0 <= k < r ==> !is_ws(#[trigger] s[k]),
    ensures
        find_ws(s) == r,
    decreases s.len(),
{
    if r > 0 {
        assert forall|k: int| 0 <= k < r - 1 implies !is_ws(#[trigger] s.drop_first()[k]) by {
            assert(!is_ws(s[k + 1]));
        }
        lemma_find_ws_is(s.drop_first(), r - 1);
    }
}

/// With no blank anywhere, `find_ws` reports a negative value.
proof fn lemma_find_ws_none(s: Seq<char>)
    requires
        forall|k: int| 0 <= k < s.len() ==> !is_ws(#[trigger] s[k]),
    ensures
        find_ws(s) < 0,
    decreases s.len(),
{
    if s.len() > 0 {
        assert forall|k: int| 0 <= k < s.len() - 1 implies !is_ws(#[trigger] s.drop_first()[k]) by {
            assert(!is_ws(s[k + 1]));
        }
        lemma_find_ws_none(s.drop_first());
    }
}

/// The maximal blank-free words of a text, in order.
pub open spec fn split_ws(s: Seq<char>) -> Seq<Seq<char>>
    decreases s.len(),
{
    if s.len() == 0 {
        Seq::empty()
    } else if is_ws(s[0]) {
        split_ws(s.drop_first())
    } else {
        let d = find_ws(s);
        if d < 0 || d >= s.len() {
            seq![s]
        } else {
            seq![s.take(d)] + split_ws(s.skip(d))
        }
    }
}

/// The first blank of a word-leading text is past the first word.
proof fn lemma_find_ws_skip(s: Seq<char>)
    ensures
        find_ws(s) >= 0 ==> find_ws(s) < s.len() && is_ws(s[find_ws(s)]) && forall|k: int|
            0 <= k < find_ws(s) ==> !is_ws(#[trigger] s[k]),
        find_ws(s) < 0 ==> forall|k: int| 0 <= k < s.len() ==> !is_ws(#[trigger] s[k]),
    decreases s.len(),
{
    if s.len() > 0 && !is_ws(s[0]) {
        lemma_find_ws_skip(s.drop_first());
        let r = find_ws(s.drop_first());
        if r >= 0 {
            assert forall|k: int| 0 <= k < r + 1 implies !is_ws(#[trigger] s[k]) by {
                if k > 0 {
                    assert(!is_ws(s.drop_first()[k - 1]));
                }
            }
        } else {
            assert forall|k: int| 0 <= k < s.len() implies !is_ws(#[trigger] s[k]) by {
                if k > 0 {
                    assert(!is_ws(s.drop_first()[k - 1]));
                }
            }
        }
    }
}

/// Trimmed non-empty text starts with a word character.
pub proof fn lemma_trim_first(s: Seq<char>)
    ensures
        spec_trim(s).len() > 0 ==> !is_ws(spec_trim(s)[0]),
    decreases s.len(),
{
    if s.len() > 0 {
        if s[0] == ' ' || s[0] == '\t' || s[0] == '\n' || s[0] == '\r' {
            lemma_trim_first(s.drop_first());
        } else if s.last() == ' ' || s.last() == '\t' || s.last() == '\n' || s.last() == '\r' {
            lemma_trim_first(s.drop_last());
        }
    }
}

/// Trimming changes nothing when neither end is blank.
pub proof fn lemma_trim_id(s: Seq<char>)
    requires
        s.len() > 0,
        !is_ws(s[0]),
        !is_ws(s.last()),
    ensures
        spec_trim(s) == s,
{
}

/// Text that starts with a word character splits into at least one word.
pub proof fn lemma_split_ws_nonempty(s: Seq<char>)
    requires
        s.len() > 0,
        !is_ws(s[0]),
    ensures
        split_ws(s).len() >= 1,
{
    let d = find_ws(s);
    if d < 0 || d >= s.len() {
        assert(split_ws(s) =~= seq![s]);
    } else {
        assert(split_ws(s) =~= seq![s.take(d)] + split_ws(s.skip(d)));
    }
}

/// The blank-free words of a string, in order.
pub fn split_ws_exec<'a>(s: &'a str) -> (r: Vec<&'a str>)
    ensures
        r@.len() == split_ws(s@).len(),
        forall|i: int| 0 <= i < r@.len() ==> (#[trigger] r@[i])@ == split_ws(s@)[i],
{
    let mut out: Vec<&str> = Vec::new();
    let mut rest: &str = s;
    let ghost total = split_ws(s@);
    let ghost mut done: Seq<Seq<char>> = Seq::empty();
    proof {
        assert(total =~= done + split_ws(rest@));
    }
    loop
        invariant_except_break
            total =~= done + split_ws(rest@),
        invariant
            total == split_ws(s@),
            out@.len() == done.len(),
            forall|i: int| 0 <= i < out@.len() ==> (#[trigger] out@[i])@ == done[i],
        ensures
            total =~= done,
            out@.len() == done.len(),
            forall|i: int| 0 <= i < out@.len() ==> (#[trigger] out@[i])@ == done[i],
        decreases rest@.len(),
    {
        let n = rest.unicode_len();
        if n == 0 {
            proof {
                assert(split_ws(rest@) =~= Seq::<Seq<char>>::empty());
                assert(total =~= done);
            }
            break ;
        }
        let c = rest.get_char(0);
        if c == ' ' || c == '\t' || c == '\n' || c == '\r' {
            let next = rest.substring_char(1, n);
            proof {
                assert(next@ =~= rest@.drop_first());
            }
            rest = next;
        } else {
            // scan to the end of the word
            let mut d: usize = 0;
            let mut found = false;
            while d < n && !found
                invariant
                    n == rest@.len(),
                    d <= n,
                    !found ==> forall|k: int| 0 <= k < d ==> !is_ws(#[trigger] rest@[k]),
                    found ==> d < n && is_ws(rest@[d as int]) && forall|k: int|
                        0 <= k < d ==> !is_ws(#[trigger] rest@[k]),
                decreases n - d + (if found {
                    0int
                } else {
                    1int
                }),
            {
                let cc = rest.get_char(d);
                if cc == ' ' || cc == '\t' || cc == '\n' || cc == '\r' {
                    found = true;
                } else {
                    d = d + 1;
                }
            }
            if found {
                proof {
                    lemma_find_ws_is(rest@, d as int);
                }
                let word = rest.substring_char(0, d);
                let next = rest.substring_char(d, n);
                proof {
                    assert(word@ =~= rest@.take(d as int));
                    assert(next@ =~= rest@.skip(d as int));
                    assert(split_ws(rest@) =~= seq![word@] + split_ws(next@));
                }
                out.push(word);
                proof {
                    done = done.push(word@);
                    assert(total =~= done + split_ws(next@));
                }
                rest = next;
            } else {
                proof {
                    lemma_find_ws_none(rest@);
                    assert(split_ws(rest@) =~= seq![rest@]);
                }
                out.push(rest);
                proof {
                    done = done.push(rest@);
                    assert(total =~= done);
                }
                break ;
            }
        }
    }
    out
}

/// A line with a trailing carriage return removed.
pub open spec fn strip_cr(s: Seq<char>) -> Seq<char> {
    if s.len() > 0 && s.last() == '\r' {
        s.drop_last()
    } else {
        s
    }
}

/// The lines of a text: split on line feeds, each line stripped of a
/// trailing carriage return, with no line for a trailing line feed and no
/// lines at all for empty text.
pub open spec fn split_lines(s: Seq<char>) -> Seq<Seq<char>>
    decreases s.len(),
{
    if s.len() == 0 {
        Seq::empty()
    } else {
        let d = find_char(s, '\n');
        if d < 0 || d >= s.len() {
            seq![strip_cr(s)]
        } else {
            seq![strip_cr(s.take(d))] + split_lines(s.skip(d + 1))
        }
    }
}

/// The lower-case form of an ASCII letter; other characters unchanged.
pub open spec fn lower_char(c: char) -> char {
    if c == 'A' {
        'a'
    } else if c == 'B' {
        'b'
    } else if c == 'C' {
        'c'
    } else if c == 'D' {
        'd'
    } else if c == 'E' {
        'e'
    } else if c == 'F' {
        'f'
    } else if c == 'G' {
        'g'
    } else if c == 'H' {
        'h'
    } else if c == 'I' {
        'i'
    } else if c == 'J' {
        'j'
    } else if c == 'K' {
        'k'
    } else if c == 'L' {
        'l'
    } else if c == 'M' {
        'm'
    } else if c == 'N' {
        'n'
    } else if c == 'O' {
        'o'
    } else if c == 'P' {
        'p'
    } else if c == 'Q' {
        'q'
    } else if c == 'R' {
        'r'
    } else if c == 'S' {
        's'
    } else if c == 'T' {
        't'
    } else if c == 'U' {
        'u'
    } else if c == 'V' {
        'v'
    } else if c == 'W' {
        'w'
    } else if c == 'X' {
        'x'
    } else if c == 'Y' {
        'y'
    } else if c == 'Z' {
        'z'
    } else {
        c
    }
}

/// The text with its ASCII letters lowered.
pub open spec fn spec_lower(s: Seq<char>) -> Seq<char> {
    s.map_values(|c: char| lower_char(c))
}

/// Leading and trailing ASCII blanks removed.
pub open spec fn spec_trim(s: Seq<char>) -> Seq<char>
    decreases s.len(),
{
    if s.len() == 0 {
        s
    } else if s[0] == ' ' || s[0] == '\t' || s[0] == '\n' || s[0] == '\r' {
        spec_trim(s.drop_first())
    } else if s.last() == ' ' || s.last() == '\t' || s.last() == '\n' || s.last() == '\r' {
        spec_trim(s.drop_last())
    } else {
        s
    }
}

/// The lower-case form of an ASCII letter.
pub fn lower_char_exec(c: char) -> (r: char)
    ensures
        r == lower_char(c),
{
    if c == 'A' {
        'a'
    } else if c == 'B' {
        'b'
    } else if c == 'C' {
        'c'
    } else if c == 'D' {
        'd'
    } else if c == 'E' {
        'e'
    } else if c == 'F' {
        'f'
    } else if c == 'G' {
        'g'
    } else if c == 'H' {
        'h'
    } else if c == 'I' {
        'i'
    } else if c == 'J' {
        'j'
    } else if c == 'K' {
        'k'
    } else if c == 'L' {
        'l'
    } else if c == 'M' {
        'm'
    } else if c == 'N' {
        'n'
    } else if c == 'O' {
        'o'
    } else if c == 'P' {
        'p'
    } else if c == 'Q' {
        'q'
    } else if c == 'R' {
        'r'
    } else if c == 'S' {
        's'
    } else if c == 'T' {
        't'
    } else if c == 'U' {
        'u'
    } else if c == 'V' {
        'v'
    } else if c == 'W' {
        'w'
    } else if c == 'X' {
        'x'
    } else if c == 'Y' {
        'y'
    } else if c == 'Z' {
        'z'
    } else {
        c
    }
}

/// Lower the ASCII letters of a string.
pub fn to_lower(s: &str) -> (r: String)
    ensures
        r@ == spec_lower(s@),
{
    let n = s.unicode_len();
    let mut out = String::new();
    let mut i: usize = 0;
    while i < n
        invariant
            n == s@.len(),
            i <= n,
            out@ =~= spec_lower(s@).take(i as int),
        decreases n - i,
    {
        push_char(&mut out, lower_char_exec(s.get_char(i)));
        proof {
            assert(out@ =~= spec_lower(s@).take(i + 1));
        }
        i = i + 1;
    }
    proof {
        assert(spec_lower(s@).take(n as int) =~= spec_lower(s@));
    }
    out
}

/// Trim the blanks off both ends of a string slice.
pub fn trim_exec(s: &str) -> (r: &str)
    ensures
        r@ == spec_trim(s@),
    decreases s@.len(),
{
    let n = s.unicode_len();
    if n == 0 {
        return s;
    }
    let first = s.get_char(0);
    if first == ' ' || first == '\t' || first == '\n' || first == '\r' {
        let t = s.substring_char(1, n);
        proof {
            assert(t@ =~= s@.drop_first());
        }
        return trim_exec(t);
    }
    let last = s.get_char(n - 1);
    if last == ' ' || last == '\t' || last == '\n' || last == '\r' {
        let t = s.substring_char(0, n - 1);
        proof {
            assert(t@ =~= s@.drop_last());
        }
        return trim_exec(t);
    }
    s
}

/// Whether two string slices hold the same characters.
pub fn str_eq(a: &str, b: &str) -> (r: bool)
    ensures
        r == (a@ == b@),
{
    let la = a.unicode_len();
    let lb = b.unicode_len();
    if la != lb {
        return false;
    }
    let mut i: usize = 0;
    while i < la
        invariant
            la == a@.len(),
            la == b@.len(),
            i <= la,
            forall|k: int| 0 <= k < i ==> a@[k] == b@[k],
        decreases la - i,
    {
        if a.get_char(i) != b.get_char(i) {
            return false;
        }
        i = i + 1;
    }
    proof {
        assert(a@ =~= b@);
    }
    true
}

/// Append one character to a string.
///
/// Relies on `String::push`: it appends exactly the given character.
#[verifier::external_body]
pub fn push_char(s: &mut String, c: char)
    ensures
        final(s)@ == old(s)@.push(c),
{
    s.push(c);
}

/// Whether a character is a decimal digit.
pub fn is_digit_exec(c: char) -> (r: bool)
    ensures
        r == is_digit(c),
{
    '0' <= c && c <= '9'
}

/// Whether a character is a hexadecimal digit.
pub fn is_hex_digit_exec(c: char) -> (r: bool)
    ensures
        r == is_hex_digit(c),
{
    ('0' <= c && c <= '9') || ('a' <= c && c <= 'f') || ('A' <= c && c <= 'F')
}

/// The index of the first occurrence of `c` in the string, if any.
pub fn find_char_exec(s: &str, c: char) -> (r: Option<usize>)
    ensures
        r is Some ==> find_char(s@, c) == r.unwrap() && r.unwrap() < s@.len() && s@[r.unwrap()
            as int] == c && forall|k: int| 0 <= k < r.unwrap() ==> s@[k] != c,
        r is None ==> find_char(s@, c) < 0 && forall|k: int| 0 <= k < s@.len() ==> s@[k] != c,
{
    let n = s.unicode_len();
    let mut i: usize = 0;
    while i < n
        invariant
            n == s@.len(),
            i <= n,
            forall|k: int| 0 <= k < i ==> s@[k] != c,
        decreases n - i,
    {
        if s.get_char(i) == c {
            proof {
                lemma_find_char_is(s@, c, i as int);
            }
            return Some(i);
        }
        i = i + 1;
    }
    proof {
        lemma_find_char_none(s@, c);
    }
    None
}

/// The capped value of a decimal numeral: `min(dec_val, cap)`, or nothing
/// when the text is empty or holds a non-digit.
pub open spec fn spec_parse_dec(s: Seq<char>, cap: nat) -> Option<nat> {
    if s.len() == 0 || !all_digits(s) {
        None
    } else if dec_val(s) >= cap {
        Some(cap)
    } else {
        Some(dec_val(s))
    }
}

/// Parse a decimal numeral, saturating at `cap`.
pub fn parse_dec_capped(s: &str, cap: u64) -> (r: Option<u64>)
    requires
        cap <= 0x1000_0000_0000_0000,
    ensures
        (r is Some) == (spec_parse_dec(s@, cap as nat) is Some),
        r is Some ==> r.unwrap() as nat == spec_parse_dec(s@, cap as nat).unwrap() && r.unwrap()
            <= cap,
{
    let n = s.unicode_len();
    if n == 0 {
        return None;
    }
    let mut val: u64 = 0;
    let mut i: usize = 0;
    while i < n
        invariant
            n == s@.len(),
            i <= n,
            cap <= 0x1000_0000_0000_0000,
            all_digits(s@.take(i as int)),
            val == if dec_val(s@.take(i as int)) >= cap as nat {
                cap as nat
            } else {
                dec_val(s@.take(i as int))
            },
        decreases n - i,
    {
        let c = s.get_char(i);
        if !is_digit_exec(c) {
            return None;
        }
        let d = (c as u64) - 48;
        let ghost pre = s@.take(i as int);
        proof {
            assert(s@.take(i + 1).drop_last() =~= pre);
            assert(s@.take(i + 1).last() == s@[i as int]);
        }
        let next = val * 10 + d;
        val = if next >= cap {
            cap
        } else {
            next
        };
        i = i + 1;
    }
    proof {
        assert(s@.take(n as int) =~= s@);
    }
    Some(val)
}

/// The capped value of a hexadecimal numeral.
pub open spec fn spec_parse_hex(s: Seq<char>, cap: nat) -> Option<nat> {
    if s.len() == 0 || !all_hex_digits(s) {
        None
    } else if hex_val(s) >= cap {
        Some(cap)
    } else {
        Some(hex_val(s))
    }
}

/// Parse a hexadecimal numeral, saturating at `cap`.
pub fn parse_hex_capped(s: &str, cap: u64) -> (r: Option<u64>)
    requires
        cap <= 0x1000_0000_0000,
    ensures
        (r is Some) == (spec_parse_hex(s@, cap as nat) is Some),
        r is Some ==> r.unwrap() as nat == spec_parse_hex(s@, cap as nat).unwrap() && r.unwrap()
            <= cap,
{
    let n = s.unicode_len();
    if n == 0 {
        return None;
    }
    let mut val: u64 = 0;
    let mut i: usize = 0;
    while i < n
        invariant
            n == s@.len(),
            i <= n,
            cap <= 0x1000_0000_0000,
            all_hex_digits(s@.take(i as int)),
            val == if hex_val(s@.take(i as int)) >= cap as nat {
                cap as nat
            } else {
                hex_val(s@.take(i as int))
            },
        decreases n - i,
    {
        let c = s.get_char(i);
        if !is_hex_digit_exec(c) {
            return None;
        }
        let d: u64 = if '0' <= c && c <= '9' {
            (c as u64) - 48
        } else if 'a' <= c && c <= 'f' {
            (c as u64) - 87
        } else {
            (c as u64) - 55
        };
        let ghost pre = s@.take(i as int);
        proof {
            assert(s@.take(i + 1).drop_last() =~= pre);
            assert(s@.take(i + 1).last() == s@[i as int]);
        }
        let next = val * 16 + d;
        val = if next >= cap {
            cap
        } else {
            next
        };
        i = i + 1;
    }
    proof {
        assert(s@.take(n as int) =~= s@);
    }
    Some(val)
}

/// Render a value as its canonical decimal numeral.
pub fn u32_to_dec(n: u32) -> (r: String)
    ensures
        r@ == dec_digits(n as nat),
{
    let mut digs: Vec<u8> = Vec::new();
    let mut cur = n;
    digs.push((cur % 10) as u8);
    cur = cur / 10;
    proof {
        assert(rev_digit_chars(digs@) =~= seq![digit_char((n % 10) as int)]);
        if cur == 0 {
            assert(dec_digits(n as nat) =~= rev_digit_chars(digs@));
        }
    }
    while cur > 0
        invariant
            digs@.len() >= 1,
            forall|k: int| 0 <= k < digs@.len() ==> digs@[k] < 10,
            cur > 0 ==> dec_digits(n as nat) =~= dec_digits(cur as nat) + rev_digit_chars(digs@),
            cur == 0 ==> dec_digits(n as nat) =~= rev_digit_chars(digs@),
        decreases cur,
    {
        let ghost before = digs@;
        let ghost cur0 = cur;
        digs.push((cur % 10) as u8);
        cur = cur / 10;
        proof {
            assert(rev_digit_chars(digs@) =~= seq![digit_char((cur0 % 10) as int)]
                + rev_digit_chars(before));
            if cur > 0 {
                assert(dec_digits(cur0 as nat) =~= dec_digits(cur0 as nat / 10).push(
                    digit_char((cur0 as nat % 10) as int),
                ));
                assert(dec_digits(cur0 as nat / 10).push(digit_char((cur0 as nat % 10) as int))
                    =~= dec_digits(cur0 as nat / 10) + seq![digit_char((cur0 as nat % 10) as int)]);
                assert(dec_digits(n as nat) =~= dec_digits(cur as nat) + rev_digit_chars(digs@));
            } else {
                assert(dec_digits(cur0 as nat) =~= seq![digit_char((cur0 % 10) as int)]);
                assert(dec_digits(n as nat) =~= rev_digit_chars(digs@));
            }
        }
    }
    let mut out = String::new();
    let mut i = digs.len();
    while i > 0
        invariant
            i <= digs@.len(),
            forall|k: int| 0 <= k < digs@.len() ==> digs@[k] < 10,
            out@ =~= rev_digit_chars(digs@).take((digs@.len() - i) as int),
        decreases i,
    {
        i = i - 1;
        let d = digs[i];
        push_char(&mut out, digit_to_char_exec(d));
        proof {
            let m = (digs@.len() - i - 1) as int;
            assert(rev_digit_chars(digs@)[m] == digit_char(digs@[i as int] as int));
            assert(out@ =~= rev_digit_chars(digs@).take(m + 1));
        }
    }
    proof {
        assert(rev_digit_chars(digs@).take(digs@.len() as int) =~= rev_digit_chars(digs@));
        assert(out@ =~= dec_digits(n as nat));
    }
    out
}

/// The upper-case hexadecimal digit character for a value below sixteen.
pub open spec fn upper_hex_digit_char(d: int) -> char {
    if d < 10 {
        digit_char(d)
    } else if d == 10 {
        'A'
    } else if d == 11 {
        'B'
    } else if d == 12 {
        'C'
    } else if d == 13 {
        'D'
    } else if d == 14 {
        'E'
    } else {
        'F'
    }
}

/// The two upper-case hex digits of one byte.
pub open spec fn upper_hex_pair(b: u8) -> Seq<char> {
    seq![upper_hex_digit_char(b as int / 16), upper_hex_digit_char(b as int % 16)]
}

/// The upper-case hexadecimal digit character of a value below sixteen.
pub fn upper_hex_digit_to_char_exec(d: u8) -> (r: char)
    requires
        d < 16,
    ensures
        r == upper_hex_digit_char(d as int),
{
    if d < 10 {
        digit_to_char_exec(d)
    } else if d == 10 {
        'A'
    } else if d == 11 {
        'B'
    } else if d == 12 {
        'C'
    } else if d == 13 {
        'D'
    } else if d == 14 {
        'E'
    } else {
        'F'
    }
}

/// Append the two upper-case hex digits of one byte.
pub fn push_upper_hex_pair(s: &mut String, b: u8)
    ensures
        final(s)@ == old(s)@ + upper_hex_pair(b),
{
    push_char(s, upper_hex_digit_to_char_exec(b / 16));
    push_char(s, upper_hex_digit_to_char_exec(b % 16));
    proof {
        assert(s@ =~= old(s)@ + upper_hex_pair(b));
    }
}

/// The digit characters of the byte sequence, last byte first.
pub open spec fn rev_digit_chars(ds: Seq<u8>) -> Seq<char> {
    Seq::new(ds.len(), |k: int| digit_char(ds[ds.len() - 1 - k] as int))
}

/// The digit character of a value below ten.
pub fn digit_to_char_exec(d: u8) -> (r: char)
    requires
        d < 10,
    ensures
        r == digit_char(d as int),
{
    if d == 0 {
        '0'
    } else if d == 1 {
        '1'
    } else if d == 2 {
        '2'
    } else if d == 3 {
        '3'
    } else if d == 4 {
        '4'
    } else if d == 5 {
        '5'
    } else if d == 6 {
        '6'
    } else if d == 7 {
        '7'
    } else if d == 8 {
        '8'
    } else {
        '9'
    }
}

/// The lower-case hexadecimal digit character of a value below sixteen.
pub fn hex_digit_to_char_exec(d: u8) -> (r: char)
    requires
        d < 16,
    ensures
        r == hex_digit_char(d as int),
{
    if d < 10 {
        digit_to_char_exec(d)
    } else if d == 10 {
        'a'
    } else if d == 11 {
        'b'
    } else if d == 12 {
        'c'
    } else if d == 13 {
        'd'
    } else if d == 14 {
        'e'
    } else {
        'f'
    }
}

/// The lower-case hexadecimal digit characters of the byte sequence, last
/// byte first.
pub open spec fn rev_hex_digit_chars(ds: Seq<u8>) -> Seq<char> {
    Seq::new(ds.len(), |k: int| hex_digit_char(ds[ds.len() - 1 - k] as int))
}

/// Render a value as its canonical lower-case hexadecimal numeral.
pub fn u32_to_hex(n: u32) -> (r: String)
    ensures
        r@ == hex_digits(n as nat),
{
    let mut digs: Vec<u8> = Vec::new();
    let mut cur = n;
    digs.push((cur % 16) as u8);
    cur = cur / 16;
    proof {
        assert(rev_hex_digit_chars(digs@) =~= seq![hex_digit_char((n % 16) as int)]);
        if cur == 0 {
            assert(hex_digits(n as nat) =~= rev_hex_digit_chars(digs@));
        }
    }
    while cur > 0
        invariant
            digs@.len() >= 1,
            forall|k: int| 0 <= k < digs@.len() ==> digs@[k] < 16,
            cur > 0 ==> hex_digits(n as nat) =~= hex_digits(cur as nat) + rev_hex_digit_chars(
                digs@,
            ),
            cur == 0 ==> hex_digits(n as nat) =~= rev_hex_digit_chars(digs@),
        decreases cur,
    {
        let ghost before = digs@;
        let ghost cur0 = cur;
        digs.push((cur % 16) as u8);
        cur = cur / 16;
        proof {
            assert(rev_hex_digit_chars(digs@) =~= seq![hex_digit_char((cur0 % 16) as int)]
                + rev_hex_digit_chars(before));
            if cur > 0 {
                assert(hex_digits(cur0 as nat) =~= hex_digits(cur0 as nat / 16).push(
                    hex_digit_char((cur0 as nat % 16) as int),
                ));
                assert(hex_digits(cur0 as nat / 16).push(hex_digit_char((cur0 as nat % 16) as int))
                    =~= hex_digits(cur0 as nat / 16) + seq![hex_digit_char(
                    (cur0 as nat % 16) as int,
                )]);
                assert(hex_digits(n as nat) =~= hex_digits(cur as nat) + rev_hex_digit_chars(
                    digs@,
                ));
            } else {
                assert(hex_digits(cur0 as nat) =~= seq![hex_digit_char((cur0 % 16) as int)]);
                assert(hex_digits(n as nat) =~= rev_hex_digit_chars(digs@));
            }
        }
    }
    let mut out = String::new();
    let mut i = digs.len();
    while i > 0
        invariant
            i <= digs@.len(),
            forall|k: int| 0 <= k < digs@.len() ==> digs@[k] < 16,
            out@ =~= rev_hex_digit_chars(digs@).take((digs@.len() - i) as int),
        decreases i,
    {
        i = i - 1;
        let d = digs[i];
        push_char(&mut out, hex_digit_to_char_exec(d));
        proof {
            let m = (digs@.len() - i - 1) as int;
            assert(rev_hex_digit_chars(digs@)[m] == hex_digit_char(digs@[i as int] as int));
            assert(out@ =~= rev_hex_digit_chars(digs@).take(m + 1));
        }
    }
    proof {
        assert(rev_hex_digit_chars(digs@).take(digs@.len() as int) =~= rev_hex_digit_chars(digs@));
        assert(out@ =~= hex_digits(n as nat));
    }
    out
}

} // verus!
