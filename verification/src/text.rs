//! Text helpers shared by the engines and the wire format: characters of a
//! string, building strings, ordering identifiers, and decimal numbers.

use vstd::prelude::*;
use vstd::string::*;

verus! {

/// `String::push`: appends one character.
#[verifier::external_body]
pub fn push_char(text: &mut String, c: char)
    ensures
        final(text)@ == old(text)@.push(c),
{
    text.push(c);
}

/// The characters of `text`, in order.
pub fn chars_of(text: &str) -> (chars: Vec<char>)
    ensures
        chars@ == text@,
{
    let len = text.unicode_len();
    let mut chars: Vec<char> = Vec::new();
    let mut i: usize = 0;
    while i < len
        invariant
            len == text@.len(),
            i <= len,
            chars@ == text@.take(i as int),
        decreases len - i,
    {
        chars.push(text.get_char(i));
        proof {
            assert(chars@ =~= text@.take(i + 1));
        }
        i += 1;
    }
    proof {
        assert(text@.take(len as int) =~= text@);
    }
    chars
}

/// A string holding exactly `chars`.
pub fn string_of(chars: &[char]) -> (text: String)
    ensures
        text@ == chars@,
{
    let mut text = String::new();
    let mut i: usize = 0;
    while i < chars.len()
        invariant
            i <= chars@.len(),
            text@ == chars@.take(i as int),
        decreases chars@.len() - i,
    {
        push_char(&mut text, chars[i]);
        proof {
            assert(text@ =~= chars@.take(i + 1));
        }
        i += 1;
    }
    proof {
        assert(chars@.take(chars@.len() as int) =~= chars@);
    }
    text
}

/// Appends the characters `chars` to `text`.
pub fn push_chars(text: &mut String, chars: &[char])
    ensures
        final(text)@ == old(text)@ + chars@,
{
    let mut i: usize = 0;
    while i < chars.len()
        invariant
            i <= chars@.len(),
            text@ == old(text)@ + chars@.take(i as int),
        decreases chars@.len() - i,
    {
        push_char(text, chars[i]);
        proof {
            assert(text@ =~= old(text)@ + chars@.take(i + 1));
        }
        i += 1;
    }
    proof {
        assert(chars@.take(chars@.len() as int) =~= chars@);
    }
}

/// Appends `other` to `text`.
pub fn push_str(text: &mut String, other: &str)
    ensures
        final(text)@ == old(text)@ + other@,
{
    text.append(other);
}

/// Whether `chars` spell exactly `text`.
pub fn chars_equal(chars: &[char], text: &str) -> (same: bool)
    ensures
        same == (chars@ == text@),
{
    let len = text.unicode_len();
    if chars.len() != len {
        return false;
    }
    let mut i: usize = 0;
    while i < len
        invariant
            len == text@.len(),
            chars@.len() == len,
            i <= len,
            forall|k: int| 0 <= k < i ==> chars@[k] == text@[k],
        decreases len - i,
    {
        if chars[i] != text.get_char(i) {
            return false;
        }
        i += 1;
    }
    proof {
        assert(chars@ =~= text@);
    }
    true
}

/// `a` comes before `b` in the character order (the order of `String`).
pub open spec fn text_less(a: Seq<char>, b: Seq<char>) -> bool
    decreases a.len(),
{
    if a.len() == 0 {
        b.len() > 0
    } else if b.len() == 0 {
        false
    } else if (a[0] as int) < (b[0] as int) {
        true
    } else if (a[0] as int) > (b[0] as int) {
        false
    } else {
        text_less(a.drop_first(), b.drop_first())
    }
}

/// Whether `a` comes before `b`; see `text_less`.
pub fn str_less(a: &str, b: &str) -> (less: bool)
    ensures
        less == text_less(a@, b@),
{
    let x = chars_of(a);
    let y = chars_of(b);
    let mut i: usize = 0;
    proof {
        assert(x@.skip(0) =~= x@);
        assert(y@.skip(0) =~= y@);
    }
    while i < x.len() && i < y.len()
        invariant
            i <= x@.len(),
            i <= y@.len(),
            x@ == a@,
            y@ == b@,
            text_less(a@, b@) == text_less(x@.skip(i as int), y@.skip(i as int)),
        decreases x@.len() - i,
    {
        let c = x[i];
        let d = y[i];
        proof {
            assert(x@.skip(i as int)[0] == c);
            assert(y@.skip(i as int)[0] == d);
            assert(x@.skip(i as int).drop_first() =~= x@.skip(i + 1));
            assert(y@.skip(i as int).drop_first() =~= y@.skip(i + 1));
        }
        if c < d {
            return true;
        }
        if c > d {
            return false;
        }
        i += 1;
    }
    proof {
        if i == x@.len() {
            assert(x@.skip(i as int).len() == 0);
        } else {
            assert(y@.skip(i as int).len() == 0);
        }
    }
    i == x.len() && i < y.len()
}

/// The decimal digits of `n`, most significant first, without leading zeros
/// ("0" for zero).
pub open spec fn decimal(n: nat) -> Seq<char>
    decreases n,
{
    if n < 10 {
        seq![digit_char(n)]
    } else {
        decimal(n / 10).push(digit_char(n % 10))
    }
}

pub open spec fn digit_char(d: nat) -> char {
    if d == 0 {
        '0'
    } else if d == 1 {
        '1'
    } else if d == 2 {
        '2'
    } else if d == 3 {
        '3'
    } else if d == 4 {
        '4'
    } else if d == 5 {
        '5'
    } else if d == 6 {
        '6'
    } else if d == 7 {
        '7'
    } else if d == 8 {
        '8'
    } else {
        '9'
    }
}

fn digit(d: u64) -> (c: char)
    requires
        d < 10,
    ensures
        c == digit_char(d as nat),
{
    if d == 0 {
        '0'
    } else if d == 1 {
        '1'
    } else if d == 2 {
        '2'
    } else if d == 3 {
        '3'
    } else if d == 4 {
        '4'
    } else if d == 5 {
        '5'
    } else if d == 6 {
        '6'
    } else if d == 7 {
        '7'
    } else if d == 8 {
        '8'
    } else {
        '9'
    }
}

/// Appends the decimal digits of `n` to `text`.
pub fn push_decimal(text: &mut String, n: u64)
    ensures
        final(text)@ == old(text)@ + decimal(n as nat),
    decreases n,
{
    if n < 10 {
        push_char(text, digit(n));
        proof {
            assert(old(text)@.push(digit_char(n as nat)) =~= old(text)@ + decimal(n as nat));
        }
    } else {
        push_decimal(text, n / 10);
        push_char(text, digit(n % 10));
        proof {
            assert(decimal(n as nat) == decimal((n / 10) as nat).push(digit_char((n % 10) as nat)));
            assert(text@ =~= old(text)@ + decimal(n as nat));
        }
    }
}

/// The value of a decimal digit character.
pub open spec fn digit_value(c: char) -> int {
    (c as u32) as int - ('0' as u32) as int
}

pub open spec fn is_digit(c: char) -> bool {
    '0' <= c && c <= '9'
}

/// The number `digits` spell in decimal (leading zeros allowed).
pub open spec fn decimal_value(digits: Seq<char>) -> int
    decreases digits.len(),
{
    if digits.len() == 0 {
        0
    } else {
        decimal_value(digits.drop_last()) * 10 + digit_value(digits.last())
    }
}

/// `text` as an unsigned decimal number of type `u64`: one or more ASCII digits
/// whose value fits, as `str::parse::<u64>` reads it (an optional `+` sign
/// first).
pub open spec fn parsed_u64(text: Seq<char>) -> Option<u64> {
    digits_u64(without_plus(text))
}

/// `text` without one leading `+`.
pub open spec fn without_plus(text: Seq<char>) -> Seq<char> {
    if text.len() > 0 && text[0] == '+' {
        text.drop_first()
    } else {
        text
    }
}

/// The value of a non-empty run of ASCII digits that fits in `u64`.
pub open spec fn digits_u64(digits: Seq<char>) -> Option<u64> {
    if digits.len() > 0 && (forall|i: int| 0 <= i < digits.len() ==> is_digit(#[trigger] digits[i]))
        && decimal_value(digits) <= u64::MAX {
        Some(decimal_value(digits) as u64)
    } else {
        None
    }
}

/// Reads `chars` as an unsigned decimal `u64`; see `parsed_u64`.
pub fn parse_decimal(chars: &[char]) -> (value: Option<u64>)
    ensures
        value == parsed_u64(chars@),
{
    let start: usize = if chars.len() > 0 && chars[0] == '+' { 1 } else { 0 };
    let ghost digits = chars@.skip(start as int);
    proof {
        if start == 1 {
            assert(digits =~= chars@.drop_first());
        } else {
            assert(digits =~= chars@);
        }
    }
    if chars.len() == start {
        return None;
    }
    let mut value: u64 = 0;
    let mut i: usize = start;
    while i < chars.len()
        invariant
            start <= i <= chars@.len(),
            digits == chars@.skip(start as int),
            digits == without_plus(chars@),
            forall|k: int| start <= k < i ==> is_digit(#[trigger] chars@[k]),
            value as int == decimal_value(chars@.subrange(start as int, i as int)),
        decreases chars@.len() - i,
    {
        let c = chars[i];
        proof {
            assert(chars@.subrange(start as int, i + 1).drop_last() =~= chars@.subrange(start as int, i as int));
        }
        if !('0' <= c && c <= '9') {
            proof {
                assert(digits[i - start] == c);
                assert(!is_digit(digits[i - start]));
                assert(!(forall|k: int| 0 <= k < digits.len() ==> is_digit(#[trigger] digits[k])));
                assert(digits_u64(digits) is None);
            }
            return None;
        }
        let d = (c as u32 - '0' as u32) as u64;
        if value > (u64::MAX - d) / 10 {
            proof {
                assert(chars@.subrange(start as int, i + 1) =~= digits.take(i + 1 - start));
                assert(decimal_value(chars@.subrange(start as int, i + 1)) == value * 10 + d);
                lemma_decimal_grows(chars@.subrange(start as int, i + 1), digits, i + 1 - start);
                if forall|k: int| 0 <= k < digits.len() ==> is_digit(#[trigger] digits[k]) {
                    assert(decimal_value(digits) > u64::MAX);
                }
                assert(digits_u64(digits) is None);
            }
            return None;
        }
        value = value * 10 + d;
        i += 1;
    }
    proof {
        assert(chars@.subrange(start as int, chars@.len() as int) =~= digits);
        assert forall|k: int| 0 <= k < digits.len() implies is_digit(#[trigger] digits[k]) by {
            assert(digits[k] == chars@[k + start]);
        }
    }
    Some(value)
}

/// A prefix that is already too large keeps the whole digit string too large.
proof fn lemma_decimal_grows(prefix: Seq<char>, digits: Seq<char>, n: int)
    requires
        0 <= n <= digits.len(),
        prefix == digits.take(n),
        decimal_value(prefix) > u64::MAX,
    ensures
        (forall|i: int| 0 <= i < digits.len() ==> is_digit(#[trigger] digits[i])) ==> decimal_value(digits)
            > u64::MAX,
    decreases digits.len() - n,
{
    if n < digits.len() {
        if forall|i: int| 0 <= i < digits.len() ==> is_digit(#[trigger] digits[i]) {
            let next = digits.take(n + 1);
            assert(next.drop_last() =~= prefix);
            assert(is_digit(digits[n]));
            assert(decimal_value(next) == decimal_value(prefix) * 10 + digit_value(digits[n]));
            lemma_decimal_grows(next, digits, n + 1);
        }
    } else {
        assert(digits =~= prefix);
    }
}


/// Two different texts are ordered one way or the other.
pub proof fn lemma_text_less_total(a: Seq<char>, b: Seq<char>)
    requires
        a != b,
    ensures
        text_less(a, b) || text_less(b, a),
    decreases a.len(),
{
    if a.len() > 0 && b.len() > 0 && a[0] == b[0] {
        if a.drop_first() == b.drop_first() {
            assert(a =~= seq![a[0]] + a.drop_first());
            assert(b =~= seq![b[0]] + b.drop_first());
        }
        lemma_text_less_total(a.drop_first(), b.drop_first());
    } else if a.len() > 0 && b.len() > 0 {
        assert((a[0] as int) != (b[0] as int));
    } else if a.len() == 0 && b.len() == 0 {
        assert(a =~= b);
    }
}

/// The order is transitive.
pub proof fn lemma_text_less_trans(a: Seq<char>, b: Seq<char>, c: Seq<char>)
    requires
        text_less(a, b),
        text_less(b, c),
    ensures
        text_less(a, c),
    decreases a.len(),
{
    if a.len() > 0 && b.len() > 0 && c.len() > 0 && a[0] == b[0] && b[0] == c[0] {
        lemma_text_less_trans(a.drop_first(), b.drop_first(), c.drop_first());
    }
}

/// The order is irreflexive.
pub proof fn lemma_text_less_irreflexive(a: Seq<char>)
    ensures
        !text_less(a, a),
    decreases a.len(),
{
    if a.len() > 0 {
        lemma_text_less_irreflexive(a.drop_first());
    }
}


/// The pieces of `text` between occurrences of `sep`, as `str::split` yields
/// them (always at least one piece).
pub open spec fn split_on(text: Seq<char>, sep: char) -> Seq<Seq<char>>
    decreases text.len(),
{
    if text.len() == 0 {
        seq![Seq::<char>::empty()]
    } else {
        let init = split_on(text.drop_last(), sep);
        if text.last() == sep {
            init.push(Seq::<char>::empty())
        } else {
            init.update(init.len() - 1, init.last().push(text.last()))
        }
    }
}

pub proof fn lemma_split_nonempty(text: Seq<char>, sep: char)
    ensures
        split_on(text, sep).len() >= 1,
    decreases text.len(),
{
    if text.len() > 0 {
        lemma_split_nonempty(text.drop_last(), sep);
    }
}

/// Splits `text` at every `sep`; see `split_on`.
pub fn split_chars(text: &[char], sep: char) -> (pieces: Vec<Vec<char>>)
    ensures
        pieces@.len() == split_on(text@, sep).len(),
        forall|i: int| 0 <= i < pieces@.len() ==> (#[trigger] pieces@[i])@ == split_on(text@, sep)[i],
{
    let mut pieces: Vec<Vec<char>> = Vec::new();
    let mut current: Vec<char> = Vec::new();
    let mut i: usize = 0;
    while i < text.len()
        invariant
            i <= text@.len(),
            pieces@.len() + 1 == split_on(text@.take(i as int), sep).len(),
            forall|k: int| 0 <= k < pieces@.len() ==> (#[trigger] pieces@[k])@ == split_on(text@.take(i as int), sep)[k],
            current@ == split_on(text@.take(i as int), sep).last(),
        decreases text@.len() - i,
    {
        proof {
            assert(text@.take(i + 1).drop_last() =~= text@.take(i as int));
            lemma_split_nonempty(text@.take(i as int), sep);
        }
        if text[i] == sep {
            let done = current;
            pieces.push(done);
            current = Vec::new();
            proof {
                assert(current@ =~= Seq::<char>::empty());
            }
        } else {
            current.push(text[i]);
        }
        i += 1;
    }
    proof {
        assert(text@.take(text@.len() as int) =~= text@);
        lemma_split_nonempty(text@, sep);
    }
    pieces.push(current);
    pieces
}

/// `text` with every occurrence of `pat` replaced by `rep`, scanning left to
/// right without overlaps, as `str::replace` does.
pub open spec fn replace_all(text: Seq<char>, pat: Seq<char>, rep: Seq<char>) -> Seq<char>
    decreases text.len(),
{
    if pat.len() == 0 || text.len() < pat.len() {
        text
    } else if text.take(pat.len() as int) == pat {
        rep + replace_all(text.skip(pat.len() as int), pat, rep)
    } else {
        seq![text[0]] + replace_all(text.drop_first(), pat, rep)
    }
}

/// Replaces every occurrence of `pat` by `rep`; see `replace_all`.
pub fn replace_chars(text: &[char], pat: &str, rep: &str) -> (replaced: Vec<char>)
    requires
        pat@.len() > 0,
    ensures
        replaced@ == replace_all(text@, pat@, rep@),
{
    let pat = chars_of(pat);
    let rep = chars_of(rep);
    let mut out: Vec<char> = Vec::new();
    let mut i: usize = 0;
    proof {
        assert(text@.skip(0) =~= text@);
    }
    while i < text.len()
        invariant
            i <= text@.len(),
            pat@.len() > 0,
            out@ + replace_all(text@.skip(i as int), pat@, rep@) == replace_all(text@, pat@, rep@),
        decreases text@.len() - i,
    {
        let ghost rest = text@.skip(i as int);
        let n = text.len();
        let fits = pat.len() <= n - i;
        let mut matches = fits;
        let mut k: usize = 0;
        while matches && k < pat.len()
            invariant
                k <= pat@.len(),
                i < text@.len(),
                n == text@.len(),
                fits == (i + pat@.len() <= text@.len()),
                matches ==> fits,
                matches ==> forall|m: int| 0 <= m < k ==> text@[i + m] == pat@[m],
                !matches ==> (!fits || exists|m: int| 0 <= m < k && text@[i + m] != pat@[m]),
            decreases pat@.len() - k,
        {
            if text[i + k] != pat[k] {
                matches = false;
            }
            k += 1;
        }
        proof {
            if matches {
                assert(rest.take(pat@.len() as int) =~= pat@);
            } else if i + pat@.len() <= text@.len() {
                assert(rest.take(pat@.len() as int) != pat@) by {
                    let m = choose|m: int| 0 <= m < k && text@[i + m] != pat@[m];
                    assert(rest.take(pat@.len() as int)[m] == text@[i + m]);
                }
            }
        }
        if matches {
            let mut j: usize = 0;
            let ghost before = out@;
            while j < rep.len()
                invariant
                    j <= rep@.len(),
                    out@ == before + rep@.take(j as int),
                decreases rep@.len() - j,
            {
                out.push(rep[j]);
                proof {
                    assert(out@ =~= before + rep@.take(j + 1));
                }
                j += 1;
            }
            proof {
                assert(rep@.take(rep@.len() as int) =~= rep@);
                assert(rest.skip(pat@.len() as int) =~= text@.skip(i + pat@.len()));
                assert(out@ + replace_all(text@.skip(i + pat@.len()), pat@, rep@) =~= before + (rep@ + replace_all(
                    rest.skip(pat@.len() as int),
                    pat@,
                    rep@,
                )));
            }
            i = i + pat.len();
        } else {
            let ghost before = out@;
            out.push(text[i]);
            proof {
                if rest.len() < pat@.len() {
                    assert(rest.len() > 0);
                    assert(replace_all(rest, pat@, rep@) == rest);
                    assert(replace_all(rest.drop_first(), pat@, rep@) == rest.drop_first());
                    assert(rest =~= seq![rest[0]] + rest.drop_first());
                }
                assert(rest.drop_first() =~= text@.skip(i + 1));
                assert(out@ + replace_all(text@.skip(i + 1), pat@, rep@) =~= before + (seq![text@[i as int]]
                    + replace_all(rest.drop_first(), pat@, rep@)));
            }
            i = i + 1;
        }
    }
    proof {
        assert(text@.skip(i as int).len() == 0);
        assert(out@ + replace_all(text@.skip(i as int), pat@, rep@) =~= out@);
    }
    out
}

/// `text` with ASCII capitals turned into small letters.
pub open spec fn ascii_lower(text: Seq<char>) -> Seq<char> {
    text.map_values(|c: char| lower_char(c))
}

pub open spec fn lower_char(c: char) -> char {
    if 'A' <= c && c <= 'Z' {
        ((c as u32) + 32) as char
    } else {
        c
    }
}

/// The ASCII lower-case form of `text`, as `str::to_ascii_lowercase` gives.
pub fn to_ascii_lower(text: &[char]) -> (lower: Vec<char>)
    ensures
        lower@ == ascii_lower(text@),
{
    let mut lower: Vec<char> = Vec::new();
    let mut i: usize = 0;
    while i < text.len()
        invariant
            i <= text@.len(),
            lower@ == ascii_lower(text@.take(i as int)),
        decreases text@.len() - i,
    {
        let c = text[i];
        let l = if 'A' <= c && c <= 'Z' {
            ((c as u8) + 32) as char
        } else {
            c
        };
        lower.push(l);
        proof {
            assert(l == lower_char(c));
            assert(lower@ =~= ascii_lower(text@.take(i + 1)));
        }
        i += 1;
    }
    proof {
        assert(text@.take(text@.len() as int) =~= text@);
    }
    lower
}

/// `pieces` joined with `sep` between consecutive pieces.
pub open spec fn joined(pieces: Seq<Seq<char>>, sep: Seq<char>) -> Seq<char>
    decreases pieces.len(),
{
    if pieces.len() == 0 {
        Seq::empty()
    } else if pieces.len() == 1 {
        pieces[0]
    } else {
        joined(pieces.drop_last(), sep) + sep + pieces.last()
    }
}


/// White space as Unicode's White_Space property has it (`char::is_whitespace`).
pub open spec fn is_white(c: char) -> bool {
    let n = c as u32;
    (0x09 <= n <= 0x0D) || n == 0x20 || n == 0x85 || n == 0xA0 || n == 0x1680 || (0x2000 <= n <= 0x200A) || n
        == 0x2028 || n == 0x2029 || n == 0x202F || n == 0x205F || n == 0x3000
}

/// Whether `c` is white space; see `is_white`.
pub fn char_is_white(c: char) -> (white: bool)
    ensures
        white == is_white(c),
{
    let n = c as u32;
    (0x09 <= n && n <= 0x0D) || n == 0x20 || n == 0x85 || n == 0xA0 || n == 0x1680 || (0x2000 <= n && n <= 0x200A)
        || n == 0x2028 || n == 0x2029 || n == 0x202F || n == 0x205F || n == 0x3000
}

/// The words of `text`: its maximal runs of characters other than white
/// space, in order, as `str::split_whitespace` yields them.
pub open spec fn words_of(text: Seq<char>) -> Seq<Seq<char>>
    decreases text.len(),
{
    if text.len() == 0 {
        Seq::empty()
    } else {
        let init = words_of(text.drop_last());
        let c = text.last();
        if is_white(c) {
            init
        } else if text.len() >= 2 && !is_white(text[text.len() - 2]) {
            init.update(init.len() - 1, init.last().push(c))
        } else {
            init.push(seq![c])
        }
    }
}

/// Splits `text` into its words; see `words_of`.
pub fn split_words(text: &[char]) -> (words: Vec<Vec<char>>)
    ensures
        words@.len() == words_of(text@).len(),
        forall|k: int| 0 <= k < words@.len() ==> (#[trigger] words@[k])@ == words_of(text@)[k],
{
    let mut words: Vec<Vec<char>> = Vec::new();
    let mut current: Vec<char> = Vec::new();
    let mut in_word = false;
    let mut i: usize = 0;
    while i < text.len()
        invariant
            i <= text@.len(),
            in_word == (i > 0 && !is_white(text@[i - 1])),
            in_word ==> current@.len() > 0,
            in_word ==> words_of(text@.take(i as int)).len() == words@.len() + 1 && words_of(
                text@.take(i as int),
            ).last() == current@,
            !in_word ==> words_of(text@.take(i as int)).len() == words@.len(),
            forall|k: int| 0 <= k < words@.len() ==> (#[trigger] words@[k])@ == words_of(text@.take(i as int))[k],
        decreases text@.len() - i,
    {
        let c = text[i];
        let ghost before = words_of(text@.take(i as int));
        proof {
            assert(text@.take(i + 1).drop_last() =~= text@.take(i as int));
            assert(text@.take(i + 1).last() == c);
            if i >= 1 {
                assert(text@.take(i + 1)[i - 1] == text@[i - 1]);
            }
        }
        if char_is_white(c) {
            if in_word {
                words.push(current);
                current = Vec::new();
            }
            in_word = false;
        } else {
            if in_word {
                current.push(c);
            } else {
                current = Vec::new();
                current.push(c);
                proof {
                    assert(current@ =~= seq![c]);
                }
            }
            in_word = true;
        }
        i += 1;
        proof {
            let after = words_of(text@.take(i as int));
            assert forall|k: int| 0 <= k < words@.len() implies (#[trigger] words@[k])@ == after[k] by {
                if k < before.len() {
                    assert(after[k] == before[k]);
                }
            }
        }
    }
    if in_word {
        words.push(current);
    }
    proof {
        assert(text@.take(i as int) =~= text@);
    }
    words
}

} // verus!
