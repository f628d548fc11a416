//! Text as the reference tables and the tokens of a query are written:
//! decimal numbers, and fields between delimiters.

use vstd::prelude::*;
use vstd::std_specs::iter::IteratorSpec;

verus! {

/// Whether `c` is one of the ten digits `0` to `9`.
pub open spec fn is_digit(c: char) -> bool {
    '0' <= c <= '9'
}

/// The number that the digit `c` stands for.
pub open spec fn digit_value(c: char) -> nat {
    (c as nat - '0' as nat) as nat
}

/// The number that a run of digits stands for, read in base ten.
pub open spec fn decimal_value(digits: Seq<char>) -> nat
    decreases digits.len(),
{
    if digits.len() == 0 {
        0
    } else {
        10 * decimal_value(digits.drop_last()) + digit_value(digits.last())
    }
}

/// Whether `digits` is a run of at least one digit and of digits only.
pub open spec fn is_decimal(digits: Seq<char>) -> bool {
    &&& digits.len() > 0
    &&& forall|i: int| 0 <= i < digits.len() ==> is_digit(#[trigger] digits[i])
}

/// `token` without the one `+` that may lead it.
pub open spec fn without_plus(token: Seq<char>) -> Seq<char> {
    if token.len() > 0 && token[0] == '+' {
        token.skip(1)
    } else {
        token
    }
}

/// The number that `token` denotes as an id, if it denotes one: a `+` or
/// nothing, then digits only and at least one, which give a number up to
/// 255. Zeros may lead; blanks, a `-` and any other character are no part
/// of a number.
pub open spec fn parse_u8(token: Seq<char>) -> Option<u8> {
    let digits = without_plus(token);
    if is_decimal(digits) && decimal_value(digits) <= u8::MAX {
        Some(decimal_value(digits) as u8)
    } else {
        None
    }
}

/// The digit that stands for `d`, where `d` is below ten.
pub open spec fn digit_char(d: nat) -> char {
    ('0' as nat + d) as char
}

/// `n` written in base ten, without sign or leading zeros.
pub open spec fn decimal_text(n: nat) -> Seq<char>
    decreases n,
{
    if n < 10 {
        seq![digit_char(n)]
    } else {
        decimal_text(n / 10).push(digit_char(n % 10))
    }
}

/// The first digits of a run stand for no more than the whole run.
proof fn lemma_decimal_value_of_prefix(digits: Seq<char>, len: int)
    requires
        0 <= len <= digits.len(),
    ensures
        decimal_value(digits.take(len)) <= decimal_value(digits),
    decreases digits.len(),
{
    if len == digits.len() {
        assert(digits.take(len) =~= digits);
    } else {
        assert(digits.drop_last().take(len) =~= digits.take(len));
        lemma_decimal_value_of_prefix(digits.drop_last(), len);
    }
}

/// A number written in base ten is a run of digits that stands for it.
pub proof fn lemma_decimal_text_is_decimal(n: nat)
    ensures
        is_decimal(decimal_text(n)),
        decimal_value(decimal_text(n)) == n,
    decreases n,
{
    let text = decimal_text(n);
    if n < 10 {
        assert(decimal_value(text.drop_last()) == 0);
    } else {
        lemma_decimal_text_is_decimal(n / 10);
        assert(text.drop_last() =~= decimal_text(n / 10));
    }
}

/// Writing an id down and reading it again gives the id.
pub proof fn lemma_parse_decimal_text(id: u8)
    ensures
        parse_u8(decimal_text(id as nat)) == Some(id),
{
    lemma_decimal_text_is_decimal(id as nat);
}

/// The pieces into which the occurrences of `delimiter` cut `text`, in
/// order and without the delimiters. There is always one piece more than
/// there are delimiters, so that a text without one is a single piece, and
/// a delimiter at either end leaves an empty piece beside it.
pub open spec fn split(text: Seq<char>, delimiter: char) -> Seq<Seq<char>>
    decreases text.len(),
{
    if text.len() == 0 {
        seq![Seq::empty()]
    } else {
        let before = split(text.drop_last(), delimiter);
        if text.last() == delimiter {
            before.push(Seq::empty())
        } else {
            before.drop_last().push(before.last().push(text.last()))
        }
    }
}

/// `line` without the carriage return that may end it.
pub open spec fn without_cr(line: Seq<char>) -> Seq<char> {
    if line.len() > 0 && line.last() == '\r' {
        line.drop_last()
    } else {
        line
    }
}

/// [`without_cr`] as a function on lines.
pub open spec fn trims() -> spec_fn(Seq<char>) -> Seq<char> {
    |line: Seq<char>| without_cr(line)
}

/// The lines of `text`. A line ends at a line feed, or at a carriage
/// return and the line feed after it; neither belongs to the line. What
/// follows the last line feed is a line too, unless it is empty.
pub open spec fn lines(text: Seq<char>) -> Seq<Seq<char>> {
    let pieces = split(text, '\n');
    let ended = pieces.drop_last().map_values(trims());
    if pieces.last().len() == 0 {
        ended
    } else {
        ended.push(pieces.last())
    }
}

/// What each of some strings holds, in the same order.
pub open spec fn text_views(texts: Seq<String>) -> Seq<Seq<char>> {
    texts.map_values(|t: String| t@)
}

/// A text is cut into at least one piece.
pub proof fn lemma_split_is_not_empty(text: Seq<char>, delimiter: char)
    ensures
        split(text, delimiter).len() > 0,
{
}

/// Some pieces laid end to end with `delimiter` between each two.
pub open spec fn join(pieces: Seq<Seq<char>>, delimiter: char) -> Seq<char>
    decreases pieces.len(),
{
    if pieces.len() == 0 {
        Seq::empty()
    } else if pieces.len() == 1 {
        pieces[0]
    } else {
        join(pieces.drop_last(), delimiter).push(delimiter) + pieces.last()
    }
}

/// Whether no piece holds `delimiter`.
pub open spec fn are_free_of(pieces: Seq<Seq<char>>, delimiter: char) -> bool {
    forall|i: int, k: int|
        0 <= i < pieces.len() && 0 <= k < pieces[i].len() ==> (#[trigger] pieces[i][k])
            != delimiter
}

/// The pieces of a text hold no delimiter, and joined by the delimiter
/// they give the text again.
pub proof fn lemma_join_of_split(text: Seq<char>, delimiter: char)
    ensures
        split(text, delimiter).len() > 0,
        are_free_of(split(text, delimiter), delimiter),
        join(split(text, delimiter), delimiter) == text,
    decreases text.len(),
{
    if text.len() > 0 {
        let pieces = split(text, delimiter);
        let before = split(text.drop_last(), delimiter);
        lemma_join_of_split(text.drop_last(), delimiter);
        if text.last() == delimiter {
            assert(pieces.drop_last() =~= before);
        } else if before.len() > 1 {
            assert(pieces.drop_last() =~= before.drop_last());
            assert(join(pieces, delimiter) =~= join(before, delimiter).push(text.last()));
        }
    }
}

/// There is one way only to cut a text: pieces that hold no delimiter are
/// the pieces of what they give when joined by the delimiter.
pub proof fn lemma_split_of_join(pieces: Seq<Seq<char>>, delimiter: char)
    requires
        pieces.len() > 0,
        are_free_of(pieces, delimiter),
    ensures
        split(join(pieces, delimiter), delimiter) == pieces,
    decreases pieces.len(), pieces.last().len(),
{
    let text = join(pieces, delimiter);
    let last = pieces.last();
    if last.len() > 0 {
        // The text ends within the last piece: take its last character off.
        let shorter = pieces.update(pieces.len() - 1, last.drop_last());
        lemma_split_of_join(shorter, delimiter);
        if pieces.len() > 1 {
            assert(shorter.drop_last() =~= pieces.drop_last());
        }
        assert(text.drop_last() =~= join(shorter, delimiter));
        assert(last.drop_last().push(last.last()) =~= last);
    } else if pieces.len() > 1 {
        // The text ends with the delimiter before the empty last piece.
        let front = pieces.drop_last();
        lemma_split_of_join(front, delimiter);
        assert(last =~= Seq::empty());
        assert(text.drop_last() =~= join(front, delimiter));
    } else {
        assert(text =~= Seq::empty());
    }
}

/// The characters of `text`, one by one.
pub fn chars_of(text: &str) -> (chars: Vec<char>)
    ensures
        chars@ == text@,
{
    let mut chars: Vec<char> = Vec::new();
    let mut rest = text.chars();
    loop
        invariant
            rest.obeys_prophetic_iter_laws(),
            rest.decrease() is Some,
            chars@ + rest.remaining() == text@,
        decreases rest.decrease()->0,
    {
        match rest.next() {
            Some(c) => {
                chars.push(c);
            },
            None => {
                return chars;
            },
        }
    }
}

/// Reads `token` as an id.
pub fn parse_id(token: &str) -> (id: Option<u8>)
    ensures
        id == parse_u8(token@),
{
    let chars = chars_of(token);
    let n = chars.len();
    let start: usize = if n > 0 && chars[0] == '+' {
        1
    } else {
        0
    };
    if start == n {
        return None;
    }
    let ghost digits = without_plus(token@);
    let mut value: u16 = 0;
    let mut i: usize = start;
    while i < n
        invariant
            start <= i <= n,
            n == chars.len(),
            digits == without_plus(token@),
            digits == chars@.skip(start as int),
            forall|k: int| 0 <= k < i - start ==> is_digit(#[trigger] digits[k]),
            value == decimal_value(digits.take(i - start)),
            value <= u8::MAX,
        decreases n - i,
    {
        let c = chars[i];
        assert(c == digits[i - start]);
        if c < '0' || c > '9' {
            return None;
        }
        let digit = (c as u32 - '0' as u32) as u16;
        value = 10 * value + digit;
        proof {
            assert(digits.take(i - start + 1).drop_last() =~= digits.take(i - start));
            lemma_decimal_value_of_prefix(digits, i - start + 1);
        }
        if value > 255 {
            return None;
        }
        i += 1;
    }
    assert(digits.take(n - start) =~= digits);
    Some(value as u8)
}

/// Cuts `text` at each occurrence of `delimiter`.
pub fn split_text(text: &str, delimiter: char) -> (pieces: Vec<String>)
    ensures
        text_views(pieces@) == split(text@, delimiter),
{
    let chars = chars_of(text);
    let n = chars.len();
    let mut pieces: Vec<String> = Vec::new();
    let mut start: usize = 0;
    let mut i: usize = 0;
    assert(chars@.take(0) =~= Seq::empty());
    while i < n
        invariant
            start <= i <= n,
            n == chars.len(),
            chars@ == text@,
            split(chars@.take(i as int), delimiter) == text_views(pieces@).push(
                chars@.subrange(start as int, i as int),
            ),
        decreases n - i,
    {
        let ghost open = chars@.subrange(start as int, i as int);
        assert(chars@.take(i + 1).drop_last() =~= chars@.take(i as int));
        if chars[i] == delimiter {
            let piece = text.substring_char(start, i).to_owned();
            pieces.push(piece);
            start = i + 1;
            assert(chars@.subrange(start as int, i + 1) =~= Seq::empty());
        } else {
            assert(chars@.subrange(start as int, i + 1) =~= open.push(chars@[i as int]));
        }
        i += 1;
    }
    let piece = text.substring_char(start, n).to_owned();
    proof {
        assert(chars@.take(n as int) =~= chars@);
    }
    pieces.push(piece);
    pieces
}

/// `line` without the carriage return that may end it.
fn trim_cr(line: &str) -> (trimmed: String)
    ensures
        trimmed@ == without_cr(line@),
{
    let chars = chars_of(line);
    let n = chars.len();
    if n > 0 && chars[n - 1] == '\r' {
        line.substring_char(0, n - 1).to_owned()
    } else {
        line.to_owned()
    }
}

/// Cuts `text` into its lines.
pub fn lines_of(text: &str) -> (result: Vec<String>)
    ensures
        text_views(result@) == lines(text@),
{
    let pieces = split_text(text, '\n');
    let ghost cut = split(text@, '\n');
    let ended = pieces.len() - 1;
    let mut result: Vec<String> = Vec::new();
    let mut i: usize = 0;
    while i < ended
        invariant
            i <= ended,
            ended == pieces.len() - 1,
            cut == text_views(pieces@),
            text_views(result@) == cut.drop_last().take(i as int).map_values(trims()),
        decreases ended - i,
    {
        let line = trim_cr(pieces[i].as_str());
        proof {
            result@.lemma_push_map_commute(|t: String| t@, line);
        }
        result.push(line);
        i += 1;
    }
    let last = &pieces[ended];
    if !last.as_str().is_empty() {
        let line = last.clone();
        proof {
            result@.lemma_push_map_commute(|t: String| t@, line);
        }
        result.push(line);
    }
    result
}

} // verus!
