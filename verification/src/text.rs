//! Work on the characters of a text.

use vstd::prelude::*;
use vstd::string::StringExecFns;

verus! {

/// Whether `c` is white space: a character with Unicode's `White_Space`
/// property.
pub open spec fn is_white_space(c: char) -> bool {
    ||| '\u{9}' <= c <= '\u{d}'
    ||| c == ' '
    ||| c == '\u{85}'
    ||| c == '\u{a0}'
    ||| c == '\u{1680}'
    ||| '\u{2000}' <= c <= '\u{200a}'
    ||| c == '\u{2028}'
    ||| c == '\u{2029}'
    ||| c == '\u{202f}'
    ||| c == '\u{205f}'
    ||| c == '\u{3000}'
}

/// `text` up to and with its first line feed, or all of it where it has none.
pub open spec fn first_line(text: Seq<char>) -> Seq<char>
    decreases text.len(),
{
    if text.len() == 0 {
        text
    } else if text[0] == '\n' {
        seq!['\n']
    } else {
        seq![text[0]] + first_line(text.drop_first())
    }
}

/// `text` without the white space at its start.
pub open spec fn trim_start(text: Seq<char>) -> Seq<char>
    decreases text.len(),
{
    if text.len() > 0 && is_white_space(text[0]) {
        trim_start(text.drop_first())
    } else {
        text
    }
}

/// `text` without the white space at its end.
pub open spec fn trim_end(text: Seq<char>) -> Seq<char>
    decreases text.len(),
{
    if text.len() > 0 && is_white_space(text.last()) {
        trim_end(text.drop_last())
    } else {
        text
    }
}

/// `text` without the white space at its start and end.
pub open spec fn trim(text: Seq<char>) -> Seq<char> {
    trim_end(trim_start(text))
}

/// `c`, or its lower-case form where it is an upper-case ASCII letter.
pub open spec fn ascii_lower(c: char) -> char {
    if 'A' <= c <= 'Z' {
        ((c as u8) + 32) as char
    } else {
        c
    }
}

/// Whether two texts are equal apart from the case of their ASCII letters.
pub open spec fn equal_ignoring_ascii_case(a: Seq<char>, b: Seq<char>) -> bool {
    &&& a.len() == b.len()
    &&& forall|i: int| 0 <= i < a.len() ==> ascii_lower(#[trigger] a[i]) == ascii_lower(b[i])
}

/// The decimal digits of `n`.
pub open spec fn decimal(n: nat) -> Seq<char>
    decreases n,
{
    if n < 10 {
        seq![digit(n)]
    } else {
        decimal(n / 10).push(digit(n % 10))
    }
}

/// The character of the digit `d`.
pub open spec fn digit(d: nat) -> char {
    (('0' as u8) + (d % 10) as u8) as char
}

/// The lines of `text`, each with the line feed that ends it. Only the last
/// line can be without one.
pub open spec fn split_lines(text: Seq<char>) -> Seq<Seq<char>>
    decreases text.len(),
{
    if text.len() == 0 {
        Seq::empty()
    } else {
        let front = split_lines(text.drop_last());
        if front.len() > 0 && front.last().last() != '\n' {
            front.drop_last().push(front.last().push(text.last()))
        } else {
            front.push(seq![text.last()])
        }
    }
}

/// The texts that a sequence of strings holds.
pub open spec fn strings_view(strings: Seq<String>) -> Seq<Seq<char>> {
    Seq::new(strings.len(), |i: int| strings[i]@)
}

/// The texts of `parts`, one after the other.
pub open spec fn concat(parts: Seq<Seq<char>>) -> Seq<char>
    decreases parts.len(),
{
    if parts.len() == 0 {
        Seq::empty()
    } else {
        concat(parts.drop_last()) + parts.last()
    }
}

/// Different numbers have different digits.
pub proof fn lemma_decimal_is_injective(a: nat, b: nat)
    requires
        decimal(a) == decimal(b),
    ensures
        a == b,
    decreases a,
{
    lemma_decimal_length(a);
    lemma_decimal_length(b);
    lemma_digit_value(a % 10);
    lemma_digit_value(b % 10);
    if a < 10 && b < 10 {
        assert(decimal(a)[0] == digit(a));
        assert(decimal(b)[0] == digit(b));
        assert(a == b);
    } else if a >= 10 && b >= 10 {
        let front_a = decimal(a / 10);
        let front_b = decimal(b / 10);
        assert(front_a =~= decimal(a).drop_last());
        assert(front_b =~= decimal(b).drop_last());
        assert(decimal(a).last() == digit(a % 10));
        assert(decimal(b).last() == digit(b % 10));
        lemma_decimal_is_injective(a / 10, b / 10);
        assert(a % 10 == b % 10);
        assert(a == b);
    } else if a < 10 {
        assert(decimal(a).len() == 1);
    } else {
        assert(decimal(b).len() == 1);
    }
}

/// The character of the digit `d` has the code of `0` and `d` more.
pub proof fn lemma_digit_value(d: nat)
    requires
        d < 10,
    ensures
        digit(d) as int == 48 + d,
{
}

/// A number has at least one digit, and more than one from 10 on.
pub proof fn lemma_decimal_length(n: nat)
    ensures
        decimal(n).len() >= 1,
        n >= 10 ==> decimal(n).len() >= 2,
    decreases n,
{
    if n >= 10 {
        lemma_decimal_length(n / 10);
    }
}

/// The lines of a text, one after the other, are the text; and no line is
/// empty.
pub proof fn lemma_lines_make_the_text(text: Seq<char>)
    ensures
        concat(split_lines(text)) == text,
        forall|i: int| 0 <= i < split_lines(text).len() ==> (#[trigger] split_lines(text)[i]).len() > 0,
    decreases text.len(),
{
    if text.len() == 0 {
        assert(concat(split_lines(text)) =~= text);
    } else {
        let rest = text.drop_last();
        let front = split_lines(rest);
        lemma_lines_make_the_text(rest);
        if front.len() > 0 && front.last().last() != '\n' {
            let lines = front.drop_last().push(front.last().push(text.last()));
            assert(lines.drop_last() =~= front.drop_last());
            assert(concat(front) == concat(front.drop_last()) + front.last());
            assert(concat(lines) =~= concat(front) + seq![text.last()]);
        } else {
            let lines = front.push(seq![text.last()]);
            assert(lines.drop_last() =~= front);
            assert(concat(lines) =~= concat(front) + seq![text.last()]);
        }
        assert(text =~= rest + seq![text.last()]);
    }
}

/// Unfolds [`concat`] by one part at the end of a prefix of `parts`.
pub proof fn lemma_concat_step(parts: Seq<Seq<char>>, i: int)
    requires
        0 <= i < parts.len(),
    ensures
        concat(parts.take(i + 1)) == concat(parts.take(i)) + parts[i],
{
    assert(parts.take(i + 1).drop_last() =~= parts.take(i));
}

/// `str`'s equality: two strings are equal exactly when they hold the same
/// characters.
pub assume_specification[ <str as PartialEq>::eq ](a: &str, b: &str) -> (equal: bool)
    ensures
        equal == (a@ == b@),
;

/// `String::push`: the character is appended.
pub assume_specification[ String::push ](text: &mut String, c: char)
    ensures
        final(text)@ == old(text)@.push(c),
;

/// Where the first line of `text` ends, given that it has no line feed before
/// `end - 1`.
pub proof fn lemma_first_line(text: Seq<char>, end: int)
    requires
        0 <= end <= text.len(),
        forall|j: int| 0 <= j < end - 1 ==> text[j] != '\n',
        (end > 0 && text[end - 1] == '\n') || (end == text.len() && (end == 0 || text[end - 1]
            != '\n')),
    ensures
        first_line(text) == text.take(end),
    decreases text.len(),
{
    if text.len() == 0 {
        assert(text.take(end) =~= text);
    } else if text[0] == '\n' {
        assert(end == 1);
        assert(text.take(end) =~= seq!['\n']);
    } else {
        let rest = text.drop_first();
        assert(forall|j: int| 0 <= j < end - 2 ==> rest[j] == text[j + 1]);
        lemma_first_line(rest, end - 1);
        assert(text.take(end) =~= seq![text[0]] + rest.take(end - 1));
    }
}

/// Where the white space at the start of `text` ends.
pub proof fn lemma_trim_start(text: Seq<char>, start: int)
    requires
        0 <= start <= text.len(),
        forall|j: int| 0 <= j < start ==> is_white_space(text[j]),
        start == text.len() || !is_white_space(text[start]),
    ensures
        trim_start(text) == text.skip(start),
    decreases text.len(),
{
    if start == 0 {
        assert(text.skip(0) =~= text);
    } else {
        let rest = text.drop_first();
        assert(forall|j: int| 0 <= j < start - 1 ==> rest[j] == text[j + 1]);
        lemma_trim_start(rest, start - 1);
        assert(rest.skip(start - 1) =~= text.skip(start));
    }
}

/// Where the white space at the end of `text` starts.
pub proof fn lemma_trim_end(text: Seq<char>, end: int)
    requires
        0 <= end <= text.len(),
        forall|j: int| end <= j < text.len() ==> is_white_space(text[j]),
        end == 0 || !is_white_space(text[end - 1]),
    ensures
        trim_end(text) == text.take(end),
    decreases text.len(),
{
    if end == text.len() {
        assert(text.take(end) =~= text);
    } else {
        let rest = text.drop_last();
        lemma_trim_end(rest, end);
        assert(rest.take(end) =~= text.take(end));
    }
}

/// The characters of `text`.
pub fn chars_of(text: &str) -> (chars: Vec<char>)
    ensures
        chars@ == text@,
{
    let mut chars: Vec<char> = Vec::new();
    for c in it: text.chars()
        invariant
            it.seq() == text@,
            chars@ == text@.take(it.index()),
    {
        chars.push(c);
        assert(text@.take(it.index() + 1) =~= text@.take(it.index()).push(c));
    }
    assert(text@.take(text@.len() as int) =~= text@);
    chars
}

/// Whether `c` is white space.
pub fn white_space(c: char) -> (white: bool)
    ensures
        white == is_white_space(c),
{
    ('\u{9}' <= c && c <= '\u{d}') || c == ' ' || c == '\u{85}' || c == '\u{a0}' || c
        == '\u{1680}' || ('\u{2000}' <= c && c <= '\u{200a}') || c == '\u{2028}' || c == '\u{2029}'
        || c == '\u{202f}' || c == '\u{205f}' || c == '\u{3000}'
}

/// `c`, or its lower-case form where it is an upper-case ASCII letter.
pub fn lower(c: char) -> (lowered: char)
    ensures
        lowered == ascii_lower(c),
{
    if 'A' <= c && c <= 'Z' {
        ((c as u8) + 32) as char
    } else {
        c
    }
}

/// The bounds of the first line of `chars` without the white space around it.
pub fn trimmed_first_line(chars: &Vec<char>) -> (bounds: (usize, usize))
    ensures
        bounds.0 <= bounds.1 <= chars.len(),
        chars@.subrange(bounds.0 as int, bounds.1 as int) == trim(first_line(chars@)),
{
    let mut end: usize = 0;
    let mut found = false;
    while end < chars.len() && !found
        invariant
            end <= chars.len(),
            forall|j: int| 0 <= j < end - 1 ==> chars[j] != '\n',
            found ==> end > 0 && chars[end - 1] == '\n',
            !found && end > 0 ==> chars[end - 1] != '\n',
        decreases chars.len() - end,
    {
        found = chars[end] == '\n';
        end += 1;
    }
    let ghost line = chars@.take(end as int);
    proof {
        lemma_first_line(chars@, end as int);
    }
    let mut start: usize = 0;
    while start < end && white_space(chars[start])
        invariant
            start <= end <= chars.len(),
            forall|j: int| 0 <= j < start ==> is_white_space(chars[j]),
        decreases end - start,
    {
        start += 1;
    }
    proof {
        lemma_trim_start(line, start as int);
    }
    let ghost body = line.skip(start as int);
    let mut stop: usize = end;
    while stop > start && white_space(chars[stop - 1])
        invariant
            start <= stop <= end <= chars.len(),
            forall|j: int| stop <= j < end ==> is_white_space(chars[j]),
        decreases stop,
    {
        stop -= 1;
    }
    proof {
        assert(forall|j: int| 0 <= j < body.len() ==> body[j] == chars[j + start]);
        lemma_trim_end(body, stop - start);
        assert(body.take(stop - start) =~= chars@.subrange(start as int, stop as int));
    }
    (start, stop)
}

/// Whether the characters of `chars` from `start` to `stop` equal `pattern`
/// apart from the case of their ASCII letters.
pub(crate) fn matches_ignoring_ascii_case(
    chars: &Vec<char>,
    start: usize,
    stop: usize,
    pattern: &Vec<char>,
) -> (equal: bool)
    requires
        start <= stop <= chars.len(),
    ensures
        equal == equal_ignoring_ascii_case(chars@.subrange(start as int, stop as int), pattern@),
{
    if stop - start != pattern.len() {
        return false;
    }
    let ghost part = chars@.subrange(start as int, stop as int);
    let mut i: usize = 0;
    while i < pattern.len()
        invariant
            i <= pattern.len(),
            start + pattern.len() == stop <= chars.len(),
            part == chars@.subrange(start as int, stop as int),
            forall|j: int| 0 <= j < i ==> ascii_lower(#[trigger] part[j]) == ascii_lower(pattern[j]),
        decreases pattern.len() - i,
    {
        if lower(chars[start + i]) != lower(pattern[i]) {
            assert(ascii_lower(part[i as int]) != ascii_lower(pattern[i as int]));
            return false;
        }
        i += 1;
    }
    true
}

/// The lines of `text`, each with the line feed that ends it.
pub fn lines_with_endings(text: &str) -> (lines: Vec<String>)
    ensures
        strings_view(lines@) == split_lines(text@),
{
    let chars = chars_of(text);
    let mut lines: Vec<String> = Vec::new();
    let mut open = false;
    let mut i: usize = 0;
    assert(strings_view(lines@) =~= split_lines(chars@.take(0)));
    while i < chars.len()
        invariant
            i <= chars.len(),
            strings_view(lines@) == split_lines(chars@.take(i as int)),
            open <==> lines.len() > 0 && lines[lines.len() - 1]@.last() != '\n',
        decreases chars.len() - i,
    {
        let c = chars[i];
        let ghost front = strings_view(lines@);
        assert(chars@.take(i + 1).drop_last() =~= chars@.take(i as int));
        assert(chars@.take(i + 1).last() == c);
        if open {
            assert(front.last() == lines[lines.len() - 1]@);
            let mut line = lines.pop().unwrap();
            line.push(c);
            lines.push(line);
            assert(strings_view(lines@) =~= front.drop_last().push(front.last().push(c)));
        } else {
            if lines.len() > 0 {
                assert(front.last() == lines[lines.len() - 1]@);
            }
            let mut line = String::new();
            line.push(c);
            assert(line@ =~= seq![c]);
            lines.push(line);
            assert(strings_view(lines@) =~= front.push(seq![c]));
        }
        open = c != '\n';
        i += 1;
    }
    assert(chars@.take(chars.len() as int) =~= chars@);
    lines
}

/// The decimal digits of `n`.
pub fn decimal_string(n: usize) -> (digits: String)
    ensures
        digits@ == decimal(n as nat),
    decreases n,
{
    let last: u8 = (n % 10) as u8;
    let c: char = (48u8 + last) as char;
    let mut digits = if n < 10 {
        String::new()
    } else {
        decimal_string(n / 10)
    };
    digits.push(c);
    assert(decimal(n as nat) =~= if n < 10 {
        seq![c]
    } else {
        decimal((n / 10) as nat).push(c)
    });
    digits
}

/// The texts of `parts`, one after the other.
pub fn concat_strings(parts: &Vec<String>) -> (whole: String)
    ensures
        whole@ == concat(strings_view(parts@)),
{
    let mut whole = String::new();
    let mut i: usize = 0;
    assert(strings_view(parts@).take(0) =~= Seq::<Seq<char>>::empty());
    while i < parts.len()
        invariant
            i <= parts.len(),
            whole@ == concat(strings_view(parts@).take(i as int)),
        decreases parts.len() - i,
    {
        proof {
            lemma_concat_step(strings_view(parts@), i as int);
        }
        whole.append(parts[i].as_str());
        i += 1;
    }
    assert(strings_view(parts@).take(parts.len() as int) =~= strings_view(parts@));
    whole
}

} // verus!
