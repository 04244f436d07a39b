//! Text as sequences of characters: trimming, splitting, joining and decimal
//! numbers, with the meaning of each spelled out.
use vstd::prelude::*;

verus! {

/// `String::push` puts one character behind the text.
pub assume_specification[ String::push ](string: &mut String, ch: char)
    ensures
        final(string)@ == old(string)@.push(ch),
;

/// The characters with the Unicode `White_Space` property.
pub open spec fn is_space(character: char) -> bool {
    let code = character as u32;
    ||| 0x9 <= code <= 0xd
    ||| code == 0x20
    ||| code == 0x85
    ||| code == 0xa0
    ||| code == 0x1680
    ||| 0x2000 <= code <= 0x200a
    ||| code == 0x2028
    ||| code == 0x2029
    ||| code == 0x202f
    ||| code == 0x205f
    ||| code == 0x3000
}

pub open spec fn is_digit(character: char) -> bool {
    '0' <= character <= '9'
}

pub open spec fn trim_start(text: Seq<char>) -> Seq<char>
    decreases text.len(),
{
    if text.len() > 0 && is_space(text[0]) {
        trim_start(text.skip(1))
    } else {
        text
    }
}

pub open spec fn trim_end(text: Seq<char>) -> Seq<char>
    decreases text.len(),
{
    if text.len() > 0 && is_space(text.last()) {
        trim_end(text.drop_last())
    } else {
        text
    }
}

pub open spec fn trim(text: Seq<char>) -> Seq<char> {
    trim_end(trim_start(text))
}

/// Where `character` first stands in `text`, or the length where it does not.
pub open spec fn find(text: Seq<char>, character: char) -> int
    decreases text.len(),
{
    if text.len() == 0 || text[0] == character {
        0
    } else {
        1 + find(text.skip(1), character)
    }
}

pub proof fn lemma_find_bound(text: Seq<char>, character: char)
    ensures
        0 <= find(text, character) <= text.len(),
    decreases text.len(),
{
    if text.len() > 0 && text[0] != character {
        lemma_find_bound(text.skip(1), character);
    }
}

/// The pieces of `text` between the separators, one more than there are
/// separators.
pub open spec fn split(text: Seq<char>, separator: char) -> Seq<Seq<char>>
    decreases text.len(),
{
    let at = find(text, separator);
    if 0 <= at < text.len() {
        seq![text.take(at)] + split(text.skip(at + 1), separator)
    } else {
        seq![text]
    }
}

/// A line without the carriage return that its line feed took with it.
pub open spec fn without_return(line: Seq<char>) -> Seq<char> {
    if line.len() > 0 && line.last() == '\r' {
        line.drop_last()
    } else {
        line
    }
}

/// The lines of `text`: a line feed ends one, alone or behind a carriage
/// return, and the last one needs none.
pub open spec fn lines(text: Seq<char>) -> Seq<Seq<char>>
    decreases text.len(),
{
    let at = find(text, '\n');
    if text.len() == 0 {
        Seq::empty()
    } else if 0 <= at < text.len() {
        seq![without_return(text.take(at))] + lines(text.skip(at + 1))
    } else {
        seq![text]
    }
}

/// How many characters stand before the first white space.
pub open spec fn word_len(text: Seq<char>) -> int
    decreases text.len(),
{
    if text.len() == 0 || is_space(text[0]) {
        0
    } else {
        1 + word_len(text.skip(1))
    }
}

pub proof fn lemma_word_len_bound(text: Seq<char>)
    ensures
        0 <= word_len(text) <= text.len(),
    decreases text.len(),
{
    if text.len() > 0 && !is_space(text[0]) {
        lemma_word_len_bound(text.skip(1));
    }
}

/// The first white-space separated word of `text`, empty where there is none.
pub open spec fn first_word(text: Seq<char>) -> Seq<char> {
    let rest = trim_start(text);
    rest.take(word_len(rest))
}

/// What follows the first word of `text`.
pub open spec fn after_first_word(text: Seq<char>) -> Seq<char> {
    let rest = trim_start(text);
    rest.skip(word_len(rest))
}

/// That `part` stands somewhere in `text`.
pub open spec fn contains(text: Seq<char>, part: Seq<char>) -> bool {
    exists|at: int|
        0 <= at <= text.len() - part.len() && #[trigger] text.subrange(at, at + part.len())
            == part
}

/// `text` with every `from` turned into `to`.
pub open spec fn replaced(text: Seq<char>, from: char, to: Seq<char>) -> Seq<char>
    decreases text.len(),
{
    if text.len() == 0 {
        Seq::empty()
    } else {
        replaced(text.drop_last(), from, to) + (if text.last() == from {
            to
        } else {
            seq![text.last()]
        })
    }
}

/// The parts one after the other with `separator` between them.
pub open spec fn joined(parts: Seq<Seq<char>>, separator: Seq<char>) -> Seq<char>
    decreases parts.len(),
{
    if parts.len() == 0 {
        Seq::empty()
    } else if parts.len() == 1 {
        parts[0]
    } else {
        joined(parts.drop_last(), separator) + separator + parts.last()
    }
}

/// The texts that a list of strings holds.
pub open spec fn texts(strings: Seq<String>) -> Seq<Seq<char>> {
    strings.map_values(|string: String| string@)
}

/// At most the first `count` characters.
pub open spec fn at_most_chars(text: Seq<char>, count: nat) -> Seq<char> {
    if text.len() <= count {
        text
    } else {
        text.take(count as int)
    }
}

pub open spec fn digit_char(digit: nat) -> char {
    (('0' as u32) + digit) as char
}

pub open spec fn digit_value(character: char) -> nat {
    (character as u32 - '0' as u32) as nat
}

/// `value` in decimal, without leading zeros.
pub open spec fn decimal(value: nat) -> Seq<char>
    decreases value,
{
    if value < 10 {
        seq![digit_char(value)]
    } else {
        decimal(value / 10).push(digit_char(value % 10))
    }
}

/// `value` in decimal, with zeros in front up to `width` characters.
pub open spec fn padded(value: nat, width: nat) -> Seq<char>
    decreases width,
{
    if width == 0 {
        Seq::empty()
    } else {
        padded(value / 10, (width - 1) as nat).push(digit_char(value % 10))
    }
}

/// The number that a run of digits stands for.
pub open spec fn digits_value(digits: Seq<char>) -> nat
    decreases digits.len(),
{
    if digits.len() == 0 {
        0
    } else {
        10 * digits_value(digits.drop_last()) + digit_value(digits.last())
    }
}

pub open spec fn all_digits(text: Seq<char>) -> bool {
    forall|i: int| 0 <= i < text.len() ==> is_digit(#[trigger] text[i])
}

/// The digits of an unsigned number: one leading plus sign may go.
pub open spec fn without_plus(text: Seq<char>) -> Seq<char> {
    if text.len() > 0 && text[0] == '+' {
        text.skip(1)
    } else {
        text
    }
}

/// That `text` reads as an unsigned number no larger than `largest`: digits,
/// at least one, behind an optional plus sign.
pub open spec fn is_number(text: Seq<char>, largest: nat) -> bool {
    let digits = without_plus(text);
    digits.len() > 0 && all_digits(digits) && digits_value(digits) <= largest
}

/// The number that `text` reads as, where it is one.
pub open spec fn number(text: Seq<char>, largest: nat) -> Option<nat> {
    if is_number(text, largest) {
        Some(digits_value(without_plus(text)))
    } else {
        None
    }
}

/// Printing a number and reading it back gives the number.
pub proof fn law_decimal_reads_back(value: nat)
    ensures
        all_digits(decimal(value)),
        decimal(value).len() > 0,
        digits_value(decimal(value)) == value,
        number(decimal(value), value) == Some(value),
    decreases value,
{
    let text = decimal(value);
    if value < 10 {
        assert(text.drop_last() =~= Seq::empty());
        assert(digits_value(text.drop_last()) == 0);
        assert(text[0] == text.last());
    } else {
        law_decimal_reads_back(value / 10);
        assert(text.drop_last() =~= decimal(value / 10));
        assert(text[0] == decimal(value / 10)[0]);
    }
    assert(text[0] != '+');
}

pub proof fn lemma_trim_start_is_suffix(text: Seq<char>)
    ensures
        trim_start(text).len() <= text.len(),
        trim_start(text) == text.skip(text.len() - trim_start(text).len()),
    decreases text.len(),
{
    if text.len() > 0 && is_space(text[0]) {
        lemma_trim_start_is_suffix(text.skip(1));
        assert(text.skip(1).skip(text.len() - 1 - trim_start(text).len()) =~= text.skip(
            text.len() - trim_start(text).len(),
        ));
    } else {
        assert(text.skip(0) =~= text);
    }
}

pub proof fn lemma_trim_end_is_prefix(text: Seq<char>)
    ensures
        trim_end(text).len() <= text.len(),
        trim_end(text) == text.take(trim_end(text).len() as int),
    decreases text.len(),
{
    if text.len() > 0 && is_space(text.last()) {
        lemma_trim_end_is_prefix(text.drop_last());
        assert(text.drop_last().take(trim_end(text).len() as int) =~= text.take(
            trim_end(text).len() as int,
        ));
    } else {
        assert(text.take(text.len() as int) =~= text);
    }
}

/// Trimming leaves no white space at either end, so trimming again changes
/// nothing.
pub proof fn law_trim_is_idempotent(text: Seq<char>)
    ensures
        trim(trim(text)) == trim(text),
        trim(text).len() > 0 ==> !is_space(trim(text)[0]) && !is_space(trim(text).last()),
{
    let middle = trim_start(text);
    lemma_trim_start_stops(text);
    lemma_trim_end_stops(middle);
    lemma_trim_end_is_prefix(middle);
}

proof fn lemma_trim_start_stops(text: Seq<char>)
    ensures
        trim_start(text).len() > 0 ==> !is_space(trim_start(text)[0]),
    decreases text.len(),
{
    if text.len() > 0 && is_space(text[0]) {
        lemma_trim_start_stops(text.skip(1));
    }
}

proof fn lemma_trim_end_stops(text: Seq<char>)
    ensures
        trim_end(text).len() > 0 ==> !is_space(trim_end(text).last()),
    decreases text.len(),
{
    if text.len() > 0 && is_space(text.last()) {
        lemma_trim_end_stops(text.drop_last());
    }
}

pub fn is_whitespace(character: char) -> (result: bool)
    ensures
        result == is_space(character),
{
    let code: u32 = character as u32;
    (0x9 <= code && code <= 0xd) || code == 0x20 || code == 0x85 || code == 0xa0 || code == 0x1680
        || (0x2000 <= code && code <= 0x200a) || code == 0x2028 || code == 0x2029 || code == 0x202f
        || code == 0x205f || code == 0x3000
}

/// The characters of `text`.
pub(crate) fn chars_of(text: &str) -> (result: Vec<char>)
    ensures
        result@ == text@,
{
    let mut result: Vec<char> = Vec::new();
    for character in it: text.chars()
        invariant
            result@ == text@.take(it.index() as int),
            it.seq() == text@,
    {
        result.push(character);
        assert(text@.take(it.index() as int).push(character) =~= text@.take(it.index() + 1));
    }
    assert(text@.take(text@.len() as int) =~= text@);
    result
}

/// The text that `characters[from..to]` spells.
pub(crate) fn string_of(characters: &[char], from: usize, to: usize) -> (result: String)
    requires
        from <= to <= characters.len(),
    ensures
        result@ == characters@.subrange(from as int, to as int),
{
    let mut result: String = String::new();
    let mut at: usize = from;
    while at < to
        invariant
            from <= at <= to <= characters.len(),
            result@ == characters@.subrange(from as int, at as int),
        decreases to - at,
    {
        result.push(characters[at]);
        at = at + 1;
        assert(characters@.subrange(from as int, at as int) =~= characters@.subrange(
            from as int,
            at - 1,
        ).push(characters@[at - 1]));
    }
    result
}

/// The bounds of the trimmed `characters[from..to]`.
pub(crate) fn trim_range(characters: &[char], from: usize, to: usize) -> (result: (usize, usize))
    requires
        from <= to <= characters.len(),
    ensures
        from <= result.0 <= result.1 <= to,
        characters@.subrange(result.0 as int, result.1 as int) == trim(
            characters@.subrange(from as int, to as int),
        ),
{
    let mut start: usize = from;
    while start < to && is_whitespace(characters[start])
        invariant
            from <= start <= to <= characters.len(),
            trim_start(characters@.subrange(start as int, to as int)) == trim_start(
                characters@.subrange(from as int, to as int),
            ),
        decreases to - start,
    {
        assert(characters@.subrange(start as int, to as int).skip(1) =~= characters@.subrange(
            start + 1,
            to as int,
        ));
        start = start + 1;
    }
    let ghost rest = characters@.subrange(start as int, to as int);
    let mut end: usize = to;
    while end > start && is_whitespace(characters[end - 1])
        invariant
            start <= end <= to <= characters.len(),
            trim_end(characters@.subrange(start as int, end as int)) == trim_end(rest),
        decreases end,
    {
        assert(characters@.subrange(start as int, end as int).drop_last() =~= characters@.subrange(
            start as int,
            end - 1,
        ));
        end = end - 1;
    }
    (start, end)
}

/// `text` without the white space at its ends.
pub fn trimmed(text: &str) -> (result: String)
    ensures
        result@ == trim(text@),
{
    let characters: Vec<char> = chars_of(text);
    let (from, to) = trim_range(characters.as_slice(), 0, characters.len());
    assert(characters@.subrange(0, characters.len() as int) =~= text@);
    string_of(characters.as_slice(), from, to)
}

/// Whether `text` holds nothing but white space.
pub fn is_blank(text: &str) -> (result: bool)
    ensures
        result == (trim(text@).len() == 0),
{
    let characters: Vec<char> = chars_of(text);
    let (from, to) = trim_range(characters.as_slice(), 0, characters.len());
    assert(characters@.subrange(0, characters.len() as int) =~= text@);
    from == to
}

/// Where `character` first stands in `characters[from..]`, up to the end.
pub(crate) fn find_from(characters: &[char], from: usize, character: char) -> (result: usize)
    requires
        from <= characters.len(),
    ensures
        from <= result <= characters.len(),
        result == from + find(characters@.skip(from as int), character),
{
    let mut at: usize = from;
    while at < characters.len() && characters[at] != character
        invariant
            from <= at <= characters.len(),
            find(characters@.skip(from as int), character) == at - from + find(
                characters@.skip(at as int),
                character,
            ),
        decreases characters.len() - at,
    {
        assert(characters@.skip(at as int).skip(1) =~= characters@.skip(at + 1));
        at = at + 1;
    }
    at
}

/// The lines of `text`, each as its characters.
pub(crate) fn line_list(text: &str) -> (result: Vec<Vec<char>>)
    ensures
        result.len() == lines(text@).len(),
        forall|i: int| 0 <= i < result.len() ==> (#[trigger] result[i])@ == lines(text@)[i],
{
    let characters: Vec<char> = chars_of(text);
    let mut result: Vec<Vec<char>> = Vec::new();
    let mut at: usize = 0;
    assert(characters@.skip(0) =~= text@);
    while at < characters.len()
        invariant
            at <= characters.len(),
            characters@ == text@,
            lines(text@).len() == result.len() + lines(text@.skip(at as int)).len(),
            forall|i: int| 0 <= i < result.len() ==> (#[trigger] result[i])@ == lines(text@)[i],
            forall|i: int|
                0 <= i < lines(text@.skip(at as int)).len() ==> lines(text@)[result.len() + i]
                    == #[trigger] lines(text@.skip(at as int))[i],
        decreases characters.len() - at,
    {
        let ghost rest = text@.skip(at as int);
        let next: usize = find_from(characters.as_slice(), at, '\n');
        let end: usize = if next < characters.len() && next > at && characters[next - 1] == '\r' {
            next - 1
        } else {
            next
        };
        let line: Vec<char> = copy_range(characters.as_slice(), at, end);
        proof {
            lemma_find_bound(rest, '\n');
            if next < characters.len() {
                assert(rest.take(next - at) =~= text@.subrange(at as int, next as int));
                assert(without_return(rest.take(next - at)) =~= line@);
                assert(rest.skip(next - at + 1) =~= text@.skip(next + 1));
                assert(lines(rest)[0] == line@);
                assert forall|i: int|
                    0 <= i < lines(text@.skip(next + 1)).len() implies lines(text@)[result.len() + 1
                    + i] == #[trigger] lines(text@.skip(next + 1))[i] by {
                    assert(lines(rest)[i + 1] == lines(text@.skip(next + 1))[i]);
                }
            } else {
                assert(rest =~= line@);
                assert(lines(rest)[0] == line@);
                assert(text@.skip(next as int).len() == 0);
                assert(lines(text@.skip(next as int)).len() == 0);
            }
        }
        result.push(line);
        at = if next < characters.len() {
            next + 1
        } else {
            next
        };
    }
    result
}

/// A copy of `characters[from..to]`.
pub(crate) fn copy_range(characters: &[char], from: usize, to: usize) -> (result: Vec<char>)
    requires
        from <= to <= characters.len(),
    ensures
        result@ == characters@.subrange(from as int, to as int),
{
    let mut result: Vec<char> = Vec::new();
    let mut at: usize = from;
    while at < to
        invariant
            from <= at <= to <= characters.len(),
            result@ == characters@.subrange(from as int, at as int),
        decreases to - at,
    {
        result.push(characters[at]);
        at = at + 1;
        assert(characters@.subrange(from as int, at as int) =~= characters@.subrange(
            from as int,
            at - 1,
        ).push(characters@[at - 1]));
    }
    result
}

/// The pieces of `characters` between the separators, each as its characters.
pub(crate) fn split_list(characters: &[char], separator: char) -> (result: Vec<Vec<char>>)
    ensures
        result.len() == split(characters@, separator).len(),
        forall|i: int|
            0 <= i < result.len() ==> (#[trigger] result[i])@ == split(characters@, separator)[i],
{
    let mut result: Vec<Vec<char>> = Vec::new();
    let mut at: usize = 0;
    let ghost pieces = split(characters@, separator);
    assert(characters@.skip(0) =~= characters@);
    loop
        invariant
            at <= characters.len(),
            pieces == split(characters@, separator),
            pieces.len() == result.len() + split(characters@.skip(at as int), separator).len(),
            forall|i: int| 0 <= i < result.len() ==> (#[trigger] result[i])@ == pieces[i],
            forall|i: int|
                0 <= i < split(characters@.skip(at as int), separator).len()
                    ==> pieces[result.len() + i] == #[trigger] split(
                    characters@.skip(at as int),
                    separator,
                )[i],
        decreases characters.len() - at,
    {
        let ghost rest = characters@.skip(at as int);
        let next: usize = find_from(characters, at, separator);
        let piece: Vec<char> = copy_range(characters, at, next);
        if next >= characters.len() {
            assert(rest =~= piece@);
            assert(split(rest, separator)[0] == piece@);
            result.push(piece);
            return result;
        }
        proof {
            assert(rest.take(next - at) =~= piece@);
            assert(rest.skip(next - at + 1) =~= characters@.skip(next + 1));
            assert(split(rest, separator)[0] == piece@);
            assert forall|i: int|
                0 <= i < split(characters@.skip(next + 1), separator).len() implies pieces[
                result.len() + 1 + i] == #[trigger] split(
                characters@.skip(next + 1),
                separator,
            )[i] by {
                assert(split(rest, separator)[i + 1] == split(
                    characters@.skip(next + 1),
                    separator,
                )[i]);
            }
        }
        result.push(piece);
        at = next + 1;
    }
}

/// The bounds of the first word of `characters[from..]`; both are the end where
/// there is none.
pub(crate) fn word_range(characters: &[char], from: usize) -> (result: (usize, usize))
    requires
        from <= characters.len(),
    ensures
        from <= result.0 <= result.1 <= characters.len(),
        characters@.subrange(result.0 as int, result.1 as int) == first_word(
            characters@.skip(from as int),
        ),
        characters@.skip(result.1 as int) == after_first_word(characters@.skip(from as int)),
{
    let ghost text = characters@.skip(from as int);
    let mut start: usize = from;
    while start < characters.len() && is_whitespace(characters[start])
        invariant
            from <= start <= characters.len(),
            trim_start(characters@.skip(start as int)) == trim_start(text),
        decreases characters.len() - start,
    {
        assert(characters@.skip(start as int).skip(1) =~= characters@.skip(start + 1));
        start = start + 1;
    }
    let ghost rest = characters@.skip(start as int);
    let mut end: usize = start;
    while end < characters.len() && !is_whitespace(characters[end])
        invariant
            start <= end <= characters.len(),
            rest == characters@.skip(start as int),
            word_len(rest) == end - start + word_len(characters@.skip(end as int)),
        decreases characters.len() - end,
    {
        assert(characters@.skip(end as int).skip(1) =~= characters@.skip(end + 1));
        end = end + 1;
    }
    assert(word_len(rest) == end - start);
    assert(rest.take(end - start) =~= characters@.subrange(start as int, end as int));
    assert(rest.skip(end - start) =~= characters@.skip(end as int));
    (start, end)
}

/// Whether two texts are the same.
pub fn same(left: &str, right: &str) -> (result: bool)
    ensures
        result == (left@ == right@),
{
    let left: Vec<char> = chars_of(left);
    let right: Vec<char> = chars_of(right);
    same_chars(left.as_slice(), right.as_slice())
}

pub(crate) fn same_chars(left: &[char], right: &[char]) -> (result: bool)
    ensures
        result == (left@ == right@),
{
    if left.len() != right.len() {
        return false;
    }
    let mut at: usize = 0;
    while at < left.len()
        invariant
            at <= left.len() == right.len(),
            left@.take(at as int) == right@.take(at as int),
        decreases left.len() - at,
    {
        if left[at] != right[at] {
            assert(left@[at as int] != right@[at as int]);
            return false;
        }
        assert(left@.take(at + 1) =~= left@.take(at as int).push(left@[at as int]));
        assert(right@.take(at + 1) =~= right@.take(at as int).push(right@[at as int]));
        at = at + 1;
    }
    assert(left@.take(left.len() as int) =~= left@);
    assert(right@.take(right.len() as int) =~= right@);
    true
}

/// Whether `part` stands at `at` in `text`.
fn stands_at(text: &[char], at: usize, part: &[char]) -> (result: bool)
    requires
        at + part.len() <= text.len(),
    ensures
        result == (text@.subrange(at as int, at + part.len()) == part@),
{
    let mut index: usize = 0;
    while index < part.len()
        invariant
            index <= part.len(),
            at + part.len() <= text.len(),
            forall|i: int| 0 <= i < index ==> text@[at + i] == part@[i],
        decreases part.len() - index,
    {
        if text[at + index] != part[index] {
            assert(text@.subrange(at as int, at + part.len())[index as int] != part@[index as int]);
            return false;
        }
        index = index + 1;
    }
    assert(text@.subrange(at as int, at + part.len()) =~= part@);
    true
}

/// Whether `part` stands somewhere in `text`.
pub fn holds(text: &str, part: &str) -> (result: bool)
    ensures
        result == contains(text@, part@),
{
    let whole: Vec<char> = chars_of(text);
    let sought: Vec<char> = chars_of(part);
    if sought.len() > whole.len() {
        return false;
    }
    let last: usize = whole.len() - sought.len();
    let mut at: usize = 0;
    loop
        invariant
            whole@ == text@,
            sought@ == part@,
            last + sought.len() == whole.len(),
            at <= last,
            forall|i: int|
                0 <= i < at ==> #[trigger] text@.subrange(i, i + part@.len()) != part@,
        decreases last - at,
    {
        if stands_at(whole.as_slice(), at, sought.as_slice()) {
            return true;
        }
        if at == last {
            return false;
        }
        at = at + 1;
    }
}

/// `text` with every `from` turned into `to`.
pub(crate) fn replace(text: &str, from: char, to: &str) -> (result: String)
    ensures
        result@ == replaced(text@, from, to@),
{
    let characters: Vec<char> = chars_of(text);
    let mut result: String = String::new();
    let mut at: usize = 0;
    assert(text@.take(0) =~= Seq::empty());
    while at < characters.len()
        invariant
            at <= characters.len(),
            characters@ == text@,
            result@ == replaced(text@.take(at as int), from, to@),
        decreases characters.len() - at,
    {
        let character: char = characters[at];
        assert(text@.take(at + 1).drop_last() =~= text@.take(at as int));
        if character == from {
            result.append(to);
        } else {
            result.push(character);
            assert(replaced(text@.take(at as int), from, to@).push(character) =~= replaced(
                text@.take(at as int),
                from,
                to@,
            ) + seq![character]);
        }
        at = at + 1;
    }
    assert(text@.take(text@.len() as int) =~= text@);
    result
}

/// The parts one after the other with `separator` between them.
pub(crate) fn join(parts: &Vec<String>, separator: &str) -> (result: String)
    ensures
        result@ == joined(texts(parts@), separator@),
{
    let mut result: String = String::new();
    let ghost all = texts(parts@);
    let mut at: usize = 0;
    assert(all.take(0) =~= Seq::empty());
    while at < parts.len()
        invariant
            at <= parts.len(),
            all == texts(parts@),
            result@ == joined(all.take(at as int), separator@),
        decreases parts.len() - at,
    {
        assert(all.take(at + 1).drop_last() =~= all.take(at as int));
        assert(all.take(at + 1).last() == parts[at as int]@);
        if at > 0 {
            result.append(separator);
        }
        result.append(parts[at].as_str());
        at = at + 1;
        assert(at == 1 ==> result@ =~= all.take(1)[0]);
    }
    assert(all.take(all.len() as int) =~= all);
    result
}

/// At most the first `count` characters of `text`.
pub(crate) fn head(text: &str, count: usize) -> (result: String)
    ensures
        result@ == at_most_chars(text@, count as nat),
{
    let characters: Vec<char> = chars_of(text);
    let to: usize = if characters.len() <= count {
        characters.len()
    } else {
        count
    };
    assert(text@.subrange(0, text@.len() as int) =~= text@);
    assert(count < text@.len() ==> text@.subrange(0, count as int) =~= text@.take(count as int));
    string_of(characters.as_slice(), 0, to)
}

fn digit(value: u64) -> (result: char)
    requires
        value < 10,
    ensures
        result == digit_char(value as nat),
{
    if value == 0 {
        '0'
    } else if value == 1 {
        '1'
    } else if value == 2 {
        '2'
    } else if value == 3 {
        '3'
    } else if value == 4 {
        '4'
    } else if value == 5 {
        '5'
    } else if value == 6 {
        '6'
    } else if value == 7 {
        '7'
    } else if value == 8 {
        '8'
    } else {
        '9'
    }
}

/// `value` in decimal.
pub fn print(value: u64) -> (result: String)
    ensures
        result@ == decimal(value as nat),
    decreases value,
{
    let mut result: String = if value < 10 {
        String::new()
    } else {
        print(value / 10)
    };
    result.push(digit(value % 10));
    assert(value < 10 ==> result@ =~= decimal(value as nat));
    result
}

/// `value` in decimal, with zeros in front up to `width` characters.
pub(crate) fn print_padded(value: u64, width: u64) -> (result: String)
    ensures
        result@ == padded(value as nat, width as nat),
    decreases width,
{
    if width == 0 {
        return String::new();
    }
    let mut result: String = print_padded(value / 10, width - 1);
    result.push(digit(value % 10));
    result
}

pub proof fn lemma_digits_value_grows(digits: Seq<char>, count: int)
    requires
        0 <= count <= digits.len(),
        all_digits(digits),
    ensures
        digits_value(digits.take(count)) <= digits_value(digits),
    decreases digits.len() - count,
{
    if count == digits.len() {
        assert(digits.take(count) =~= digits);
    } else {
        assert(digits.take(count + 1).drop_last() =~= digits.take(count));
        lemma_digits_value_grows(digits, count + 1);
    }
}

/// The number that `characters` reads as, where it is one no larger than
/// `largest`.
pub(crate) fn parse_number(characters: &[char], largest: u64) -> (result: Option<u64>)
    ensures
        result is Some == is_number(characters@, largest as nat),
        result matches Some(value) ==> value == digits_value(without_plus(characters@)),
{
    let start: usize = if characters.len() > 0 && characters[0] == '+' {
        1
    } else {
        0
    };
    let ghost digits = without_plus(characters@);
    assert(digits =~= characters@.skip(start as int));
    if start >= characters.len() {
        return None;
    }
    let mut value: u64 = 0;
    let mut at: usize = start;
    assert(digits.take(0) =~= Seq::empty());
    while at < characters.len()
        invariant
            start <= at <= characters.len(),
            digits == characters@.skip(start as int),
            digits == without_plus(characters@),
            value == digits_value(digits.take(at - start)),
            value <= largest,
            forall|i: int| 0 <= i < at - start ==> is_digit(#[trigger] digits[i]),
        decreases characters.len() - at,
    {
        let character: char = characters[at];
        assert(character == digits[at - start]);
        if !('0' <= character && character <= '9') {
            return None;
        }
        let next: u64 = (character as u32 - 48) as u64;
        assert(digits.take(at - start + 1).drop_last() =~= digits.take(at - start));
        if next > largest || value > (largest - next) / 10 {
            proof {
                if all_digits(digits) {
                    lemma_digits_value_grows(digits, at - start + 1);
                }
            }
            return None;
        }
        value = value * 10 + next;
        at = at + 1;
    }
    assert(digits.take(digits.len() as int) =~= digits);
    Some(value)
}

/// [`parse_number`] on a text.
pub fn read_number(text: &str, largest: u64) -> (result: Option<u64>)
    ensures
        result is Some == is_number(text@, largest as nat),
        result matches Some(value) ==> value == digits_value(without_plus(text@)),
{
    let characters: Vec<char> = chars_of(text);
    parse_number(characters.as_slice(), largest)
}

pub open spec fn is_ascii_text(text: Seq<char>) -> bool {
    forall|i: int| 0 <= i < text.len() ==> (#[trigger] text[i]) as u32 <= 0x7f
}

/// An ASCII letter in upper case, any other character as it is.
pub open spec fn ascii_upper(character: char) -> char {
    if 'a' <= character <= 'z' {
        (character as u32 - 0x20) as char
    } else {
        character
    }
}

/// What `str::to_uppercase` makes of a text.
pub uninterp spec fn uppercase(text: Seq<char>) -> Seq<char>;

/// `str::to_uppercase`: its result is named, and of ASCII text it is said to be
/// the same text with each letter in upper case.
#[verifier::external_body]
pub(crate) fn to_uppercase(text: &str) -> (result: String)
    ensures
        result@ == uppercase(text@),
        is_ascii_text(text@) ==> result@ == text@.map_values(|c: char| ascii_upper(c)),
{
    text.to_uppercase()
}

/// `text` between quotation marks, with the escapes that `str` has where it is
/// written for debugging.
pub uninterp spec fn debugged(text: Seq<char>) -> Seq<char>;

/// `str`, formatted by its `Debug`: the text is named.
#[verifier::external_body]
pub(crate) fn debug(text: &str) -> (result: String)
    ensures
        result@ == debugged(text@),
{
    format!("{text:?}")
}

} // verus!
