//! Text as sequences of characters: comparison, search, splitting and decimal numerals.

use vstd::prelude::*;
use vstd::string::*;

verus! {

/// The characters of `text`, in order.
pub fn char_vec(text: &str) -> (chars: Vec<char>)
    ensures
        chars@ == text@,
{
    let mut chars: Vec<char> = Vec::new();
    for c in iter: text.chars()
        invariant
            iter.seq() == text@,
            chars@ == iter.seq().take(iter.index() as int),
    {
        chars.push(c);
    }
    chars
}

/// Whether two texts hold the same characters.
pub fn same_text(left: &str, right: &str) -> (same: bool)
    ensures
        same == (left@ == right@),
{
    left.to_owned() == right.to_owned()
}

/// `text` begins with `prefix`.
pub open spec fn begins_with(text: Seq<char>, prefix: Seq<char>) -> bool {
    prefix.len() <= text.len() && text.take(prefix.len() as int) == prefix
}

/// `part` stands in `text` from position `at` on.
pub open spec fn stands_at(text: Seq<char>, part: Seq<char>, at: int) -> bool {
    &&& 0 <= at
    &&& at + part.len() <= text.len()
    &&& text.subrange(at, at + part.len()) == part
}

/// `part` stands somewhere in `text`, in one piece.
pub open spec fn contains_text(text: Seq<char>, part: Seq<char>) -> bool {
    exists|at: int| stands_at(text, part, at)
}

/// Whether `part` stands in `text` from position `at` on.
fn matches_at(text: &Vec<char>, part: &Vec<char>, at: usize) -> (found: bool)
    requires
        at + part@.len() <= text@.len(),
    ensures
        found == stands_at(text@, part@, at as int),
{
    let length = text.len();
    let mut i: usize = 0;
    while i < part.len()
        invariant
            i <= part@.len(),
            length == text@.len(),
            at + part@.len() <= length,
            forall|k: int| 0 <= k < i ==> text@[at + k] == part@[k],
        decreases part@.len() - i,
    {
        if text[at + i] != part[i] {
            assert(text@.subrange(at as int, at + part@.len())[i as int] == text@[at + i]);
            return false;
        }
        i += 1;
    }
    assert(text@.subrange(at as int, at + part@.len()) =~= part@);
    true
}

/// Whether `text` begins with `prefix`.
pub fn starts_with(text: &str, prefix: &str) -> (starts: bool)
    ensures
        starts == begins_with(text@, prefix@),
{
    let text_chars = char_vec(text);
    let prefix_chars = char_vec(prefix);
    proof {
        if prefix@.len() <= text@.len() {
            assert(text@.subrange(0, prefix@.len() as int) == text@.take(prefix@.len() as int));
        }
    }
    prefix_chars.len() <= text_chars.len() && matches_at(&text_chars, &prefix_chars, 0)
}

/// Whether `part` stands in `text`.
pub fn contains(text: &str, part: &str) -> (found: bool)
    ensures
        found == contains_text(text@, part@),
{
    let text_chars = char_vec(text);
    let part_chars = char_vec(part);
    if part_chars.len() > text_chars.len() {
        return false;
    }
    let length = text_chars.len();
    let last = length - part_chars.len();
    let mut at: usize = 0;
    while at <= last
        invariant
            length == text_chars@.len(),
            last == length - part_chars@.len(),
            at <= last + 1,
            text_chars@ == text@,
            part_chars@ == part@,
            forall|k: int| 0 <= k < at ==> !stands_at(text@, part@, k),
        decreases last + 1 - at,
    {
        if matches_at(&text_chars, &part_chars, at) {
            return true;
        }
        assert(part@.len() > 0) by {
            assert(part@.len() == 0 ==> text@.subrange(at as int, at as int) =~= part@);
        }
        at += 1;
    }
    false
}

/// The text of `before`, `middle` and `after`, one after the other.
pub fn concatenate(before: &str, middle: &str, after: &str) -> (whole: String)
    ensures
        whole@ == before@ + middle@ + after@,
{
    let mut whole = before.to_owned();
    whole.append(middle);
    whole.append(after);
    whole
}

/// The text can stand in a C string: it holds no NUL.
pub open spec fn without_nul(text: Seq<char>) -> bool {
    !text.contains('\0')
}

/// Whether the text holds no NUL.
pub fn has_no_nul(text: &str) -> (result: bool)
    ensures
        result == without_nul(text@),
{
    let chars = char_vec(text);
    let mut i: usize = 0;
    while i < chars.len()
        invariant
            i <= chars@.len(),
            chars@ == text@,
            forall|k: int| 0 <= k < i ==> text@[k] != '\0',
        decreases chars@.len() - i,
    {
        if chars[i] == '\0' {
            assert(text@[i as int] == '\0');
            return false;
        }
        i += 1;
    }
    true
}

/// `line` with a line feed behind it.
pub fn with_newline(line: &str) -> (result: String)
    ensures
        result@ == line@ + "\n"@,
{
    let mut result = line.to_owned();
    result.append("\n");
    result
}

/// A character with the Unicode `White_Space` property.
pub open spec fn white_space(c: char) -> bool {
    ||| '\u{9}' <= c <= '\u{d}'
    ||| c == ' '
    ||| c == '\u{85}'
    ||| c == '\u{a0}'
    ||| c == '\u{1680}'
    ||| '\u{2000}' <= c <= '\u{200a}'
    ||| c == '\u{2028}'
    ||| c == '\u{2029}'
    ||| c == '\u{202f}'
    ||| c == '\u{205f}'
    ||| c == '\u{3000}'
}

/// Whether `c` has the Unicode `White_Space` property.
pub fn is_white_space(c: char) -> (white: bool)
    ensures
        white == white_space(c),
{
    ('\u{9}' <= c && c <= '\u{d}') || c == ' ' || c == '\u{85}' || c == '\u{a0}' || c
        == '\u{1680}' || ('\u{2000}' <= c && c <= '\u{200a}') || c == '\u{2028}' || c == '\u{2029}'
        || c == '\u{202f}' || c == '\u{205f}' || c == '\u{3000}'
}

/// The characters from `from` up to `to` are one whole word of `text`: a stretch without white
/// space that white space or the end of the text bounds on both sides.
pub open spec fn word_at(text: Seq<char>, from: int, to: int) -> bool {
    &&& 0 <= from < to <= text.len()
    &&& forall|k: int| from <= k < to ==> !white_space(text[k])
    &&& from == 0 || white_space(text[from - 1])
    &&& to == text.len() || white_space(text[to])
}

/// `word` is one of the words that white space separates in `text`.
pub open spec fn lists_word(text: Seq<char>, word: Seq<char>) -> bool {
    exists|from: int, to: int| #[trigger]
        word_at(text, from, to) && text.subrange(from, to) == word
}

/// Whether `word` is one of the words that white space separates in `text`.
pub fn has_word(text: &str, word: &str) -> (found: bool)
    ensures
        found == lists_word(text@, word@),
{
    let chars = char_vec(text);
    let wanted = char_vec(word);
    let length = chars.len();
    let mut at: usize = 0;
    while at < length
        invariant
            chars@ == text@,
            wanted@ == word@,
            length == chars@.len(),
            at <= length,
            0 < at < length ==> white_space(text@[at - 1]) || white_space(text@[at as int]),
            forall|from: int, to: int| #[trigger]
                word_at(text@, from, to) && from < at ==> text@.subrange(from, to) != word@,
        decreases length - at,
    {
        if is_white_space(chars[at]) {
            at += 1;
        } else {
            let mut end: usize = at;
            while end < length && !is_white_space(chars[end])
                invariant
                    chars@ == text@,
                    length == chars@.len(),
                    at <= end <= length,
                    forall|k: int| at <= k < end ==> !white_space(text@[k]),
                decreases length - end,
            {
                end += 1;
            }
            assert(word_at(text@, at as int, end as int));
            if end - at == wanted.len() && matches_at(&chars, &wanted, at) {
                return true;
            }
            assert forall|from: int, to: int| #[trigger]
                word_at(text@, from, to) && from < end implies text@.subrange(from, to) != word@ by {
                if at <= from {
                    if at < from {
                        assert(!white_space(text@[from - 1]));
                    }
                    assert(to == end) by {
                        if to < end {
                            assert(!white_space(text@[to]));
                        }
                        if end < to {
                            assert(!white_space(text@[end as int]));
                        }
                    }
                }
            }
            at = end;
        }
    }
    false
}

/// `text` without the white space that it begins with.
pub open spec fn trim_start(text: Seq<char>) -> Seq<char>
    decreases text.len(),
{
    if text.len() > 0 && white_space(text[0]) {
        trim_start(text.drop_first())
    } else {
        text
    }
}

/// `text` without the white space that it ends with.
pub open spec fn trim_end(text: Seq<char>) -> Seq<char>
    decreases text.len(),
{
    if text.len() > 0 && white_space(text.last()) {
        trim_end(text.drop_last())
    } else {
        text
    }
}

/// `text` without the white space around it.
pub open spec fn trimmed(text: Seq<char>) -> Seq<char> {
    trim_end(trim_start(text))
}

/// `text` without the white space around it.
pub fn trim(text: &str) -> (inner: &str)
    ensures
        inner@ == trimmed(text@),
{
    let chars = char_vec(text);
    let length = chars.len();
    let mut from: usize = 0;
    assert(text@.skip(0) == text@);
    while from < length && is_white_space(chars[from])
        invariant
            chars@ == text@,
            length == chars@.len(),
            from <= length,
            trim_start(text@.skip(from as int)) == trim_start(text@),
        decreases length - from,
    {
        assert(text@.skip(from as int).drop_first() == text@.skip(from + 1));
        from += 1;
    }
    assert(trim_start(text@) == text@.skip(from as int));
    let mut to: usize = length;
    assert(text@.subrange(from as int, to as int) == text@.skip(from as int));
    while from < to && is_white_space(chars[to - 1])
        invariant
            chars@ == text@,
            from <= to <= length,
            length == chars@.len(),
            trim_end(text@.subrange(from as int, to as int)) == trimmed(text@),
        decreases to - from,
    {
        assert(text@.subrange(from as int, to as int).drop_last() == text@.subrange(
            from as int,
            to - 1,
        ));
        to -= 1;
    }
    text.substring_char(from, to)
}

/// An ASCII decimal digit.
pub open spec fn digit(c: char) -> bool {
    '0' <= c <= '9'
}

/// An ASCII letter or decimal digit.
pub open spec fn alphanumeric(c: char) -> bool {
    ||| digit(c)
    ||| 'a' <= c <= 'z'
    ||| 'A' <= c <= 'Z'
}

/// Every character of `text` is a decimal digit.
pub open spec fn all_digits(text: Seq<char>) -> bool {
    forall|i: int| 0 <= i < text.len() ==> digit(#[trigger] text[i])
}

/// The number that a sequence of decimal digits writes.
pub open spec fn digits_value(digits: Seq<char>) -> nat
    decreases digits.len(),
{
    if digits.len() == 0 {
        0
    } else {
        digits_value(digits.drop_last()) * 10 + (digits.last() as nat - '0' as nat) as nat
    }
}

/// The 64-bit number that `text` writes in decimal, with or without a leading plus sign.
pub open spec fn number(text: Seq<char>) -> Option<u64> {
    let digits = if text.len() > 0 && text[0] == '+' {
        text.drop_first()
    } else {
        text
    };
    if digits.len() > 0 && all_digits(digits) && digits_value(digits) <= u64::MAX {
        Some(digits_value(digits) as u64)
    } else {
        None
    }
}

/// A prefix of a sequence of digits writes no greater number than the whole.
proof fn lemma_prefix_value(digits: Seq<char>, length: int)
    requires
        0 <= length <= digits.len(),
    ensures
        digits_value(digits.take(length)) <= digits_value(digits),
    decreases digits.len() - length,
{
    if length == digits.len() {
        assert(digits.take(length) == digits);
    } else {
        assert(digits.take(length + 1).drop_last() == digits.take(length));
        lemma_prefix_value(digits, length + 1);
    }
}

/// The 64-bit number that `text` writes in decimal, with or without a leading plus sign.
pub fn parse_number(text: &str) -> (value: Option<u64>)
    ensures
        value == number(text@),
{
    let chars = char_vec(text);
    let length = chars.len();
    let first: usize = if length > 0 && chars[0] == '+' { 1 } else { 0 };
    let ghost digits = text@.skip(first as int);
    assert(digits == if text@.len() > 0 && text@[0] == '+' {
        text@.drop_first()
    } else {
        text@
    });
    assert(all_digits(digits) && digits.len() > 0 || number(text@) is None);
    if first == length {
        return None;
    }
    let mut at: usize = first;
    while at < length
        invariant
            chars@ == text@,
            length == chars@.len(),
            first <= at <= length,
            digits == text@.skip(first as int),
            all_digits(digits) || number(text@) is None,
            forall|k: int| 0 <= k < at - first ==> digit(#[trigger] digits[k]),
        decreases length - at,
    {
        if !('0' <= chars[at] && chars[at] <= '9') {
            assert(!digit(digits[at - first]));
            return None;
        }
        assert(digits[at - first] == text@[at as int]);
        at += 1;
    }
    let mut value: u64 = 0;
    let mut done: usize = first;
    assert(digits.take(0) == Seq::<char>::empty());
    while done < length
        invariant
            chars@ == text@,
            length == chars@.len(),
            first <= done <= length,
            digits == text@.skip(first as int),
            all_digits(digits),
            value == digits_value(digits.take(done - first)),
            digits.len() > 0,
            number(text@) == (if digits_value(digits) <= u64::MAX {
                Some(digits_value(digits) as u64)
            } else {
                None
            }),
        decreases length - done,
    {
        let c = chars[done];
        let ghost next = digits.take(done - first + 1);
        assert(next.drop_last() == digits.take(done - first));
        assert(next.last() == c);
        assert(digit(digits[done - first]));
        proof {
            lemma_prefix_value(digits, done - first + 1);
        }
        let unit: u64 = c as u64 - '0' as u64;
        if value > (u64::MAX - unit) / 10 {
            return None;
        }
        value = value * 10 + unit;
        done += 1;
    }
    assert(digits.take(length - first) == digits);
    Some(value)
}

/// The character of a decimal digit.
pub open spec fn digit_char(value: nat) -> char {
    ('0' as nat + value) as char
}

/// A number in decimal, without leading zeros.
pub open spec fn decimal(value: nat) -> Seq<char>
    decreases value,
{
    if value < 10 {
        seq![digit_char(value)]
    } else {
        decimal(value / 10).push(digit_char(value % 10))
    }
}

/// The text of one decimal digit.
fn digit_text(value: u64) -> (text: &'static str)
    requires
        value < 10,
    ensures
        text@ == seq![digit_char(value as nat)],
{
    proof {
        reveal_strlit("0");
        reveal_strlit("1");
        reveal_strlit("2");
        reveal_strlit("3");
        reveal_strlit("4");
        reveal_strlit("5");
        reveal_strlit("6");
        reveal_strlit("7");
        reveal_strlit("8");
        reveal_strlit("9");
    }
    match value {
        0 => "0",
        1 => "1",
        2 => "2",
        3 => "3",
        4 => "4",
        5 => "5",
        6 => "6",
        7 => "7",
        8 => "8",
        _ => "9",
    }
}

/// `value` in decimal, without leading zeros.
pub fn decimal_text(value: u64) -> (text: String)
    ensures
        text@ == decimal(value as nat),
    decreases value,
{
    if value < 10 {
        digit_text(value).to_owned()
    } else {
        let mut text = decimal_text(value / 10);
        text.append(digit_text(value % 10));
        text
    }
}

/// Reading a number's decimal text gives the number back.
pub proof fn decimal_reads_back(value: u64)
    ensures
        number(decimal(value as nat)) == Some(value),
{
    decimal_is_digits(value as nat);
    let text = decimal(value as nat);
    assert(digit(text[0]));
}

/// A number's decimal text is a non-empty sequence of digits that writes the number.
pub proof fn decimal_is_digits(value: nat)
    ensures
        decimal(value).len() > 0,
        all_digits(decimal(value)),
        digits_value(decimal(value)) == value,
    decreases value,
{
    if value < 10 {
        assert(decimal(value).drop_last() == Seq::<char>::empty());
        assert(digits_value(Seq::<char>::empty()) == 0);
        assert(decimal(value).last() as nat == '0' as nat + value);
    } else {
        decimal_is_digits(value / 10);
        assert(decimal(value).drop_last() == decimal(value / 10));
        assert(decimal(value).last() as nat == '0' as nat + value % 10);
    }
}

/// `left` and `right` agree before position `at`, and there `left` has ended or holds the smaller
/// character.
pub open spec fn parts_before(left: Seq<char>, right: Seq<char>, at: int) -> bool {
    &&& 0 <= at <= left.len()
    &&& at < right.len()
    &&& forall|k: int| 0 <= k < at ==> left[k] == right[k]
    &&& at == left.len() || left[at] < right[at]
}

/// `left` comes strictly before `right` in the lexicographic order of code points.
pub open spec fn text_before(left: Seq<char>, right: Seq<char>) -> bool {
    exists|at: int| parts_before(left, right, at)
}

/// The order of texts is strict: none comes before itself or before one that it follows.
pub proof fn text_order_is_strict(left: Seq<char>, right: Seq<char>)
    requires
        text_before(left, right),
    ensures
        left != right,
        !text_before(right, left),
{
    let at = choose|at: int| parts_before(left, right, at);
    if text_before(right, left) {
        let back = choose|at: int| parts_before(right, left, at);
        assert(at <= back);
        assert(back <= at);
    }
}

/// The order of texts is transitive.
pub proof fn text_order_is_transitive(left: Seq<char>, middle: Seq<char>, right: Seq<char>)
    requires
        text_before(left, middle),
        text_before(middle, right),
    ensures
        text_before(left, right),
{
    let first = choose|at: int| parts_before(left, middle, at);
    let second = choose|at: int| parts_before(middle, right, at);
    assert(parts_before(left, right, if first < second {
        first
    } else {
        second
    }));
}

/// Of two different texts, one comes before the other.
pub proof fn text_order_is_total(left: Seq<char>, right: Seq<char>)
    ensures
        left == right || text_before(left, right) || text_before(right, left),
{
    lemma_order_from(left, right, 0);
}

/// Two texts that agree before position `at` are equal or ordered.
proof fn lemma_order_from(left: Seq<char>, right: Seq<char>, at: int)
    requires
        0 <= at <= left.len(),
        at <= right.len(),
        forall|k: int| 0 <= k < at ==> left[k] == right[k],
    ensures
        left == right || text_before(left, right) || text_before(right, left),
    decreases left.len() - at,
{
    if at < left.len() && at < right.len() && left[at] == right[at] {
        lemma_order_from(left, right, at + 1);
    } else if at == left.len() && at == right.len() {
        assert(left =~= right);
    } else if at == left.len() || (at < right.len() && left[at] < right[at]) {
        assert(parts_before(left, right, at));
    } else {
        assert(parts_before(right, left, at));
    }
}

/// Whether `left` comes strictly before `right` in the lexicographic order of code points.
pub fn comes_before(left: &str, right: &str) -> (before: bool)
    ensures
        before == text_before(left@, right@),
{
    let first = char_vec(left);
    let second = char_vec(right);
    let mut at: usize = 0;
    while at < first.len() && at < second.len() && first[at] == second[at]
        invariant
            first@ == left@,
            second@ == right@,
            at <= first@.len(),
            at <= second@.len(),
            forall|k: int| 0 <= k < at ==> left@[k] == right@[k],
        decreases first@.len() - at,
    {
        at += 1;
    }
    if at < second.len() && (at == first.len() || first[at] < second[at]) {
        assert(parts_before(left@, right@, at as int));
        true
    } else {
        proof {
            if text_before(left@, right@) {
                let other = choose|k: int| parts_before(left@, right@, k);
                assert(other <= at && at <= other);
            }
        }
        false
    }
}

/// One more digit behind a number's decimal text writes ten times the number and the digit. The text
/// of a positive number begins with no zero, and zero is the one digit `0`.
pub proof fn decimal_grows_by_one_digit(value: nat, unit: nat)
    requires
        value > 0,
        unit < 10,
    ensures
        decimal(value * 10 + unit).drop_last() == decimal(value),
        decimal(value * 10 + unit).last() as nat == 48 + unit,
        decimal(unit).len() == 1,
        decimal(unit)[0] as nat == 48 + unit,
        decimal(value)[0] != '0',
    decreases value,
{
    let whole = value * 10 + unit;
    assert(whole / 10 == value && whole % 10 == unit);
    assert(decimal(whole).drop_last() =~= decimal(value));
    if value >= 10 {
        decimal_grows_by_one_digit(value / 10, value % 10);
        decimal_is_digits(value / 10);
        assert(decimal(value)[0] == decimal(value / 10)[0]);
    }
}

/// Different numbers have different texts.
pub proof fn decimal_texts_differ(left: nat, right: nat)
    requires
        left != right,
    ensures
        decimal(left) != decimal(right),
{
    decimal_is_digits(left);
    decimal_is_digits(right);
}

/// A text of decimal digits that begins with no needless zero is the text of the number that it
/// writes.
pub proof fn digits_are_a_decimal_text(digits: Seq<char>)
    requires
        digits.len() > 0,
        forall|i: int| 0 <= i < digits.len() ==> 48 <= #[trigger] digits[i] as int <= 57,
        digits.len() > 1 ==> digits[0] as int != 48,
    ensures
        exists|value: nat| digits == #[trigger] decimal(value),
        digits == decimal(digits_value(digits)),
        digits_value(digits) == 0 ==> digits.len() == 1,
    decreases digits.len(),
{
    let front = digits.drop_last();
    let last: char = digits.last();
    let unit = (last as int - 48) as nat;
    let value = digits_value(digits);
    assert(digits[digits.len() - 1] as int <= 57);
    if front.len() == 0 {
        assert(digits_value(front) == 0);
        assert(value == unit);
        assert(digit_char(unit) == last);
        assert(digits =~= decimal(unit));
    } else {
        assert forall|i: int| 0 <= i < front.len() implies 48 <= #[trigger] front[i] as int
            <= 57 by {
            assert(front[i] == digits[i]);
        }
        assert(front[0] == digits[0]);
        digits_are_a_decimal_text(front);
        if digits_value(front) == 0 {
            assert(front =~= decimal(0));
        }
        assert(value / 10 == digits_value(front) && value % 10 == unit);
        assert(digit_char(unit) == last);
        assert(digits =~= decimal(value));
    }
}

/// Reading goes digit by digit: a digit behind a number makes it ten times the number and the
/// digit, unless that is too great; anything else behind a text, or a digit behind a text that is
/// no number, makes no number. A single digit is its own number, and a plus sign before a number
/// changes nothing.
pub proof fn reading_goes_digit_by_digit(text: Seq<char>, c: char)
    ensures
        !(48 <= c as nat <= 57) ==> number(text.push(c)) is None,
        48 <= c as nat <= 57 ==> number(seq![c]) == Some((c as nat - 48) as u64),
        48 <= c as nat <= 57 && number(text) is Some ==> number(text.push(c)) == {
            let value = number(text)->0 * 10 + (c as nat - 48);
            if value <= 0xffff_ffff_ffff_ffff {
                Some(value as u64)
            } else {
                None
            }
        },
        text.len() > 0 && text != seq!['+'] && number(text) is None ==> number(text.push(c)) is None,
        number(Seq::empty()) is None,
        number(seq!['+']) is None,
        text.len() > 0 && text[0] != '+' ==> number(seq!['+'] + text) == number(text),
{
    let whole = text.push(c);
    let plus = text.len() > 0 && text[0] == '+';
    let digits = if plus {
        text.drop_first()
    } else {
        text
    };
    let lone = text.len() == 0 && c == '+';
    if !lone {
        let longer = digits.push(c);
        assert(longer =~= if whole[0] == '+' {
            whole.drop_first()
        } else {
            whole
        });
        assert(longer.drop_last() =~= digits);
        assert(longer[longer.len() - 1] == c);
        if all_digits(longer) {
            assert forall|i: int| 0 <= i < digits.len() implies digit(#[trigger] digits[i]) by {
                assert(longer[i] == digits[i]);
            }
        }
        if all_digits(digits) && digit(c) {
            assert(all_digits(longer));
        }
        assert(text.len() > 0 && text != seq!['+'] ==> digits.len() > 0) by {
            if plus && digits.len() == 0 {
                assert(text =~= seq!['+']);
            }
        }
    } else {
        assert(whole.drop_first() =~= Seq::empty());
    }
    let alone = seq![c];
    assert(alone.drop_last() =~= Seq::empty());
    assert(digits_value(alone.drop_last()) == 0);
    assert(seq!['+'].drop_first() =~= Seq::<char>::empty());
    if text.len() > 0 && text[0] != '+' {
        assert((seq!['+'] + text).drop_first() =~= text);
    }
}

/// White space is what Unicode lists as such: six control characters, the space, and the spaces and
/// separators beyond ASCII.
pub proof fn white_space_by_code_point(c: char)
    ensures
        white_space(c) <==> {
            let code = c as u32;
            ||| code == 9 || code == 10 || code == 11 || code == 12 || code == 13
            ||| code == 0x20 || code == 0x85 || code == 0xa0 || code == 0x1680
            ||| 0x1fff < code && code < 0x200b
            ||| code == 0x2028 || code == 0x2029 || code == 0x202f || code == 0x205f
            ||| code == 0x3000
        },
{
}

/// White space around a text is trimmed, and nothing else.
pub proof fn trimming_keeps_what_stands_between(
    before: Seq<char>,
    inner: Seq<char>,
    after: Seq<char>,
)
    requires
        forall|i: int| 0 <= i < before.len() ==> white_space(#[trigger] before[i]),
        forall|i: int| 0 <= i < after.len() ==> white_space(#[trigger] after[i]),
        inner.len() > 0 ==> !white_space(inner[0]) && !white_space(inner.last()),
    ensures
        trimmed(before + inner + after) == inner,
    decreases before.len() + after.len(),
{
    let whole = before + inner + after;
    if before.len() > 0 {
        assert(whole[0] == before[0]);
        let rest = before.drop_first();
        assert(whole.drop_first() =~= rest + inner + after);
        assert forall|i: int| 0 <= i < rest.len() implies white_space(#[trigger] rest[i]) by {
            assert(rest[i] == before[i + 1]);
        }
        trimming_keeps_what_stands_between(rest, inner, after);
    } else if inner.len() == 0 {
        if after.len() > 0 {
            assert(whole =~= after);
            let rest = after.drop_first();
            assert(white_space(after[0]));
            assert(whole.drop_first() =~= rest);
            assert forall|i: int| 0 <= i < rest.len() implies white_space(#[trigger] rest[i]) by {
                assert(rest[i] == after[i + 1]);
            }
            trimming_keeps_what_stands_between(before, inner, rest);
            assert(before + inner + rest =~= rest);
        } else {
            assert(whole =~= inner);
        }
    } else {
        assert(whole =~= inner + after);
        assert(whole[0] == inner[0]);
        assert(trim_start(whole) == whole);
        lemma_trim_end(inner, after);
    }
}

/// White space behind a text is trimmed from its end.
proof fn lemma_trim_end(inner: Seq<char>, after: Seq<char>)
    requires
        forall|i: int| 0 <= i < after.len() ==> white_space(#[trigger] after[i]),
        inner.len() > 0,
        !white_space(inner.last()),
    ensures
        trim_end(inner + after) == inner,
    decreases after.len(),
{
    let whole = inner + after;
    if after.len() > 0 {
        let rest = after.drop_last();
        assert(whole.last() == after[after.len() - 1]);
        assert(whole.drop_last() =~= inner + rest);
        assert forall|i: int| 0 <= i < rest.len() implies white_space(#[trigger] rest[i]) by {
            assert(rest[i] == after[i]);
        }
        lemma_trim_end(inner, rest);
    } else {
        assert(whole =~= inner);
    }
}

/// A text lists a word exactly if it holds the word in one piece, with white space or nothing on
/// either side.
pub proof fn listed_word_is_set_apart(before: Seq<char>, word: Seq<char>, after: Seq<char>)
    requires
        word.len() > 0,
        forall|i: int| 0 <= i < word.len() ==> !white_space(#[trigger] word[i]),
    ensures
        (before.len() == 0 || white_space(before.last())) && (after.len() == 0 || white_space(
            after[0],
        )) ==> lists_word(before + word + after, word),
        lists_word(before, word) ==> exists|at: int|
            {
                &&& 0 <= at <= before.len() - word.len()
                &&& #[trigger] before.skip(at).take(word.len() as int) == word
                &&& at == 0 || white_space(before[at - 1])
                &&& at + word.len() == before.len() || white_space(before[at + word.len()])
            },
{
    let whole = before + word + after;
    let from = before.len() as int;
    let to = from + word.len();
    if (before.len() == 0 || white_space(before.last())) && (after.len() == 0 || white_space(
        after[0],
    )) {
        assert(whole.subrange(from, to) =~= word);
        assert forall|k: int| from <= k < to implies !white_space(whole[k]) by {
            assert(whole[k] == word[k - from]);
        }
        assert(word_at(whole, from, to));
    }
    if lists_word(before, word) {
        let (from, to) = choose|from: int, to: int| #[trigger]
            word_at(before, from, to) && before.subrange(from, to) == word;
        assert(before.skip(from).take(word.len() as int) =~= before.subrange(from, to));
    }
}

/// No text lists the empty word, or a word with white space in it.
pub proof fn words_hold_no_white_space(text: Seq<char>, word: Seq<char>, at: int)
    requires
        word.len() == 0 || (0 <= at < word.len() && white_space(word[at])),
    ensures
        !lists_word(text, word),
{
    if lists_word(text, word) {
        let (from, to) = choose|from: int, to: int| #[trigger]
            word_at(text, from, to) && text.subrange(from, to) == word;
        assert(word.len() == to - from);
        assert(word[at] == text[from + at]);
    }
}

/// A text contains a part exactly if it is something, the part, and something else; and it begins
/// with the part exactly if nothing stands before it.
pub proof fn containing_means_standing_between(
    before: Seq<char>,
    part: Seq<char>,
    after: Seq<char>,
)
    ensures
        contains_text(before + part + after, part),
        begins_with(part + after, part),
        contains_text(before, part) ==> exists|at: int|
            0 <= at <= before.len() - part.len() && #[trigger] before.skip(at).take(
                part.len() as int,
            ) == part,
        begins_with(before, part) ==> before == part + before.skip(part.len() as int),
{
    assert((before + part + after).subrange(before.len() as int, (before.len() + part.len()) as int)
        =~= part);
    assert(stands_at(before + part + after, part, before.len() as int));
    assert((part + after).take(part.len() as int) =~= part);
    if contains_text(before, part) {
        let at = choose|at: int| stands_at(before, part, at);
        assert(before.skip(at).take(part.len() as int) =~= before.subrange(at, at + part.len()));
    }
    if begins_with(before, part) {
        assert(before =~= before.take(part.len() as int) + before.skip(part.len() as int));
    }
}

/// The order of texts is that of a dictionary: what two texts begin with alike does not matter, the
/// first difference decides, and a text comes before those that go on behind it.
pub proof fn first_difference_decides(common: Seq<char>, left: Seq<char>, right: Seq<char>)
    ensures
        text_before(common + left, common + right) <==> text_before(left, right),
        text_before(Seq::empty(), right) <==> right.len() > 0,
        !text_before(left, Seq::empty()),
        left.len() > 0 && right.len() > 0 && left[0] != right[0] ==> (text_before(left, right)
            <==> (left[0] as int) < right[0] as int),
{
    let first = common.len() as int;
    if text_before(left, right) {
        let at = choose|at: int| parts_before(left, right, at);
        assert(parts_before(common + left, common + right, first + at)) by {
            assert forall|k: int| 0 <= k < first + at implies (common + left)[k] == (common
                + right)[k] by {
                if k >= first {
                    assert(left[k - first] == right[k - first]);
                }
            }
        }
    }
    if text_before(common + left, common + right) {
        let at = choose|at: int| parts_before(common + left, common + right, at);
        if at < first {
            assert((common + left)[at] == (common + right)[at]);
        }
        assert(parts_before(left, right, at - first)) by {
            assert forall|k: int| 0 <= k < at - first implies left[k] == right[k] by {
                assert((common + left)[k + first] == (common + right)[k + first]);
            }
        }
    }
    if right.len() > 0 {
        assert(parts_before(Seq::empty(), right, 0));
        if left.len() > 0 && left[0] < right[0] {
            assert(parts_before(left, right, 0));
        }
    }
    if left.len() > 0 && right.len() > 0 && left[0] != right[0] && text_before(left, right) {
        let at = choose|at: int| parts_before(left, right, at);
        if at > 0 {
            assert(left[0] == right[0]);
        }
    }
}

} // verus!
