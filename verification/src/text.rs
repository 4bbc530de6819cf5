//! Text as a sequence of characters: what the panels cut, join, compare and
//! search.

use vstd::prelude::*;
use vstd::string::*;

verus! {

/// The lower case of a plain letter, and every other plain character as it
/// is.
pub open spec fn plain_lower(ch: char) -> char {
    if ch == 'A' {
        'a'
    } else if ch == 'B' {
        'b'
    } else if ch == 'C' {
        'c'
    } else if ch == 'D' {
        'd'
    } else if ch == 'E' {
        'e'
    } else if ch == 'F' {
        'f'
    } else if ch == 'G' {
        'g'
    } else if ch == 'H' {
        'h'
    } else if ch == 'I' {
        'i'
    } else if ch == 'J' {
        'j'
    } else if ch == 'K' {
        'k'
    } else if ch == 'L' {
        'l'
    } else if ch == 'M' {
        'm'
    } else if ch == 'N' {
        'n'
    } else if ch == 'O' {
        'o'
    } else if ch == 'P' {
        'p'
    } else if ch == 'Q' {
        'q'
    } else if ch == 'R' {
        'r'
    } else if ch == 'S' {
        's'
    } else if ch == 'T' {
        't'
    } else if ch == 'U' {
        'u'
    } else if ch == 'V' {
        'v'
    } else if ch == 'W' {
        'w'
    } else if ch == 'X' {
        'x'
    } else if ch == 'Y' {
        'y'
    } else if ch == 'Z' {
        'z'
    } else {
        ch
    }
}

/// Whether a text is plain characters and nothing else.
pub open spec fn all_plain(text: Seq<char>) -> bool {
    forall|i: int| 0 <= i < text.len() ==> #[trigger] text[i] <= '\x7f'
}

/// A plain text in lower case.
pub open spec fn plain_lower_all(text: Seq<char>) -> Seq<char> {
    text.map_values(|ch: char| plain_lower(ch))
}

/// What a text is once every character is in lower case.
pub uninterp spec fn lowered(text: Seq<char>) -> Seq<char>;

/// `str::to_lowercase`: the lower case of a text depends on the text alone. A
/// plain text has its plain lower case, and texts that differ only in the case
/// of plain letters have the same. Which other character becomes which is left
/// to the Unicode tables behind it.
pub assume_specification[ str::to_lowercase ](text: &str) -> (result: String)
    ensures
        result@ == lowered(text@),
        all_plain(text@) ==> result@ == plain_lower_all(text@),
        forall|other: Seq<char>|
            plain_lower_all(other) == plain_lower_all(text@) ==> result@ == #[trigger] lowered(
                other,
            ),
;

/// `String::push`: the character is put at the end.
pub assume_specification[ String::push ](text: &mut String, ch: char)
    ensures
        final(text)@ == old(text)@.push(ch),
;

/// The characters that count as space: the White_Space property of Unicode.
pub open spec fn is_space(ch: char) -> bool {
    let code: int = ch as int;
    ||| 0x9 <= code <= 0xd
    ||| code == 0x20
    ||| code == 0x85
    ||| code == 0xa0
    ||| code == 0x1680
    ||| 0x2000 <= code <= 0x200a
    ||| code == 0x2028
    ||| code == 0x2029
    ||| code == 0x202f
    ||| code == 0x205f
    ||| code == 0x3000
}

/// `char::is_whitespace`: whether a character has the White_Space property.
pub assume_specification[ char::is_whitespace ](ch: char) -> (result: bool)
    ensures
        result == is_space(ch),
;

/// What the standard library writes for a text that is shown as it would
/// stand in a program: in quotes, with the letters that cannot be shown
/// escaped.
pub uninterp spec fn debugged(text: Seq<char>) -> Seq<char>;

/// A text as `std::fmt::Debug` for `str` formats it. Claimed: what it writes
/// depends on the text alone.
#[verifier::external_body]
pub(crate) fn debug(text: &str) -> (result: String)
    ensures
        result@ == debugged(text@),
{
    format!("{text:?}")
}

/// The characters of a text.
pub fn letters(text: &str) -> (result: Vec<char>)
    ensures
        result@ == text@,
{
    let mut result: Vec<char> = Vec::new();
    for ch in it: text.chars()
        invariant
            it.seq() == text@,
            result@ == text@.take(it.index() as int),
    {
        result.push(ch);
        assert(text@.take(it.index() as int).push(ch) =~= text@.take(it.index() as int + 1));
    }
    assert(text@.take(text@.len() as int) =~= text@);
    result
}

/// Two texts run together.
pub fn plus(left: &str, right: &str) -> (result: String)
    ensures
        result@ == left@ + right@,
{
    let mut result: String = left.to_owned();
    result.append(right);
    result
}

/// Whether two runs of characters are the same.
pub fn alike(left: &[char], right: &[char]) -> (result: bool)
    ensures
        result == (left@ == right@),
{
    if left.len() != right.len() {
        return false;
    }
    let mut i: usize = 0;
    while i < left.len()
        invariant
            i <= left@.len(),
            left@.len() == right@.len(),
            forall|k: int| 0 <= k < i ==> left@[k] == right@[k],
        decreases left@.len() - i,
    {
        if left[i] != right[i] {
            return false;
        }
        i = i + 1;
    }
    assert(left@ =~= right@);
    true
}

/// Whether two texts are the same.
pub fn same(left: &str, right: &str) -> (result: bool)
    ensures
        result == (left@ == right@),
{
    let a: Vec<char> = letters(left);
    let b: Vec<char> = letters(right);
    alike(a.as_slice(), b.as_slice())
}

/// Whether a text is among several.
pub open spec fn listed(list: Seq<String>, text: Seq<char>) -> bool {
    exists|i: int| 0 <= i < list.len() && (#[trigger] list[i])@ == text
}

/// A text without the spaces it begins with.
pub open spec fn trim_start(text: Seq<char>) -> Seq<char>
    decreases text.len(),
{
    if text.len() > 0 && is_space(text[0]) {
        trim_start(text.drop_first())
    } else {
        text
    }
}

/// A text without the spaces it ends with.
pub open spec fn trim_end(text: Seq<char>) -> Seq<char>
    decreases text.len(),
{
    if text.len() > 0 && is_space(text.last()) {
        trim_end(text.drop_last())
    } else {
        text
    }
}

/// A text without the spaces around it.
pub open spec fn trimmed(text: Seq<char>) -> Seq<char> {
    trim_end(trim_start(text))
}

/// A text without the spaces around it.
pub fn trim(text: &str) -> (result: String)
    ensures
        result@ == trimmed(text@),
{
    let all: Vec<char> = letters(text);
    let mut from: usize = 0;
    assert(all@.skip(0) =~= all@);
    while from < all.len() && all[from].is_whitespace()
        invariant
            from <= all@.len(),
            all@ == text@,
            trim_start(text@) == trim_start(all@.skip(from as int)),
        decreases all@.len() - from,
    {
        assert(all@.skip(from as int).drop_first() =~= all@.skip(from as int + 1));
        from = from + 1;
    }
    let ghost rest = all@.skip(from as int);
    assert(trim_start(text@) == rest);
    let mut to: usize = all.len();
    while to > from && all[to - 1].is_whitespace()
        invariant
            from <= to <= all@.len(),
            trim_end(rest) == trim_end(all@.subrange(from as int, to as int)),
        decreases to,
    {
        assert(all@.subrange(from as int, to as int).drop_last() =~= all@.subrange(
            from as int,
            to as int - 1,
        ));
        to = to - 1;
    }
    let kept: String = part(&all, from, to);
    kept
}

/// A stretch of some characters, as a text.
pub fn part(all: &Vec<char>, from: usize, to: usize) -> (result: String)
    requires
        from <= to <= all@.len(),
    ensures
        result@ == all@.subrange(from as int, to as int),
{
    let mut result: String = String::new();
    let mut i: usize = from;
    while i < to
        invariant
            from <= i <= to <= all@.len(),
            result@ == all@.subrange(from as int, i as int),
        decreases to - i,
    {
        result.push(all[i]);
        assert(all@.subrange(from as int, i as int).push(all@[i as int]) =~= all@.subrange(
            from as int,
            i as int + 1,
        ));
        i = i + 1;
    }
    result
}

/// Whether one text stands in another from a place on.
pub open spec fn stands_at(text: Seq<char>, word: Seq<char>, at: int) -> bool {
    &&& 0 <= at
    &&& at + word.len() <= text.len()
    &&& text.subrange(at, at + word.len()) == word
}

/// Whether one text stands anywhere in another.
pub open spec fn holds(text: Seq<char>, word: Seq<char>) -> bool {
    exists|at: int| stands_at(text, word, at)
}

/// Whether a word stands in a run of characters from a place on.
pub fn found_at(text: &Vec<char>, word: &Vec<char>, at: usize) -> (result: bool)
    requires
        at <= text@.len(),
    ensures
        result == stands_at(text@, word@, at as int),
{
    if text.len() - at < word.len() {
        return false;
    }
    let mut i: usize = 0;
    while i < word.len()
        invariant
            i <= word@.len(),
            at + word@.len() <= text@.len(),
            text@.len() <= usize::MAX,
            forall|k: int| 0 <= k < i ==> text@[at + k] == word@[k],
        decreases word@.len() - i,
    {
        if text[at + i] != word[i] {
            assert(text@.subrange(at as int, at + word@.len())[i as int] != word@[i as int]);
            return false;
        }
        i = i + 1;
    }
    assert(text@.subrange(at as int, at + word@.len()) =~= word@);
    true
}

/// Whether one text stands anywhere in another.
pub fn contains(text: &str, word: &str) -> (result: bool)
    ensures
        result == holds(text@, word@),
{
    let all: Vec<char> = letters(text);
    let want: Vec<char> = letters(word);
    let mut at: usize = 0;
    while at < all.len()
        invariant
            at <= all@.len(),
            all@ == text@,
            want@ == word@,
            forall|k: int| 0 <= k < at ==> !stands_at(text@, word@, k),
        decreases all@.len() - at,
    {
        if found_at(&all, &want, at) {
            return true;
        }
        at = at + 1;
    }
    found_at(&all, &want, at)
}

/// Whether a text begins with another.
pub open spec fn begins(text: Seq<char>, start: Seq<char>) -> bool {
    start.is_prefix_of(text)
}

/// Whether a text begins with another.
pub fn starts_with(text: &str, start: &str) -> (result: bool)
    ensures
        result == begins(text@, start@),
{
    let all: Vec<char> = letters(text);
    let want: Vec<char> = letters(start);
    let result: bool = found_at(&all, &want, 0);
    assert(start@.len() <= text@.len() ==> text@.subrange(0, start@.len() as int) == text@.take(
        start@.len() as int,
    ));
    proof {
        if begins(text@, start@) {
            assert(text@.subrange(0, start@.len() as int) =~= start@);
        }
        if result {
            assert(start@ =~= text@.subrange(0, start@.len() as int));
        }
    }
    result
}

/// Whether one run of characters comes before another, character by
/// character, a shorter one before a longer one that begins with it.
pub open spec fn sooner(left: Seq<char>, right: Seq<char>) -> bool
    decreases left.len(),
{
    if right.len() == 0 {
        false
    } else if left.len() == 0 {
        true
    } else if left[0] != right[0] {
        (left[0] as int) < (right[0] as int)
    } else {
        sooner(left.drop_first(), right.drop_first())
    }
}

/// Nothing comes before itself.
pub proof fn sooner_not_itself(text: Seq<char>)
    ensures
        !sooner(text, text),
    decreases text.len(),
{
    if text.len() > 0 {
        sooner_not_itself(text.drop_first());
    }
}

/// Of two different texts one comes before the other, and only one.
pub proof fn sooner_decides(left: Seq<char>, right: Seq<char>)
    ensures
        left != right ==> sooner(left, right) != sooner(right, left),
        left == right ==> !sooner(left, right),
    decreases left.len(),
{
    if left == right {
        sooner_not_itself(left);
    } else if left.len() == 0 || right.len() == 0 {
        if left.len() == 0 && right.len() == 0 {
            assert(left =~= right);
        }
    } else if left[0] == right[0] {
        sooner_decides(left.drop_first(), right.drop_first());
        if left.drop_first() == right.drop_first() {
            assert(left =~= seq![left[0]] + left.drop_first());
            assert(right =~= seq![right[0]] + right.drop_first());
        }
    } else {
        assert(left[0] as int != right[0] as int);
    }
}

/// What comes before something comes before everything after it.
pub proof fn sooner_carries(first: Seq<char>, second: Seq<char>, third: Seq<char>)
    requires
        sooner(first, second),
        sooner(second, third),
    ensures
        sooner(first, third),
    decreases first.len(),
{
    if first.len() > 0 && first[0] == second[0] && second[0] == third[0] {
        sooner_carries(first.drop_first(), second.drop_first(), third.drop_first());
    }
}

/// Whether one text comes before another.
pub fn before(left: &str, right: &str) -> (result: bool)
    ensures
        result == sooner(left@, right@),
{
    let a: Vec<char> = letters(left);
    let b: Vec<char> = letters(right);
    let mut i: usize = 0;
    assert(a@.skip(0) =~= a@);
    assert(b@.skip(0) =~= b@);
    while i < a.len() && i < b.len()
        invariant
            i <= a@.len(),
            i <= b@.len(),
            a@ == left@,
            b@ == right@,
            sooner(left@, right@) == sooner(a@.skip(i as int), b@.skip(i as int)),
        decreases a@.len() - i,
    {
        if a[i] != b[i] {
            let x: char = a[i];
            let y: char = b[i];
            return x < y;
        }
        assert(a@.skip(i as int).drop_first() =~= a@.skip(i as int + 1));
        assert(b@.skip(i as int).drop_first() =~= b@.skip(i as int + 1));
        i = i + 1;
    }
    i < b.len()
}

/// A text with every occurrence of one character put as another.
pub open spec fn swapped(text: Seq<char>, from: char, to: char) -> Seq<char> {
    text.map_values(|ch: char| if ch == from { to } else { ch })
}

/// A text with every occurrence of one character put as another.
pub fn swap_char(text: &str, from: char, to: char) -> (result: String)
    ensures
        result@ == swapped(text@, from, to),
{
    let all: Vec<char> = letters(text);
    let mut result: String = String::new();
    let mut i: usize = 0;
    while i < all.len()
        invariant
            i <= all@.len(),
            all@ == text@,
            result@ == swapped(text@, from, to).take(i as int),
        decreases all@.len() - i,
    {
        let ch: char = if all[i] == from { to } else { all[i] };
        result.push(ch);
        assert(swapped(text@, from, to).take(i as int).push(ch) =~= swapped(text@, from, to).take(
            i as int + 1,
        ));
        i = i + 1;
    }
    assert(swapped(text@, from, to).take(i as int) =~= swapped(text@, from, to));
    result
}

/// The digit a number below ten is written with.
pub open spec fn digit(n: nat) -> char {
    if n == 0 {
        '0'
    } else if n == 1 {
        '1'
    } else if n == 2 {
        '2'
    } else if n == 3 {
        '3'
    } else if n == 4 {
        '4'
    } else if n == 5 {
        '5'
    } else if n == 6 {
        '6'
    } else if n == 7 {
        '7'
    } else if n == 8 {
        '8'
    } else {
        '9'
    }
}

/// A whole number as it is written: no sign, no leading nought.
pub open spec fn digits(n: nat) -> Seq<char>
    decreases n,
{
    if n < 10 {
        seq![digit(n)]
    } else {
        digits(n / 10).push(digit(n % 10))
    }
}

/// The digit a number below ten is written with.
fn one_digit(n: u128) -> (result: char)
    requires
        n < 10,
    ensures
        result == digit(n as nat),
{
    if n == 0 {
        '0'
    } else if n == 1 {
        '1'
    } else if n == 2 {
        '2'
    } else if n == 3 {
        '3'
    } else if n == 4 {
        '4'
    } else if n == 5 {
        '5'
    } else if n == 6 {
        '6'
    } else if n == 7 {
        '7'
    } else if n == 8 {
        '8'
    } else {
        '9'
    }
}

/// A whole number as it is written.
pub fn decimal_wide(n: u128) -> (result: String)
    ensures
        result@ == digits(n as nat),
    decreases n,
{
    if n < 10 {
        let mut result: String = String::new();
        result.push(one_digit(n));
        assert(result@ =~= digits(n as nat));
        result
    } else {
        let mut result: String = decimal_wide(n / 10);
        result.push(one_digit(n % 10));
        result
    }
}

/// A whole number as it is written.
pub fn decimal(n: u64) -> (result: String)
    ensures
        result@ == digits(n as nat),
{
    decimal_wide(n as u128)
}

/// Whether two texts are the same but for the case of plain letters.
pub open spec fn alike_in_case(left: Seq<char>, right: Seq<char>) -> bool {
    plain_lower_all(left) == plain_lower_all(right)
}

/// Whether a text is nothing but spaces.
pub open spec fn blank(text: Seq<char>) -> bool {
    forall|i: int| 0 <= i < text.len() ==> is_space(#[trigger] text[i])
}

/// Spaces before a text go with those it begins with.
proof fn starting_spaces_go(before: Seq<char>, text: Seq<char>)
    requires
        blank(before),
    ensures
        trim_start(before + text) == trim_start(text),
    decreases before.len(),
{
    if before.len() == 0 {
        assert(before + text =~= text);
    } else {
        assert(is_space(before[0]));
        assert((before + text).drop_first() =~= before.drop_first() + text);
        starting_spaces_go(before.drop_first(), text);
    }
}

/// Spaces behind a text go with those it ends with.
proof fn ending_spaces_go(text: Seq<char>, after: Seq<char>)
    requires
        blank(after),
    ensures
        trim_end(text + after) == trim_end(text),
    decreases after.len(),
{
    if after.len() == 0 {
        assert(text + after =~= text);
    } else {
        assert(is_space(after[after.len() - 1]));
        assert((text + after).drop_last() =~= text + after.drop_last());
        ending_spaces_go(text, after.drop_last());
    }
}

/// Spaces behind a text go, whatever it begins with.
proof fn spaces_behind_go(text: Seq<char>, after: Seq<char>)
    requires
        blank(after),
    ensures
        trimmed(text + after) == trimmed(text),
    decreases text.len(),
{
    if text.len() == 0 {
        assert(text + after =~= after + Seq::empty());
        starting_spaces_go(after, Seq::empty());
        assert(text =~= Seq::empty());
    } else if is_space(text[0]) {
        assert((text + after).drop_first() =~= text.drop_first() + after);
        spaces_behind_go(text.drop_first(), after);
    } else {
        ending_spaces_go(text, after);
    }
}

/// Spaces put around a text are trimmed with its own.
pub proof fn spaces_around_go(before: Seq<char>, text: Seq<char>, after: Seq<char>)
    requires
        blank(before),
        blank(after),
    ensures
        trimmed(before + text + after) == trimmed(text),
{
    assert(before + text + after =~= before + (text + after));
    starting_spaces_go(before, text + after);
    spaces_behind_go(text, after);
}

/// Trimming minds no case.
pub proof fn trimming_minds_no_case(left: Seq<char>, right: Seq<char>)
    requires
        alike_in_case(left, right),
    ensures
        alike_in_case(trimmed(left), trimmed(right)),
{
    lowering_trims_start(left);
    lowering_trims_start(right);
    lowering_trims_end(trim_start(left));
    lowering_trims_end(trim_start(right));
}

/// Lowering plain letters and dropping the spaces a text begins with come to
/// the same in either order.
proof fn lowering_trims_start(text: Seq<char>)
    ensures
        trim_start(plain_lower_all(text)) == plain_lower_all(trim_start(text)),
    decreases text.len(),
{
    if text.len() > 0 {
        assert(is_space(plain_lower(text[0])) == is_space(text[0]));
        assert(plain_lower_all(text)[0] == plain_lower(text[0]));
        if is_space(text[0]) {
            assert(plain_lower_all(text).drop_first() =~= plain_lower_all(text.drop_first()));
            lowering_trims_start(text.drop_first());
        }
    }
}

/// Lowering plain letters and dropping the spaces a text ends with come to
/// the same in either order.
proof fn lowering_trims_end(text: Seq<char>)
    ensures
        trim_end(plain_lower_all(text)) == plain_lower_all(trim_end(text)),
    decreases text.len(),
{
    if text.len() > 0 {
        assert(is_space(plain_lower(text.last())) == is_space(text.last()));
        assert(plain_lower_all(text).last() == plain_lower(text.last()));
        if is_space(text.last()) {
            assert(plain_lower_all(text).drop_last() =~= plain_lower_all(text.drop_last()));
            lowering_trims_end(text.drop_last());
        }
    }
}

/// Texts come in the order of the first character they differ in, whatever they
/// begin with, and a text comes before every longer one that begins with it.
pub proof fn sooner_is_by_the_first_difference(
    start: Seq<char>,
    low: char,
    high: char,
    left: Seq<char>,
    right: Seq<char>,
)
    requires
        low < high,
    ensures
        sooner(start + seq![low] + left, start + seq![high] + right),
        !sooner(start + seq![high] + right, start + seq![low] + left),
        sooner(start, start + seq![low] + left),
        !sooner(start + seq![low] + left, start),
    decreases start.len(),
{
    let one = start + seq![low] + left;
    let other = start + seq![high] + right;
    if start.len() == 0 {
        assert(one[0] == low && other[0] == high);
    } else {
        let rest = start.drop_first();
        sooner_is_by_the_first_difference(rest, low, high, left, right);
        assert(one.drop_first() =~= rest + seq![low] + left);
        assert(other.drop_first() =~= rest + seq![high] + right);
        assert(one[0] == start[0] && other[0] == start[0]);
    }
}

/// What is trimmed is a stretch of the text with nothing but spaces around it, and
/// no space at either end of its own.
pub proof fn trimmed_is_what_stands_between(text: Seq<char>)
    ensures
        ({
            let inner = trimmed(text);
            &&& inner.len() > 0 ==> !is_space(inner[0]) && !is_space(inner.last())
            &&& exists|before: Seq<char>, after: Seq<char>| #[trigger]
                blank(before) && #[trigger] blank(after) && text == before + inner + after
        }),
{
    let rest = trim_start(text);
    let before = start_is_spaces(text);
    let after = end_is_spaces(rest);
    let inner = trim_end(rest);
    assert(text =~= before + inner + after);
    if inner.len() > 0 {
        assert(rest[0] == inner[0]);
    }
}

/// The spaces a text begins with, which are all that goes with them.
proof fn start_is_spaces(text: Seq<char>) -> (before: Seq<char>)
    ensures
        blank(before),
        text == before + trim_start(text),
        trim_start(text).len() > 0 ==> !is_space(trim_start(text)[0]),
    decreases text.len(),
{
    if text.len() > 0 && is_space(text[0]) {
        let less = start_is_spaces(text.drop_first());
        let before = seq![text[0]] + less;
        let rest = text.drop_first();
        assert(text =~= seq![text[0]] + rest);
        assert(rest == less + trim_start(rest));
        assert(text =~= before + trim_start(rest));
        assert forall|i: int| 0 <= i < before.len() implies is_space(#[trigger] before[i]) by {
            if i > 0 {
                assert(before[i] == less[i - 1]);
            }
        }
        before
    } else {
        assert(text =~= Seq::<char>::empty() + text);
        Seq::empty()
    }
}

/// The spaces a text ends with, which are all that goes with them.
proof fn end_is_spaces(text: Seq<char>) -> (after: Seq<char>)
    ensures
        blank(after),
        text == trim_end(text) + after,
        trim_end(text).len() > 0 ==> !is_space(trim_end(text).last()),
    decreases text.len(),
{
    if text.len() > 0 && is_space(text.last()) {
        let less = end_is_spaces(text.drop_last());
        let after = less.push(text.last());
        let rest = text.drop_last();
        assert(text =~= rest.push(text.last()));
        assert(rest == trim_end(rest) + less);
        assert(text =~= trim_end(rest) + after);
        after
    } else {
        assert(text =~= text + Seq::<char>::empty());
        Seq::empty()
    }
}

/// A plain capital becomes the letter as far behind it as every other, and
/// nothing else changes.
pub proof fn capitals_are_lowered(ch: char)
    ensures
        'A' <= ch <= 'Z' ==> plain_lower(ch) as int == ch as int + ('a' as int - 'A' as int),
        !('A' <= ch <= 'Z') ==> plain_lower(ch) == ch,
{
}

/// A word stands in every text it was put in, and a text begins with whatever was
/// put in front of the rest.
pub proof fn what_was_put_in_is_held(before: Seq<char>, word: Seq<char>, after: Seq<char>)
    ensures
        holds(before + word + after, word),
        stands_at(before + word + after, word, before.len() as int),
        begins(before + word, before),
        begins(word + after, word),
{
    let text = before + word + after;
    let at = before.len() as int;
    assert(text.subrange(at, at + word.len()) =~= word);
    assert(stands_at(text, word, at));
    assert((before + word).take(before.len() as int) =~= before);
    assert((word + after).take(word.len() as int) =~= word);
}

/// A number is written as its tens and its ones: the digits of so many tens, and
/// the one digit of the rest, which is as far behind nought as it counts.
pub proof fn digits_are_tens_and_ones(tens: nat, ones: nat)
    requires
        ones < 10,
    ensures
        tens > 0 ==> digits(10 * tens + ones) == digits(tens).push(digits(ones)[0]),
        digits(ones).len() == 1,
        digits(ones)[0] as int == '0' as int + ones,
{
    assert((10 * tens + ones) / 10 == tens);
    assert((10 * tens + ones) % 10 == ones);
}

} // verus!
