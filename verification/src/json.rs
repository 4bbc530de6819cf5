//! Strict JSON: one value of text, read whole, and text written so that it
//! reads back.
//!
//! A number is kept as it was spelled. What asks for a whole one gets it only
//! from plain digits, so nothing here works with fractions.

use vstd::prelude::*;
use crate::text::{digit, digits, letters, part, same};
use vstd::string::*;

verus! {

/// A value as it was read.
#[derive(Debug)]
pub enum Value {
    Null,
    Bool(bool),
    Number(String),
    Text(String),
    List(Vec<Value>),
    Object(Vec<(String, Value)>),
}

/// What a value says.
pub ghost enum Json {
    Null,
    Bool(bool),
    Number(Seq<char>),
    Text(Seq<char>),
    List(Seq<Json>),
    Object(Seq<(Seq<char>, Json)>),
}

impl Value {
    /// What the value says.
    pub open spec fn view(&self) -> Json
        decreases self,
    {
        match self {
            Value::Null => Json::Null,
            Value::Bool(b) => Json::Bool(*b),
            Value::Number(n) => Json::Number(n@),
            Value::Text(t) => Json::Text(t@),
            Value::List(items) => Json::List(
                Seq::new(
                    items@.len(),
                    |i: int|
                        if 0 <= i < items@.len() {
                            items@[i].view()
                        } else {
                            Json::Null
                        },
                ),
            ),
            Value::Object(members) => Json::Object(
                Seq::new(
                    members@.len(),
                    |i: int|
                        if 0 <= i < members@.len() {
                            (members@[i].0@, members@[i].1.view())
                        } else {
                            (Seq::empty(), Json::Null)
                        },
                ),
            ),
        }
    }
}

/// Whether a character may stand between the parts of a value.
pub open spec fn is_blank(ch: char) -> bool {
    ch == ' ' || ch == '\t' || ch == '\n' || ch == '\r'
}

/// A text without the blanks it begins with.
pub open spec fn unblanked(text: Seq<char>) -> Seq<char>
    decreases text.len(),
{
    if text.len() > 0 && is_blank(text[0]) {
        unblanked(text.drop_first())
    } else {
        text
    }
}

/// What a digit of base sixteen counts for.
pub open spec fn hex_digit(ch: char) -> Option<nat> {
    if '0' <= ch <= '9' {
        Some((ch as int - '0' as int) as nat)
    } else if 'a' <= ch <= 'f' {
        Some((ch as int - 'a' as int + 10) as nat)
    } else if 'A' <= ch <= 'F' {
        Some((ch as int - 'A' as int + 10) as nat)
    } else {
        None
    }
}

/// What the first four characters of a text come to in base sixteen.
pub open spec fn hex_four(text: Seq<char>) -> Option<nat> {
    if text.len() < 4 {
        None
    } else {
        match (hex_digit(text[0]), hex_digit(text[1]), hex_digit(text[2]), hex_digit(text[3])) {
            (Some(a), Some(b), Some(c), Some(d)) => Some(
                (a * 4096 + b * 256 + c * 16 + d) as nat,
            ),
            _ => None,
        }
    }
}

/// The character an escape stands for, with how much of the text it takes.
///
/// The text begins behind the backslash. A code in the range set aside for
/// pairs counts only as the first half of a pair that is whole.
pub open spec fn escape_of(text: Seq<char>) -> Option<(char, nat)> {
    if text.len() == 0 {
        None
    } else if text[0] == '"' {
        Some(('"', 1))
    } else if text[0] == '\\' {
        Some(('\\', 1))
    } else if text[0] == '/' {
        Some(('/', 1))
    } else if text[0] == 'b' {
        Some(('\x08', 1))
    } else if text[0] == 'f' {
        Some(('\x0c', 1))
    } else if text[0] == 'n' {
        Some(('\n', 1))
    } else if text[0] == 'r' {
        Some(('\r', 1))
    } else if text[0] == 't' {
        Some(('\t', 1))
    } else if text[0] == 'u' {
        match hex_four(text.skip(1)) {
            None => None,
            Some(code) => if code < 0xd800 || 0xe000 <= code {
                Some((code as char, 5))
            } else if code < 0xdc00 && text.len() >= 7 && text[5] == '\\' && text[6] == 'u' {
                match hex_four(text.skip(7)) {
                    None => None,
                    Some(low) => if 0xdc00 <= low < 0xe000 {
                        Some(((0x10000 + (code - 0xd800) * 0x400 + (low - 0xdc00)) as char, 11))
                    } else {
                        None
                    },
                }
            } else {
                None
            },
        }
    } else {
        None
    }
}

/// The rest of a quoted text, behind `so_far`, and what follows the closing
/// quote.
pub open spec fn quote_rest(text: Seq<char>, so_far: Seq<char>) -> Option<(Seq<char>, Seq<char>)>
    decreases text.len(),
{
    if text.len() == 0 {
        None
    } else if text[0] == '"' {
        Some((so_far, text.drop_first()))
    } else if text[0] == '\\' {
        match escape_of(text.drop_first()) {
            None => None,
            Some((ch, took)) => if took < text.len() {
                quote_rest(text.skip(took as int + 1), so_far.push(ch))
            } else {
                None
            },
        }
    } else if ' ' > text[0] {
        None
    } else {
        quote_rest(text.drop_first(), so_far.push(text[0]))
    }
}

/// A quoted text, and what follows it.
pub open spec fn quote_of(text: Seq<char>) -> Option<(Seq<char>, Seq<char>)> {
    if text.len() > 0 && text[0] == '"' {
        quote_rest(text.drop_first(), Seq::empty())
    } else {
        None
    }
}

/// Whether a character is a digit.
pub open spec fn is_digit(ch: char) -> bool {
    '0' <= ch <= '9'
}

/// How many digits a text begins with.
pub open spec fn run_of(text: Seq<char>) -> nat
    decreases text.len(),
{
    if text.len() > 0 && is_digit(text[0]) {
        1 + run_of(text.drop_first())
    } else {
        0
    }
}

/// How much of a text its leading whole number takes, the sign apart: a
/// nought on its own, or digits that begin with another.
pub open spec fn whole_len(text: Seq<char>) -> Option<nat> {
    if text.len() == 0 || !is_digit(text[0]) {
        None
    } else if text[0] == '0' {
        Some(1)
    } else {
        Some(run_of(text))
    }
}

/// How much of a text a fraction takes: nothing, or a point and digits.
pub open spec fn fraction_len(text: Seq<char>) -> Option<nat> {
    if text.len() > 0 && text[0] == '.' {
        if run_of(text.drop_first()) == 0 {
            None
        } else {
            Some(1 + run_of(text.drop_first()))
        }
    } else {
        Some(0)
    }
}

/// How much of a text a power of ten takes: nothing, or its letter, a sign
/// or none, and digits.
pub open spec fn power_len(text: Seq<char>) -> Option<nat> {
    if text.len() > 0 && (text[0] == 'e' || text[0] == 'E') {
        let signed: nat = if text.len() > 1 && (text[1] == '+' || text[1] == '-') { 2 } else { 1 };
        if run_of(text.skip(signed as int)) == 0 {
            None
        } else {
            Some(signed + run_of(text.skip(signed as int)))
        }
    } else {
        Some(0)
    }
}

/// How much of a text a number takes.
pub open spec fn number_len(text: Seq<char>) -> Option<nat> {
    let sign: nat = if text.len() > 0 && text[0] == '-' { 1 } else { 0 };
    match whole_len(text.skip(sign as int)) {
        None => None,
        Some(whole) => match fraction_len(text.skip((sign + whole) as int)) {
            None => None,
            Some(fraction) => match power_len(text.skip((sign + whole + fraction) as int)) {
                None => None,
                Some(power) => Some(sign + whole + fraction + power),
            },
        },
    }
}

/// The word or number a text begins with, and what follows it.
pub open spec fn plain_of(text: Seq<char>) -> Option<(Json, Seq<char>)> {
    if seq!['t', 'r', 'u', 'e'].is_prefix_of(text) {
        Some((Json::Bool(true), text.skip(4)))
    } else if seq!['f', 'a', 'l', 's', 'e'].is_prefix_of(text) {
        Some((Json::Bool(false), text.skip(5)))
    } else if seq!['n', 'u', 'l', 'l'].is_prefix_of(text) {
        Some((Json::Null, text.skip(4)))
    } else {
        match number_len(text) {
            None => None,
            Some(took) => Some((Json::Number(text.take(took as int)), text.skip(took as int))),
        }
    }
}

/// The value a text begins with, and what follows it.
pub open spec fn value_of(text: Seq<char>) -> Option<(Json, Seq<char>)>
    decreases text.len(), 1nat,
{
    if text.len() == 0 {
        None
    } else if text[0] == '{' {
        let inner = unblanked(text.drop_first());
        if inner.len() > 0 && inner[0] == '}' {
            Some((Json::Object(Seq::empty()), inner.drop_first()))
        } else if inner.len() < text.len() {
            members_of(inner, Seq::empty())
        } else {
            None
        }
    } else if text[0] == '[' {
        let inner = unblanked(text.drop_first());
        if inner.len() > 0 && inner[0] == ']' {
            Some((Json::List(Seq::empty()), inner.drop_first()))
        } else if inner.len() < text.len() {
            items_of(inner, Seq::empty())
        } else {
            None
        }
    } else if text[0] == '"' {
        match quote_of(text) {
            None => None,
            Some((said, rest)) => Some((Json::Text(said), rest)),
        }
    } else {
        plain_of(text)
    }
}

/// The rest of a list, from an item on.
pub open spec fn items_of(text: Seq<char>, so_far: Seq<Json>) -> Option<(Json, Seq<char>)>
    decreases text.len(), 2nat,
{
    match value_of(text) {
        None => None,
        Some((item, rest)) => {
            let after = unblanked(rest);
            if after.len() == 0 {
                None
            } else if after[0] == ']' {
                Some((Json::List(so_far.push(item)), after.drop_first()))
            } else if after[0] == ',' && unblanked(after.drop_first()).len() < text.len() {
                items_of(unblanked(after.drop_first()), so_far.push(item))
            } else {
                None
            }
        },
    }
}

/// The rest of an object, from a name on.
pub open spec fn members_of(text: Seq<char>, so_far: Seq<(Seq<char>, Json)>) -> Option<
    (Json, Seq<char>),
>
    decreases text.len(), 2nat,
{
    match quote_of(text) {
        None => None,
        Some((name, rest)) => {
            let colon = unblanked(rest);
            if colon.len() == 0 || colon[0] != ':' || unblanked(colon.drop_first()).len()
                >= text.len() {
                None
            } else {
                match value_of(unblanked(colon.drop_first())) {
                    None => None,
                    Some((said, rest)) => {
                        let after = unblanked(rest);
                        if after.len() == 0 {
                            None
                        } else if after[0] == '}' {
                            Some((Json::Object(so_far.push((name, said))), after.drop_first()))
                        } else if after[0] == ',' && unblanked(after.drop_first()).len()
                            < text.len() {
                            members_of(unblanked(after.drop_first()), so_far.push((name, said)))
                        } else {
                            None
                        }
                    },
                }
            }
        },
    }
}

/// The one value a whole text is, blanks around it aside.
pub open spec fn parsed(text: Seq<char>) -> Option<Json> {
    match value_of(unblanked(text)) {
        None => None,
        Some((said, rest)) => if unblanked(rest).len() == 0 {
            Some(said)
        } else {
            None
        },
    }
}

/// `char::from_u32`: the character with a code, for every code that has one.
pub assume_specification[ char::from_u32 ](code: u32) -> (result: Option<char>)
    ensures
        result == if code < 0xd800 || 0xe000 <= code <= 0x10ffff {
            Some(code as char)
        } else {
            None
        },
;

/// What is left of a text behind a place, one character on.
proof fn one_on(text: Seq<char>, at: int)
    requires
        0 <= at < text.len(),
    ensures
        text.skip(at).len() == text.len() - at,
        text.skip(at)[0] == text[at],
        text.skip(at).drop_first() == text.skip(at + 1),
{
    assert(text.skip(at).drop_first() =~= text.skip(at + 1));
}

/// What is left of a text behind a place, several characters on.
proof fn many_on(text: Seq<char>, at: int, more: int)
    requires
        0 <= at,
        0 <= more,
        at + more <= text.len(),
    ensures
        text.skip(at).skip(more) == text.skip(at + more),
{
    assert(text.skip(at).skip(more) =~= text.skip(at + more));
}

/// Where the blanks from a place on end.
fn past_blanks(all: &Vec<char>, at: usize) -> (to: usize)
    requires
        at <= all@.len(),
    ensures
        at <= to <= all@.len(),
        all@.skip(to as int) == unblanked(all@.skip(at as int)),
{
    let mut to: usize = at;
    while to < all.len() && (all[to] == ' ' || all[to] == '\t' || all[to] == '\n' || all[to]
        == '\r')
        invariant
            at <= to <= all@.len(),
            unblanked(all@.skip(to as int)) == unblanked(all@.skip(at as int)),
        decreases all@.len() - to,
    {
        proof {
            one_on(all@, to as int);
        }
        to = to + 1;
    }
    to
}

/// What a digit of base sixteen counts for.
fn one_hex(ch: char) -> (result: Option<u32>)
    ensures
        result is Some == hex_digit(ch) is Some,
        result is Some ==> result->0 == hex_digit(ch)->0 && result->0 < 16,
{
    if '0' <= ch && ch <= '9' {
        Some(ch as u32 - '0' as u32)
    } else if 'a' <= ch && ch <= 'f' {
        Some(ch as u32 - 'a' as u32 + 10)
    } else if 'A' <= ch && ch <= 'F' {
        Some(ch as u32 - 'A' as u32 + 10)
    } else {
        None
    }
}

/// What four characters come to in base sixteen.
fn four_hex(all: &Vec<char>, at: usize) -> (result: Option<u32>)
    requires
        at <= all@.len(),
    ensures
        result is Some == hex_four(all@.skip(at as int)) is Some,
        result is Some ==> result->0 == hex_four(all@.skip(at as int))->0 && result->0 < 0x10000
            && at + 4 <= all@.len(),
{
    if all.len() - at < 4 {
        return None;
    }
    match (one_hex(all[at]), one_hex(all[at + 1]), one_hex(all[at + 2]), one_hex(all[at + 3])) {
        (Some(a), Some(b), Some(c), Some(d)) => Some(a * 4096 + b * 256 + c * 16 + d),
        _ => None,
    }
}

/// The character an escape stands for, with how much of the text it takes.
fn escape(all: &Vec<char>, at: usize) -> (result: Option<(char, usize)>)
    requires
        at <= all@.len(),
    ensures
        result is Some == escape_of(all@.skip(at as int)) is Some,
        result is Some ==> (result->0).0 == (escape_of(all@.skip(at as int))->0).0
            && (result->0).1 as nat == (escape_of(all@.skip(at as int))->0).1 && at + (result->0).1
            <= all@.len() && (result->0).1 > 0,
{
    if at >= all.len() {
        return None;
    }
    let ch: char = all[at];
    if ch == '"' {
        Some(('"', 1))
    } else if ch == '\\' {
        Some(('\\', 1))
    } else if ch == '/' {
        Some(('/', 1))
    } else if ch == 'b' {
        Some(('\x08', 1))
    } else if ch == 'f' {
        Some(('\x0c', 1))
    } else if ch == 'n' {
        Some(('\n', 1))
    } else if ch == 'r' {
        Some(('\r', 1))
    } else if ch == 't' {
        Some(('\t', 1))
    } else if ch == 'u' {
        proof {
            many_on(all@, at as int, 1);
        }
        match four_hex(all, at + 1) {
            None => None,
            Some(code) => {
                if code < 0xd800 || 0xe000 <= code {
                    match char::from_u32(code) {
                        None => None,
                        Some(made) => Some((made, 5)),
                    }
                } else if code < 0xdc00 && all.len() - at >= 7 && all[at + 5] == '\\' && all[at + 6]
                    == 'u' {
                    proof {
                        many_on(all@, at as int, 7);
                    }
                    match four_hex(all, at + 7) {
                        None => None,
                        Some(low) => {
                            if 0xdc00 <= low && low < 0xe000 {
                                match char::from_u32(
                                    0x10000 + (code - 0xd800) * 0x400 + (low - 0xdc00),
                                ) {
                                    None => None,
                                    Some(made) => Some((made, 11)),
                                }
                            } else {
                                None
                            }
                        },
                    }
                } else {
                    None
                }
            },
        }
    } else {
        None
    }
}

/// A quoted text, and where it ends.
fn quote(all: &Vec<char>, at: usize) -> (result: Option<(String, usize)>)
    requires
        at <= all@.len(),
    ensures
        result is Some == quote_of(all@.skip(at as int)) is Some,
        result is Some ==> (result->0).0@ == (quote_of(all@.skip(at as int))->0).0 && at < (result->0).1
            <= all@.len() && all@.skip((result->0).1 as int) == (quote_of(
            all@.skip(at as int),
        )->0).1,
{
    if at >= all.len() || all[at] != '"' {
        return None;
    }
    let mut said: String = String::new();
    let mut to: usize = at + 1;
    proof {
        one_on(all@, at as int);
    }
    while to < all.len()
        invariant
            at < to <= all@.len(),
            quote_of(all@.skip(at as int)) == quote_rest(all@.skip(to as int), said@),
        decreases all@.len() - to,
    {
        proof {
            one_on(all@, to as int);
        }
        let ch: char = all[to];
        if ch == '"' {
            return Some((said, to + 1));
        } else if ch == '\\' {
            match escape(all, to + 1) {
                None => {
                    return None;
                },
                Some((made, took)) => {
                    proof {
                        many_on(all@, to as int, took as int + 1);
                    }
                    said.push(made);
                    to = to + 1 + took;
                },
            }
        } else if ' ' > ch {
            return None;
        } else {
            said.push(ch);
            to = to + 1;
        }
    }
    None
}

/// Where the digits from a place on end.
fn past_digits(all: &Vec<char>, at: usize) -> (to: usize)
    requires
        at <= all@.len(),
    ensures
        at <= to <= all@.len(),
        to - at == run_of(all@.skip(at as int)),
{
    let mut to: usize = at;
    while to < all.len() && '0' <= all[to] && all[to] <= '9'
        invariant
            at <= to <= all@.len(),
            run_of(all@.skip(at as int)) == (to - at) + run_of(all@.skip(to as int)),
        decreases all@.len() - to,
    {
        proof {
            one_on(all@, to as int);
        }
        to = to + 1;
    }
    to
}

/// Where the whole number from a place on ends.
fn past_whole(all: &Vec<char>, at: usize) -> (result: Option<usize>)
    requires
        at <= all@.len(),
    ensures
        result is Some == whole_len(all@.skip(at as int)) is Some,
        result is Some ==> at < result->0 <= all@.len() && result->0 - at == whole_len(
            all@.skip(at as int),
        )->0,
{
    if at >= all.len() || !('0' <= all[at] && all[at] <= '9') {
        return None;
    }
    proof {
        one_on(all@, at as int);
    }
    if all[at] == '0' {
        Some(at + 1)
    } else {
        Some(past_digits(all, at))
    }
}

/// Where the fraction from a place on ends.
fn past_fraction(all: &Vec<char>, at: usize) -> (result: Option<usize>)
    requires
        at <= all@.len(),
    ensures
        result is Some == fraction_len(all@.skip(at as int)) is Some,
        result is Some ==> at <= result->0 <= all@.len() && result->0 - at == fraction_len(
            all@.skip(at as int),
        )->0,
{
    if at < all.len() && all[at] == '.' {
        proof {
            one_on(all@, at as int);
        }
        let end: usize = past_digits(all, at + 1);
        if end == at + 1 {
            None
        } else {
            Some(end)
        }
    } else {
        Some(at)
    }
}

/// Where the power of ten from a place on ends.
fn past_power(all: &Vec<char>, at: usize) -> (result: Option<usize>)
    requires
        at <= all@.len(),
    ensures
        result is Some == power_len(all@.skip(at as int)) is Some,
        result is Some ==> at <= result->0 <= all@.len() && result->0 - at == power_len(
            all@.skip(at as int),
        )->0,
{
    if at < all.len() && (all[at] == 'e' || all[at] == 'E') {
        let mut from: usize = at + 1;
        if from < all.len() && (all[from] == '+' || all[from] == '-') {
            from = from + 1;
        }
        proof {
            many_on(all@, at as int, from - at);
        }
        let end: usize = past_digits(all, from);
        if end == from {
            None
        } else {
            Some(end)
        }
    } else {
        Some(at)
    }
}

/// Where the number from a place on ends.
fn past_number(all: &Vec<char>, at: usize) -> (result: Option<usize>)
    requires
        at <= all@.len(),
    ensures
        result is Some == number_len(all@.skip(at as int)) is Some,
        result is Some ==> at < result->0 <= all@.len() && result->0 - at == number_len(
            all@.skip(at as int),
        )->0,
{
    let from: usize = if at < all.len() && all[at] == '-' { at + 1 } else { at };
    proof {
        many_on(all@, at as int, from - at);
    }
    match past_whole(all, from) {
        None => None,
        Some(whole) => {
            proof {
                many_on(all@, at as int, whole - at);
            }
            match past_fraction(all, whole) {
                None => None,
                Some(fraction) => {
                    proof {
                        many_on(all@, at as int, fraction - at);
                    }
                    past_power(all, fraction)
                },
            }
        },
    }
}

/// Whether a word stands at a place.
fn word_at(all: &Vec<char>, at: usize, word: &[char]) -> (result: bool)
    requires
        at <= all@.len(),
    ensures
        result == word@.is_prefix_of(all@.skip(at as int)),
        result ==> at + word@.len() <= all@.len(),
{
    if all.len() - at < word.len() {
        return false;
    }
    let mut i: usize = 0;
    while i < word.len()
        invariant
            i <= word@.len(),
            at + word@.len() <= all@.len() <= usize::MAX,
            forall|k: int| 0 <= k < i ==> all@[at + k] == word@[k],
        decreases word@.len() - i,
    {
        if all[at + i] != word[i] {
            assert(all@.skip(at as int)[i as int] != word@[i as int]);
            return false;
        }
        i = i + 1;
    }
    assert(all@.skip(at as int).take(word@.len() as int) =~= word@);
    true
}

/// Whether a reading of a text is what the text says: the same value, ended
/// at the same place, or none where there is none.
spec fn reads(
    all: Seq<char>,
    at: int,
    said: Option<(Json, Seq<char>)>,
    result: Option<(Value, usize)>,
) -> bool {
    match result {
        None => said is None,
        Some((value, to)) => {
            &&& said is Some
            &&& value.view() == (said->0).0
            &&& at < to <= all.len()
            &&& all.skip(to as int) == (said->0).1
        },
    }
}

/// What several values say.
pub open spec fn items_view(items: Seq<Value>) -> Seq<Json> {
    Seq::new(items.len(), |i: int| items[i].view())
}

/// What several members say.
pub open spec fn members_view(members: Seq<(String, Value)>) -> Seq<(Seq<char>, Json)> {
    Seq::new(members.len(), |i: int| (members[i].0@, members[i].1.view()))
}

/// The word or number from a place on, and where it ends.
fn plain(all: &Vec<char>, at: usize) -> (result: Option<(Value, usize)>)
    requires
        at <= all@.len(),
    ensures
        reads(all@, at as int, plain_of(all@.skip(at as int)), result),
{
    assert(all.len() <= usize::MAX);
    let yes: [char; 4] = ['t', 'r', 'u', 'e'];
    let no: [char; 5] = ['f', 'a', 'l', 's', 'e'];
    let nothing: [char; 4] = ['n', 'u', 'l', 'l'];
    assert(yes@ =~= seq!['t', 'r', 'u', 'e']);
    assert(no@ =~= seq!['f', 'a', 'l', 's', 'e']);
    assert(nothing@ =~= seq!['n', 'u', 'l', 'l']);
    if word_at(all, at, yes.as_slice()) {
        proof {
            many_on(all@, at as int, 4);
        }
        Some((Value::Bool(true), at + 4))
    } else if word_at(all, at, no.as_slice()) {
        proof {
            many_on(all@, at as int, 5);
        }
        Some((Value::Bool(false), at + 5))
    } else if word_at(all, at, nothing.as_slice()) {
        proof {
            many_on(all@, at as int, 4);
        }
        Some((Value::Null, at + 4))
    } else {
        match past_number(all, at) {
            None => None,
            Some(to) => {
                proof {
                    many_on(all@, at as int, to - at);
                }
                let spelled: String = part(all, at, to);
                assert(spelled@ =~= all@.skip(at as int).take(to - at));
                Some((Value::Number(spelled), to))
            },
        }
    }
}

/// The value from a place on, and where it ends.
fn value(all: &Vec<char>, at: usize) -> (result: Option<(Value, usize)>)
    requires
        at <= all@.len(),
    ensures
        reads(all@, at as int, value_of(all@.skip(at as int)), result),
    decreases all@.len() - at, 1nat,
{
    if at >= all.len() {
        return None;
    }
    proof {
        one_on(all@, at as int);
    }
    let ch: char = all[at];
    if ch == '{' {
        let inner: usize = past_blanks(all, at + 1);
        if inner < all.len() && all[inner] == '}' {
            proof {
                one_on(all@, inner as int);
            }
            let none: Vec<(String, Value)> = Vec::new();
            let made: Value = Value::Object(none);
            assert(made.view()->Object_0 =~= Seq::empty());
            Some((made, inner + 1))
        } else {
            assert(all@.skip(inner as int).len() < all@.skip(at as int).len());
            members(all, inner)
        }
    } else if ch == '[' {
        let inner: usize = past_blanks(all, at + 1);
        if inner < all.len() && all[inner] == ']' {
            proof {
                one_on(all@, inner as int);
            }
            let none: Vec<Value> = Vec::new();
            let made: Value = Value::List(none);
            assert(made.view()->List_0 =~= Seq::empty());
            Some((made, inner + 1))
        } else {
            assert(all@.skip(inner as int).len() < all@.skip(at as int).len());
            items(all, inner)
        }
    } else if ch == '"' {
        match quote(all, at) {
            None => None,
            Some((said, to)) => Some((Value::Text(said), to)),
        }
    } else {
        plain(all, at)
    }
}

/// The rest of a list, from an item on.
fn items(all: &Vec<char>, at: usize) -> (result: Option<(Value, usize)>)
    requires
        at <= all@.len(),
    ensures
        reads(all@, at as int, items_of(all@.skip(at as int), Seq::empty()), result),
    decreases all@.len() - at, 2nat,
{
    let mut found: Vec<Value> = Vec::new();
    let mut from: usize = at;
    assert(items_view(found@) =~= Seq::empty());
    loop
        invariant
            at <= from <= all@.len(),
            items_of(all@.skip(at as int), Seq::empty()) == items_of(
                all@.skip(from as int),
                items_view(found@),
            ),
        decreases all@.len() - from,
    {
        let ghost so_far = items_view(found@);
        match value(all, from) {
            None => {
                return None;
            },
            Some((item, to)) => {
                let after: usize = past_blanks(all, to);
                let ghost one = item.view();
                found.push(item);
                assert(items_view(found@) =~= so_far.push(one));
                if after >= all.len() {
                    return None;
                }
                proof {
                    one_on(all@, after as int);
                }
                if all[after] == ']' {
                    let made: Value = Value::List(found);
                    assert(made.view()->List_0 =~= so_far.push(one));
                    return Some((made, after + 1));
                } else if all[after] == ',' {
                    from = past_blanks(all, after + 1);
                } else {
                    return None;
                }
            },
        }
    }
}

/// The rest of an object, from a name on.
fn members(all: &Vec<char>, at: usize) -> (result: Option<(Value, usize)>)
    requires
        at <= all@.len(),
    ensures
        reads(all@, at as int, members_of(all@.skip(at as int), Seq::empty()), result),
    decreases all@.len() - at, 2nat,
{
    let mut found: Vec<(String, Value)> = Vec::new();
    let mut from: usize = at;
    assert(members_view(found@) =~= Seq::empty());
    loop
        invariant
            at <= from <= all@.len(),
            members_of(all@.skip(at as int), Seq::empty()) == members_of(
                all@.skip(from as int),
                members_view(found@),
            ),
        decreases all@.len() - from,
    {
        let ghost so_far = members_view(found@);
        match quote(all, from) {
            None => {
                return None;
            },
            Some((name, named)) => {
                let colon: usize = past_blanks(all, named);
                if colon >= all.len() || all[colon] != ':' {
                    return None;
                }
                proof {
                    one_on(all@, colon as int);
                }
                let start: usize = past_blanks(all, colon + 1);
                match value(all, start) {
                    None => {
                        return None;
                    },
                    Some((said, to)) => {
                        let after: usize = past_blanks(all, to);
                        let ghost one = (name@, said.view());
                        found.push((name, said));
                        assert(members_view(found@) =~= so_far.push(one));
                        if after >= all.len() {
                            return None;
                        }
                        proof {
                            one_on(all@, after as int);
                        }
                        if all[after] == '}' {
                            let made: Value = Value::Object(found);
                            assert(made.view()->Object_0 =~= so_far.push(one));
                            return Some((made, after + 1));
                        } else if all[after] == ',' {
                            from = past_blanks(all, after + 1);
                        } else {
                            return None;
                        }
                    },
                }
            },
        }
    }
}

/// Reads a text that is one value.
pub fn parse(text: &str) -> (result: Option<Value>)
    ensures
        result is Some == parsed(text@) is Some,
        result is Some ==> result->0.view() == parsed(text@)->0,
{
    let all: Vec<char> = letters(text);
    let from: usize = past_blanks(&all, 0);
    assert(all@.skip(0) =~= text@);
    match value(&all, from) {
        None => None,
        Some((said, to)) => {
            let end: usize = past_blanks(&all, to);
            if end == all.len() {
                Some(said)
            } else {
                None
            }
        },
    }
}

/// The first of several members with a name.
pub open spec fn first_named(members: Seq<(Seq<char>, Json)>, name: Seq<char>) -> Option<Json>
    decreases members.len(),
{
    if members.len() == 0 {
        None
    } else if members[0].0 == name {
        Some(members[0].1)
    } else {
        first_named(members.drop_first(), name)
    }
}

/// What an object says under a name; nothing for any other value.
pub open spec fn field(said: Json, name: Seq<char>) -> Option<Json> {
    match said {
        Json::Object(members) => first_named(members, name),
        _ => None,
    }
}

/// The number several digits spell.
pub open spec fn count_of(spelled: Seq<char>) -> nat
    decreases spelled.len(),
{
    if spelled.len() == 0 {
        0
    } else {
        (count_of(spelled.drop_last()) * 10 + (spelled.last() as int - '0' as int)) as nat
    }
}

/// Whether a text is digits and nothing else.
pub open spec fn all_digits(spelled: Seq<char>) -> bool {
    &&& spelled.len() > 0
    &&& forall|i: int| 0 <= i < spelled.len() ==> is_digit(#[trigger] spelled[i])
}

/// The whole number a value is, if it is one of digits alone up to `limit`.
pub open spec fn whole(said: Json, limit: nat) -> Option<nat> {
    match said {
        Json::Number(spelled) => if all_digits(spelled) && count_of(spelled) <= limit {
            Some(count_of(spelled))
        } else {
            None
        },
        _ => None,
    }
}

/// The text a value is, if it is one.
pub open spec fn said_text(said: Json) -> Option<Seq<char>> {
    match said {
        Json::Text(text) => Some(text),
        _ => None,
    }
}

/// The truth a value is, if it is one.
pub open spec fn said_bool(said: Json) -> Option<bool> {
    match said {
        Json::Bool(truth) => Some(truth),
        _ => None,
    }
}

/// The items of a list; none for any other value.
pub open spec fn said_items(said: Json) -> Seq<Json> {
    match said {
        Json::List(items) => items,
        _ => Seq::empty(),
    }
}

/// The items of a list; nothing at all for any other value.
pub open spec fn said_list(said: Json) -> Option<Seq<Json>> {
    match said {
        Json::List(items) => Some(items),
        _ => None,
    }
}

/// The members of an object; none for any other value.
pub open spec fn said_members(said: Json) -> Seq<(Seq<char>, Json)> {
    match said {
        Json::Object(members) => members,
        _ => Seq::empty(),
    }
}

/// More digits never make a smaller number.
proof fn count_grows(spelled: Seq<char>, more: int)
    requires
        all_digits(spelled),
        0 <= more <= spelled.len(),
    ensures
        count_of(spelled.take(more)) <= count_of(spelled),
    decreases spelled.len(),
{
    if more < spelled.len() {
        let less = spelled.drop_last();
        if less.len() > 0 {
            assert(all_digits(less));
            count_grows(less, more);
            assert(less.take(more) =~= spelled.take(more));
        } else {
            assert(spelled.take(more) =~= less);
        }
        assert(is_digit(spelled.last()));
        assert(spelled.last() as int >= '0' as int);
    } else {
        assert(spelled.take(more) =~= spelled);
    }
}

/// The number digits spell, if it is not over a limit.
fn counted(spelled: &str, limit: u64) -> (result: Option<u64>)
    ensures
        result is Some == (all_digits(spelled@) && count_of(spelled@) <= limit),
        result is Some ==> result->0 == count_of(spelled@),
{
    let all: Vec<char> = letters(spelled);
    if all.len() == 0 {
        return None;
    }
    let mut check: usize = 0;
    while check < all.len()
        invariant
            check <= all@.len(),
            all@ == spelled@,
            forall|k: int| 0 <= k < check ==> is_digit(#[trigger] spelled@[k]),
        decreases all@.len() - check,
    {
        if !('0' <= all[check] && all[check] <= '9') {
            assert(!is_digit(spelled@[check as int]));
            return None;
        }
        check = check + 1;
    }
    let mut count: u64 = 0;
    let mut i: usize = 0;
    assert(spelled@.take(0) =~= Seq::empty());
    while i < all.len()
        invariant
            i <= all@.len(),
            all@ == spelled@,
            all_digits(spelled@),
            count == count_of(spelled@.take(i as int)),
            count <= limit,
        decreases all@.len() - i,
    {
        let ch: char = all[i];
        assert(is_digit(spelled@[i as int]));
        let more: u64 = ch as u64 - '0' as u64;
        proof {
            count_grows(spelled@, i as int + 1);
            assert(spelled@.take(i as int + 1).drop_last() =~= spelled@.take(i as int));
        }
        if count > limit / 10 {
            return None;
        }
        if more > limit - count * 10 {
            return None;
        }
        count = count * 10 + more;
        i = i + 1;
    }
    assert(spelled@.take(i as int) =~= spelled@);
    Some(count)
}

impl Value {
    /// What an object says under a name; nothing for any other value.
    pub fn get(&self, name: &str) -> (result: Option<&Value>)
        ensures
            result is Some == field(self.view(), name@) is Some,
            result is Some ==> result->0.view() == field(self.view(), name@)->0,
    {
        match self {
            Value::Object(members) => {
                let ghost all = self.view()->Object_0;
                let mut i: usize = 0;
                assert(all.skip(0) =~= all);
                while i < members.len()
                    invariant
                        i <= members@.len(),
                        self.view() == Json::Object(all),
                        all.len() == members@.len(),
                        forall|k: int|
                            0 <= k < all.len() ==> #[trigger] all[k] == (
                                members@[k].0@,
                                members@[k].1.view(),
                            ),
                        first_named(all, name@) == first_named(all.skip(i as int), name@),
                    decreases members@.len() - i,
                {
                    assert(all.skip(i as int)[0] == all[i as int]);
                    assert(all.skip(i as int).drop_first() =~= all.skip(i as int + 1));
                    if same(members[i].0.as_str(), name) {
                        return Some(&members[i].1);
                    }
                    i = i + 1;
                }
                None
            },
            _ => None,
        }
    }

    /// The whole number a value is, if it is one this wide.
    pub fn as_u64(&self) -> (result: Option<u64>)
        ensures
            result is Some == whole(self.view(), u64::MAX as nat) is Some,
            result is Some ==> result->0 == whole(self.view(), u64::MAX as nat)->0,
    {
        match self {
            Value::Number(spelled) => counted(spelled.as_str(), u64::MAX),
            _ => None,
        }
    }

    /// The whole number a value is, if it is one this wide.
    pub fn as_u32(&self) -> (result: Option<u32>)
        ensures
            result is Some == whole(self.view(), u32::MAX as nat) is Some,
            result is Some ==> result->0 == whole(self.view(), u32::MAX as nat)->0,
    {
        match self {
            Value::Number(spelled) => {
                match counted(spelled.as_str(), 0xffff_ffff) {
                    Some(count) => Some(count as u32),
                    None => None,
                }
            },
            _ => None,
        }
    }

    /// The text a value is, if it is one.
    pub fn as_str(&self) -> (result: Option<&str>)
        ensures
            result is Some == said_text(self.view()) is Some,
            result is Some ==> result->0@ == said_text(self.view())->0,
    {
        match self {
            Value::Text(text) => Some(text.as_str()),
            _ => None,
        }
    }

    /// The truth a value is, if it is one.
    pub fn as_bool(&self) -> (result: Option<bool>)
        ensures
            result == said_bool(self.view()),
    {
        match self {
            Value::Bool(truth) => Some(*truth),
            _ => None,
        }
    }

    /// Whether it is a list.
    pub fn is_list(&self) -> (result: bool)
        ensures
            result == said_list(self.view()) is Some,
    {
        match self {
            Value::List(_) => true,
            _ => false,
        }
    }

    /// How many items a list has; none for any other value.
    pub fn count(&self) -> (result: usize)
        ensures
            result == said_items(self.view()).len(),
    {
        match self {
            Value::List(items) => items.len(),
            _ => 0,
        }
    }

    /// One item of a list.
    pub fn item(&self, index: usize) -> (result: &Value)
        requires
            index < said_items(self.view()).len(),
        ensures
            result.view() == said_items(self.view())[index as int],
    {
        match self {
            Value::List(items) => &items[index],
            _ => self,
        }
    }

    /// How many members an object has; none for any other value.
    pub fn width(&self) -> (result: usize)
        ensures
            result == said_members(self.view()).len(),
    {
        match self {
            Value::Object(members) => members.len(),
            _ => 0,
        }
    }

    /// The name of one member of an object.
    pub fn name(&self, index: usize) -> (result: &str)
        requires
            index < said_members(self.view()).len(),
        ensures
            result@ == said_members(self.view())[index as int].0,
    {
        match self {
            Value::Object(members) => members[index].0.as_str(),
            _ => "",
        }
    }
}

/// The digit of base sixteen for a number below sixteen.
pub open spec fn hex(n: nat) -> char {
    if n < 10 {
        digit(n)
    } else if n == 10 {
        'a'
    } else if n == 11 {
        'b'
    } else if n == 12 {
        'c'
    } else if n == 13 {
        'd'
    } else if n == 14 {
        'e'
    } else {
        'f'
    }
}

/// A character as it stands inside quotes.
pub open spec fn escaped_char(ch: char) -> Seq<char> {
    if ch == '"' {
        seq!['\\', '"']
    } else if ch == '\\' {
        seq!['\\', '\\']
    } else if ch == '\n' {
        seq!['\\', 'n']
    } else if ch == '\r' {
        seq!['\\', 'r']
    } else if ch == '\t' {
        seq!['\\', 't']
    } else if ' ' > ch {
        seq!['\\', 'u', '0', '0', hex((ch as int / 16) as nat), hex((ch as int % 16) as nat)]
    } else {
        seq![ch]
    }
}

/// A text as it stands inside quotes.
pub open spec fn escaped(text: Seq<char>) -> Seq<char>
    decreases text.len(),
{
    if text.len() == 0 {
        Seq::empty()
    } else {
        escaped_char(text[0]) + escaped(text.drop_first())
    }
}

/// A text in quotes.
pub open spec fn quoted_text(text: Seq<char>) -> Seq<char> {
    seq!['"'] + escaped(text) + seq!['"']
}

/// An escape of a control character reads as that character.
proof fn control_reads(ch: char, rest: Seq<char>)
    requires
        ' ' > ch,
        ch != '\n',
        ch != '\r',
        ch != '\t',
    ensures
        escape_of((escaped_char(ch) + rest).drop_first()) == Some((ch, 5nat)),
{
    let text = (escaped_char(ch) + rest).drop_first();
    assert(text =~= seq!['u', '0', '0', hex((ch as int / 16) as nat), hex(
        (ch as int % 16) as nat,
    )] + rest);
    let four = text.skip(1);
    assert(four[0] == '0' && four[1] == '0');
    assert(four[2] == hex((ch as int / 16) as nat));
    assert(four[3] == hex((ch as int % 16) as nat));
    assert(0 <= ch as int && (ch as int) < 32);
    assert(hex_digit('0') == Some(0nat));
    assert(hex_digit(hex((ch as int / 16) as nat)) == Some((ch as int / 16) as nat));
    assert(hex_digit(hex((ch as int % 16) as nat)) == Some((ch as int % 16) as nat));
    assert(hex_four(four) == Some(ch as nat));
}

/// A character between quotes reads back as itself.
proof fn char_reads(ch: char, tail: Seq<char>, so_far: Seq<char>)
    ensures
        quote_rest(escaped_char(ch) + tail, so_far) == quote_rest(tail, so_far.push(ch)),
{
    let all = escaped_char(ch) + tail;
    if ch == '"' || ch == '\\' || ch == '\n' || ch == '\r' || ch == '\t' {
        assert(all.skip(2) =~= tail);
        assert(all[0] == '\\');
        assert(all.drop_first()[0] == escaped_char(ch)[1]);
        assert(escape_of(all.drop_first()) == Some((ch, 1nat)));
    } else if ' ' > ch {
        control_reads(ch, tail);
        assert(all[0] == '\\');
        assert(all.skip(6) =~= tail);
    } else {
        assert(all[0] == ch);
        assert(all.drop_first() =~= tail);
    }
}

/// What is written between quotes reads back as itself.
proof fn escapes_read(text: Seq<char>, rest: Seq<char>, so_far: Seq<char>)
    ensures
        quote_rest(escaped(text) + seq!['"'] + rest, so_far) == Some((so_far + text, rest)),
    decreases text.len(),
{
    let all = escaped(text) + seq!['"'] + rest;
    if text.len() == 0 {
        assert(all =~= seq!['"'] + rest);
        assert(all.drop_first() =~= rest);
        assert(so_far + text =~= so_far);
    } else {
        let ch = text[0];
        let less = text.drop_first();
        let tail = escaped(less) + seq!['"'] + rest;
        assert(all =~= escaped_char(ch) + tail);
        char_reads(ch, tail, so_far);
        escapes_read(less, rest, so_far.push(ch));
        assert(so_far.push(ch) + less =~= so_far + text);
    }
}

/// A text in quotes reads back as itself, whatever follows.
pub proof fn quotes_read(text: Seq<char>, rest: Seq<char>)
    ensures
        quote_of(quoted_text(text) + rest) == Some((text, rest)),
        value_of(quoted_text(text) + rest) == Some((Json::Text(text), rest)),
{
    let all = quoted_text(text) + rest;
    assert(all.drop_first() =~= escaped(text) + seq!['"'] + rest);
    escapes_read(text, rest, Seq::empty());
    assert(Seq::<char>::empty() + text =~= text);
}

/// The digits of a number spell it, and begin with a nought only for nought.
pub proof fn digits_spell(n: nat)
    ensures
        all_digits(digits(n)),
        count_of(digits(n)) == n,
        digits(n)[0] == '0' ==> n == 0,
        n == 0 ==> digits(n).len() == 1,
    decreases n,
{
    if n < 10 {
        assert(digits(n).drop_last() =~= Seq::empty());
        assert(count_of(digits(n).drop_last()) == 0);
        assert(digits(n).last() == digit(n));
        assert(digit(n) as int - '0' as int == n);
    } else {
        digits_spell(n / 10);
        assert(digits(n).drop_last() =~= digits(n / 10));
        assert(digits(n)[0] == digits(n / 10)[0]);
        assert(is_digit(digit(n % 10)));
        assert(digit(n % 10) as int - '0' as int == n % 10);
        assert forall|i: int| 0 <= i < digits(n).len() implies is_digit(
            #[trigger] digits(n)[i],
        ) by {
            if i < digits(n / 10).len() {
                assert(digits(n)[i] == digits(n / 10)[i]);
            }
        }
    }
}

/// Digits are counted up to what is none.
proof fn run_ends(spelled: Seq<char>, rest: Seq<char>)
    requires
        forall|i: int| 0 <= i < spelled.len() ==> is_digit(#[trigger] spelled[i]),
        rest.len() == 0 || !is_digit(rest[0]),
    ensures
        run_of(spelled + rest) == spelled.len(),
    decreases spelled.len(),
{
    if spelled.len() == 0 {
        assert(spelled + rest =~= rest);
    } else {
        let less = spelled.drop_first();
        assert((spelled + rest).drop_first() =~= less + rest);
        assert forall|i: int| 0 <= i < less.len() implies is_digit(#[trigger] less[i]) by {
            assert(less[i] == spelled[i + 1]);
        }
        assert(is_digit(spelled[0]));
        run_ends(less, rest);
    }
}

/// A whole number takes its digits, where no more of a number follows.
proof fn digits_measure(n: nat, rest: Seq<char>)
    requires
        stops(rest),
    ensures
        number_len(digits(n) + rest) == Some(digits(n).len()),
        is_digit((digits(n) + rest)[0]),
        (digits(n) + rest).skip(digits(n).len() as int) == rest,
        (digits(n) + rest).take(digits(n).len() as int) == digits(n),
{
    let all = digits(n) + rest;
    digits_spell(n);
    run_ends(digits(n), rest);
    assert(is_digit(digits(n)[0]));
    assert(all[0] == digits(n)[0]);
    assert(all.skip(0) =~= all);
    assert(all.skip(digits(n).len() as int) =~= rest);
    assert(all.take(digits(n).len() as int) =~= digits(n));
    assert(whole_len(all) == Some(digits(n).len()));
    assert(fraction_len(rest) == Some(0nat));
    assert(power_len(rest) == Some(0nat));
}

/// What begins with a digit begins with no word.
proof fn digit_is_no_word(text: Seq<char>)
    requires
        text.len() > 0,
        is_digit(text[0]),
    ensures
        !seq!['t', 'r', 'u', 'e'].is_prefix_of(text),
        !seq!['f', 'a', 'l', 's', 'e'].is_prefix_of(text),
        !seq!['n', 'u', 'l', 'l'].is_prefix_of(text),
{
    assert(seq!['t', 'r', 'u', 'e'][0] != text[0]);
    assert(seq!['f', 'a', 'l', 's', 'e'][0] != text[0]);
    assert(seq!['n', 'u', 'l', 'l'][0] != text[0]);
}

/// A whole number reads back as its digits, where no more of a number
/// follows.
pub proof fn digits_read(n: nat, rest: Seq<char>)
    requires
        stops(rest),
    ensures
        value_of(digits(n) + rest) == Some((Json::Number(digits(n)), rest)),
{
    let all = digits(n) + rest;
    digits_measure(n, rest);
    digits_spell(n);
    digit_is_no_word(all);
    assert(plain_of(all) == Some((Json::Number(digits(n)), rest)));
}

/// The digit of base sixteen for a number below sixteen.
fn one_of_sixteen(n: u32) -> (result: char)
    requires
        n < 16,
    ensures
        result == hex(n as nat),
{
    if n == 0 {
        '0'
    } else if n == 1 {
        '1'
    } else if n == 2 {
        '2'
    } else if n == 3 {
        '3'
    } else if n == 4 {
        '4'
    } else if n == 5 {
        '5'
    } else if n == 6 {
        '6'
    } else if n == 7 {
        '7'
    } else if n == 8 {
        '8'
    } else if n == 9 {
        '9'
    } else if n == 10 {
        'a'
    } else if n == 11 {
        'b'
    } else if n == 12 {
        'c'
    } else if n == 13 {
        'd'
    } else if n == 14 {
        'e'
    } else {
        'f'
    }
}

/// The code of a character.
fn code_of(ch: char) -> (result: u32)
    ensures
        result as int == ch as int,
{
    ch as u32
}

/// What escapes come to, one character more at the end.
proof fn escaped_push(text: Seq<char>, ch: char)
    ensures
        escaped(text.push(ch)) == escaped(text) + escaped_char(ch),
    decreases text.len(),
{
    if text.len() == 0 {
        assert(text.push(ch).drop_first() =~= Seq::empty());
        assert(escaped(text.push(ch).drop_first()) =~= Seq::empty());
        assert(text.push(ch)[0] == ch);
        assert(escaped(text.push(ch)) =~= escaped_char(ch));
        assert(escaped(text) + escaped_char(ch) =~= escaped_char(ch));
    } else {
        escaped_push(text.drop_first(), ch);
        assert(text.push(ch).drop_first() =~= text.drop_first().push(ch));
        assert(escaped(text.push(ch)) =~= escaped(text) + escaped_char(ch));
    }
}

/// A text in quotes.
pub fn quoted(text: &str) -> (result: String)
    ensures
        result@ == quoted_text(text@),
{
    let all: Vec<char> = letters(text);
    let mut out: String = String::new();
    out.push('"');
    let mut i: usize = 0;
    assert(out@ =~= seq!['"'] + escaped(all@.take(0)));
    while i < all.len()
        invariant
            i <= all@.len(),
            all@ == text@,
            out@ == seq!['"'] + escaped(text@.take(i as int)),
        decreases all@.len() - i,
    {
        let ch: char = all[i];
        let ghost was = out@;
        proof {
            escaped_push(text@.take(i as int), ch);
            assert(text@.take(i as int).push(ch) =~= text@.take(i as int + 1));
        }
        if ch == '"' {
            out.push('\\');
            out.push('"');
        } else if ch == '\\' {
            out.push('\\');
            out.push('\\');
        } else if ch == '\n' {
            out.push('\\');
            out.push('n');
        } else if ch == '\r' {
            out.push('\\');
            out.push('r');
        } else if ch == '\t' {
            out.push('\\');
            out.push('t');
        } else if ' ' > ch {
            let code: u32 = code_of(ch);
            out.push('\\');
            out.push('u');
            out.push('0');
            out.push('0');
            out.push(one_of_sixteen(code / 16));
            out.push(one_of_sixteen(code % 16));
        } else {
            out.push(ch);
        }
        assert(out@ =~= was + escaped_char(ch));
        assert(out@ =~= seq!['"'] + escaped(text@.take(i as int + 1)));
        i = i + 1;
    }
    out.push('"');
    assert(text@.take(i as int) =~= text@);
    assert(out@ =~= quoted_text(text@));
    out
}

/// Whether a text is blanks and nothing else.
pub open spec fn all_blank(text: Seq<char>) -> bool {
    forall|i: int| 0 <= i < text.len() ==> is_blank(#[trigger] text[i])
}

/// Whether what follows cannot go on with a number that stood before it.
pub open spec fn stops(rest: Seq<char>) -> bool {
    rest.len() == 0 || (!is_digit(rest[0]) && rest[0] != '.' && rest[0] != 'e' && rest[0] != 'E')
}

/// Whether a text reads as a value, whatever follows that does not go on
/// with it.
pub open spec fn spells(text: Seq<char>, said: Json) -> bool {
    &&& text.len() > 0
    &&& !is_blank(text[0])
    &&& text[0] != '}'
    &&& text[0] != ']'
    &&& forall|rest: Seq<char>|
        stops(rest) ==> #[trigger] value_of(text + rest) == Some((said, rest))
}

/// A text in quotes reads as that text.
pub proof fn quotes_spell(text: Seq<char>)
    ensures
        spells(quoted_text(text), Json::Text(text)),
{
    assert forall|rest: Seq<char>| stops(rest) implies #[trigger] value_of(
        quoted_text(text) + rest,
    ) == Some((Json::Text(text), rest)) by {
        quotes_read(text, rest);
    }
    assert(quoted_text(text)[0] == '"');
}

/// The digits of a number read as that number.
pub proof fn digits_spell_number(n: nat)
    ensures
        spells(digits(n), Json::Number(digits(n))),
{
    digits_spell(n);
    assert(is_digit(digits(n)[0]));
    assert forall|rest: Seq<char>| stops(rest) implies #[trigger] value_of(digits(n) + rest)
        == Some((Json::Number(digits(n)), rest)) by {
        digits_read(n, rest);
    }
}

/// A truth as it is written.
pub open spec fn truth_text(truth: bool) -> Seq<char> {
    if truth {
        seq!['t', 'r', 'u', 'e']
    } else {
        seq!['f', 'a', 'l', 's', 'e']
    }
}

/// A truth reads as itself.
pub proof fn truth_spells(truth: bool)
    ensures
        spells(truth_text(truth), Json::Bool(truth)),
{
    assert forall|rest: Seq<char>| stops(rest) implies #[trigger] value_of(truth_text(truth) + rest)
        == Some((Json::Bool(truth), rest)) by {
        let all = truth_text(truth) + rest;
        let yes = seq!['t', 'r', 'u', 'e'];
        assert(all[0] == truth_text(truth)[0]);
        if truth {
            assert(yes.is_prefix_of(all));
            assert(all.skip(4) =~= rest);
        } else {
            assert(!yes.is_prefix_of(all)) by {
                assert(yes[0] != all[0]);
            }
            assert(seq!['f', 'a', 'l', 's', 'e'].is_prefix_of(all));
            assert(all.skip(5) =~= rest);
        }
    }
}

/// A name and what stands under it.
pub open spec fn member_text(name: Seq<char>, said: Seq<char>) -> Seq<char> {
    quoted_text(name) + seq![':', ' '] + said
}

/// Members one after the other, with what stands between them.
pub open spec fn members_text(sep: Seq<char>, members: Seq<(Seq<char>, Seq<char>)>) -> Seq<char>
    decreases members.len(),
{
    if members.len() == 0 {
        Seq::empty()
    } else if members.len() == 1 {
        member_text(members[0].0, members[0].1)
    } else {
        member_text(members[0].0, members[0].1) + seq![','] + sep + members_text(
            sep,
            members.drop_first(),
        )
    }
}

/// An object laid out with blanks of the caller's choosing: behind the
/// opening brace, behind each comma and before the closing brace.
pub open spec fn object_text(
    open: Seq<char>,
    sep: Seq<char>,
    close: Seq<char>,
    members: Seq<(Seq<char>, Seq<char>)>,
) -> Seq<char> {
    seq!['{'] + open + members_text(sep, members) + close + seq!['}']
}

/// Items one after the other, with what stands between them.
pub open spec fn items_text(sep: Seq<char>, items: Seq<Seq<char>>) -> Seq<char>
    decreases items.len(),
{
    if items.len() == 0 {
        Seq::empty()
    } else if items.len() == 1 {
        items[0]
    } else {
        items[0] + seq![','] + sep + items_text(sep, items.drop_first())
    }
}

/// A list laid out with blanks of the caller's choosing; an empty one has
/// none in it.
pub open spec fn list_text(
    open: Seq<char>,
    sep: Seq<char>,
    close: Seq<char>,
    items: Seq<Seq<char>>,
) -> Seq<char> {
    if items.len() == 0 {
        seq!['[', ']']
    } else {
        seq!['['] + open + items_text(sep, items) + close + seq![']']
    }
}

/// Leaving blanks out never makes a text longer.
proof fn unblanked_no_longer(text: Seq<char>)
    ensures
        unblanked(text).len() <= text.len(),
    decreases text.len(),
{
    if text.len() > 0 && is_blank(text[0]) {
        unblanked_no_longer(text.drop_first());
    }
}

/// Blanks before a text are left out, and nothing else is.
pub proof fn blanks_go(blanks: Seq<char>, text: Seq<char>)
    requires
        all_blank(blanks),
        text.len() == 0 || !is_blank(text[0]),
    ensures
        unblanked(blanks + text) == text,
    decreases blanks.len(),
{
    if blanks.len() == 0 {
        assert(blanks + text =~= text);
    } else {
        assert(is_blank(blanks[0]));
        assert((blanks + text).drop_first() =~= blanks.drop_first() + text);
        assert forall|i: int| 0 <= i < blanks.drop_first().len() implies is_blank(
            #[trigger] blanks.drop_first()[i],
        ) by {
            assert(blanks.drop_first()[i] == blanks[i + 1]);
        }
        blanks_go(blanks.drop_first(), text);
    }
}

/// A member reads as its name and its value; what follows decides the rest.
proof fn member_reads(
    name: Seq<char>,
    text: Seq<char>,
    said: Json,
    tail: Seq<char>,
    so_far: Seq<(Seq<char>, Json)>,
)
    requires
        spells(text, said),
        stops(tail),
    ensures
        members_of(member_text(name, text) + tail, so_far) == {
            let after = unblanked(tail);
            if after.len() == 0 {
                None
            } else if after[0] == '}' {
                Some((Json::Object(so_far.push((name, said))), after.drop_first()))
            } else if after[0] == ',' {
                members_of(unblanked(after.drop_first()), so_far.push((name, said)))
            } else {
                None
            }
        },
{
    let all = member_text(name, text) + tail;
    let behind = seq![':', ' '] + text + tail;
    assert(all =~= quoted_text(name) + behind);
    quotes_read(name, behind);
    assert(unblanked(behind) == behind);
    assert(behind.drop_first() =~= seq![' '] + (text + tail));
    assert((text + tail)[0] == text[0]);
    blanks_go(seq![' '], text + tail);
    assert(value_of(text + tail) == Some((said, tail)));
    unblanked_no_longer(tail);
    let after = unblanked(tail);
    if after.len() > 0 {
        unblanked_no_longer(after.drop_first());
    }
}

/// The last member of an object reads as its name and its value.
proof fn last_member_reads(
    close: Seq<char>,
    name: Seq<char>,
    text: Seq<char>,
    said: Json,
    rest: Seq<char>,
    so_far: Seq<(Seq<char>, Json)>,
)
    requires
        all_blank(close),
        spells(text, said),
    ensures
        members_of(member_text(name, text) + (close + (seq!['}'] + rest)), so_far) == Some(
            (Json::Object(so_far.push((name, said))), rest),
        ),
{
    let shut = seq!['}'] + rest;
    blanks_go(close, shut);
    if close.len() > 0 {
        assert(is_blank(close[0]));
    }
    member_reads(name, text, said, close + shut, so_far);
    assert(shut.drop_first() =~= rest);
}

/// A member of an object with more behind it reads as its name and its
/// value, and the rest is read from the next name on.
proof fn next_member_reads(
    sep: Seq<char>,
    name: Seq<char>,
    text: Seq<char>,
    said: Json,
    more: Seq<char>,
    so_far: Seq<(Seq<char>, Json)>,
)
    requires
        all_blank(sep),
        spells(text, said),
        more.len() > 0,
        more[0] == '"',
    ensures
        members_of(member_text(name, text) + (seq![','] + (sep + more)), so_far) == members_of(
            more,
            so_far.push((name, said)),
        ),
{
    let tail = seq![','] + (sep + more);
    member_reads(name, text, said, tail, so_far);
    assert(unblanked(tail) == tail);
    assert(tail.drop_first() =~= sep + more);
    blanks_go(sep, more);
}

/// The names of members with the values their texts spell.
pub open spec fn named(members: Seq<(Seq<char>, Seq<char>)>, said: Seq<Json>) -> Seq<
    (Seq<char>, Json),
> {
    Seq::new(members.len(), |i: int| (members[i].0, said[i]))
}

/// Members begin with the quote of the first name.
proof fn members_begin(sep: Seq<char>, members: Seq<(Seq<char>, Seq<char>)>, rest: Seq<char>)
    requires
        members.len() > 0,
    ensures
        (members_text(sep, members) + rest)[0] == '"',
        (members_text(sep, members) + rest).len() > 0,
{
    assert(quoted_text(members[0].0)[0] == '"');
    assert(member_text(members[0].0, members[0].1)[0] == '"');
    assert(members_text(sep, members)[0] == '"');
}

/// The first of several members stands before the rest.
proof fn members_split(sep: Seq<char>, members: Seq<(Seq<char>, Seq<char>)>, rest: Seq<char>)
    requires
        members.len() > 1,
    ensures
        members_text(sep, members) + rest == member_text(members[0].0, members[0].1) + (seq![',']
            + (sep + (members_text(sep, members.drop_first()) + rest))),
{
    let first = member_text(members[0].0, members[0].1);
    let more = members_text(sep, members.drop_first());
    assert(first + seq![','] + sep + more + rest =~= first + (seq![','] + (sep + (more + rest))));
}

/// Members read one after the other as what their texts spell.
proof fn members_read(
    sep: Seq<char>,
    close: Seq<char>,
    members: Seq<(Seq<char>, Seq<char>)>,
    said: Seq<Json>,
    rest: Seq<char>,
    so_far: Seq<(Seq<char>, Json)>,
)
    requires
        all_blank(sep),
        all_blank(close),
        members.len() > 0,
        said.len() == members.len(),
        forall|i: int| 0 <= i < members.len() ==> spells(#[trigger] members[i].1, said[i]),
    ensures
        members_of(members_text(sep, members) + close + seq!['}'] + rest, so_far) == Some(
            (Json::Object(so_far + named(members, said)), rest),
        ),
    decreases members.len(),
{
    let shut = seq!['}'] + rest;
    let end = close + shut;
    assert(members_text(sep, members) + close + seq!['}'] + rest =~= members_text(sep, members)
        + end);
    assert(spells(members[0].1, said[0]));
    if members.len() == 1 {
        last_member_reads(close, members[0].0, members[0].1, said[0], rest, so_far);
        assert(so_far + named(members, said) =~= so_far.push((members[0].0, said[0])));
    } else {
        let less = members.drop_first();
        let more = members_text(sep, less) + end;
        members_split(sep, members, end);
        members_begin(sep, less, end);
        next_member_reads(sep, members[0].0, members[0].1, said[0], more, so_far);
        assert forall|i: int| 0 <= i < less.len() implies spells(
            #[trigger] less[i].1,
            said.drop_first()[i],
        ) by {
            assert(less[i] == members[i + 1]);
            assert(spells(members[i + 1].1, said[i + 1]));
        }
        members_read(
            sep,
            close,
            less,
            said.drop_first(),
            rest,
            so_far.push((members[0].0, said[0])),
        );
        assert(members_text(sep, less) + close + seq!['}'] + rest =~= more);
        assert(so_far.push((members[0].0, said[0])) + named(less, said.drop_first()) =~= so_far
            + named(members, said));
    }
}

/// An object laid out reads as its members, each as what its text spells.
pub proof fn object_spells(
    open: Seq<char>,
    sep: Seq<char>,
    close: Seq<char>,
    members: Seq<(Seq<char>, Seq<char>)>,
    said: Seq<Json>,
)
    requires
        all_blank(open),
        all_blank(sep),
        all_blank(close),
        members.len() > 0,
        said.len() == members.len(),
        forall|i: int| 0 <= i < members.len() ==> spells(#[trigger] members[i].1, said[i]),
    ensures
        spells(object_text(open, sep, close, members), Json::Object(named(members, said))),
{
    let text = object_text(open, sep, close, members);
    assert forall|rest: Seq<char>| stops(rest) implies #[trigger] value_of(text + rest) == Some(
        (Json::Object(named(members, said)), rest),
    ) by {
        let inner = members_text(sep, members) + close + seq!['}'] + rest;
        assert((text + rest).drop_first() =~= open + inner);
        members_begin(sep, members, close + seq!['}'] + rest);
        assert(inner =~= members_text(sep, members) + (close + seq!['}'] + rest));
        blanks_go(open, inner);
        members_read(sep, close, members, said, rest, Seq::empty());
        assert(Seq::<(Seq<char>, Json)>::empty() + named(members, said) =~= named(members, said));
    }
}

/// An item reads as its value; what follows decides the rest.
proof fn item_reads(text: Seq<char>, said: Json, tail: Seq<char>, so_far: Seq<Json>)
    requires
        spells(text, said),
        stops(tail),
    ensures
        items_of(text + tail, so_far) == {
            let after = unblanked(tail);
            if after.len() == 0 {
                None
            } else if after[0] == ']' {
                Some((Json::List(so_far.push(said)), after.drop_first()))
            } else if after[0] == ',' {
                items_of(unblanked(after.drop_first()), so_far.push(said))
            } else {
                None
            }
        },
{
    assert(value_of(text + tail) == Some((said, tail)));
    unblanked_no_longer(tail);
    let after = unblanked(tail);
    if after.len() > 0 {
        unblanked_no_longer(after.drop_first());
    }
}

/// Items read one after the other as what their texts spell.
proof fn items_read(
    sep: Seq<char>,
    close: Seq<char>,
    items: Seq<Seq<char>>,
    said: Seq<Json>,
    rest: Seq<char>,
    so_far: Seq<Json>,
)
    requires
        all_blank(sep),
        all_blank(close),
        items.len() > 0,
        said.len() == items.len(),
        forall|i: int| 0 <= i < items.len() ==> spells(#[trigger] items[i], said[i]),
    ensures
        items_of(items_text(sep, items) + close + seq![']'] + rest, so_far) == Some(
            (Json::List(so_far + said), rest),
        ),
    decreases items.len(),
{
    let first = items[0];
    let shut = seq![']'] + rest;
    assert(spells(items[0], said[0]));
    if items.len() == 1 {
        let tail = close + shut;
        assert(items_text(sep, items) + close + seq![']'] + rest =~= first + tail);
        blanks_go(close, shut);
        if close.len() > 0 {
            assert(is_blank(close[0]));
        }
        item_reads(first, said[0], tail, so_far);
        assert(shut.drop_first() =~= rest);
        assert(so_far + said =~= so_far.push(said[0]));
    } else {
        let less = items.drop_first();
        let more = items_text(sep, less) + close + seq![']'] + rest;
        let tail = seq![','] + sep + more;
        assert(items_text(sep, items) + close + seq![']'] + rest =~= first + tail);
        item_reads(first, said[0], tail, so_far);
        assert(unblanked(tail) == tail);
        assert(tail.drop_first() =~= sep + more);
        assert(less[0] == items[1]);
        assert(spells(items[1], said[1]));
        assert(more[0] == items[1][0]);
        blanks_go(sep, more);
        assert forall|i: int| 0 <= i < less.len() implies spells(
            #[trigger] less[i],
            said.drop_first()[i],
        ) by {
            assert(less[i] == items[i + 1]);
            assert(spells(items[i + 1], said[i + 1]));
        }
        items_read(sep, close, less, said.drop_first(), rest, so_far.push(said[0]));
        assert(so_far.push(said[0]) + said.drop_first() =~= so_far + said);
    }
}

/// A list laid out reads as its items, each as what its text spells.
pub proof fn list_spells(
    open: Seq<char>,
    sep: Seq<char>,
    close: Seq<char>,
    items: Seq<Seq<char>>,
    said: Seq<Json>,
)
    requires
        all_blank(open),
        all_blank(sep),
        all_blank(close),
        said.len() == items.len(),
        forall|i: int| 0 <= i < items.len() ==> spells(#[trigger] items[i], said[i]),
    ensures
        spells(list_text(open, sep, close, items), Json::List(said)),
{
    let text = list_text(open, sep, close, items);
    assert forall|rest: Seq<char>| stops(rest) implies #[trigger] value_of(text + rest) == Some(
        (Json::List(said), rest),
    ) by {
        if items.len() == 0 {
            let inner = seq![']'] + rest;
            assert((text + rest).drop_first() =~= inner);
            assert(unblanked(inner) == inner);
            assert(inner.drop_first() =~= rest);
            assert(said =~= Seq::empty());
        } else {
            let inner = items_text(sep, items) + close + seq![']'] + rest;
            assert((text + rest).drop_first() =~= open + inner);
            assert(spells(items[0], said[0]));
            assert(inner[0] == items[0][0]);
            blanks_go(open, inner);
            items_read(sep, close, items, said, rest, Seq::empty());
            assert(Seq::<Json>::empty() + said =~= said);
        }
    }
}

/// A text that spells a value, with blanks behind it, is read as that value.
pub proof fn spelled_parses(text: Seq<char>, blanks: Seq<char>, said: Json)
    requires
        spells(text, said),
        all_blank(blanks),
    ensures
        parsed(text + blanks) == Some(said),
{
    if blanks.len() > 0 {
        assert(is_blank(blanks[0]));
    }
    assert(stops(blanks));
    assert(value_of(text + blanks) == Some((said, blanks)));
    assert((text + blanks)[0] == text[0]);
    assert(blanks + Seq::<char>::empty() =~= blanks);
    blanks_go(blanks, Seq::empty());
}

/// Members as texts.
pub open spec fn member_views(members: Seq<(String, String)>) -> Seq<(Seq<char>, Seq<char>)> {
    Seq::new(members.len(), |i: int| (members[i].0@, members[i].1@))
}

/// Items as texts.
pub open spec fn text_views(items: Seq<String>) -> Seq<Seq<char>> {
    Seq::new(items.len(), |i: int| items[i]@)
}

/// Lays an object out.
pub fn object(open: &str, sep: &str, close: &str, members: &Vec<(String, String)>) -> (result:
    String)
    ensures
        result@ == object_text(open@, sep@, close@, member_views(members@)),
{
    let ghost all = member_views(members@);
    let mut out: String = String::new();
    out.push('{');
    out.append(open);
    let ghost head = out@;
    assert(head =~= seq!['{'] + open@);
    let mut i: usize = 0;
    assert(all.skip(0) =~= all);
    while i < members.len()
        invariant
            i <= members@.len(),
            all == member_views(members@),
            out@ + members_text(sep@, all.skip(i as int)) == head + members_text(sep@, all),
        decreases members@.len() - i,
    {
        let ghost left = all.skip(i as int);
        let ghost was = out@;
        let name: String = quoted(members[i].0.as_str());
        out.append(name.as_str());
        out.push(':');
        out.push(' ');
        out.append(members[i].1.as_str());
        assert(left[0] == (members@[i as int].0@, members@[i as int].1@));
        assert(out@ =~= was + member_text(left[0].0, left[0].1));
        assert(left.drop_first() =~= all.skip(i as int + 1));
        if i + 1 < members.len() {
            out.push(',');
            out.append(sep);
            assert(out@ + members_text(sep@, left.drop_first()) =~= was + members_text(sep@, left));
        } else {
            assert(members_text(sep@, left.drop_first()) =~= Seq::empty());
            assert(out@ + members_text(sep@, left.drop_first()) =~= was + members_text(sep@, left));
        }
        i = i + 1;
    }
    assert(all.skip(i as int) =~= Seq::empty());
    assert(out@ + Seq::<char>::empty() =~= out@);
    out.append(close);
    out.push('}');
    assert(out@ =~= object_text(open@, sep@, close@, all));
    out
}

/// Lays a list out.
pub fn list(open: &str, sep: &str, close: &str, items: &Vec<String>) -> (result: String)
    ensures
        result@ == list_text(open@, sep@, close@, text_views(items@)),
{
    let ghost all = text_views(items@);
    let mut out: String = String::new();
    out.push('[');
    if items.len() == 0 {
        out.push(']');
        assert(out@ =~= list_text(open@, sep@, close@, all));
        return out;
    }
    out.append(open);
    let ghost head = out@;
    assert(head =~= seq!['['] + open@);
    let mut i: usize = 0;
    assert(all.skip(0) =~= all);
    while i < items.len()
        invariant
            i <= items@.len(),
            all == text_views(items@),
            out@ + items_text(sep@, all.skip(i as int)) == head + items_text(sep@, all),
        decreases items@.len() - i,
    {
        let ghost left = all.skip(i as int);
        let ghost was = out@;
        out.append(items[i].as_str());
        assert(left[0] == items@[i as int]@);
        assert(left.drop_first() =~= all.skip(i as int + 1));
        if i + 1 < items.len() {
            out.push(',');
            out.append(sep);
            assert(out@ + items_text(sep@, left.drop_first()) =~= was + items_text(sep@, left));
        } else {
            assert(items_text(sep@, left.drop_first()) =~= Seq::empty());
            assert(out@ + items_text(sep@, left.drop_first()) =~= was + items_text(sep@, left));
        }
        i = i + 1;
    }
    assert(all.skip(i as int) =~= Seq::empty());
    assert(out@ + Seq::<char>::empty() =~= out@);
    out.append(close);
    out.push(']');
    assert(out@ =~= list_text(open@, sep@, close@, all));
    out
}

/// A truth as it is written.
pub fn truth(held: bool) -> (result: String)
    ensures
        result@ == truth_text(held),
{
    proof {
        reveal_strlit("true");
        reveal_strlit("false");
    }
    let result: String = if held { "true".to_owned() } else { "false".to_owned() };
    assert(result@ =~= truth_text(held));
    result
}

/// Each escape stands for its own character, and a letter that is none of them
/// for nothing, but for the one a code stands behind.
pub proof fn what_an_escape_stands_for(letter: char, rest: Seq<char>)
    ensures
        ({
            let read = escape_of(seq![letter] + rest);
            &&& letter == '"' ==> read == Some(('"', 1nat))
            &&& letter == '\\' ==> read == Some(('\\', 1nat))
            &&& letter == '/' ==> read == Some(('/', 1nat))
            &&& letter == 'b' ==> read == Some(('\x08', 1nat))
            &&& letter == 'f' ==> read == Some(('\x0c', 1nat))
            &&& letter == 'n' ==> read == Some(('\n', 1nat))
            &&& letter == 'r' ==> read == Some(('\r', 1nat))
            &&& letter == 't' ==> read == Some(('\t', 1nat))
            &&& letter != '"' && letter != '\\' && letter != '/' && letter != 'b' && letter != 'f'
                && letter != 'n' && letter != 'r' && letter != 't' && letter != 'u' ==> read is None
        }),
        escape_of(Seq::empty()) is None,
{
    assert((seq![letter] + rest)[0] == letter);
}

/// Every digit of base sixteen counts for what it is written for, and its letters
/// count the same in either case.
pub proof fn digits_of_sixteen_count(n: nat)
    requires
        n < 16,
    ensures
        hex_digit(hex(n)) == Some(n),
        hex_digit('A') == hex_digit('a'),
        hex_digit('B') == hex_digit('b'),
        hex_digit('C') == hex_digit('c'),
        hex_digit('D') == hex_digit('d'),
        hex_digit('E') == hex_digit('e'),
        hex_digit('F') == hex_digit('f'),
{
}

/// Four digits of base sixteen come to the number they spell.
proof fn four_come_to(first: nat, second: nat, third: nat, fourth: nat, text: Seq<char>)
    requires
        first < 16,
        second < 16,
        third < 16,
        fourth < 16,
        text.len() >= 4,
        text[0] == hex(first),
        text[1] == hex(second),
        text[2] == hex(third),
        text[3] == hex(fourth),
    ensures
        hex_four(text) == Some((4096 * first + 256 * second + 16 * third + fourth) as nat),
{
    digits_of_sixteen_count(first);
    digits_of_sixteen_count(second);
    digits_of_sixteen_count(third);
    digits_of_sixteen_count(fourth);
}

/// A code of four digits of base sixteen stands for the character of that
/// number; one set aside for pairs stands for nothing by itself.
pub proof fn a_code_stands_for_its_character(
    first: nat,
    second: nat,
    third: nat,
    fourth: nat,
    rest: Seq<char>,
)
    requires
        first < 16,
        second < 16,
        third < 16,
        fourth < 16,
    ensures
        ({
            let code = 4096 * first + 256 * second + 16 * third + fourth;
            let read = escape_of(
                seq!['u', hex(first), hex(second), hex(third), hex(fourth)] + rest,
            );
            &&& code < 0xd800 || 0xe000 <= code ==> read == Some((code as char, 5nat))
            &&& 0xdc00 <= code < 0xe000 ==> read is None
            &&& 0xd800 <= code < 0xdc00 && rest.len() == 0 ==> read is None
        }),
{
    let text = seq!['u', hex(first), hex(second), hex(third), hex(fourth)] + rest;
    let behind = text.skip(1);
    assert(behind[0] == hex(first) && behind[1] == hex(second) && behind[2] == hex(third)
        && behind[3] == hex(fourth));
    assert(text[0] == 'u');
    four_come_to(first, second, third, fourth, behind);
}

/// A text is one value and nothing behind it but blanks: blanks around it change
/// nothing, and whatever else follows it is no value at all.
pub proof fn a_text_is_one_value(text: Seq<char>, said: Json, behind: Seq<char>)
    requires
        spells(text, said),
        stops(behind),
    ensures
        parsed(text + behind) == if all_blank(behind) {
            Some(said)
        } else {
            None
        },
{
    let whole = text + behind;
    assert(whole[0] == text[0]);
    assert(unblanked(whole) == whole);
    assert(value_of(text + behind) == Some((said, behind)));
    blanks_alone_go(behind);
}

/// What is left of a text without its blanks is nothing exactly where it was
/// nothing but blanks.
proof fn blanks_alone_go(text: Seq<char>)
    ensures
        unblanked(text).len() == 0 <==> all_blank(text),
    decreases text.len(),
{
    if text.len() > 0 {
        if is_blank(text[0]) {
            let rest = text.drop_first();
            blanks_alone_go(rest);
            if all_blank(rest) {
                assert forall|i: int| 0 <= i < text.len() implies is_blank(#[trigger] text[i]) by {
                    if i > 0 {
                        assert(text[i] == rest[i - 1]);
                    }
                }
            }
            if all_blank(text) {
                assert forall|i: int| 0 <= i < rest.len() implies is_blank(#[trigger] rest[i]) by {
                    assert(rest[i] == text[i + 1]);
                }
            }
        } else {
            assert(!all_blank(text));
        }
    }
}

/// What an object says under a name is what the first member of that name says;
/// it says nothing under a name none of its members has.
pub proof fn a_field_is_the_first_of_its_name(members: Seq<(Seq<char>, Json)>, name: Seq<char>)
    ensures
        match field(Json::Object(members), name) {
            None => forall|i: int| 0 <= i < members.len() ==> (#[trigger] members[i]).0 != name,
            Some(said) => exists|i: int|
                0 <= i < members.len() && (#[trigger] members[i]).0 == name && members[i].1 == said
                    && forall|j: int| 0 <= j < i ==> (#[trigger] members[j]).0 != name,
        },
    decreases members.len(),
{
    if members.len() > 0 && members[0].0 != name {
        let rest = members.drop_first();
        a_field_is_the_first_of_its_name(rest, name);
        match field(Json::Object(rest), name) {
            None => {
                assert forall|i: int| 0 <= i < members.len() implies (#[trigger] members[i]).0
                    != name by {
                    if i > 0 {
                        assert(members[i] == rest[i - 1]);
                    }
                }
            },
            Some(said) => {
                let i = choose|i: int|
                    0 <= i < rest.len() && (#[trigger] rest[i]).0 == name && rest[i].1 == said
                        && forall|j: int| 0 <= j < i ==> (#[trigger] rest[j]).0 != name;
                assert(members[i + 1] == rest[i]);
                assert forall|j: int| 0 <= j < i + 1 implies (#[trigger] members[j]).0 != name by {
                    if j > 0 {
                        assert(members[j] == rest[j - 1]);
                    }
                }
            },
        }
    } else if members.len() > 0 {
        assert(members[0].1 == first_named(members, name)->0);
    }
}

/// A whole number is read from plain digits alone and only up to what is asked
/// for: a sign, a point or a power of ten is none, and no other value is.
pub proof fn a_whole_number_is_digits(n: nat, limit: nat, spelled: Seq<char>, truth: bool)
    ensures
        whole(Json::Number(digits(n)), limit) == if n <= limit {
            Some(n)
        } else {
            None
        },
        (exists|i: int| 0 <= i < spelled.len() && !('0' <= #[trigger] spelled[i] <= '9')) ==> whole(
            Json::Number(spelled),
            limit,
        ) is None,
        whole(Json::Text(spelled), limit) is None,
        whole(Json::Bool(truth), limit) is None,
        whole(Json::Null, limit) is None,
        said_text(Json::Text(spelled)) == Some(spelled),
        said_text(Json::Number(spelled)) is None,
        said_bool(Json::Bool(truth)) == Some(truth),
        said_bool(Json::Text(spelled)) is None,
{
    digits_spell(n);
    if exists|i: int| 0 <= i < spelled.len() && !('0' <= #[trigger] spelled[i] <= '9') {
        let i = choose|i: int| 0 <= i < spelled.len() && !('0' <= #[trigger] spelled[i] <= '9');
        assert(!is_digit(spelled[i]));
    }
}

/// A number is a sign or none, digits without a nought too many in front, a point
/// with digits behind it or none, and a power of ten with digits behind it or
/// none; it is kept as it was spelled.
pub proof fn a_number_is_kept_as_it_was_spelled(
    n: nat,
    tenths: Seq<char>,
    power: Seq<char>,
    rest: Seq<char>,
)
    requires
        all_digits(tenths),
        all_digits(power),
        stops(rest),
    ensures
        number_len(seq!['-'] + (digits(n) + rest)) == Some(1 + digits(n).len()),
        number_len(digits(n) + (seq!['.'] + (tenths + rest))) == Some(
            digits(n).len() + 1 + tenths.len(),
        ),
        number_len(digits(n) + (seq!['e'] + (power + rest))) == Some(
            digits(n).len() + 1 + power.len(),
        ),
        number_len(seq!['0'] + (power + rest)) == Some(1nat),
        number_len(seq!['.'] + (power + rest)) is None,
{
    digits_spell(n);
    let first = digits(n);
    let point = seq!['.'] + (tenths + rest);
    let letter = seq!['e'] + (power + rest);
    assert(point[0] == '.' && letter[0] == 'e');
    number_front(n, rest);
    number_front(n, point);
    number_front(n, letter);
    run_ends(tenths, rest);
    run_ends(power, rest);
    let signed = seq!['-'] + (first + rest);
    assert(signed[0] == '-');
    assert(signed.skip(1) =~= first + rest);
    assert(signed.skip(1 + first.len() as int) =~= rest);
    assert(rest.skip(0) =~= rest);
    let tail = first + point;
    assert(tail.skip(0) =~= tail);
    assert(tail[0] == first[0]);
    assert(is_digit(first[0]));
    assert(tail.skip(first.len() as int) =~= point);
    assert(point.drop_first() =~= tenths + rest);
    assert(tail.skip(first.len() as int + (1 + tenths.len() as int)) =~= rest);
    let more = first + letter;
    assert(more.skip(0) =~= more);
    assert(more[0] == first[0]);
    assert(more.skip(first.len() as int) =~= letter);
    assert(letter.skip(1) =~= power + rest);
    assert(letter[1] == power[0]);
    assert(is_digit(power[0]));
    let zero = seq!['0'] + (power + rest);
    assert(zero.skip(0) =~= zero);
    assert(zero.skip(1) =~= power + rest);
    assert((power + rest)[0] == power[0]);
    assert(zero[0] == '0');
    let bare = seq!['.'] + (power + rest);
    assert(bare.skip(0) =~= bare);
    assert(bare[0] == '.');
}

/// A whole number takes its digits where what follows is none.
proof fn number_front(n: nat, rest: Seq<char>)
    requires
        rest.len() == 0 || !is_digit(rest[0]),
    ensures
        whole_len(digits(n) + rest) == Some(digits(n).len()),
{
    digits_spell(n);
    run_ends(digits(n), rest);
    let text = digits(n) + rest;
    assert(text[0] == digits(n)[0]);
    assert(is_digit(digits(n)[0]));
}

} // verus!
