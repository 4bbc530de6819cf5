//! The console: which lines it shows, what the arrows and the Tab key do to
//! the line being typed, and what is remembered of what was.

use vstd::prelude::*;
use vstd::string::*;
use crate::table::texts;
use crate::text::{
    begins, contains, decimal, digits, holds, is_space, letters, lowered, part, same, starts_with,
    trim, trimmed,
};

verus! {

/// How many lines the input remembers.
pub const RECALLED: usize = 64;

/// How many names a Tab press lists before it stops naming them.
pub const NAMED: usize = 12;

/// How loud a line is.
#[derive(Clone, Copy, Debug, PartialEq, Eq, Structural)]
pub enum Level {
    Error,
    Warn,
    Info,
    Debug,
    Trace,
}

impl Level {
    /// How loud a level is, counting from the loudest.
    pub open spec fn place(self) -> u8 {
        match self {
            Level::Error => 0,
            Level::Warn => 1,
            Level::Info => 2,
            Level::Debug => 3,
            Level::Trace => 4,
        }
    }

    /// What a level is called in a button.
    pub open spec fn said(self) -> Seq<char> {
        match self {
            Level::Error => "errors"@,
            Level::Warn => "warnings"@,
            Level::Info => "info"@,
            Level::Debug => "debug"@,
            Level::Trace => "everything"@,
        }
    }
}

/// How loud a level is, counting from the loudest.
pub fn rank(level: Level) -> (result: u8)
    ensures
        result == level.place(),
{
    match level {
        Level::Error => 0,
        Level::Warn => 1,
        Level::Info => 2,
        Level::Debug => 3,
        Level::Trace => 4,
    }
}

/// What to call a level in a button.
pub fn word(level: Level) -> (result: &'static str)
    ensures
        result@ == level.said(),
{
    match level {
        Level::Error => "errors",
        Level::Warn => "warnings",
        Level::Info => "info",
        Level::Debug => "debug",
        Level::Trace => "everything",
    }
}

/// What a level is drawn in, as sRGB bytes.
pub fn color(level: Level) -> (result: [u8; 3])
    ensures
        result@ == match level {
            Level::Error => seq![240u8, 105, 105],
            Level::Warn => seq![240u8, 190, 100],
            Level::Info => seq![210u8, 210, 215],
            Level::Debug => seq![140u8, 165, 200],
            Level::Trace => seq![130u8, 130, 135],
        },
{
    let color: [u8; 3] = match level {
        Level::Error => [240, 105, 105],
        Level::Warn => [240, 190, 100],
        Level::Info => [210, 210, 215],
        Level::Debug => [140, 165, 200],
        Level::Trace => [130, 130, 135],
    };
    assert(color@ =~= match level {
        Level::Error => seq![240u8, 105, 105],
        Level::Warn => seq![240u8, 190, 100],
        Level::Info => seq![210u8, 210, 215],
        Level::Debug => seq![140u8, 165, 200],
        Level::Trace => seq![130u8, 130, 135],
    });
    color
}

/// One line that was logged.
#[derive(Debug)]
pub struct Line {
    pub level: Level,
    pub target: String,
    pub message: String,
}

/// Whether a line passes the filters: loud enough, and from a target with
/// the word in it whatever its case.
pub open spec fn passes(line: Line, level: Level, target: Seq<char>) -> bool {
    &&& line.level.place() <= level.place()
    &&& {
        ||| lowered(trimmed(target)).len() == 0
        ||| holds(lowered(line.target@), lowered(trimmed(target)))
    }
}

/// Whether a line passes the filters as they stand.
pub fn shown(line: &Line, level: Level, target: &str) -> (result: bool)
    ensures
        result == passes(*line, level, target@),
{
    if rank(line.level) > rank(level) {
        return false;
    }
    let word: String = trim(target).as_str().to_lowercase();
    word.as_str().is_empty() || contains(line.target.as_str().to_lowercase().as_str(), word.as_str())
}

/// How many characters two names share from the start.
pub open spec fn agreed(left: Seq<char>, right: Seq<char>) -> nat
    decreases left.len(),
{
    if left.len() == 0 || right.len() == 0 || left[0] != right[0] {
        0
    } else {
        1 + agreed(left.drop_first(), right.drop_first())
    }
}

/// How many characters two names share from the start.
pub fn shared(left: &str, right: &str) -> (result: usize)
    ensures
        result == agreed(left@, right@),
{
    let a: Vec<char> = letters(left);
    let b: Vec<char> = letters(right);
    let mut i: usize = 0;
    assert(a@.skip(0) =~= a@);
    assert(b@.skip(0) =~= b@);
    while i < a.len() && i < b.len() && a[i] == b[i]
        invariant
            i <= a@.len(),
            i <= b@.len(),
            a@ == left@,
            b@ == right@,
            agreed(left@, right@) == i + agreed(a@.skip(i as int), b@.skip(i as int)),
        decreases a@.len() - i,
    {
        assert(a@.skip(i as int)[0] == a@[i as int] && b@.skip(i as int)[0] == b@[i as int]);
        assert(a@.skip(i as int).drop_first() =~= a@.skip(i as int + 1));
        assert(b@.skip(i as int).drop_first() =~= b@.skip(i as int + 1));
        i = i + 1;
    }
    proof {
        if i < a@.len() && i < b@.len() {
            assert(a@.skip(i as int)[0] == a@[i as int] && b@.skip(i as int)[0] == b@[i as int]);
        }
    }
    i
}

/// Two names agree as far as they are said to, and no further.
pub proof fn agreed_is_longest(left: Seq<char>, right: Seq<char>)
    ensures
        agreed(left, right) <= left.len(),
        agreed(left, right) <= right.len(),
        left.take(agreed(left, right) as int) == right.take(agreed(left, right) as int),
        forall|count: int|
            agreed(left, right) < count <= left.len() && count <= right.len() ==> left.take(count)
                != #[trigger] right.take(count),
    decreases left.len(),
{
    let count = agreed(left, right);
    if left.len() > 0 && right.len() > 0 && left[0] == right[0] {
        let a = left.drop_first();
        let b = right.drop_first();
        agreed_is_longest(a, b);
        assert(left.take(count as int) =~= right.take(count as int)) by {
            assert forall|i: int| 0 <= i < count implies left[i] == right[i] by {
                if i > 0 {
                    assert(a.take(count - 1)[i - 1] == b.take(count - 1)[i - 1]);
                }
            }
        }
        assert forall|more: int|
            count < more <= left.len() && more <= right.len() implies left.take(more)
            != #[trigger] right.take(more) by {
            if left.take(more) == right.take(more) {
                assert(a.take(more - 1) =~= left.take(more).drop_first());
                assert(b.take(more - 1) =~= right.take(more).drop_first());
            }
        }
    } else {
        assert(left.take(0) =~= right.take(0));
        assert forall|more: int|
            count < more <= left.len() && more <= right.len() implies left.take(more)
            != #[trigger] right.take(more) by {
            assert(left.take(more)[0] == left[0]);
            assert(right.take(more)[0] == right[0]);
        }
    }
}

/// How far the first of several names agrees with all the others.
pub open spec fn agreed_all(names: Seq<Seq<char>>, count: nat) -> nat
    decreases count,
{
    if count <= 1 {
        names[0].len()
    } else {
        let so_far = agreed_all(names, (count - 1) as nat);
        let next = agreed(names[0], names[count - 1]);
        if next < so_far {
            next
        } else {
            so_far
        }
    }
}

/// The longest text every one of several names begins with.
pub open spec fn common_to(names: Seq<Seq<char>>) -> Seq<char> {
    if names.len() == 0 {
        Seq::empty()
    } else {
        names[0].take(agreed_all(names, names.len()) as int)
    }
}

/// The longest text every one of them begins with.
pub fn common(names: &Vec<String>) -> (result: String)
    ensures
        result@ == common_to(texts(names@)),
{
    if names.len() == 0 {
        let none: String = String::new();
        return none;
    }
    let ghost all = texts(names@);
    let first: Vec<char> = letters(names[0].as_str());
    let mut end: usize = first.len();
    let mut i: usize = 1;
    while i < names.len()
        invariant
            1 <= i <= names@.len(),
            all == texts(names@),
            first@ == all[0],
            end <= first@.len(),
            end == agreed_all(all, i as nat),
        decreases names@.len() - i,
    {
        let next: usize = shared(names[0].as_str(), names[i].as_str());
        if next < end {
            end = next;
        }
        i = i + 1;
    }
    let result: String = part(&first, 0, end);
    assert(result@ =~= all[0].take(end as int));
    result
}

/// A name agrees with itself all the way.
proof fn agreed_with_itself(name: Seq<char>)
    ensures
        agreed(name, name) == name.len(),
    decreases name.len(),
{
    if name.len() > 0 {
        agreed_with_itself(name.drop_first());
    }
}

/// What names agree on is as long as the shortest agreement.
proof fn agreed_all_is_least(names: Seq<Seq<char>>, count: nat)
    requires
        1 <= count <= names.len(),
    ensures
        agreed_all(names, count) <= names[0].len(),
        forall|i: int|
            0 <= i < count ==> agreed_all(names, count) <= agreed(names[0], #[trigger] names[i]),
        exists|i: int|
            0 <= i < count && agreed_all(names, count) == agreed(names[0], #[trigger] names[i]),
    decreases count,
{
    agreed_with_itself(names[0]);
    if count > 1 {
        agreed_all_is_least(names, (count - 1) as nat);
        let w = choose|i: int|
            0 <= i < count - 1 && agreed_all(names, (count - 1) as nat) == agreed(
                names[0],
                #[trigger] names[i],
            );
        assert(agreed_all(names, count) == agreed(names[0], names[w]) || agreed_all(names, count)
            == agreed(names[0], names[count - 1]));
    } else {
        assert(agreed_all(names, count) == agreed(names[0], names[0]));
    }
}

/// Every name begins with what they have in common, and nothing longer is
/// common to them.
pub proof fn common_is_longest(names: Seq<Seq<char>>, longer: Seq<char>)
    requires
        names.len() > 0,
    ensures
        forall|i: int| 0 <= i < names.len() ==> begins(#[trigger] names[i], common_to(names)),
        longer.len() > common_to(names).len() ==> exists|i: int|
            0 <= i < names.len() && !begins(#[trigger] names[i], longer),
{
    let end = agreed_all(names, names.len());
    agreed_all_is_least(names, names.len());
    assert forall|i: int| 0 <= i < names.len() implies begins(
        #[trigger] names[i],
        common_to(names),
    ) by {
        agreed_is_longest(names[0], names[i]);
        let all = agreed(names[0], names[i]) as int;
        assert(names[0].take(end as int) =~= names[0].take(all).take(end as int));
        assert(names[i].take(end as int) =~= names[i].take(all).take(end as int));
        assert(names[i].take(end as int) == common_to(names));
    }
    if longer.len() > common_to(names).len() && (forall|i: int|
        0 <= i < names.len() ==> begins(#[trigger] names[i], longer)) {
        let w = choose|i: int|
            0 <= i < names.len() && end == agreed(names[0], #[trigger] names[i]);
        agreed_is_longest(names[0], names[w]);
        assert(begins(names[0], longer));
        assert(begins(names[w], longer));
        assert(names[0].take(longer.len() as int) == names[w].take(longer.len() as int));
    }
}

/// Every name that begins with what has been typed; nothing typed completes
/// to nothing.
pub open spec fn completed(names: Seq<Seq<char>>, typed: Seq<char>) -> Seq<Seq<char>> {
    if typed.len() == 0 {
        Seq::empty()
    } else {
        names.filter(|name: Seq<char>| begins(name, typed))
    }
}

/// Every name in the table that begins with what has been typed.
pub fn completions(names: &Vec<String>, typed: &str) -> (result: Vec<String>)
    ensures
        texts(result@) == completed(texts(names@), typed@),
{
    let mut found: Vec<String> = Vec::new();
    assert(texts(found@) =~= Seq::empty());
    if typed.is_empty() {
        return found;
    }
    let ghost all = texts(names@);
    let ghost wanted = |name: Seq<char>| begins(name, typed@);
    let mut i: usize = 0;
    proof {
        reveal(Seq::filter);
        assert(all.take(0).filter(wanted) =~= Seq::empty());
    }
    while i < names.len()
        invariant
            i <= names@.len(),
            all == texts(names@),
            wanted == (|name: Seq<char>| begins(name, typed@)),
            texts(found@) == all.take(i as int).filter(wanted),
        decreases names@.len() - i,
    {
        let ghost was = texts(found@);
        proof {
            reveal(Seq::filter);
            assert(all.take(i as int + 1).drop_last() =~= all.take(i as int));
            assert(all.take(i as int + 1).last() == all[i as int]);
        }
        if starts_with(names[i].as_str(), typed) {
            found.push(names[i].clone());
            assert(texts(found@) =~= was.push(all[i as int]));
        }
        i = i + 1;
    }
    assert(all.take(i as int) =~= all);
    found
}

/// The console window's own state.
#[derive(Debug)]
pub struct Console {
    /// A copy of the log, refreshed only when there is something new in it.
    pub lines: Vec<Line>,
    /// How many lines had been logged when that copy was taken.
    pub logged: u64,
    /// What is being typed.
    pub input: String,
    /// What has been typed before, oldest first.
    pub history: Vec<String>,
    /// How far back through it the up arrow has walked.
    pub recalled: Option<usize>,
    /// The quietest level shown: a floor and not a choice of one level.
    pub level: Level,
    /// What a line's target has to contain to be shown, case ignored.
    pub target: String,
    /// The names the last Tab press could not choose between.
    pub suggested: Vec<String>,
}

/// The part of a console that typing changes.
pub ghost struct Prompt {
    pub input: Seq<char>,
    pub history: Seq<Seq<char>>,
    pub recalled: Option<usize>,
    pub suggested: Seq<Seq<char>>,
}

/// Whether a prompt is as prompts are: no more lines remembered than may be,
/// none twice in a row, and the one recalled among them.
pub open spec fn sound(prompt: Prompt) -> bool {
    &&& prompt.history.len() <= RECALLED
    &&& prompt.recalled is Some ==> prompt.recalled->0 < prompt.history.len()
    &&& forall|i: int|
        0 <= i < prompt.history.len() - 1 ==> #[trigger] prompt.history[i] != prompt.history[i + 1]
}

/// A prompt with a line kept for the up arrow.
pub open spec fn remembered(prompt: Prompt, line: Seq<char>) -> Prompt {
    let history = prompt.history;
    Prompt {
        recalled: None,
        history: if history.len() > 0 && history.last() == line {
            history
        } else if history.len() >= RECALLED {
            history.drop_first().push(line)
        } else {
            history.push(line)
        },
        ..prompt
    }
}

/// A prompt one line further back.
pub open spec fn walked_back(prompt: Prompt) -> Prompt {
    if prompt.history.len() == 0 {
        prompt
    } else {
        let next: usize = match prompt.recalled {
            Some(index) => if index == 0 {
                0
            } else {
                (index - 1) as usize
            },
            None => (prompt.history.len() - 1) as usize,
        };
        Prompt { recalled: Some(next), input: prompt.history[next as int], ..prompt }
    }
}

/// A prompt one line further forward, and past the last with nothing typed.
pub open spec fn walked_forward(prompt: Prompt) -> Prompt {
    match prompt.recalled {
        None => prompt,
        Some(index) => if index + 1 < prompt.history.len() {
            Prompt {
                recalled: Some((index + 1) as usize),
                input: prompt.history[index + 1],
                ..prompt
            }
        } else {
            Prompt { recalled: None, input: Seq::empty(), ..prompt }
        },
    }
}

/// Whether a text has a space in it.
pub open spec fn spaced(text: Seq<char>) -> bool {
    exists|i: int| 0 <= i < text.len() && is_space(#[trigger] text[i])
}

/// A prompt with the name being typed finished as far as the table can: one
/// match written out with a space behind it, several as far as they agree,
/// and none left alone. A line past its name is left alone too.
pub open spec fn finished(prompt: Prompt, names: Seq<Seq<char>>) -> Prompt {
    let found = completed(names, prompt.input);
    if spaced(prompt.input) {
        prompt
    } else if found.len() == 0 {
        Prompt { suggested: Seq::empty(), ..prompt }
    } else if found.len() == 1 {
        Prompt { input: found[0].push(' '), suggested: Seq::empty(), ..prompt }
    } else {
        Prompt { input: common_to(found), suggested: found, ..prompt }
    }
}

/// A prompt with its line entered.
pub open spec fn entered(prompt: Prompt) -> Prompt {
    let cleared = Prompt { input: Seq::empty(), suggested: Seq::empty(), ..prompt };
    if trimmed(prompt.input).len() == 0 {
        cleared
    } else {
        remembered(cleared, prompt.input)
    }
}

/// Names, with so much between each two.
pub open spec fn joined_names(names: Seq<Seq<char>>, count: nat) -> Seq<char>
    decreases count,
{
    if count == 0 {
        Seq::empty()
    } else if count == 1 {
        names[0]
    } else {
        joined_names(names, (count - 1) as nat) + "  "@ + names[count - 1]
    }
}

/// The line that names what a Tab press could not choose between.
pub open spec fn suggestion_words(names: Seq<Seq<char>>) -> Seq<char> {
    if names.len() <= NAMED {
        joined_names(names, names.len())
    } else {
        joined_names(names, NAMED as nat) + "  and "@ + digits((names.len() - NAMED) as nat)
            + " more"@
    }
}

/// Whether a text has a space in it.
fn has_space(text: &str) -> (result: bool)
    ensures
        result == spaced(text@),
{
    let all: Vec<char> = letters(text);
    let mut i: usize = 0;
    while i < all.len()
        invariant
            i <= all@.len(),
            all@ == text@,
            forall|k: int| 0 <= k < i ==> !is_space(#[trigger] text@[k]),
        decreases all@.len() - i,
    {
        if all[i].is_whitespace() {
            assert(is_space(text@[i as int]));
            return true;
        }
        i = i + 1;
    }
    false
}

impl Console {
    /// The part of the console that typing changes.
    pub open spec fn prompt(&self) -> Prompt {
        Prompt {
            input: self.input@,
            history: texts(self.history@),
            recalled: self.recalled,
            suggested: texts(self.suggested@),
        }
    }

    /// Whether the console is as consoles are.
    pub open spec fn wf(&self) -> bool {
        sound(self.prompt())
    }

    /// A console that shows everything and remembers nothing.
    pub fn new() -> (result: Console)
        ensures
            result.wf(),
            result.prompt() == (Prompt {
                input: Seq::empty(),
                history: Seq::empty(),
                recalled: None,
                suggested: Seq::empty(),
            }),
            result.lines@.len() == 0,
            result.logged == 0,
            result.level == Level::Trace,
            result.target@ == Seq::<char>::empty(),
    {
        let result: Console = Console {
            lines: Vec::new(),
            logged: 0,
            input: String::new(),
            history: Vec::new(),
            recalled: None,
            level: Level::Trace,
            target: String::new(),
            suggested: Vec::new(),
        };
        assert(texts(result.history@) =~= Seq::empty());
        assert(texts(result.suggested@) =~= Seq::empty());
        result
    }

    /// How many of the lines in hand the filters are keeping back.
    pub fn hidden(&self) -> (result: usize)
        ensures
            result == self.lines@.filter(
                |line: Line| !passes(line, self.level, self.target@),
            ).len(),
    {
        let ghost all = self.lines@;
        let ghost kept = |line: Line| !passes(line, self.level, self.target@);
        let mut count: usize = 0;
        let mut i: usize = 0;
        proof {
            reveal(Seq::filter);
            assert(all.take(0).filter(kept) =~= Seq::empty());
        }
        while i < self.lines.len()
            invariant
                count <= i <= self.lines@.len(),
                all == self.lines@,
                kept == (|line: Line| !passes(line, self.level, self.target@)),
                count == all.take(i as int).filter(kept).len(),
            decreases self.lines@.len() - i,
        {
            proof {
                reveal(Seq::filter);
                assert(all.take(i as int + 1).drop_last() =~= all.take(i as int));
                assert(all.take(i as int + 1).last() == all[i as int]);
            }
            if !shown(&self.lines[i], self.level, self.target.as_str()) {
                count = count + 1;
            }
            i = i + 1;
        }
        assert(all.take(i as int) =~= all);
        count
    }

    /// The line that names what the last Tab press found, when it found more
    /// than one; nothing when it did not.
    pub fn suggestions(&self) -> (result: Option<String>)
        ensures
            result is Some == (self.prompt().suggested.len() > 0),
            result is Some ==> result->0@ == suggestion_words(self.prompt().suggested),
    {
        let count: usize = self.suggested.len();
        if count == 0 {
            return None;
        }
        let ghost names = texts(self.suggested@);
        let listed: usize = if count < NAMED { count } else { NAMED };
        let mut text: String = self.suggested[0].clone();
        let mut i: usize = 1;
        while i < listed
            invariant
                1 <= i <= listed <= self.suggested@.len(),
                names == texts(self.suggested@),
                text@ == joined_names(names, i as nat),
            decreases listed - i,
        {
            text.append("  ");
            text.append(self.suggested[i].as_str());
            i = i + 1;
        }
        if count > listed {
            text.append("  and ");
            text.append(decimal((count - listed) as u64).as_str());
            text.append(" more");
        }
        Some(text)
    }

    /// Keeps a line for the up arrow, without keeping it twice in a row.
    pub fn remember(&mut self, line: String)
        requires
            old(self).wf(),
        ensures
            final(self).wf(),
            final(self).prompt() == remembered(old(self).prompt(), line@),
            final(self).lines == old(self).lines,
            final(self).logged == old(self).logged,
            final(self).level == old(self).level,
            final(self).target == old(self).target,
    {
        let ghost was = self.prompt();
        proof {
            remembering_keeps_sound(was, line@);
        }
        self.recalled = None;
        if self.history.len() > 0 && same(
            self.history[self.history.len() - 1].as_str(),
            line.as_str(),
        ) {
            assert(was.history.last() == line@);
            return;
        }
        proof {
            if was.history.len() > 0 {
                assert(was.history.last() == self.history@[self.history@.len() - 1]@);
            }
        }
        if self.history.len() >= RECALLED {
            self.history.remove(0);
            assert(texts(self.history@) =~= was.history.drop_first());
        }
        let ghost mid = texts(self.history@);
        let ghost said = line@;
        self.history.push(line);
        assert(texts(self.history@) =~= mid.push(said));
    }

    /// Walks back and forward through what has been typed.
    pub fn recall(&mut self, back: bool, forward: bool)
        requires
            old(self).wf(),
        ensures
            final(self).wf(),
            final(self).prompt() == if back {
                walked_back(old(self).prompt())
            } else if forward {
                walked_forward(old(self).prompt())
            } else {
                old(self).prompt()
            },
            final(self).lines == old(self).lines,
            final(self).logged == old(self).logged,
            final(self).level == old(self).level,
            final(self).target == old(self).target,
    {
        if back {
            if self.history.len() == 0 {
                return;
            }
            let next: usize = match self.recalled {
                Some(index) => if index == 0 {
                    0
                } else {
                    index - 1
                },
                None => self.history.len() - 1,
            };
            self.recalled = Some(next);
            self.input = self.history[next].clone();
        } else if forward {
            match self.recalled {
                None => {},
                Some(index) => {
                    if index + 1 < self.history.len() {
                        self.recalled = Some(index + 1);
                        self.input = self.history[index + 1].clone();
                    } else {
                        self.recalled = None;
                        self.input = String::new();
                    }
                },
            }
        }
    }

    /// Finishes the name being typed, as far as the table of names can.
    pub fn complete(&mut self, names: &Vec<String>)
        requires
            old(self).wf(),
        ensures
            final(self).wf(),
            final(self).prompt() == finished(old(self).prompt(), texts(names@)),
            final(self).lines == old(self).lines,
            final(self).logged == old(self).logged,
            final(self).level == old(self).level,
            final(self).target == old(self).target,
    {
        if has_space(self.input.as_str()) {
            return;
        }
        let found: Vec<String> = completions(names, self.input.as_str());
        if found.len() == 0 {
            self.suggested = Vec::new();
            assert(texts(self.suggested@) =~= Seq::empty());
        } else if found.len() == 1 {
            let mut whole: String = found[0].clone();
            whole.push(' ');
            self.input = whole;
            self.suggested = Vec::new();
            assert(texts(self.suggested@) =~= Seq::empty());
        } else {
            self.input = common(&found);
            self.suggested = found;
        }
    }

    /// Enters the line being typed. The line to run, unless it was nothing
    /// but spaces.
    pub fn enter(&mut self) -> (result: Option<String>)
        requires
            old(self).wf(),
        ensures
            final(self).wf(),
            final(self).prompt() == entered(old(self).prompt()),
            result is Some == (trimmed(old(self).prompt().input).len() > 0),
            result is Some ==> result->0@ == old(self).prompt().input,
            final(self).lines == old(self).lines,
            final(self).logged == old(self).logged,
            final(self).level == old(self).level,
            final(self).target == old(self).target,
    {
        let line: String = self.input.clone();
        self.input = String::new();
        self.suggested = Vec::new();
        assert(texts(self.suggested@) =~= Seq::empty());
        if trim(line.as_str()).as_str().is_empty() {
            return None;
        }
        self.remember(line.clone());
        Some(line)
    }

    /// Takes a fresh copy of the log, if anything has been logged since the
    /// last one.
    pub fn refresh(&mut self, logged: u64, lines: Vec<Line>)
        requires
            old(self).wf(),
        ensures
            final(self).wf(),
            final(self).prompt() == old(self).prompt(),
            final(self).logged == logged,
            final(self).lines == if logged == old(self).logged {
                old(self).lines
            } else {
                lines
            },
            final(self).level == old(self).level,
            final(self).target == old(self).target,
    {
        if logged == self.logged {
            return;
        }
        self.logged = logged;
        self.lines = lines;
    }
}

impl Default for Console {
    fn default() -> (result: Console)
        ensures
            result.wf(),
            result.prompt() == (Prompt {
                input: Seq::empty(),
                history: Seq::empty(),
                recalled: None,
                suggested: Seq::empty(),
            }),
            result.lines@.len() == 0,
            result.logged == 0,
            result.level == Level::Trace,
            result.target@ == Seq::<char>::empty(),
    {
        Console::new()
    }
}

/// Remembering a line keeps no more than may be kept, and none twice in a
/// row; the line is the last one remembered.
pub proof fn remembering_keeps_sound(prompt: Prompt, line: Seq<char>)
    requires
        sound(prompt),
    ensures
        sound(remembered(prompt, line)),
        remembered(prompt, line).history.len() > 0,
        remembered(prompt, line).history.last() == line,
        remembered(remembered(prompt, line), line) == remembered(prompt, line),
{
    let after = remembered(prompt, line).history;
    let history = prompt.history;
    assert forall|i: int| 0 <= i < after.len() - 1 implies #[trigger] after[i] != after[i + 1] by {
        if history.len() > 0 && history.last() == line {
        } else if history.len() >= RECALLED {
            assert(after[i] == history[i + 1]);
            if i + 2 < history.len() {
                assert(after[i + 1] == history[i + 2]);
                assert(history[i + 1] != history[i + 1 + 1]);
            } else {
                assert(after[i] == history.last());
            }
        } else {
            assert(after[i] == history[i]);
            if i + 1 < history.len() {
                assert(after[i + 1] == history[i + 1]);
                assert(history[i] != history[i + 1]);
            } else {
                assert(after[i] == history.last());
            }
        }
    }
}

/// Walking back and then forward again returns to the line walked back from,
/// and walking back from nothing recalled gives the last line remembered.
pub proof fn walking_there_and_back(prompt: Prompt)
    requires
        sound(prompt),
        prompt.history.len() > 0,
    ensures
        prompt.recalled is None ==> walked_back(prompt).input == prompt.history.last(),
        prompt.recalled is Some && prompt.recalled->0 > 0 && prompt.input
            == prompt.history[prompt.recalled->0 as int] ==> walked_forward(walked_back(prompt))
            == prompt,
        sound(walked_back(prompt)),
        sound(walked_forward(prompt)),
{
}

/// A level shows everything a louder one does.
pub proof fn a_level_is_a_floor(line: Line, level: Level, quieter: Level, target: Seq<char>)
    requires
        level.place() <= quieter.place(),
        passes(line, level, target),
    ensures
        passes(line, quieter, target),
{
}

/// Finishing a name only adds to what was typed.
pub proof fn finishing_only_adds(prompt: Prompt, names: Seq<Seq<char>>)
    ensures
        begins(finished(prompt, names).input, prompt.input),
{
    let typed = prompt.input;
    let found = completed(names, typed);
    let wanted = |name: Seq<char>| begins(name, typed);
    assert(typed.take(typed.len() as int) =~= typed);
    if !spaced(typed) && found.len() > 0 {
        names.filter_lemma(wanted);
        assert forall|i: int| 0 <= i < found.len() implies begins(#[trigger] found[i], typed) by {
            assert(wanted(found[i]));
        }
        common_is_longest(found, typed);
        if found.len() == 1 {
            assert(found[0].push(' ').take(typed.len() as int) =~= typed);
        }
    }
}

/// Each level shows itself and everything louder: errors alone, then warnings
/// too, then what is only told, then what is for finding faults, then everything.
pub proof fn levels_are_told_apart(line: Line, target: Seq<char>)
    requires
        lowered(trimmed(target)).len() == 0,
    ensures
        passes(line, Level::Error, target) <==> line.level == Level::Error,
        passes(line, Level::Warn, target) <==> line.level == Level::Error || line.level
            == Level::Warn,
        passes(line, Level::Info, target) <==> line.level != Level::Debug && line.level
            != Level::Trace,
        passes(line, Level::Debug, target) <==> line.level != Level::Trace,
        passes(line, Level::Trace, target),
{
}

/// A line is shown by any part of what it comes from, whatever the case, and by
/// no word that is not a part of it.
pub proof fn a_line_is_found_by_where_it_comes_from(
    line: Line,
    target: Seq<char>,
    before: Seq<char>,
    after: Seq<char>,
)
    ensures
        ({
            let word = lowered(trimmed(target));
            &&& lowered(line.target@) == before + word + after ==> passes(line, Level::Trace, target)
            &&& word.len() > 0 && !holds(lowered(line.target@), word) ==> !passes(
                line,
                Level::Trace,
                target,
            )
        }),
{
    crate::text::what_was_put_in_is_held(before, lowered(trimmed(target)), after);
}

/// What has been typed completes to every name that begins with it and to no
/// other; where that is one name it is written out with a space behind it, where
/// it is several what they all begin with is written and they are named, and
/// where it is none what was typed stays.
pub proof fn what_tab_does(prompt: Prompt, names: Seq<Seq<char>>, name: Seq<char>)
    ensures
        ({
            let typed = prompt.input;
            let found = completed(names, typed);
            let then = finished(prompt, names);
            &&& found.contains(name) <==> typed.len() > 0 && names.contains(name) && begins(
                name,
                typed,
            )
            &&& then.history == prompt.history && then.recalled == prompt.recalled
            &&& spaced(typed) ==> then == prompt
            &&& !spaced(typed) && found.len() == 0 ==> then.input == typed && then.suggested.len()
                == 0
            &&& !spaced(typed) && found == seq![name] ==> then.input == name + seq![' ']
                && then.suggested.len() == 0
            &&& !spaced(typed) && found.len() > 1 ==> then.suggested == found && forall|i: int|
                0 <= i < found.len() ==> begins(#[trigger] found[i], then.input)
        }),
{
    let typed = prompt.input;
    let found = completed(names, typed);
    let wanted = |name: Seq<char>| begins(name, typed);
    names.filter_lemma(wanted);
    filtered_from(names, wanted);
    if names.contains(name) && begins(name, typed) {
        let i = choose|i: int| 0 <= i < names.len() && names[i] == name;
        assert(wanted(names[i]));
    }
    if found.contains(name) && typed.len() > 0 {
        let i = choose|i: int| 0 <= i < found.len() && found[i] == name;
        assert(wanted(found[i]));
    }
    assert(wanted(name) == begins(name, typed));
    if found == seq![name] {
        assert(name.push(' ') =~= name + seq![' ']);
    }
    if found.len() > 1 {
        common_is_longest(found, Seq::empty());
    }
}

/// Entering a line empties it and remembers it, as it was typed; a line of
/// nothing but spaces is not remembered.
pub proof fn what_entering_does(prompt: Prompt)
    requires
        sound(prompt),
    ensures
        ({
            let then = entered(prompt);
            &&& then.input.len() == 0
            &&& then.suggested.len() == 0
            &&& trimmed(prompt.input).len() > 0 ==> then.recalled is None && then.history.len() > 0
                && then.history.last() == prompt.input
            &&& trimmed(prompt.input).len() == 0 ==> then.history == prompt.history
                && then.recalled == prompt.recalled
            &&& prompt.history.len() < 64 ==> prompt.history.is_prefix_of(then.history)
            &&& then.history.len() <= 64
        }),
{
    let then = entered(prompt);
    assert(prompt.history.is_prefix_of(prompt.history));
    if trimmed(prompt.input).len() > 0 {
        let cleared = Prompt { input: Seq::empty(), suggested: Seq::empty(), ..prompt };
        assert(sound(cleared)) by {
            assert forall|i: int| 0 <= i < cleared.history.len() - 1 implies #[trigger]
                cleared.history[i] != cleared.history[i + 1] by {
                assert(prompt.history[i] != prompt.history[i + 1]);
            }
        }
        remembering_keeps_sound(cleared, prompt.input);
    }
}

/// The up arrow goes one line back each time and stays on the oldest; the down
/// arrow goes one line forward, and past the newest to an empty line. Neither
/// changes what is remembered.
pub proof fn what_the_arrows_do(prompt: Prompt, at: usize)
    requires
        sound(prompt),
        at < prompt.history.len(),
    ensures
        ({
            let there = Prompt { recalled: Some(at), ..prompt };
            let fresh = Prompt { recalled: None, ..prompt };
            let last = prompt.history.len() - 1;
            &&& at > 0 ==> walked_back(there).input == prompt.history[at - 1]
            &&& at == 0 ==> walked_back(there).input == prompt.history[0]
            &&& at < last ==> walked_forward(there).input == prompt.history[at + 1]
            &&& at == last ==> walked_forward(there).input.len() == 0 && walked_forward(
                there,
            ).recalled is None
            &&& walked_back(fresh).input == prompt.history[last]
            &&& walked_forward(fresh) == fresh
            &&& walked_back(there).history == prompt.history
            &&& walked_forward(there).history == prompt.history
        }),
{
}

/// What is kept of several names is among them.
proof fn filtered_from(names: Seq<Seq<char>>, wanted: spec_fn(Seq<char>) -> bool)
    ensures
        forall|name: Seq<char>| #[trigger]
            names.filter(wanted).contains(name) ==> names.contains(name),
    decreases names.len(),
{
    reveal(Seq::filter);
    if names.len() > 0 {
        let less = names.drop_last();
        filtered_from(less, wanted);
        assert forall|name: Seq<char>| #[trigger]
            names.filter(wanted).contains(name) implies names.contains(name) by {
            let kept = names.filter(wanted);
            let k = choose|k: int| 0 <= k < kept.len() && kept[k] == name;
            assert(names[names.len() - 1] == names.last());
            if k < less.filter(wanted).len() {
                assert(less.filter(wanted)[k] == name);
                assert(less.filter(wanted).contains(name));
                let i = choose|i: int| 0 <= i < less.len() && less[i] == name;
                assert(names[i] == name);
            }
        }
    }
}

/// Each level is called what it lets through, and is quieter than the one before.
pub proof fn levels_are_called_what_they_show(one: Level)
    ensures
        one == Level::Error ==> one.said() == "errors"@,
        one == Level::Warn ==> one.said() == "warnings"@,
        one == Level::Info ==> one.said() == "info"@,
        one == Level::Debug ==> one.said() == "debug"@,
        one == Level::Trace ==> one.said() == "everything"@,
        Level::Error.place() < Level::Warn.place(),
        Level::Warn.place() < Level::Info.place(),
        Level::Info.place() < Level::Debug.place(),
        Level::Debug.place() < Level::Trace.place(),
{
}

/// What Tab could not choose between is named in order with two spaces between
/// each two, up to twelve names; of more, how many more there are is said.
pub proof fn what_is_suggested(names: Seq<Seq<char>>, name: Seq<char>, other: Seq<char>)
    ensures
        suggestion_words(seq![name]) == name,
        suggestion_words(seq![name, other]) == name + seq![' ', ' '] + other,
        names.len() < 12 && names.len() > 0 ==> suggestion_words(names.push(name))
            == suggestion_words(names) + seq![' ', ' '] + name,
        names.len() > 12 ==> suggestion_words(names) == suggestion_words(names.take(12)) + (
        "  and "@ + digits((names.len() - 12) as nat) + " more"@),
{
    reveal_strlit("  ");
    assert("  "@ =~= seq![' ', ' ']);
    reveal_with_fuel(joined_names, 3);
    let pair = seq![name, other];
    assert(pair[0] == name && pair[1] == other);
    if 0 < names.len() < 12 {
        let more = names.push(name);
        assert(more[more.len() - 1] == name);
        joined_alike(more, names, names.len());
    }
    if names.len() > 12 {
        joined_alike(names, names.take(12), 12);
        let head = joined_names(names, 12);
        let rest = digits((names.len() - 12) as nat);
        assert(head + "  and "@ + rest + " more"@ =~= head + ("  and "@ + rest + " more"@));
    }
}

/// Names joined are those of the names that were joined.
proof fn joined_alike(left: Seq<Seq<char>>, right: Seq<Seq<char>>, count: nat)
    requires
        count <= left.len(),
        count <= right.len(),
        forall|i: int| 0 <= i < count ==> #[trigger] left[i] == right[i],
    ensures
        joined_names(left, count) == joined_names(right, count),
    decreases count,
{
    if count > 1 {
        joined_alike(left, right, (count - 1) as nat);
        assert(left[count - 1] == right[count - 1]);
    } else if count == 1 {
        assert(left[0] == right[0]);
    }
}

} // verus!
