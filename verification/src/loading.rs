//! The screen a project comes up behind: one line a stage.

use vstd::prelude::*;
use vstd::string::*;
use crate::text::plus;

verus! {

/// Where one stage stands.
#[derive(Clone, Copy, Debug, PartialEq, Eq, Structural)]
pub enum State {
    /// Finished.
    Done,
    /// Running now.
    Current,
    /// Still to come.
    Pending,
}

/// One stage, as the screen shows it.
#[derive(Clone, Copy, Debug)]
pub struct Step<'a> {
    /// What the stage does, as a few words.
    pub title: &'a str,
    /// Where it stands.
    pub state: State,
}

/// One line of the screen.
pub struct Line {
    pub text: String,
    /// Whether it stands out from the others.
    pub strong: bool,
}

/// What a stage's line says.
pub open spec fn line_words(title: Seq<char>, state: State) -> Seq<char> {
    match state {
        State::Done => "+  "@ + title,
        State::Current => ">  "@ + title + " ..."@,
        State::Pending => "   "@ + title,
    }
}

/// One stage as one line: a mark, and the title in the weight its state has.
pub fn line(step: &Step) -> (result: Line)
    ensures
        result.text@ == line_words(step.title@, step.state),
        result.strong == (step.state == State::Current),
{
    match step.state {
        State::Done => Line { text: plus("+  ", step.title), strong: false },
        State::Current => Line {
            text: plus(plus(">  ", step.title).as_str(), " ..."),
            strong: true,
        },
        State::Pending => Line { text: plus("   ", step.title), strong: false },
    }
}

/// A line per stage, in order.
pub fn page(steps: &[Step]) -> (result: Vec<Line>)
    ensures
        result@.len() == steps@.len(),
        forall|i: int|
            0 <= i < result@.len() ==> (#[trigger] result@[i]).text@ == line_words(
                steps@[i].title@,
                steps@[i].state,
            ) && result@[i].strong == (steps@[i].state == State::Current),
{
    let mut lines: Vec<Line> = Vec::new();
    let mut i: usize = 0;
    while i < steps.len()
        invariant
            i <= steps@.len(),
            lines@.len() == i,
            forall|k: int|
                0 <= k < i ==> (#[trigger] lines@[k]).text@ == line_words(
                    steps@[k].title@,
                    steps@[k].state,
                ) && lines@[k].strong == (steps@[k].state == State::Current),
        decreases steps@.len() - i,
    {
        lines.push(line(&steps[i]));
        i = i + 1;
    }
    lines
}

/// A line ends in what its stage does, and only the one running now says more
/// behind it; the mark in front tells the three apart.
pub proof fn a_line_says_what_its_stage_does(title: Seq<char>)
    ensures
        ({
            let done = line_words(title, State::Done);
            let now = line_words(title, State::Current);
            let later = line_words(title, State::Pending);
            &&& done == seq!['+', ' ', ' '] + title
            &&& now == seq!['>', ' ', ' '] + title + seq![' ', '.', '.', '.']
            &&& later == seq![' ', ' ', ' '] + title
        }),
{
    reveal_strlit("+  ");
    reveal_strlit(">  ");
    reveal_strlit("   ");
    reveal_strlit(" ...");
    assert("+  "@ =~= seq!['+', ' ', ' ']);
    assert(">  "@ =~= seq!['>', ' ', ' ']);
    assert("   "@ =~= seq![' ', ' ', ' ']);
    assert(" ..."@ =~= seq![' ', '.', '.', '.']);
}

} // verus!
