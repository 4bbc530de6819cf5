//! The strip along the top: which mode the world is in, what a step back
//! would undo, and the name the world is written under.

use vstd::prelude::*;
use vstd::string::*;
use crate::change::{Change, Pressed};
use crate::gizmo::Tool;
use crate::text::{plus, trim, trimmed};

verus! {

/// The strip's own state.
#[derive(Debug)]
pub struct Bar {
    /// What the world would be called if it were written out now.
    pub filed: String,
    /// Whether somebody has typed in that field since the last write.
    pub typed: bool,
}

impl Bar {
    /// A strip nobody has typed in.
    pub fn new() -> (result: Bar)
        ensures
            result.filed@ == Seq::<char>::empty(),
            !result.typed,
    {
        Bar { filed: String::new(), typed: false }
    }

    /// The field follows the tab on screen until somebody types in it, and
    /// then it is theirs.
    pub fn follow(&mut self, scene: &str)
        ensures
            final(self).typed == old(self).typed,
            final(self).filed@ == if old(self).typed {
                old(self).filed@
            } else {
                scene@
            },
    {
        if !self.typed {
            self.filed = scene.to_owned();
        }
    }

    /// Somebody typed in the field.
    pub fn type_in(&mut self, text: &str)
        ensures
            final(self).filed@ == text@,
            final(self).typed,
    {
        self.filed = text.to_owned();
        self.typed = true;
    }

    /// The write button: the name to write under, unless it is nothing but
    /// spaces. Once written, the field goes back to following the tab.
    pub fn write(&mut self) -> (result: Option<Change>)
        ensures
            final(self).filed@ == old(self).filed@,
            if trimmed(old(self).filed@).len() == 0 {
                result is None && final(self).typed == old(self).typed
            } else {
                result is Some && result->0.view() == Pressed::Write(trimmed(old(self).filed@))
                    && !final(self).typed
            },
    {
        let name: String = trim(self.filed.as_str());
        if name.as_str().is_empty() {
            return None;
        }
        self.typed = false;
        Some(Change::Write(name))
    }
}

impl Default for Bar {
    fn default() -> (result: Bar)
        ensures
            result.filed@ == Seq::<char>::empty(),
            !result.typed,
    {
        Bar::new()
    }
}

/// What a step button says: its word, and what the step is where there is
/// one.
pub fn step_label(word: &str, step: Option<&str>) -> (result: String)
    ensures
        result@ == match step {
            None => word@,
            Some(label) => word@ + " "@ + label@,
        },
{
    match step {
        None => word.to_owned(),
        Some(label) => plus(plus(word, " ").as_str(), label),
    }
}

/// What the mode button says, what it asks for, and what is said beside it.
pub struct Mode {
    pub button: &'static str,
    pub asks: bool,
    pub beside: &'static str,
}

/// Play or stop, and which of the two the world is in: a stop says whether
/// it keeps what the game did.
pub fn mode(editing: bool, keep: bool) -> (result: Mode)
    ensures
        result.asks == !editing,
        result.button@ == if editing {
            "play"@
        } else {
            "stop"@
        },
        result.beside@ == if editing {
            "editing"@
        } else if keep {
            "playing; stopping keeps this world"@
        } else {
            "playing; stopping puts the world back"@
        },
{
    if editing {
        Mode { button: "play", asks: false, beside: "editing" }
    } else {
        Mode {
            button: "stop",
            asks: true,
            beside: if keep {
                "playing; stopping keeps this world"
            } else {
                "playing; stopping puts the world back"
            },
        }
    }
}

/// What a tool's button says: its word, and the key that picks it.
pub fn tool_label(tool: Tool) -> (result: String)
    ensures
        result@ == tool.said() + " ("@ + tool.letter() + ")"@,
{
    let key: &str = match tool {
        Tool::Move => "w",
        Tool::Turn => "e",
        Tool::Size => "r",
    };
    let start: String = plus(tool.word(), " (");
    plus(plus(start.as_str(), key).as_str(), ")")
}

} // verus!
