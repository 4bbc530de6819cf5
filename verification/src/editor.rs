//! The editor as the window holds it: its console variables, the mode it is
//! in, and what it remembers between runs.

use vstd::prelude::*;
use vstd::string::*;
use crate::change::Change;
use crate::panels::{
    on_edit, request_view, row_names, started, was_on_screen, Held, Panels, Request, UNNAMED,
};
use crate::session::{Kept, Session};
use crate::tabs::fresh_past;
use crate::world::{Scene, World};

verus! {

/// The variable that decides whether the editor is on screen.
pub const SHOW: &'static str = "editor.show";

/// How far apart the grid's lines are, in world units; nought turns snapping
/// off.
pub const GRID: &'static str = "editor.grid";

/// The variable that decides whether the things with nothing to look at are
/// drawn and can be clicked.
pub const HELPERS: &'static str = "editor.helpers";

/// What the grid is set to when nobody has said otherwise: the bits of a
/// half.
pub const GRID_STEP: u32 = 0x3f00_0000;

/// What a console variable starts as.
#[derive(Clone, Copy, Debug, PartialEq, Eq, Structural)]
pub enum Start {
    /// A truth.
    Bool(bool),
    /// A fraction, by its bits.
    Float(u32),
}

/// A console variable the editor registers.
#[derive(Clone, Copy, Debug)]
pub struct Variable {
    pub name: &'static str,
    pub start: Start,
    pub help: &'static str,
}

/// What one frame of the editor came to, for the window that holds it.
#[derive(Debug)]
pub struct Frame {
    /// A world to put back, because a step back or forward was asked for.
    pub restore: Option<Scene>,
    /// Whether anything on screen wants a frame measured.
    pub measuring: bool,
}

/// Everything the window keeps on the editor's behalf but the drawing.
#[derive(Debug)]
pub struct Editor {
    pub panels: Panels,
}

/// Whether a fraction is more than nought, by its bits.
pub open spec fn positive(bits: u32) -> bool {
    0 < bits <= 0x7f80_0000
}

impl Editor {
    /// An editor over a world nobody has named.
    pub fn new() -> (result: Editor)
        ensures
            result.panels.wf(),
            result.panels.view() == started(),
    {
        Editor { panels: Panels::new() }
    }

    /// Puts back what the editor was left with for a project.
    pub fn remember(&mut self, session: &Session, scene: &str)
        requires
            old(self).panels.wf(),
        ensures
            final(self).panels.wf(),
            final(self).panels.view() == (Held {
                sizes: session.panels,
                scene: if scene@.len() == 0 {
                    UNNAMED@
                } else {
                    scene@
                },
                shelf: Seq::empty(),
                place: 0,
                past: fresh_past(),
                waiting: session.view().tabs.filter(|name: Seq<char>| name != scene@),
                wanted: was_on_screen(session.view(), scene@),
                ..old(self).panels.view()
            }),
    {
        self.panels.remember(session, scene);
    }

    /// What to put back next time: the tabs as they are named, which of them
    /// is on screen, and the panels as wide as they are.
    pub fn forget_not(&self) -> (result: Session)
        requires
            self.panels.wf(),
        ensures
            result.view() == (Kept {
                tabs: row_names(self.panels.view()),
                current: self.panels.view().place,
                panels: self.panels.view().sizes,
            }),
    {
        Session { tabs: self.panels.names(), current: self.panels.place, panels: self.panels.sizes }
    }

    /// The console variables the editor registers.
    pub fn install() -> (result: Vec<Variable>)
        ensures
            result@.len() == 3,
            result@[0].name@ == SHOW@ && result@[0].start == Start::Bool(true),
            result@[0].help@ == "show the editor; F1 does the same thing"@,
            result@[1].name@ == GRID@ && result@[1].start == Start::Float(GRID_STEP),
            result@[1].help@
                == "how far apart the editor's grid is, in world units; 0 turns snapping off"@,
            result@[2].name@ == HELPERS@ && result@[2].start == Start::Bool(true),
            result@[2].help@
                == "draw and pick the things that have nothing to look at: lamps, throwers, decals, ties and bodies nobody draws"@,
    {
        let mut variables: Vec<Variable> = Vec::new();
        variables.push(
            Variable {
                name: SHOW,
                start: Start::Bool(true),
                help: "show the editor; F1 does the same thing",
            },
        );
        variables.push(
            Variable {
                name: GRID,
                start: Start::Float(GRID_STEP),
                help: "how far apart the editor's grid is, in world units; 0 turns snapping off",
            },
        );
        variables.push(
            Variable {
                name: HELPERS,
                start: Start::Bool(true),
                help: "draw and pick the things that have nothing to look at: lamps, throwers, decals, ties and bodies nobody draws",
            },
        );
        variables
    }

    /// The grid step the world is being edited on, or nothing for no
    /// snapping, by the bits of what the variable holds.
    pub fn grid(step: Option<u32>) -> (result: Option<u32>)
        ensures
            result == match step {
                Some(step) => if positive(step) {
                    Some(step)
                } else {
                    None
                },
                None => None,
            },
    {
        match step {
            Some(step) => if 0 < step && step <= 0x7f80_0000 {
                Some(step)
            } else {
                None
            },
            None => None,
        }
    }

    /// Whether the editor is on screen, by what its variable holds.
    pub fn shown(variable: Option<bool>) -> (result: bool)
        ensures
            result == (variable == Some(true)),
    {
        match variable {
            Some(shown) => shown,
            None => false,
        }
    }

    /// Whether the things with nothing to look at are drawn and clickable, by
    /// what the variable holds.
    pub fn helpers(variable: Option<bool>) -> (result: bool)
        ensures
            result == (variable != Some(false)),
    {
        match variable {
            Some(shown) => shown,
            None => true,
        }
    }

    /// What the variable is set to, to show the editor if it is hidden and
    /// hide it if it is not.
    pub fn toggle(variable: Option<bool>) -> (result: &'static str)
        ensures
            result@ == if variable == Some(true) {
                "false"@
            } else {
                "true"@
            },
    {
        if Editor::shown(variable) {
            "false"
        } else {
            "true"
        }
    }

    /// Starts play if the world is being edited, and stops it if it is not.
    /// The one path: the world before play is written down whoever asks. The
    /// mode to ask for.
    pub fn play(&mut self, world: &mut World) -> (result: Option<Request>)
        requires
            old(self).panels.wf(),
            old(world).wf(),
        ensures
            final(self).panels.wf(),
            final(world).wf(),
            (final(self).panels.view(), final(world).view(), request_view(result)) == on_edit(
                old(self).panels.view(),
                old(world).view(),
                !old(world).editing,
            ),
    {
        let change: Change = Change::Edit(!world.editing);
        self.panels.apply(world, &change)
    }

    /// What a frame came to: the world to put back, and whether it is to be
    /// measured.
    pub fn run(&mut self) -> (result: Frame)
        requires
            old(self).panels.wf(),
        ensures
            final(self).panels.wf(),
            final(self).panels.view() == (Held { restore: None, ..old(self).panels.view() }),
            result.restore == old(self).panels.restore,
            result.measuring == (old(self).panels.view().pane == crate::panels::Pane::Profiler),
    {
        let measuring: bool = self.panels.measuring();
        Frame { restore: self.panels.take_restore(), measuring }
    }
}

/// A width the file holds, as the number of points a panel is given: no more
/// than a panel can have.
pub fn points(size: u32) -> (result: u16)
    ensures
        result == if size <= u16::MAX {
            size as int
        } else {
            u16::MAX as int
        },
{
    if size <= 65535 {
        size as u16
    } else {
        65535
    }
}

/// A grid step snaps exactly where it is more than nought.
pub proof fn a_grid_is_more_than_nought(step: u32)
    ensures
        positive(step) <==> crate::fraction::less(0, step),
{
}

} // verus!
