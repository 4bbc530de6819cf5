//! The scenes that are open. The one on screen is the live world; the others
//! are shelved, each with its own world and its own steps back.

use vstd::prelude::*;
use vstd::string::*;
use crate::history::{History, Past, LIMIT};
use crate::text::same;
use crate::world::{Described, Scene};

verus! {

/// A scene that is open and not on screen.
#[derive(Debug)]
pub struct Tab {
    /// What it is called.
    pub name: String,
    /// What was done to it.
    pub history: History,
    /// The world as it was left.
    pub scene: Scene,
}

/// What a shelved scene is.
pub ghost struct Shelved {
    pub name: Seq<char>,
    pub past: Past,
    pub scene: Described,
}

impl Tab {
    /// What the tab is.
    pub open spec fn view(&self) -> Shelved {
        Shelved { name: self.name@, past: self.history.view(), scene: self.scene.view() }
    }

    /// Whether the tab is as tabs are.
    pub open spec fn wf(&self) -> bool {
        self.history.wf() && self.scene.wf()
    }
}

/// What several tabs are.
pub open spec fn shelf(tabs: Seq<Tab>) -> Seq<Shelved> {
    Seq::new(tabs.len(), |i: int| tabs[i].view())
}

/// Whether several tabs are as tabs are.
pub open spec fn tabs_wf(tabs: Seq<Tab>) -> bool {
    forall|i: int| 0 <= i < tabs.len() ==> (#[trigger] tabs[i]).wf()
}

/// A past in which nothing was done.
pub open spec fn fresh_past() -> Past {
    Past {
        records: Seq::empty(),
        done: 0,
        open: None,
        written: false,
        holding: false,
        limit: LIMIT as nat,
    }
}

/// Where the first tab of a name is, from a place on.
pub open spec fn tab_named(tabs: Seq<Shelved>, name: Seq<char>, from: nat) -> Option<nat>
    decreases tabs.len() - from,
{
    if from >= tabs.len() {
        None
    } else if tabs[from as int].name == name {
        Some(from)
    } else {
        tab_named(tabs, name, from + 1)
    }
}

/// The first tab of a name is there and has it, and none before it has.
pub proof fn tab_is_first(tabs: Seq<Shelved>, name: Seq<char>, from: nat)
    ensures
        match tab_named(tabs, name, from) {
            None => forall|i: int| from <= i < tabs.len() ==> (#[trigger] tabs[i]).name != name,
            Some(at) => from <= at < tabs.len() && tabs[at as int].name == name && forall|i: int|
                from <= i < at ==> (#[trigger] tabs[i]).name != name,
        },
    decreases tabs.len() - from,
{
    if from < tabs.len() && tabs[from as int].name != name {
        tab_is_first(tabs, name, from + 1);
    }
}

/// Where the first tab of a name is.
pub fn find_tab(tabs: &Vec<Tab>, name: &str) -> (result: Option<usize>)
    ensures
        match tab_named(shelf(tabs@), name@, 0) {
            None => result is None,
            Some(at) => result is Some && result->0 == at && at < tabs@.len(),
        },
{
    let ghost all = shelf(tabs@);
    let mut i: usize = 0;
    while i < tabs.len()
        invariant
            i <= tabs@.len(),
            all == shelf(tabs@),
            tab_named(all, name@, 0) == tab_named(all, name@, i as nat),
        decreases tabs@.len() - i,
    {
        if same(tabs[i].name.as_str(), name) {
            assert(all[i as int].name == name@);
            return Some(i);
        }
        assert(all[i as int].name != name@);
        i = i + 1;
    }
    None
}

/// Tabs with those of a name called something else.
pub open spec fn recalled(tabs: Seq<Shelved>, name: Seq<char>, to: Seq<char>) -> Seq<Shelved> {
    Seq::new(
        tabs.len(),
        |i: int|
            if tabs[i].name == name {
                Shelved { name: to, ..tabs[i] }
            } else {
                tabs[i]
            },
    )
}

/// Calls the tabs of a name something else.
pub fn rename_tabs(tabs: &mut Vec<Tab>, name: &str, to: &str)
    requires
        tabs_wf(old(tabs)@),
    ensures
        tabs_wf(final(tabs)@),
        final(tabs)@.len() == old(tabs)@.len(),
        shelf(final(tabs)@) == recalled(shelf(old(tabs)@), name@, to@),
{
    let ghost was = shelf(tabs@);
    let mut i: usize = 0;
    while i < tabs.len()
        invariant
            i <= tabs@.len(),
            tabs@.len() == was.len(),
            tabs_wf(tabs@),
            forall|k: int|
                0 <= k < i ==> (#[trigger] tabs@[k]).view() == recalled(was, name@, to@)[k],
            forall|k: int| i <= k < was.len() ==> (#[trigger] tabs@[k]).view() == was[k],
        decreases tabs@.len() - i,
    {
        assert(tabs@[i as int].view() == was[i as int]);
        if same(tabs[i].name.as_str(), name) {
            let ghost before = tabs@;
            let called: String = to.to_owned();
            tabs[i].name = called;
            assert(forall|k: int|
                0 <= k < before.len() && k != i ==> #[trigger] tabs@[k] == before[k]);
            assert(tabs@[i as int].view() == (Shelved { name: to@, ..was[i as int] }));
        }
        i = i + 1;
    }
    assert(shelf(tabs@) =~= recalled(was, name@, to@));
}

} // verus!
