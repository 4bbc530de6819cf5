//! The two pages: which rows the list shows, what a press on one asks for,
//! and what stops the form.

use vstd::prelude::*;
use vstd::string::*;
use crate::launcher::list::{row_matches, slashed, spelled, Row, Shown, Sort};
use crate::launcher::pages::{Change, Pressed};
use crate::launcher::wizard::{checked, Form, Wizard};
use crate::text::{debug, debugged, plus, trim, trimmed};

verus! {

/// The list page's own state: what is typed into it.
#[derive(Debug)]
pub struct Home {
    /// What is in the search box.
    pub search: String,
    /// What is in the box a project on disk is added from.
    pub add_path: String,
    /// Whether that box is open.
    pub adding: bool,
}

/// The places of the first so many rows that match a search and are pinned,
/// or are not.
pub open spec fn placed_rows(rows: Seq<Shown>, search: Seq<char>, pinned: bool, count: nat) -> Seq<
    usize,
>
    decreases count,
{
    if count == 0 {
        Seq::empty()
    } else {
        let so_far = placed_rows(rows, search, pinned, (count - 1) as nat);
        let row = rows[count - 1];
        if row_matches(row.view(), search) && row.entry.pinned == pinned {
            so_far.push((count - 1) as usize)
        } else {
            so_far
        }
    }
}

/// What the list shows under its controls.
#[derive(Debug)]
pub struct Listing {
    /// The pinned rows that match the search, by their places.
    pub pinned: Vec<usize>,
    /// The other rows that match it.
    pub rest: Vec<usize>,
    /// Whether the rest stand under a heading of their own: anything at all
    /// is pinned.
    pub headed: bool,
}

/// Whether any of several rows is pinned.
pub open spec fn any_pinned(rows: Seq<Shown>) -> bool {
    exists|i: int| 0 <= i < rows.len() && (#[trigger] rows[i]).entry.pinned
}

impl Home {
    /// Nothing typed, and the box for a project on disk shut.
    pub fn new() -> (result: Home)
        ensures
            result.search@ == Seq::<char>::empty(),
            result.add_path@ == Seq::<char>::empty(),
            !result.adding,
    {
        Home { search: String::new(), add_path: String::new(), adding: false }
    }

    /// The projects, pinned ones first.
    pub fn rows(&self, shown: &Vec<Shown>) -> (result: Listing)
        ensures
            result.pinned@ == placed_rows(shown@, self.search@, true, shown@.len()),
            result.rest@ == placed_rows(shown@, self.search@, false, shown@.len()),
            result.headed == any_pinned(shown@),
    {
        let mut pinned: Vec<usize> = Vec::new();
        let mut rest: Vec<usize> = Vec::new();
        let mut headed: bool = false;
        let mut i: usize = 0;
        while i < shown.len()
            invariant
                i <= shown@.len(),
                pinned@ == placed_rows(shown@, self.search@, true, i as nat),
                rest@ == placed_rows(shown@, self.search@, false, i as nat),
                headed == exists|k: int| 0 <= k < i && (#[trigger] shown@[k]).entry.pinned,
            decreases shown@.len() - i,
        {
            if shown[i].entry.pinned {
                assert(shown@[i as int].entry.pinned);
                headed = true;
            }
            if shown[i].matches(self.search.as_str()) {
                if shown[i].entry.pinned {
                    pinned.push(i);
                } else {
                    rest.push(i);
                }
            }
            i = i + 1;
        }
        Listing { pinned, rest, headed }
    }

    /// The box a project on disk is added from: the directory to add, unless
    /// it is nothing but spaces. Once added, the box is empty and shut.
    pub fn adder(&mut self, pressed: bool) -> (result: Option<String>)
        ensures
            final(self).search == old(self).search,
            if pressed && trimmed(old(self).add_path@).len() > 0 {
                &&& result is Some
                &&& result->0@ == trimmed(old(self).add_path@)
                &&& final(self).add_path@ == Seq::<char>::empty()
                &&& !final(self).adding
            } else {
                &&& result is None
                &&& final(self).add_path == old(self).add_path
                &&& final(self).adding == old(self).adding
            },
    {
        if !pressed {
            return None;
        }
        let path: String = trim(self.add_path.as_str());
        if path.as_str().is_empty() {
            return None;
        }
        self.add_path = String::new();
        self.adding = false;
        Some(path)
    }

    /// What an empty list says, which depends on why it is empty.
    pub fn empty_words(&self, shown: &Vec<Shown>) -> (result: String)
        ensures
            result@ == if shown@.len() == 0 {
                "no projects yet: make one, or drop a directory holding colby.project on this window"@
            } else {
                "nothing on the list matches "@ + debugged(trimmed(self.search@))
            },
    {
        if shown.len() == 0 {
            return "no projects yet: make one, or drop a directory holding colby.project on this window".to_owned();
        }
        plus("nothing on the list matches ", debug(trim(self.search.as_str()).as_str()).as_str())
    }
}

impl Default for Home {
    fn default() -> (result: Home)
        ensures
            result.search@ == Seq::<char>::empty(),
            result.add_path@ == Seq::<char>::empty(),
            !result.adding,
    {
        Home::new()
    }
}

/// What stands under the list: why it cannot be read, or the last thing worth
/// saying.
pub open spec fn foot_words(broken: Option<Seq<char>>, notice: Seq<char>) -> Option<Seq<char>> {
    match broken {
        Some(why) => Some("the project list cannot be read and is left alone: "@ + why),
        None => if notice.len() > 0 {
            Some(notice)
        } else {
            None
        },
    }
}

/// What stands under the list.
pub fn foot(broken: Option<&str>, notice: &str) -> (result: Option<String>)
    ensures
        match foot_words(
            match broken {
                Some(why) => Some(why@),
                None => None,
            },
            notice@,
        ) {
            None => result is None,
            Some(words) => result is Some && result->0@ == words,
        },
{
    match broken {
        Some(why) => Some(plus("the project list cannot be read and is left alone: ", why)),
        None => if notice.is_empty() {
            None
        } else {
            Some(notice.to_owned())
        },
    }
}

/// The line at the very bottom: which build this is, and where things are.
pub fn foot_line(version: &str, engine: &str, projects_dir: &str) -> (result: String)
    ensures
        result@ == "colby "@ + version@ + "  .  engine "@ + slashed(engine@) + "  .  projects in "@
            + slashed(projects_dir@),
{
    let build: String = plus(plus("colby ", version).as_str(), "  .  engine ");
    let place: String = plus(build.as_str(), spelled(engine).as_str());
    plus(plus(place.as_str(), "  .  projects in ").as_str(), spelled(projects_dir).as_str())
}

/// Every row that matches the search is shown once, the pinned ones above and
/// the others below.
pub proof fn every_match_is_shown(rows: Seq<Shown>, search: Seq<char>, at: int, count: nat)
    requires
        count <= rows.len() <= usize::MAX,
        0 <= at < count,
    ensures
        row_matches(rows[at].view(), search) ==> placed_rows(
            rows,
            search,
            rows[at].entry.pinned,
            count,
        ).contains(at as usize),
        !placed_rows(rows, search, !rows[at].entry.pinned, count).contains(at as usize),
        !row_matches(rows[at].view(), search) ==> !placed_rows(
            rows,
            search,
            rows[at].entry.pinned,
            count,
        ).contains(at as usize),
    decreases count,
{
    placed_are_earlier(rows, search, true, (count - 1) as nat);
    placed_are_earlier(rows, search, false, (count - 1) as nat);
    let own = rows[at].entry.pinned;
    let all = placed_rows(rows, search, own, count);
    let other = placed_rows(rows, search, !own, count);
    let less = placed_rows(rows, search, own, (count - 1) as nat);
    let less_other = placed_rows(rows, search, !own, (count - 1) as nat);
    if at < count - 1 {
        every_match_is_shown(rows, search, at, (count - 1) as nat);
        if less.contains(at as usize) {
            let k = choose|k: int| 0 <= k < less.len() && less[k] == at as usize;
            assert(all[k] == at as usize);
        }
    } else if row_matches(rows[at].view(), search) {
        assert(all[less.len() as int] == at as usize);
    }
    if all.contains(at as usize) {
        let k = choose|k: int| 0 <= k < all.len() && all[k] == at as usize;
        if k < less.len() {
            assert(less[k] == at as usize);
            assert(less.contains(at as usize));
        }
    }
    if other.contains(at as usize) {
        let k = choose|k: int| 0 <= k < other.len() && other[k] == at as usize;
        if k < less_other.len() {
            assert(less_other[k] == at as usize);
            assert(less_other.contains(at as usize));
        }
    }
}

/// The places of rows are among those counted.
proof fn placed_are_earlier(rows: Seq<Shown>, search: Seq<char>, pinned: bool, count: nat)
    requires
        count <= rows.len() <= usize::MAX,
    ensures
        forall|k: int|
            0 <= k < placed_rows(rows, search, pinned, count).len() ==> #[trigger] placed_rows(
                rows,
                search,
                pinned,
                count,
            )[k] < count,
    decreases count,
{
    if count > 0 {
        placed_are_earlier(rows, search, pinned, (count - 1) as nat);
        let less = placed_rows(rows, search, pinned, (count - 1) as nat);
        let all = placed_rows(rows, search, pinned, count);
        assert forall|k: int| 0 <= k < all.len() implies #[trigger] all[k] < count by {
            if k < less.len() {
                assert(all[k] == less[k]);
            }
        }
    }
}

/// What can be pressed on a row.
#[derive(Clone, Copy, Debug, PartialEq, Eq, Structural)]
pub enum Press {
    /// Two clicks on the row, or its entry in the menu: open it.
    Twice,
    /// The large button: open it, or take it off where its file is not there.
    Main,
    /// The pin.
    Pin,
    /// The menu's entry to take it off the list.
    Remove,
}

/// What a press on a row asks for. A project whose file is not there cannot
/// be opened.
pub open spec fn row_asks(row: Row, press: Press) -> Option<Pressed> {
    let path = row.entry.path;
    match press {
        Press::Twice => if row.project is Ok {
            Some(Pressed::Open(path))
        } else {
            None
        },
        Press::Main => if row.project is Ok {
            Some(Pressed::Open(path))
        } else {
            Some(Pressed::Remove(path))
        },
        Press::Pin => Some(Pressed::Pin(path, !row.entry.pinned)),
        Press::Remove => Some(Pressed::Remove(path)),
    }
}

/// What a press on a row asks for.
pub fn row_pressed(row: &Shown, press: Press) -> (result: Option<Change>)
    ensures
        match row_asks(row.view(), press) {
            None => result is None,
            Some(asked) => result is Some && result->0.view() == asked,
        },
{
    let found: bool = row.project.is_ok();
    let path: String = row.entry.path.clone();
    match press {
        Press::Twice => if found {
            Some(Change::Open(path))
        } else {
            None
        },
        Press::Main => if found {
            Some(Change::Open(path))
        } else {
            Some(Change::Remove(path))
        },
        Press::Pin => Some(Change::Pin(path, !row.entry.pinned)),
        Press::Remove => Some(Change::Remove(path)),
    }
}

/// What a row's large button says, and what its pin says.
pub fn row_buttons(row: &Shown) -> (result: (&'static str, &'static str))
    ensures
        result.0@ == if row.view().project is Ok {
            "open"@
        } else {
            "remove"@
        },
        result.1@ == if row.entry.pinned {
            "unpin"@
        } else {
            "pin"@
        },
{
    (
        if row.project.is_ok() {
            "open"
        } else {
            "remove"
        },
        if row.entry.pinned {
            "unpin"
        } else {
            "pin"
        },
    )
}

/// The order chosen, when it is not the one shown.
pub fn sort_chosen(current: Sort, chosen: Sort) -> (result: Option<Change>)
    ensures
        result is Some == (chosen != current),
        result is Some ==> result->0.view() == Pressed::Sort(chosen),
{
    if chosen == current {
        None
    } else {
        Some(Change::Sort(chosen))
    }
}

/// Whether Create can be pressed: the form can be made as it stands, and
/// there is a template to make it from.
pub fn ready(wizard: &Wizard, exists: bool, templates: bool) -> (result: bool)
    ensures
        result == (checked(wizard.view(), exists) is Ok && templates),
{
    wizard.check(exists).is_ok() && templates
}

/// The form with git as it is found: where there is none, none is started.
pub fn with_git(wizard: &mut Wizard, found: bool)
    ensures
        final(wizard).view() == (Form {
            git_init: old(wizard).git_init && found,
            ..old(wizard).view()
        }),
{
    if !found {
        wizard.git_init = false;
    }
}

/// A project that can be read is opened by two clicks and by its large button;
/// one that cannot is opened by neither, and its large button takes it off. The
/// pin turns the pin over, and what every press asks for is asked of the row's
/// own project.
pub proof fn what_a_press_on_a_row_asks(row: Row)
    ensures
        ({
            let path = row.entry.path;
            &&& row.project is Ok ==> row_asks(row, Press::Twice) == Some(Pressed::Open(path))
                && row_asks(row, Press::Main) == Some(Pressed::Open(path))
            &&& row.project is Err ==> row_asks(row, Press::Twice) is None && row_asks(
                row,
                Press::Main,
            ) == Some(Pressed::Remove(path))
            &&& row.entry.pinned ==> row_asks(row, Press::Pin) == Some(Pressed::Pin(path, false))
            &&& !row.entry.pinned ==> row_asks(row, Press::Pin) == Some(Pressed::Pin(path, true))
            &&& row_asks(row, Press::Remove) == Some(Pressed::Remove(path))
        }),
{
}

/// A list that cannot be read says why under itself, whatever else was to be
/// said; otherwise the last thing worth saying stands there, and nothing where
/// there is none.
pub proof fn what_stands_under_the_list(why: Seq<char>, notice: Seq<char>)
    ensures
        foot_words(Some(why), notice) is Some,
        foot_words(Some(why), notice)->0.len() >= why.len(),
        foot_words(Some(why), notice)->0.skip(
            foot_words(Some(why), notice)->0.len() - why.len(),
        ) == why,
        notice.len() > 0 ==> foot_words(None, notice) == Some(notice),
        notice.len() == 0 ==> foot_words(None, notice) is None,
{
    let front = "the project list cannot be read and is left alone: "@;
    assert((front + why).skip(front.len() as int) =~= why);
}

} // verus!
