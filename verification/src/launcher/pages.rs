//! The launcher's state, and what a press on one of its two pages does to it.

use vstd::prelude::*;
use vstd::string::*;
use crate::launcher::list::{
    place_of, slashed, spelled, with_added, with_removed, Kept, List, Listed, Places, Sort,
};
use crate::launcher::template::Template;
use crate::launcher::wizard::{checked, first_unused, ident_of, Form, Plan, Wizard};
use crate::paths::{file_name, held_by, last_name, one_place, Disk};
use crate::table::texts;
use crate::text::{plus, same, trim, trimmed};

verus! {

/// The file that makes a directory a project.
pub const PROJECT: &'static str = "colby.project";

/// What the launcher asks the process that holds it to do.
#[derive(Clone, Debug, PartialEq, Eq)]
pub enum Action {
    /// Open this project in a process of its own, and close.
    Open(String),
}

/// Something that was pressed on a page.
#[derive(Debug)]
pub enum Change {
    /// Open a project.
    Open(String),
    /// Pin a project to the top, or let it go.
    Pin(String, bool),
    /// Take a project off the list.
    Remove(String),
    /// Put a directory on the list, if it holds a project.
    Add(String, bool),
    /// Order the list another way.
    Sort(Sort),
    /// Go to the form.
    New,
    /// Come back from the form with nothing made.
    Back,
}

/// What was pressed.
pub ghost enum Pressed {
    Open(Seq<char>),
    Pin(Seq<char>, bool),
    Remove(Seq<char>),
    Add(Seq<char>, bool),
    Sort(Sort),
    New,
    Back,
}

impl Change {
    /// What was pressed.
    pub open spec fn view(&self) -> Pressed {
        match self {
            Change::Open(path) => Pressed::Open(path@),
            Change::Pin(path, pinned) => Pressed::Pin(path@, *pinned),
            Change::Remove(path) => Pressed::Remove(path@),
            Change::Add(path, holds) => Pressed::Add(path@, *holds),
            Change::Sort(sort) => Pressed::Sort(*sort),
            Change::New => Pressed::New,
            Change::Back => Pressed::Back,
        }
    }
}

/// Which page is up.
#[derive(Debug)]
pub enum Page {
    /// The list.
    Home,
    /// The form.
    Creator(Wizard),
}

/// Which page is up.
pub ghost enum Up {
    Home,
    Creator(Form),
}

/// What the disk and the clock say while a press is done.
pub struct Given<'a> {
    /// What paths lead where.
    pub disk: &'a Disk,
    /// This moment, in seconds since the epoch.
    pub now: u64,
    /// The names of what is in the folder for new projects.
    pub taken: &'a Vec<String>,
}

/// What a press leaves to be done.
#[derive(Debug)]
pub struct Done {
    /// What the process is asked to do.
    pub action: Option<Action>,
    /// Whether the list is to be written.
    pub save: bool,
    /// Whether a list that could not be written is said under the page: it is
    /// not where something else is said there once the list was written.
    pub says: bool,
    /// Whether every project is to be read from disk again.
    pub refresh: bool,
}

/// What a press leaves to be done.
pub ghost struct Left {
    pub open: Option<Seq<char>>,
    pub save: bool,
    pub says: bool,
    pub refresh: bool,
}

impl Done {
    /// What is left to be done.
    pub open spec fn view(&self) -> Left {
        Left {
            open: match self.action {
                None => None,
                Some(Action::Open(path)) => Some(path@),
            },
            save: self.save,
            says: self.says,
            refresh: self.refresh,
        }
    }
}

/// The launcher's state.
#[derive(Debug)]
pub struct Pages {
    /// The list itself.
    pub list: List,
    /// Whether there is somewhere to keep the list.
    pub kept: bool,
    /// Why the list file could not be read, in which case the list is empty
    /// and is never written over.
    pub broken: Option<String>,
    /// Every template under the engine.
    pub templates: Vec<Template>,
    /// The git on the path, if there is one.
    pub git: Option<String>,
    /// Which page is up.
    pub page: Page,
    /// The last thing worth saying under whichever page is up.
    pub notice: String,
}

/// What the launcher's state is.
pub ghost struct State {
    pub list: Listed,
    pub kept: bool,
    pub broken: Option<Seq<char>>,
    pub page: Up,
    pub notice: Seq<char>,
}

/// Whether the list may be written: there is somewhere to, and what is there
/// could be read.
pub open spec fn may_save(state: State) -> bool {
    state.kept && state.broken is None
}

/// A list with a project opened at a moment.
pub open spec fn with_opened(list: Listed, disk: Places, path: Seq<char>, now: u64) -> Listed {
    match place_of(list.entries, disk, path) {
        None => list,
        Some(index) => Listed {
            entries: list.entries.update(
                index,
                Kept { last_opened: now, ..list.entries[index] },
            ),
            ..list
        },
    }
}

/// A list with a project pinned, or let go.
pub open spec fn with_pinned(list: Listed, disk: Places, path: Seq<char>, pinned: bool) -> Listed {
    match place_of(list.entries, disk, path) {
        None => list,
        Some(index) => Listed {
            entries: list.entries.update(index, Kept { pinned, ..list.entries[index] }),
            ..list
        },
    }
}

/// What a press comes to, the form apart.
pub open spec fn pressed(state: State, change: Pressed, disk: Places, now: u64) -> (State, Left) {
    let save = may_save(state);
    match change {
        Pressed::Open(path) => (
            State { list: with_opened(state.list, disk, path, now), ..state },
            Left { open: Some(path), save, says: true, refresh: false },
        ),
        Pressed::Pin(path, pinned) => (
            State { list: with_pinned(state.list, disk, path, pinned), ..state },
            Left { open: None, save, says: true, refresh: true },
        ),
        Pressed::Remove(path) => (
            State {
                list: with_removed(state.list, disk, path),
                notice: if place_of(state.list.entries, disk, path) is Some {
                    slashed(path) + " taken off the list; nothing on disk was touched"@
                } else {
                    state.notice
                },
                ..state
            },
            Left { open: None, save, says: true, refresh: true },
        ),
        Pressed::Add(dir, holds) => if !holds {
            (
                State { notice: slashed(dir) + " holds no "@ + PROJECT@, ..state },
                Left { open: None, save: false, says: false, refresh: true },
            )
        } else if place_of(state.list.entries, disk, dir) is None {
            (
                State {
                    list: with_added(state.list, disk, dir),
                    notice: slashed(dir) + " is on the list"@,
                    ..state
                },
                Left { open: None, save, says: false, refresh: true },
            )
        } else {
            (
                State { notice: slashed(dir) + " was on the list already"@, ..state },
                Left { open: None, save: false, says: false, refresh: true },
            )
        },
        Pressed::Sort(sort) => (
            State { list: Listed { sort, ..state.list }, ..state },
            Left { open: None, save, says: true, refresh: true },
        ),
        Pressed::New => (
            State { notice: Seq::empty(), ..state },
            Left { open: None, save: false, says: false, refresh: true },
        ),
        Pressed::Back => (
            State { notice: Seq::empty(), page: Up::Home, ..state },
            Left { open: None, save: false, says: false, refresh: true },
        ),
    }
}

/// What a project that was made comes to: it is put on the list, opened, and
/// the list is up again. The folder it was made in is remembered where that
/// was asked.
pub open spec fn made(state: State, dir: Seq<char>, disk: Places, now: u64) -> (State, Left) {
    let list = match state.page {
        Up::Creator(form) => if form.remember {
            Listed { projects_dir: trimmed(form.location), ..state.list }
        } else {
            state.list
        },
        Up::Home => state.list,
    };
    (
        State {
            list: with_opened(with_added(list, disk, dir), disk, dir, now),
            notice: Seq::empty(),
            page: Up::Home,
            ..state
        },
        Left { open: Some(dir), save: may_save(state), says: false, refresh: true },
    )
}

/// Something that happens to the launcher.
pub ghost enum Event {
    /// A press, on a disk at a moment.
    Press(Pressed, Places, u64),
    /// A project was made, on a disk at a moment.
    Made(Seq<char>, Places, u64),
    /// Something was said under the page.
    Said(Seq<char>),
    /// A page was put up, or what is written on it changed.
    Page(Up),
}

/// What something that happens comes to, and whether the list is written.
pub open spec fn happened(state: State, event: Event) -> (State, bool) {
    match event {
        Event::Press(change, disk, now) => {
            let (then, left) = pressed(state, change, disk, now);
            (then, left.save)
        },
        Event::Made(dir, disk, now) => {
            let (then, left) = made(state, dir, disk, now);
            (then, left.save)
        },
        Event::Said(notice) => (State { notice, ..state }, false),
        Event::Page(page) => (State { page, ..state }, false),
    }
}

/// What several things that happen one after the other come to.
pub open spec fn happened_all(state: State, events: Seq<Event>) -> State
    decreases events.len(),
{
    if events.len() == 0 {
        state
    } else {
        happened(happened_all(state, events.drop_last()), events.last()).0
    }
}

/// The directory meant by a path: a project file stands for the directory it
/// is in.
pub open spec fn dir_meant(path: Seq<char>, is_file: bool) -> Seq<char> {
    if is_file && last_name(path) == Some(PROJECT@) {
        held_by(path)
    } else {
        path
    }
}

/// The directory meant by a path.
pub fn project_dir(path: &str, is_file: bool) -> (result: String)
    ensures
        result@ == dir_meant(path@, is_file),
{
    if !is_file {
        return path.to_owned();
    }
    match file_name(path) {
        None => path.to_owned(),
        Some(name) => {
            if !same(name.as_str(), PROJECT) {
                return path.to_owned();
            }
            crate::paths::parent(path)
        },
    }
}

impl Pages {
    /// What the launcher's state is.
    pub open spec fn view(&self) -> State {
        State {
            list: self.list.view(),
            kept: self.kept,
            broken: match self.broken {
                None => None,
                Some(why) => Some(why@),
            },
            page: match self.page {
                Page::Home => Up::Home,
                Page::Creator(wizard) => Up::Creator(wizard.view()),
            },
            notice: self.notice@,
        }
    }

    /// Starts on the list: what was read of it, or an empty one making
    /// projects under the fallback where it could not be read or where there
    /// is nowhere to keep one.
    pub fn new(
        read: Option<Result<List, String>>,
        fallback: &str,
        templates: Vec<Template>,
        git: Option<String>,
    ) -> (result: Pages)
        ensures
            result.templates == templates,
            result.git == git,
            result.view() == (State {
                list: match read {
                    Some(Ok(list)) => list.view(),
                    _ => Listed {
                        projects_dir: fallback@,
                        sort: Sort::Recent,
                        entries: Seq::empty(),
                    },
                },
                kept: read is Some,
                broken: match read {
                    Some(Err(why)) => Some(why@),
                    _ => None,
                },
                page: Up::Home,
                notice: Seq::empty(),
            }),
    {
        let kept: bool = read.is_some();
        let (list, broken): (List, Option<String>) = match read {
            Some(Ok(list)) => (list, None),
            Some(Err(why)) => (List::new(fallback), Some(why)),
            None => (List::new(fallback), None),
        };
        Pages { list, kept, broken, templates, git, page: Page::Home, notice: String::new() }
    }

    /// Whether the list may be written.
    pub fn may_save(&self) -> (result: bool)
        ensures
            result == may_save(self.view()),
    {
        self.kept && self.broken.is_none()
    }

    /// Does what was pressed. What is left to be done.
    pub fn apply(&mut self, change: &Change, given: &Given) -> (result: Done)
        requires
            change.view() == Pressed::New ==> given.taken@.len() < 0x7fff_ffff,
        ensures
            ({
                let (state, left) = pressed(
                    old(self).view(),
                    change.view(),
                    given.disk.view(),
                    given.now,
                );
                &&& result.view() == left
                &&& match change.view() {
                    Pressed::New => {
                        &&& final(self).view() == (State {
                            page: final(self).view().page,
                            ..state
                        })
                        &&& final(self).view().page is Creator
                        &&& final(self).view().page->0 == (Form {
                            name: final(self).view().page->0.name,
                            id: ident_of(final(self).view().page->0.name),
                            id_edited: false,
                            location: slashed(old(self).view().list.projects_dir),
                            remember: false,
                            vcs_files: true,
                            git_init: old(self).git is Some,
                            template: 0,
                        })
                        &&& first_unused(
                            texts(given.taken@),
                            final(self).view().page->0.name,
                        )
                    },
                    _ => final(self).view() == state,
                }
            }),
            final(self).templates == old(self).templates,
            final(self).git == old(self).git,
    {
        let save: bool = self.may_save();
        match change {
            Change::Open(path) => {
                self.list.opened(path.as_str(), given.now, given.disk);
                Done { action: Some(Action::Open(path.clone())), save, says: true, refresh: false }
            },
            Change::Pin(path, pinned) => {
                self.list.pin(path.as_str(), *pinned, given.disk);
                Done { action: None, save, says: true, refresh: true }
            },
            Change::Remove(path) => {
                if self.list.remove(path.as_str(), given.disk) {
                    self.notice = plus(
                        spelled(path.as_str()).as_str(),
                        " taken off the list; nothing on disk was touched",
                    );
                }
                Done { action: None, save, says: true, refresh: true }
            },
            Change::Add(dir, holds) => {
                let named: String = spelled(dir.as_str());
                if !*holds {
                    let head: String = plus(named.as_str(), " holds no ");
                    self.notice = plus(head.as_str(), PROJECT);
                    return Done { action: None, save: false, says: false, refresh: true };
                }
                if self.list.add(dir.as_str(), given.disk) {
                    self.notice = plus(named.as_str(), " is on the list");
                    Done { action: None, save, says: false, refresh: true }
                } else {
                    self.notice = plus(named.as_str(), " was on the list already");
                    Done { action: None, save: false, says: false, refresh: true }
                }
            },
            Change::Sort(sort) => {
                self.list.sort = *sort;
                Done { action: None, save, says: true, refresh: true }
            },
            Change::New => {
                self.notice = String::new();
                self.page = Page::Creator(
                    Wizard::new(
                        self.list.projects_dir.as_str(),
                        given.taken,
                        self.git.is_some(),
                    ),
                );
                Done { action: None, save: false, says: false, refresh: true }
            },
            Change::Back => {
                self.notice = String::new();
                self.page = Page::Home;
                Done { action: None, save: false, says: false, refresh: true }
            },
        }
    }

    /// What making what the form says comes to, with the template's place, or
    /// nothing with the reason under the form. `exists` is whether there is
    /// something at the target already.
    pub fn create(&mut self, exists: bool) -> (result: Option<(Plan, usize)>)
        ensures
            final(self).templates == old(self).templates,
            final(self).git == old(self).git,
            match old(self).view().page {
                Up::Home => result is None && final(self).view() == old(self).view(),
                Up::Creator(form) => if form.template >= old(self).templates@.len() {
                    &&& result is None
                    &&& final(self).view() == (State {
                        notice: "there is no template to make a project from"@,
                        ..old(self).view()
                    })
                } else {
                    match checked(form, exists) {
                        Ok(target) => {
                            &&& result is Some
                            &&& (result->0).1 == form.template
                            &&& (result->0).0.target@ == target
                            &&& (result->0).0.id@ == trimmed(form.id)
                            &&& (result->0).0.name@ == trimmed(form.name)
                            &&& (result->0).0.vcs_files == form.vcs_files
                            &&& (result->0).0.git_init == form.git_init
                            &&& final(self).view() == old(self).view()
                        },
                        Err(why) => {
                            &&& result is None
                            &&& final(self).view() == (State { notice: why, ..old(self).view() })
                        },
                    }
                },
            },
    {
        let (plan, template): (Result<Plan, String>, usize) = match &self.page {
            Page::Home => {
                return None;
            },
            Page::Creator(wizard) => (wizard.create(exists), wizard.template),
        };
        if template >= self.templates.len() {
            self.notice = "there is no template to make a project from".to_owned();
            return None;
        }
        match plan {
            Ok(plan) => Some((plan, template)),
            Err(why) => {
                self.notice = why;
                None
            },
        }
    }

    /// A project was made: it is put on the list, opened, and the list is up
    /// again. The folder it was made in is remembered where that was asked.
    pub fn created(&mut self, dir: &str, given: &Given) -> (result: Done)
        ensures
            final(self).templates == old(self).templates,
            final(self).git == old(self).git,
            (final(self).view(), result.view()) == made(
                old(self).view(),
                dir@,
                given.disk.view(),
                given.now,
            ),
    {
        let folder: Option<String> = match &self.page {
            Page::Creator(wizard) => if wizard.remember {
                Some(trim(wizard.location.as_str()))
            } else {
                None
            },
            Page::Home => None,
        };
        match folder {
            Some(folder) => {
                self.list.projects_dir = folder;
            },
            None => {},
        }
        self.list.add(dir, given.disk);
        self.list.opened(dir, given.now, given.disk);
        let save: bool = self.may_save();
        self.notice = String::new();
        self.page = Page::Home;
        Done { action: Some(Action::Open(dir.to_owned())), save, says: false, refresh: true }
    }

    /// Something could not be written: why is said under the page.
    pub fn failed(&mut self, why: &str)
        ensures
            final(self).view() == (State { notice: why@, ..old(self).view() }),
            final(self).templates == old(self).templates,
            final(self).git == old(self).git,
    {
        self.notice = why.to_owned();
    }

    /// Whether every project on the list is read from disk again: now because
    /// the list changed, or because so many milliseconds have gone by.
    pub fn due(force: bool, since: Option<u64>) -> (result: bool)
        ensures
            result == (force || since is None || since->0 >= 2000),
    {
        force || match since {
            None => true,
            Some(elapsed) => elapsed >= 2000,
        }
    }
}

/// A list file that could not be read is never written over: nothing that
/// happens writes it, whatever has happened before, and nothing that happens
/// mends it.
pub proof fn a_broken_file_is_left_alone(state: State, before: Seq<Event>, event: Event)
    requires
        state.broken is Some,
    ensures
        !happened(happened_all(state, before), event).1,
        happened_all(state, before.push(event)).broken == state.broken,
    decreases before.len(),
{
    assert(before.push(event).drop_last() =~= before);
    if before.len() > 0 {
        a_broken_file_is_left_alone(state, before.drop_last(), before.last());
        assert(before.drop_last().push(before.last()) =~= before);
    }
}

/// A project put on the list and opened is on it, opened at that moment.
pub proof fn what_is_made_is_on_the_list(list: Listed, disk: Places, dir: Seq<char>, now: u64)
    ensures
        ({
            let after = with_opened(with_added(list, disk, dir), disk, dir, now);
            &&& place_of(with_added(list, disk, dir).entries, disk, dir) is Some
            &&& after.entries[place_of(
                with_added(list, disk, dir).entries,
                disk,
                dir,
            )->0].last_opened == now
        }),
{
    crate::paths::one_place_is_fair(disk, dir, dir);
    crate::launcher::list::added_once(list, disk, dir, dir);
    crate::launcher::list::place_is_first(with_added(list, disk, dir).entries, disk, dir);
}

/// Pinning pins the project in that place and changes nothing else of it, of the
/// list or of any other; letting it go again gives back a list it was not pinned
/// on. Opening one notes the moment and nothing else.
pub proof fn pinning_and_opening_touch_one(
    list: Listed,
    disk: Places,
    path: Seq<char>,
    pinned: bool,
    now: u64,
)
    ensures
        ({
            let after = with_pinned(list, disk, path, pinned);
            let opened = with_opened(list, disk, path, now);
            let at = place_of(list.entries, disk, path);
            &&& after.projects_dir == list.projects_dir && after.sort == list.sort
            &&& opened.projects_dir == list.projects_dir && opened.sort == list.sort
            &&& after.entries.len() == list.entries.len()
            &&& opened.entries.len() == list.entries.len()
            &&& forall|i: int|
                0 <= i < list.entries.len() && at != Some(i) ==> #[trigger] after.entries[i]
                    == list.entries[i]
            &&& forall|i: int|
                0 <= i < list.entries.len() && at != Some(i) ==> #[trigger] opened.entries[i]
                    == list.entries[i]
            &&& at is Some ==> {
                let was = list.entries[at->0];
                let one = after.entries[at->0];
                let other = opened.entries[at->0];
                &&& one.pinned == pinned
                &&& one.path == was.path && one.last_opened == was.last_opened
                &&& other.last_opened == now
                &&& other.path == was.path && other.pinned == was.pinned
                &&& was.pinned != pinned ==> with_pinned(after, disk, path, !pinned) == list
            }
        }),
{
    crate::launcher::list::place_is_first(list.entries, disk, path);
    let at = place_of(list.entries, disk, path);
    if at is Some {
        let after = with_pinned(list, disk, path, pinned);
        crate::launcher::list::place_is_first(after.entries, disk, path);
        assert(after.entries[at->0].path == list.entries[at->0].path);
        let again = place_of(after.entries, disk, path);
        assert(again is Some) by {
            if again is None {
                assert(!one_place(disk, after.entries[at->0].path, path));
            }
        }
        assert(again == at) by {
            if again->0 < at->0 {
                assert(after.entries[again->0] == list.entries[again->0]);
                assert(!one_place(disk, list.entries[again->0].path, path));
            } else if again->0 > at->0 {
                assert(!one_place(disk, after.entries[at->0].path, path));
            }
        }
        if list.entries[at->0].pinned != pinned {
            assert(with_pinned(after, disk, path, !pinned).entries =~= list.entries);
        }
    }
}

/// What each press on the list comes to. Opening opens that project and no other
/// press opens any; a project is added only where its directory holds one, and
/// only once; the list is written exactly where a press changes what it says and
/// it may be written; going back puts the list up with nothing said under it; and
/// no press but the one for a new project or that one turns the page.
pub proof fn what_a_press_on_the_list_does(
    state: State,
    path: Seq<char>,
    holds: bool,
    pinned: bool,
    sort: Sort,
    disk: Places,
    now: u64,
)
    ensures
        ({
            let save = state.kept && state.broken is None;
            let listed = place_of(state.list.entries, disk, path) is Some;
            let (open, opening) = pressed(state, Pressed::Open(path), disk, now);
            let (pin, pinning) = pressed(state, Pressed::Pin(path, pinned), disk, now);
            let (gone, removing) = pressed(state, Pressed::Remove(path), disk, now);
            let (more, adding) = pressed(state, Pressed::Add(path, holds), disk, now);
            let (other, sorting) = pressed(state, Pressed::Sort(sort), disk, now);
            let (back, going) = pressed(state, Pressed::Back, disk, now);
            &&& opening.open == Some(path) && opening.save == save && open.list == with_opened(
                state.list,
                disk,
                path,
                now,
            ) && open.notice == state.notice
            &&& pinning.open is None && pinning.save == save && pin.notice == state.notice
                && pin.list == with_pinned(state.list, disk, path, pinned)
            &&& removing.open is None && removing.save == save && gone.list == with_removed(
                state.list,
                disk,
                path,
            )
            &&& !listed ==> gone == state
            &&& adding.open is None
            &&& holds && !listed ==> more.list.entries == state.list.entries.push(
                Kept { path, pinned: false, last_opened: 0 },
            ) && adding.save == save
            &&& !holds || listed ==> more.list == state.list && !adding.save
            &&& sorting.open is None && sorting.save == save && other.list.sort == sort
                && other.list.entries == state.list.entries && other.list.projects_dir
                == state.list.projects_dir
            &&& going.open is None && !going.save && back.page is Home && back.notice.len() == 0
                && back.list == state.list
            &&& open.page == state.page && pin.page == state.page && gone.page == state.page
                && more.page == state.page && other.page == state.page
            &&& pinning.refresh && removing.refresh && adding.refresh && sorting.refresh
        }),
{
}

/// A project that was made is opened, the list is up again with nothing said
/// under it, and new projects go where this one went from then on exactly where
/// that was asked.
pub proof fn what_making_a_project_does(state: State, dir: Seq<char>, disk: Places, now: u64)
    ensures
        ({
            let (then, left) = made(state, dir, disk, now);
            let asked = state.page is Creator && state.page->0.remember;
            let at = place_of(then.list.entries, disk, dir);
            &&& left.open == Some(dir)
            &&& left.save == (state.kept && state.broken is None)
            &&& then.page is Home
            &&& then.notice.len() == 0
            &&& asked ==> then.list.projects_dir == trimmed(state.page->0.location)
            &&& !asked ==> then.list.projects_dir == state.list.projects_dir
            &&& then.list.sort == state.list.sort
            &&& then.list.entries.len() == state.list.entries.len() + (if place_of(
                state.list.entries,
                disk,
                dir,
            ) is None {
                1int
            } else {
                0int
            })
            &&& exists|i: int|
                0 <= i < then.list.entries.len() && one_place(
                    disk,
                    (#[trigger] then.list.entries[i]).path,
                    dir,
                ) && then.list.entries[i].last_opened == now
        }),
{
    let (then, left) = made(state, dir, disk, now);
    let list = if state.page is Creator && state.page->0.remember {
        Listed { projects_dir: trimmed(state.page->0.location), ..state.list }
    } else {
        state.list
    };
    let added = with_added(list, disk, dir);
    what_is_made_is_on_the_list(list, disk, dir, now);
    crate::launcher::list::place_is_first(added.entries, disk, dir);
    let at = place_of(added.entries, disk, dir)->0;
    assert(then.list.entries[at].last_opened == now);
    assert(then.list.entries[at].path == added.entries[at].path);
}

/// A project file stands for the directory it is in, and every other path for
/// itself.
pub proof fn a_project_file_means_its_directory(dir: Seq<char>, name: Seq<char>)
    requires
        name.len() > 0,
        !name.contains('/'),
        name != seq!['.'],
        name != seq!['.', '.'],
    ensures
        ({
            let path = dir + seq!['/'] + name;
            &&& name == "colby.project"@ ==> dir_meant(path, true) == held_by(path)
            &&& name != "colby.project"@ ==> dir_meant(path, true) == path
            &&& dir_meant(path, false) == path
        }),
{
    crate::paths::the_last_piece_is_the_name(dir, name);
}

} // verus!
