//! The projects a person has, as one small file of their own.
//!
//! Paths and two flags, and nothing that is already on disk: a project's name
//! and id live in its own file and are handed in every time the list is
//! shown. What the file keeps is what the disk cannot know: which projects
//! this person cares about, which are pinned, and when each was last opened.
//!
//! ```text
//! {
//!   "schema": 1,
//!   "projects_dir": "C:/Users/somebody/Documents/colby projects",
//!   "sort": "recent",
//!   "projects": [
//!     { "path": "C:/Users/somebody/Documents/colby projects/yard", "pinned": true, "last_opened": 1788000000 }
//!   ]
//! }
//! ```

use std::time::Duration;
use vstd::prelude::*;
use vstd::string::*;
use crate::json::{
    all_blank, digits_spell, digits_spell_number, field, list, list_spells, list_text, member_views,
    object, object_spells, object_text, parse, parsed, quoted, quoted_text, quotes_spell, said_bool,
    said_items, said_list, said_members, said_text, spelled_parses, spells, text_views, truth, truth_spells,
    truth_text, whole, Json, Value,
};
use crate::order::{comparison, in_order, orders, rank, ranked, ranked_in_order, ranked_keeps, ranked_views, Ordered};
use crate::paths::{
    file_name, held_by, join, last_name, one_place, parent, path_before, path_sooner, same_place, steps,
    steps_carry, steps_decide, under, Disk,
};
use crate::text::{
    alike_in_case, all_plain, before, blank, contains, debug, debugged, decimal, digits, holds,
    lowered, plus, same, sooner, sooner_carries, sooner_decides, spaces_around_go, swap_char,
    swapped, trim, trimmed, trimming_minds_no_case,
};

verus! {

/// The file's name, under the per-user directory.
pub const FILE: &'static str = "projects.json";

/// The shape of the file this build writes and reads.
pub const SCHEMA: u32 = 1;

/// The per-user directory, under the platform's config directory.
pub const DIRECTORY: &'static str = "colby";

/// The folder new projects are made in unless somebody says otherwise, under
/// the person's documents.
pub const PROJECTS_FOLDER: &'static str = "colby projects";

/// How the list is ordered on screen.
#[derive(Clone, Copy, Debug, PartialEq, Eq, Structural)]
pub enum Sort {
    /// The most recently opened first.
    Recent,
    /// By name.
    Name,
}

impl Default for Sort {
    fn default() -> (result: Sort)
        ensures
            result == Sort::Recent,
    {
        Sort::Recent
    }
}

impl Sort {
    /// Every order, in the order the menu lists them.
    pub const ALL: [Sort; 2] = [Sort::Recent, Sort::Name];

    /// The word the file and the menu use.
    pub open spec fn said(self) -> Seq<char> {
        match self {
            Sort::Recent => "recent"@,
            Sort::Name => "name"@,
        }
    }

    /// The word the file and the menu use.
    pub fn word(self) -> (result: &'static str)
        ensures
            result@ == self.said(),
    {
        match self {
            Sort::Recent => "recent",
            Sort::Name => "name",
        }
    }

    /// The order a word names, if it names one.
    pub fn from_word(word: &str) -> (result: Option<Sort>)
        ensures
            result == sort_of(word@),
    {
        if same(word, "recent") {
            Some(Sort::Recent)
        } else if same(word, "name") {
            Some(Sort::Name)
        } else {
            None
        }
    }
}

/// The order a word names, if it names one.
pub open spec fn sort_of(word: Seq<char>) -> Option<Sort> {
    if word == Sort::Recent.said() {
        Some(Sort::Recent)
    } else if word == Sort::Name.said() {
        Some(Sort::Name)
    } else {
        None
    }
}

/// An order is the one its own word names, and no other word names it.
pub proof fn sort_words_name_sorts(sort: Sort, word: Seq<char>)
    ensures
        sort_of(sort.said()) == Some(sort),
        sort_of(word) == Some(sort) ==> word == sort.said(),
{
    reveal_strlit("recent");
    reveal_strlit("name");
    assert("recent"@.len() == 6);
    assert("name"@.len() == 4);
}

/// One project on the list: where it is, and the two things the disk cannot
/// know about it.
#[derive(Clone, Debug, PartialEq, Eq)]
pub struct Entry {
    /// The directory holding its project file.
    pub path: String,
    /// Whether it is shown at the top.
    pub pinned: bool,
    /// When it was last opened from here, in seconds since the epoch; nought
    /// for never.
    pub last_opened: u64,
}

/// What an entry says.
pub ghost struct Kept {
    pub path: Seq<char>,
    pub pinned: bool,
    pub last_opened: u64,
}

impl Entry {
    /// What the entry says.
    pub open spec fn view(&self) -> Kept {
        Kept { path: self.path@, pinned: self.pinned, last_opened: self.last_opened }
    }

    /// The same entry again.
    pub fn copy(&self) -> (result: Entry)
        ensures
            result.view() == self.view(),
    {
        Entry { path: self.path.clone(), pinned: self.pinned, last_opened: self.last_opened }
    }
}

/// What several entries say.
pub open spec fn kept_all(entries: Seq<Entry>) -> Seq<Kept> {
    Seq::new(entries.len(), |i: int| entries[i].view())
}

/// The list, as the file describes it.
#[derive(Clone, Debug, PartialEq, Eq)]
pub struct List {
    /// Where the wizard makes a project unless told otherwise.
    pub projects_dir: String,
    /// How the list is ordered on screen.
    pub sort: Sort,
    /// Every project on it, in the order the file has them.
    pub entries: Vec<Entry>,
}

/// What a list says.
pub ghost struct Listed {
    pub projects_dir: Seq<char>,
    pub sort: Sort,
    pub entries: Seq<Kept>,
}

/// Why a text is not a list.
#[derive(Debug)]
pub enum ListError {
    /// It is not JSON.
    NotJson,
    /// It has a field no list has.
    Field(String),
    /// It does not say its schema.
    Schema,
    /// Its schema is one this build does not read.
    Newer(u32),
    /// The folder for new projects is not text.
    Folder,
    /// The order is not a word.
    Word,
    /// The order is a word no order has.
    Order(String),
    /// A project has a field no project has.
    EntryField(String),
    /// A project has no path.
    Path,
    /// Whether a project is pinned is not a truth.
    Pinned,
    /// When a project was opened is not a whole number.
    Opened,
    /// The projects are not a list.
    Projects,
}

/// Why a text is not a list, as a value of specifications.
pub ghost enum Refused {
    NotJson,
    Field(Seq<char>),
    Schema,
    Newer(u32),
    Folder,
    Word,
    Order(Seq<char>),
    EntryField(Seq<char>),
    Path,
    Pinned,
    Opened,
    Projects,
}

impl ListError {
    /// Why.
    pub open spec fn view(&self) -> Refused {
        match self {
            ListError::NotJson => Refused::NotJson,
            ListError::Field(name) => Refused::Field(name@),
            ListError::Schema => Refused::Schema,
            ListError::Newer(schema) => Refused::Newer(*schema),
            ListError::Folder => Refused::Folder,
            ListError::Word => Refused::Word,
            ListError::Order(word) => Refused::Order(word@),
            ListError::EntryField(name) => Refused::EntryField(name@),
            ListError::Path => Refused::Path,
            ListError::Pinned => Refused::Pinned,
            ListError::Opened => Refused::Opened,
            ListError::Projects => Refused::Projects,
        }
    }

    /// The reason in words.
    pub fn words(&self) -> (result: String)
        ensures
            result@ == refusal(self.view()),
    {
        match self {
            ListError::NotJson => "the text is not JSON".to_owned(),
            ListError::Field(name) => plus("the project list has no field called ", name.as_str()),
            ListError::Schema => "the project list needs a schema number".to_owned(),
            ListError::Newer(schema) => {
                let number: String = decimal(*schema as u64);
                let start: String = plus(
                    "the project list was written by a newer engine: schema ",
                    number.as_str(),
                );
                let reads: String = plus(", and this build reads ", decimal(SCHEMA as u64).as_str());
                plus(start.as_str(), reads.as_str())
            },
            ListError::Folder => "the project list's projects_dir has to be text".to_owned(),
            ListError::Word => "the project list's sort has to be a word".to_owned(),
            ListError::Order(word) => plus(
                debug(word.as_str()).as_str(),
                " is not an order the list knows",
            ),
            ListError::EntryField(name) => plus(
                "a project on the list has no field called ",
                name.as_str(),
            ),
            ListError::Path => "a project on the list needs a path".to_owned(),
            ListError::Pinned => "a project's pinned has to be true or false".to_owned(),
            ListError::Opened => "a project's last_opened has to be a whole number".to_owned(),
            ListError::Projects => "the project list's projects has to be a list".to_owned(),
        }
    }
}

/// A refusal in words.
pub open spec fn refusal(why: Refused) -> Seq<char> {
    match why {
        Refused::NotJson => "the text is not JSON"@,
        Refused::Field(name) => "the project list has no field called "@ + name,
        Refused::Schema => "the project list needs a schema number"@,
        Refused::Newer(schema) => "the project list was written by a newer engine: schema "@
            + digits(schema as nat) + (", and this build reads "@ + digits(SCHEMA as nat)),
        Refused::Folder => "the project list's projects_dir has to be text"@,
        Refused::Word => "the project list's sort has to be a word"@,
        Refused::Order(word) => debugged(word) + " is not an order the list knows"@,
        Refused::EntryField(name) => "a project on the list has no field called "@ + name,
        Refused::Path => "a project on the list needs a path"@,
        Refused::Pinned => "a project's pinned has to be true or false"@,
        Refused::Opened => "a project's last_opened has to be a whole number"@,
        Refused::Projects => "the project list's projects has to be a list"@,
    }
}

/// Whether the list has a field of this name.
pub open spec fn list_field(name: Seq<char>) -> bool {
    ||| name == "schema"@
    ||| name == "projects_dir"@
    ||| name == "sort"@
    ||| name == "projects"@
}

/// Whether a project on the list has a field of this name.
pub open spec fn entry_field(name: Seq<char>) -> bool {
    ||| name == "path"@
    ||| name == "pinned"@
    ||| name == "last_opened"@
}

/// The first name that is none of those allowed.
pub open spec fn stranger(
    members: Seq<(Seq<char>, Json)>,
    allowed: spec_fn(Seq<char>) -> bool,
) -> Option<Seq<char>>
    decreases members.len(),
{
    if members.len() == 0 {
        None
    } else if !allowed(members[0].0) {
        Some(members[0].0)
    } else {
        stranger(members.drop_first(), allowed)
    }
}

/// The project an item of the list is: a field that is there is what it has
/// to be, and one that is not takes its default.
pub open spec fn entry_of(item: Json) -> Result<Kept, Refused> {
    match stranger(said_members(item), |name: Seq<char>| entry_field(name)) {
        Some(name) => Err(Refused::EntryField(name)),
        None => {
            let path = match field(item, "path"@) {
                Some(said) => said_text(said),
                None => None,
            };
            let pinned = match field(item, "pinned"@) {
                Some(said) => said_bool(said),
                None => Some(false),
            };
            let opened = match field(item, "last_opened"@) {
                Some(said) => whole(said, u64::MAX as nat),
                None => Some(0),
            };
            if path is None || path->0.len() == 0 {
                Err(Refused::Path)
            } else if pinned is None {
                Err(Refused::Pinned)
            } else if opened is None {
                Err(Refused::Opened)
            } else {
                Ok(Kept { path: path->0, pinned: pinned->0, last_opened: opened->0 as u64 })
            }
        },
    }
}

/// The projects the items of the list are, up to the first that is none.
pub open spec fn entries_of(items: Seq<Json>) -> Result<Seq<Kept>, Refused>
    decreases items.len(),
{
    if items.len() == 0 {
        Ok(Seq::empty())
    } else {
        match entries_of(items.drop_last()) {
            Err(why) => Err(why),
            Ok(so_far) => match entry_of(items.last()) {
                Err(why) => Err(why),
                Ok(entry) => Ok(so_far.push(entry)),
            },
        }
    }
}

/// What a list file comes to, by what was found there.
pub open spec fn loaded(
    file: Seq<char>,
    found: Option<Result<Seq<char>, Seq<char>>>,
    fallback: Seq<char>,
) -> Result<Listed, Seq<char>> {
    match found {
        None => Ok(Listed { projects_dir: fallback, sort: Sort::Recent, entries: Seq::empty() }),
        Some(Ok(text)) => match list_of(text, fallback) {
            Ok(list) => Ok(list),
            Err(why) => Err(file + ": "@ + refusal(why)),
        },
        Some(Err(why)) => Err(file + " cannot be read: "@ + why),
    }
}

/// What is saved is loaded again: the text of a list is loaded as the same list,
/// its paths spelled with forward slashes, whatever the file is called; and a
/// file that is not there is a list with nothing on it.
pub proof fn what_is_saved_is_loaded(list: Listed, file: Seq<char>, fallback: Seq<char>)
    requires
        forall|i: int| 0 <= i < list.entries.len() ==> (#[trigger] list.entries[i]).path.len() > 0,
    ensures
        loaded(file, Some(Ok(list_written(list))), fallback) == Ok::<Listed, Seq<char>>(
            list_respelled(list),
        ),
        loaded(file, None, fallback)->Ok_0.entries.len() == 0,
{
    a_list_reads_back(list, fallback);
}

/// What is said of a list file that could not be written.
pub fn unsaved(file: &str, why: &str) -> (result: String)
    ensures
        result@ == file@ + " cannot be written: "@ + why@,
{
    let head: String = plus(file, " cannot be written: ");
    plus(head.as_str(), why)
}

/// The list a text is, or why it is none.
pub open spec fn list_of(text: Seq<char>, fallback: Seq<char>) -> Result<Listed, Refused> {
    match parsed(text) {
        None => Err(Refused::NotJson),
        Some(said) => list_said(said, fallback),
    }
}

/// The list a value is, or why it is none: the first reason in the order
/// the fields are asked for.
pub open spec fn list_said(said: Json, fallback: Seq<char>) -> Result<Listed, Refused> {
    match stranger(said_members(said), |name: Seq<char>| list_field(name)) {
        Some(name) => Err(Refused::Field(name)),
        None => {
            let schema = match field(said, "schema"@) {
                Some(number) => whole(number, u32::MAX as nat),
                None => None,
            };
            let folder = match field(said, "projects_dir"@) {
                Some(dir) => said_text(dir),
                None => Some(fallback),
            };
            let word = match field(said, "sort"@) {
                Some(word) => said_text(word),
                None => Some(Sort::Recent.said()),
            };
            let items = match field(said, "projects"@) {
                Some(items) => said_list(items),
                None => Some(Seq::empty()),
            };
            if schema is None {
                Err(Refused::Schema)
            } else if schema->0 > SCHEMA {
                Err(Refused::Newer(schema->0 as u32))
            } else if folder is None {
                Err(Refused::Folder)
            } else if word is None {
                Err(Refused::Word)
            } else if sort_of(word->0) is None {
                Err(Refused::Order(word->0))
            } else if items is None {
                Err(Refused::Projects)
            } else {
                match entries_of(items->0) {
                    Err(why) => Err(why),
                    Ok(entries) => Ok(
                        Listed { projects_dir: folder->0, sort: sort_of(word->0)->0, entries },
                    ),
                }
            }
        },
    }
}

/// The first name an object has that a list has not.
fn strange_field(value: &Value) -> (result: Option<String>)
    ensures
        match stranger(said_members(value.view()), |name: Seq<char>| list_field(name)) {
            None => result is None,
            Some(name) => result is Some && result->0@ == name,
        },
{
    let ghost all = said_members(value.view());
    let ghost allowed = |name: Seq<char>| list_field(name);
    let mut i: usize = 0;
    assert(all.skip(0) =~= all);
    while i < value.width()
        invariant
            i <= all.len(),
            all == said_members(value.view()),
            allowed == (|name: Seq<char>| list_field(name)),
            stranger(all, allowed) == stranger(all.skip(i as int), allowed),
        decreases all.len() - i,
    {
        assert(all.skip(i as int)[0] == all[i as int]);
        assert(all.skip(i as int).drop_first() =~= all.skip(i as int + 1));
        let name: &str = value.name(i);
        if !(same(name, "schema") || same(name, "projects_dir") || same(name, "sort") || same(
            name,
            "projects",
        )) {
            return Some(name.to_owned());
        }
        i = i + 1;
    }
    None
}

/// The first name an object has that a project on the list has not.
fn strange_entry_field(value: &Value) -> (result: Option<String>)
    ensures
        match stranger(said_members(value.view()), |name: Seq<char>| entry_field(name)) {
            None => result is None,
            Some(name) => result is Some && result->0@ == name,
        },
{
    let ghost all = said_members(value.view());
    let ghost allowed = |name: Seq<char>| entry_field(name);
    let mut i: usize = 0;
    assert(all.skip(0) =~= all);
    while i < value.width()
        invariant
            i <= all.len(),
            all == said_members(value.view()),
            allowed == (|name: Seq<char>| entry_field(name)),
            stranger(all, allowed) == stranger(all.skip(i as int), allowed),
        decreases all.len() - i,
    {
        assert(all.skip(i as int)[0] == all[i as int]);
        assert(all.skip(i as int).drop_first() =~= all.skip(i as int + 1));
        let name: &str = value.name(i);
        if !(same(name, "path") || same(name, "pinned") || same(name, "last_opened")) {
            return Some(name.to_owned());
        }
        i = i + 1;
    }
    None
}

/// Reads one project of the list.
fn read_entry(item: &Value) -> (result: Result<Entry, ListError>)
    ensures
        match entry_of(item.view()) {
            Ok(entry) => result is Ok && result->Ok_0.view() == entry,
            Err(why) => result is Err && result->Err_0.view() == why,
        },
{
    match strange_entry_field(item) {
        Some(name) => Err(ListError::EntryField(name)),
        None => {
            let path: Option<&str> = match item.get("path") {
                Some(said) => said.as_str(),
                None => None,
            };
            match path {
                None => Err(ListError::Path),
                Some(path) => {
                    if path.is_empty() {
                        return Err(ListError::Path);
                    }
                    let pinned: bool = match item.get("pinned") {
                        Some(said) => match said.as_bool() {
                            Some(pinned) => pinned,
                            None => {
                                return Err(ListError::Pinned);
                            },
                        },
                        None => false,
                    };
                    let last_opened: u64 = match item.get("last_opened") {
                        Some(said) => match said.as_u64() {
                            Some(when) => when,
                            None => {
                                return Err(ListError::Opened);
                            },
                        },
                        None => 0,
                    };
                    Ok(Entry { path: path.to_owned(), pinned, last_opened })
                },
            }
        },
    }
}

/// Reads the projects of the list.
fn read_entries(held: Option<&Value>) -> (result: Result<Vec<Entry>, ListError>)
    ensures
        match entries_of(
            match held {
                Some(items) => said_items(items.view()),
                None => Seq::empty(),
            },
        ) {
            Ok(entries) => result is Ok && kept_all(result->Ok_0@) == entries,
            Err(why) => result is Err && result->Err_0.view() == why,
        },
{
    let mut entries: Vec<Entry> = Vec::new();
    assert(kept_all(entries@) =~= Seq::empty());
    match held {
        None => Ok(entries),
        Some(items) => {
            let ghost all = said_items(items.view());
            let mut i: usize = 0;
            assert(all.take(0) =~= Seq::empty());
            while i < items.count()
                invariant
                    i <= all.len(),
                    held == Some(items),
                    all == said_items(items.view()),
                    entries_of(all.take(i as int)) == Ok::<Seq<Kept>, Refused>(kept_all(entries@)),
                decreases all.len() - i,
            {
                let ghost was = kept_all(entries@);
                proof {
                    assert(all.take(i as int + 1).drop_last() =~= all.take(i as int));
                    assert(all.take(i as int + 1).last() == all[i as int]);
                }
                match read_entry(items.item(i)) {
                    Err(why) => {
                        proof {
                            refused_early(all, i as int + 1);
                        }
                        return Err(why);
                    },
                    Ok(entry) => {
                        let ghost one = entry.view();
                        entries.push(entry);
                        assert(kept_all(entries@) =~= was.push(one));
                    },
                }
                i = i + 1;
            }
            assert(all.take(i as int) =~= all);
            Ok(entries)
        },
    }
}

/// A list refused for its first items is refused for the same reason with
/// more behind them.
proof fn refused_early(items: Seq<Json>, count: int)
    requires
        0 <= count <= items.len(),
        entries_of(items.take(count)) is Err,
    ensures
        entries_of(items) == entries_of(items.take(count)),
    decreases items.len(),
{
    if count < items.len() {
        assert(items.drop_last().take(count) =~= items.take(count));
        refused_early(items.drop_last(), count);
    } else {
        assert(items.take(count) =~= items);
    }
}

impl List {
    /// What the list says.
    pub open spec fn view(&self) -> Listed {
        Listed {
            projects_dir: self.projects_dir@,
            sort: self.sort,
            entries: kept_all(self.entries@),
        }
    }

    /// An empty list, making projects under a folder.
    pub fn new(projects_dir: &str) -> (result: List)
        ensures
            result.view() == (Listed {
                projects_dir: projects_dir@,
                sort: Sort::Recent,
                entries: Seq::empty(),
            }),
    {
        let result: List = List {
            projects_dir: projects_dir.to_owned(),
            sort: Sort::Recent,
            entries: Vec::new(),
        };
        assert(result.view().entries =~= Seq::empty());
        result
    }

    /// Reads the file's text. `fallback_dir` is the folder new projects go in
    /// when the file names none.
    pub fn read(text: &str, fallback_dir: &str) -> (result: Result<List, ListError>)
        ensures
            match list_of(text@, fallback_dir@) {
                Ok(list) => result is Ok && result->Ok_0.view() == list,
                Err(why) => result is Err && result->Err_0.view() == why,
            },
    {
        let value: Value = match parse(text) {
            None => {
                return Err(ListError::NotJson);
            },
            Some(value) => value,
        };
        match strange_field(&value) {
            Some(name) => {
                return Err(ListError::Field(name));
            },
            None => {},
        }
        let schema: u32 = match value.get("schema") {
            None => {
                return Err(ListError::Schema);
            },
            Some(number) => match number.as_u32() {
                None => {
                    return Err(ListError::Schema);
                },
                Some(schema) => schema,
            },
        };
        if schema > SCHEMA {
            return Err(ListError::Newer(schema));
        }
        let projects_dir: String = match value.get("projects_dir") {
            None => fallback_dir.to_owned(),
            Some(dir) => match dir.as_str() {
                None => {
                    return Err(ListError::Folder);
                },
                Some(dir) => dir.to_owned(),
            },
        };
        let sort: Sort = match value.get("sort") {
            None => {
                proof {
                    sort_words_name_sorts(Sort::Recent, Seq::empty());
                }
                Sort::Recent
            },
            Some(word) => match word.as_str() {
                None => {
                    return Err(ListError::Word);
                },
                Some(word) => match Sort::from_word(word) {
                    None => {
                        return Err(ListError::Order(word.to_owned()));
                    },
                    Some(sort) => sort,
                },
            },
        };
        let projects: Option<&Value> = value.get("projects");
        match projects {
            Some(items) => {
                if !items.is_list() {
                    return Err(ListError::Projects);
                }
            },
            None => {},
        }
        match read_entries(projects) {
            Err(why) => Err(why),
            Ok(entries) => Ok(List { projects_dir, sort, entries }),
        }
    }
}

/// A path as text, with forward slashes.
pub open spec fn slashed(path: Seq<char>) -> Seq<char> {
    swapped(path, '\\', '/')
}

/// A path as text, with forward slashes: what the file holds and what a row
/// shows, the same on every platform.
pub fn spelled(path: &str) -> (result: String)
    ensures
        result@ == slashed(path@),
{
    swap_char(path, '\\', '/')
}

/// The fields of one project, as the file writes them.
pub open spec fn entry_members(entry: Kept) -> Seq<(Seq<char>, Seq<char>)> {
    seq![
        ("path"@, quoted_text(slashed(entry.path))),
        ("pinned"@, truth_text(entry.pinned)),
        ("last_opened"@, digits(entry.last_opened as nat)),
    ]
}

/// One project, as the file writes it.
pub open spec fn entry_text(entry: Kept) -> Seq<char> {
    object_text(" "@, " "@, " "@, entry_members(entry))
}

/// The projects, as the file writes them.
pub open spec fn entries_text(entries: Seq<Kept>) -> Seq<char> {
    list_text(
        "\n\t\t"@,
        "\n\t\t"@,
        "\n\t"@,
        Seq::new(entries.len(), |i: int| entry_text(entries[i])),
    )
}

/// The fields of the list, as the file writes them.
pub open spec fn list_members(list: Listed) -> Seq<(Seq<char>, Seq<char>)> {
    seq![
        ("schema"@, digits(SCHEMA as nat)),
        ("projects_dir"@, quoted_text(slashed(list.projects_dir))),
        ("sort"@, quoted_text(list.sort.said())),
        ("projects"@, entries_text(list.entries)),
    ]
}

/// The file's text.
pub open spec fn list_written(list: Listed) -> Seq<char> {
    object_text("\n\t"@, "\n\t"@, "\n"@, list_members(list)) + "\n"@
}

/// One project, as the file writes it.
fn write_entry(entry: &Entry) -> (result: String)
    ensures
        result@ == entry_text(entry.view()),
{
    let mut members: Vec<(String, String)> = Vec::new();
    members.push(("path".to_owned(), quoted(spelled(entry.path.as_str()).as_str())));
    members.push(("pinned".to_owned(), truth(entry.pinned)));
    members.push(("last_opened".to_owned(), decimal(entry.last_opened)));
    assert(member_views(members@) =~= entry_members(entry.view()));
    object(" ", " ", " ", &members)
}

impl List {
    /// The list out of a file, by what was found there: nothing, which is what
    /// a first run finds, why it could not be read, or its text.
    pub fn load(file: &str, found: Option<Result<String, String>>, fallback: &str) -> (result: Result<
        List,
        String,
    >)
        ensures
            match loaded(
                file@,
                match found {
                    None => None,
                    Some(Ok(text)) => Some(Ok(text@)),
                    Some(Err(why)) => Some(Err(why@)),
                },
                fallback@,
            ) {
                Ok(list) => result is Ok && result->Ok_0.view() == list,
                Err(why) => result is Err && result->Err_0@ == why,
            },
    {
        match found {
            None => Ok(List::new(fallback)),
            Some(Ok(text)) => match List::read(text.as_str(), fallback) {
                Ok(list) => Ok(list),
                Err(error) => {
                    let head: String = plus(file, ": ");
                    Err(plus(head.as_str(), error.words().as_str()))
                },
            },
            Some(Err(why)) => {
                let head: String = plus(file, " cannot be read: ");
                Err(plus(head.as_str(), why.as_str()))
            },
        }
    }

    /// What saving the list to a file comes to: the directory that is to be
    /// there, and the text that goes in the file.
    pub fn save(&self, file: &str) -> (result: (String, String))
        ensures
            result.0@ == held_by(file@),
            result.1@ == list_written(self.view()),
    {
        (parent(file), self.write())
    }

    /// The file's text.
    pub fn write(&self) -> (result: String)
        ensures
            result@ == list_written(self.view()),
    {
        let mut rows: Vec<String> = Vec::new();
        let ghost entries = self.view().entries;
        let ghost texts = Seq::new(entries.len(), |i: int| entry_text(entries[i]));
        let mut i: usize = 0;
        while i < self.entries.len()
            invariant
                i <= self.entries@.len(),
                entries == kept_all(self.entries@),
                texts == Seq::new(entries.len(), |i: int| entry_text(entries[i])),
                text_views(rows@) == texts.take(i as int),
            decreases self.entries@.len() - i,
        {
            let row: String = write_entry(&self.entries[i]);
            let ghost was = text_views(rows@);
            rows.push(row);
            assert(text_views(rows@) =~= was.push(texts[i as int]));
            assert(texts.take(i as int + 1) =~= texts.take(i as int).push(texts[i as int]));
            i = i + 1;
        }
        assert(texts.take(i as int) =~= texts);
        let mut members: Vec<(String, String)> = Vec::new();
        members.push(("schema".to_owned(), decimal(SCHEMA as u64)));
        members.push(("projects_dir".to_owned(), quoted(spelled(self.projects_dir.as_str()).as_str())));
        members.push(("sort".to_owned(), quoted(self.sort.word())));
        members.push(("projects".to_owned(), list("\n\t\t", "\n\t\t", "\n\t", &rows)));
        assert(member_views(members@) =~= list_members(self.view()));
        plus(object("\n\t", "\n\t", "\n", &members).as_str(), "\n")
    }
}

/// The layout the file is written with is blanks.
proof fn layout_is_blank()
    ensures
        all_blank(" "@),
        all_blank("\n"@),
        all_blank("\n\t"@),
        all_blank("\n\t\t"@),
{
    reveal_strlit(" ");
    reveal_strlit("\n");
    reveal_strlit("\n\t");
    reveal_strlit("\n\t\t");
}

/// What is said of one project.
spec fn entry_tree(entry: Kept) -> Seq<Json> {
    seq![
        Json::Text(slashed(entry.path)),
        Json::Bool(entry.pinned),
        Json::Number(digits(entry.last_opened as nat)),
    ]
}

/// A project with its path spelled as the file spells it.
pub open spec fn respelled(entry: Kept) -> Kept {
    Kept { path: slashed(entry.path), ..entry }
}

/// A list with its paths spelled as the file spells them.
pub open spec fn list_respelled(list: Listed) -> Listed {
    Listed {
        projects_dir: slashed(list.projects_dir),
        sort: list.sort,
        entries: Seq::new(list.entries.len(), |i: int| respelled(list.entries[i])),
    }
}

/// The names of the fields of a project differ.
proof fn entry_names_differ()
    ensures
        "path"@ != "pinned"@,
        "path"@ != "last_opened"@,
        "pinned"@ != "last_opened"@,
{
    reveal_strlit("path");
    reveal_strlit("pinned");
    reveal_strlit("last_opened");
    assert("path"@.len() == 4);
    assert("pinned"@.len() == 6);
    assert("last_opened"@.len() == 11);
}

/// The names of the fields of the list differ.
proof fn list_names_differ()
    ensures
        "schema"@ != "projects_dir"@,
        "schema"@ != "sort"@,
        "schema"@ != "projects"@,
        "projects_dir"@ != "sort"@,
        "projects_dir"@ != "projects"@,
        "sort"@ != "projects"@,
{
    reveal_strlit("schema");
    reveal_strlit("projects_dir");
    reveal_strlit("sort");
    reveal_strlit("projects");
    assert("schema"@.len() == 6);
    assert("projects_dir"@.len() == 12);
    assert("sort"@.len() == 4);
    assert("projects"@.len() == 8);
}

/// What is written of a project reads back as it.
proof fn entry_returns(entry: Kept)
    requires
        entry.path.len() > 0,
    ensures
        spells(
            entry_text(entry),
            Json::Object(crate::json::named(entry_members(entry), entry_tree(entry))),
        ),
        entry_of(
            Json::Object(crate::json::named(entry_members(entry), entry_tree(entry))),
        ) == Ok::<Kept, Refused>(respelled(entry)),
{
    let members = entry_members(entry);
    let tree = entry_tree(entry);
    layout_is_blank();
    quotes_spell(slashed(entry.path));
    truth_spells(entry.pinned);
    digits_spell_number(entry.last_opened as nat);
    assert forall|i: int| 0 <= i < members.len() implies spells(
        #[trigger] members[i].1,
        tree[i],
    ) by {
        assert(i == 0 || i == 1 || i == 2);
    }
    object_spells(" "@, " "@, " "@, members, tree);
    entry_names_differ();
    let all = crate::json::named(members, tree);
    assert(all.len() == 3);
    assert(all[0] == ("path"@, tree[0]));
    assert(all[1] == ("pinned"@, tree[1]));
    assert(all[2] == ("last_opened"@, tree[2]));
    let one = all.drop_first();
    let two = one.drop_first();
    let three = two.drop_first();
    assert(one[0] == all[1] && two[0] == all[2] && three.len() == 0);
    let said = Json::Object(all);
    let allowed = |name: Seq<char>| entry_field(name);
    assert(stranger(three, allowed) is None);
    assert(stranger(two, allowed) is None);
    assert(stranger(one, allowed) is None);
    assert(stranger(all, allowed) is None);
    assert(field(said, "path"@) == Some(tree[0]));
    assert(crate::json::first_named(one, "pinned"@) == Some(tree[1]));
    assert(field(said, "pinned"@) == Some(tree[1]));
    assert(crate::json::first_named(two, "last_opened"@) == Some(tree[2]));
    assert(crate::json::first_named(one, "last_opened"@) == Some(tree[2]));
    assert(field(said, "last_opened"@) == Some(tree[2]));
    digits_spell(entry.last_opened as nat);
    assert(whole(tree[2], u64::MAX as nat) == Some(entry.last_opened as nat));
    assert(slashed(entry.path).len() == entry.path.len());
}

/// What is said of the projects, item by item.
spec fn entries_tree(entries: Seq<Kept>) -> Seq<Json> {
    Seq::new(
        entries.len(),
        |i: int|
            Json::Object(crate::json::named(entry_members(entries[i]), entry_tree(entries[i]))),
    )
}

/// What is written of the projects reads back as them.
proof fn entries_return(entries: Seq<Kept>)
    requires
        forall|i: int| 0 <= i < entries.len() ==> (#[trigger] entries[i]).path.len() > 0,
    ensures
        entries_of(entries_tree(entries)) == Ok::<Seq<Kept>, Refused>(
            Seq::new(entries.len(), |i: int| respelled(entries[i])),
        ),
    decreases entries.len(),
{
    let tree = entries_tree(entries);
    let back = Seq::new(entries.len(), |i: int| respelled(entries[i]));
    if entries.len() == 0 {
        assert(tree =~= Seq::empty());
        assert(back =~= Seq::empty());
    } else {
        let less = entries.drop_last();
        assert forall|i: int| 0 <= i < less.len() implies (#[trigger] less[i]).path.len() > 0 by {
            assert(less[i] == entries[i]);
        }
        entries_return(less);
        assert(tree.drop_last() =~= entries_tree(less));
        assert(entries[entries.len() - 1].path.len() > 0);
        entry_returns(entries.last());
        assert(back =~= Seq::new(less.len(), |i: int| respelled(less[i])).push(
            respelled(entries.last()),
        ));
    }
}

/// What is said of a list, field by field.
spec fn list_tree(list: Listed) -> Seq<Json> {
    seq![
        Json::Number(digits(SCHEMA as nat)),
        Json::Text(slashed(list.projects_dir)),
        Json::Text(list.sort.said()),
        Json::List(entries_tree(list.entries)),
    ]
}

/// What is written of a list reads as what is said of it.
proof fn list_parses(list: Listed)
    requires
        forall|i: int| 0 <= i < list.entries.len() ==> (#[trigger] list.entries[i]).path.len() > 0,
    ensures
        parsed(list_written(list)) == Some(
            Json::Object(crate::json::named(list_members(list), list_tree(list))),
        ),
{
    let entries = list.entries;
    let texts = Seq::new(entries.len(), |i: int| entry_text(entries[i]));
    let items = entries_tree(entries);
    layout_is_blank();
    assert forall|i: int| 0 <= i < texts.len() implies spells(#[trigger] texts[i], items[i]) by {
        assert(entries[i].path.len() > 0);
        entry_returns(entries[i]);
    }
    list_spells("\n\t\t"@, "\n\t\t"@, "\n\t"@, texts, items);
    let members = list_members(list);
    let tree = list_tree(list);
    digits_spell_number(SCHEMA as nat);
    quotes_spell(slashed(list.projects_dir));
    quotes_spell(list.sort.said());
    assert forall|i: int| 0 <= i < members.len() implies spells(
        #[trigger] members[i].1,
        tree[i],
    ) by {
        assert(i == 0 || i == 1 || i == 2 || i == 3);
    }
    object_spells("\n\t"@, "\n\t"@, "\n"@, members, tree);
    spelled_parses(
        object_text("\n\t"@, "\n\t"@, "\n"@, members),
        "\n"@,
        Json::Object(crate::json::named(members, tree)),
    );
}

/// What is said of a list has no field a list has not, and the four it has.
proof fn list_fields(list: Listed)
    ensures
        ({
            let all = crate::json::named(list_members(list), list_tree(list));
            let said = Json::Object(all);
            let tree = list_tree(list);
            &&& stranger(all, |name: Seq<char>| list_field(name)) is None
            &&& field(said, "schema"@) == Some(tree[0])
            &&& field(said, "projects_dir"@) == Some(tree[1])
            &&& field(said, "sort"@) == Some(tree[2])
            &&& field(said, "projects"@) == Some(tree[3])
        }),
{
    let tree = list_tree(list);
    let all = crate::json::named(list_members(list), tree);
    let said = Json::Object(all);
    list_names_differ();
    let allowed = |name: Seq<char>| list_field(name);
    let one = all.drop_first();
    let two = one.drop_first();
    let three = two.drop_first();
    let four = three.drop_first();
    assert(all[0] == ("schema"@, tree[0]));
    assert(one[0] == ("projects_dir"@, tree[1]));
    assert(two[0] == ("sort"@, tree[2]));
    assert(three[0] == ("projects"@, tree[3]));
    assert(four.len() == 0);
    assert(stranger(four, allowed) is None);
    assert(stranger(three, allowed) is None);
    assert(stranger(two, allowed) is None);
    assert(stranger(one, allowed) is None);
    assert(stranger(all, allowed) is None);
    assert(field(said, "schema"@) == Some(tree[0]));
    assert(crate::json::first_named(one, "projects_dir"@) == Some(tree[1]));
    assert(field(said, "projects_dir"@) == Some(tree[1]));
    assert(crate::json::first_named(two, "sort"@) == Some(tree[2]));
    assert(crate::json::first_named(one, "sort"@) == Some(tree[2]));
    assert(field(said, "sort"@) == Some(tree[2]));
    assert(crate::json::first_named(three, "projects"@) == Some(tree[3]));
    assert(crate::json::first_named(two, "projects"@) == Some(tree[3]));
    assert(crate::json::first_named(one, "projects"@) == Some(tree[3]));
    assert(field(said, "projects"@) == Some(tree[3]));
}

/// A list survives its text: what is written reads back as the same list,
/// its paths spelled with forward slashes. A project with no path at all is
/// one the file cannot hold.
pub proof fn a_list_reads_back(list: Listed, fallback: Seq<char>)
    requires
        forall|i: int| 0 <= i < list.entries.len() ==> (#[trigger] list.entries[i]).path.len() > 0,
    ensures
        list_of(list_written(list), fallback) == Ok::<Listed, Refused>(list_respelled(list)),
{
    let tree = list_tree(list);
    list_parses(list);
    list_fields(list);
    entries_return(list.entries);
    digits_spell(SCHEMA as nat);
    sort_words_name_sorts(list.sort, Seq::empty());
    assert(whole(tree[0], u32::MAX as nat) == Some(SCHEMA as nat));
}

/// What a disk says: each folded path that leads somewhere, with where.
pub type Places = Seq<(Seq<char>, Seq<char>)>;

/// Where a directory is on the list, if it is: the first project in the same
/// place.
pub open spec fn place_of(entries: Seq<Kept>, disk: Places, path: Seq<char>) -> Option<int>
    decreases entries.len(),
{
    if entries.len() == 0 {
        None
    } else if one_place(disk, entries[0].path, path) {
        Some(0)
    } else {
        match place_of(entries.drop_first(), disk, path) {
            None => None,
            Some(index) => Some(index + 1),
        }
    }
}

/// A place on the list is the first in the same place.
pub proof fn place_is_first(entries: Seq<Kept>, disk: Places, path: Seq<char>)
    ensures
        match place_of(entries, disk, path) {
            None => forall|i: int|
                0 <= i < entries.len() ==> !one_place(disk, (#[trigger] entries[i]).path, path),
            Some(index) => {
                &&& 0 <= index < entries.len()
                &&& one_place(disk, entries[index].path, path)
                &&& forall|i: int|
                    0 <= i < index ==> !one_place(disk, (#[trigger] entries[i]).path, path)
            },
        },
    decreases entries.len(),
{
    if entries.len() > 0 && !one_place(disk, entries[0].path, path) {
        let less = entries.drop_first();
        place_is_first(less, disk, path);
        let limit = match place_of(less, disk, path) {
            None => entries.len() as int,
            Some(index) => index + 1,
        };
        assert forall|i: int| 0 <= i < limit implies !one_place(
            disk,
            (#[trigger] entries[i]).path,
            path,
        ) by {
            if i > 0 {
                assert(entries[i] == less[i - 1]);
            }
        }
    }
}

/// Whether no two projects of a list are in the same place.
pub open spec fn no_twice(entries: Seq<Kept>, disk: Places) -> bool {
    forall|i: int, j: int|
        0 <= i < j < entries.len() ==> !one_place(
            disk,
            (#[trigger] entries[i]).path,
            (#[trigger] entries[j]).path,
        )
}

/// A list with a project put on it.
pub open spec fn with_added(list: Listed, disk: Places, path: Seq<char>) -> Listed {
    if place_of(list.entries, disk, path) is Some {
        list
    } else {
        Listed {
            entries: list.entries.push(Kept { path, pinned: false, last_opened: 0 }),
            ..list
        }
    }
}

/// A list with a project taken off it.
pub open spec fn with_removed(list: Listed, disk: Places, path: Seq<char>) -> Listed {
    match place_of(list.entries, disk, path) {
        None => list,
        Some(index) => Listed { entries: list.entries.remove(index), ..list },
    }
}

impl List {
    /// Every project on the list, in the order the file has them.
    pub fn entries(&self) -> (result: &Vec<Entry>)
        ensures
            kept_all(result@) == self.view().entries,
    {
        &self.entries
    }

    /// Where a directory is on the list, if it is.
    pub fn find(&self, path: &str, disk: &Disk) -> (result: Option<usize>)
        ensures
            match place_of(self.view().entries, disk.view(), path@) {
                None => result is None,
                Some(index) => result is Some && result->0 == index && index < self.entries@.len(),
            },
    {
        let ghost all = self.view().entries;
        let mut i: usize = 0;
        assert(all.skip(0) =~= all);
        while i < self.entries.len()
            invariant
                i <= self.entries@.len(),
                all == kept_all(self.entries@),
                match place_of(all.skip(i as int), disk.view(), path@) {
                    None => place_of(all, disk.view(), path@) is None,
                    Some(index) => place_of(all, disk.view(), path@) == Some(index + i),
                },
            decreases self.entries@.len() - i,
        {
            assert(all.skip(i as int)[0] == all[i as int]);
            assert(all.skip(i as int).drop_first() =~= all.skip(i as int + 1));
            if same_place(disk, self.entries[i].path.as_str(), path) {
                return Some(i);
            }
            i = i + 1;
        }
        None
    }

    /// Puts a project on the list, unless it is there already: the same
    /// directory twice is one entry, however the second one was spelled.
    /// Whether it was added.
    pub fn add(&mut self, path: &str, disk: &Disk) -> (result: bool)
        ensures
            final(self).view() == with_added(old(self).view(), disk.view(), path@),
            result == (place_of(old(self).view().entries, disk.view(), path@) is None),
    {
        if self.find(path, disk).is_some() {
            return false;
        }
        let ghost was = self.view().entries;
        self.entries.push(Entry { path: path.to_owned(), pinned: false, last_opened: 0 });
        assert(self.view().entries =~= was.push(
            Kept { path: path@, pinned: false, last_opened: 0 },
        ));
        true
    }

    /// Takes a project off the list. The project itself is untouched.
    /// Whether it was there.
    pub fn remove(&mut self, path: &str, disk: &Disk) -> (result: bool)
        ensures
            final(self).view() == with_removed(old(self).view(), disk.view(), path@),
            result == (place_of(old(self).view().entries, disk.view(), path@) is Some),
    {
        match self.find(path, disk) {
            None => false,
            Some(index) => {
                let ghost was = self.view().entries;
                self.entries.remove(index);
                assert(self.view().entries =~= was.remove(index as int));
                true
            },
        }
    }

    /// Pins a project to the top, or lets it go.
    pub fn pin(&mut self, path: &str, pinned: bool, disk: &Disk)
        ensures
            final(self).view() == match place_of(old(self).view().entries, disk.view(), path@) {
                None => old(self).view(),
                Some(index) => Listed {
                    entries: old(self).view().entries.update(
                        index,
                        Kept { pinned, ..old(self).view().entries[index] },
                    ),
                    ..old(self).view()
                },
            },
    {
        match self.find(path, disk) {
            None => {},
            Some(index) => {
                let ghost was = self.view().entries;
                self.entries[index].pinned = pinned;
                assert(self.view().entries =~= was.update(
                    index as int,
                    Kept { pinned, ..was[index as int] },
                ));
            },
        }
    }

    /// Notes that a project was opened at a moment, in seconds since the
    /// epoch.
    pub fn opened(&mut self, path: &str, now: u64, disk: &Disk)
        ensures
            final(self).view() == match place_of(old(self).view().entries, disk.view(), path@) {
                None => old(self).view(),
                Some(index) => Listed {
                    entries: old(self).view().entries.update(
                        index,
                        Kept { last_opened: now, ..old(self).view().entries[index] },
                    ),
                    ..old(self).view()
                },
            },
    {
        match self.find(path, disk) {
            None => {},
            Some(index) => {
                let ghost was = self.view().entries;
                self.entries[index].last_opened = now;
                assert(self.view().entries =~= was.update(
                    index as int,
                    Kept { last_opened: now, ..was[index as int] },
                ));
            },
        }
    }
}

/// A project put on the list is on it, so that putting it on again, or one
/// spelled otherwise in the same place, changes nothing.
pub proof fn added_once(list: Listed, disk: Places, path: Seq<char>, again: Seq<char>)
    requires
        one_place(disk, path, again),
    ensures
        ({
            let once = with_added(list, disk, path);
            &&& place_of(once.entries, disk, path) is Some
            &&& with_added(once, disk, path) == once
            &&& place_of(list.entries, disk, path) is None ==> with_added(once, disk, again)
                == once
        }),
{
    let once = with_added(list, disk, path);
    place_is_first(list.entries, disk, path);
    place_is_first(once.entries, disk, path);
    place_is_first(once.entries, disk, again);
    if place_of(list.entries, disk, path) is None {
        assert(one_place(disk, once.entries[once.entries.len() - 1].path, path));
    }
}

/// Putting projects on a list and taking them off never puts two in the same
/// place.
pub proof fn never_twice(list: Listed, disk: Places, path: Seq<char>)
    requires
        no_twice(list.entries, disk),
    ensures
        no_twice(with_added(list, disk, path).entries, disk),
        no_twice(with_removed(list, disk, path).entries, disk),
{
    place_is_first(list.entries, disk, path);
    let more = with_added(list, disk, path).entries;
    assert forall|i: int, j: int| 0 <= i < j < more.len() implies !one_place(
        disk,
        (#[trigger] more[i]).path,
        (#[trigger] more[j]).path,
    ) by {
        assert(more[i] == list.entries[i]);
        if j < list.entries.len() {
            assert(more[j] == list.entries[j]);
        }
    }
    let less = with_removed(list, disk, path).entries;
    assert forall|i: int, j: int| 0 <= i < j < less.len() implies !one_place(
        disk,
        (#[trigger] less[i]).path,
        (#[trigger] less[j]).path,
    ) by {
        if let Some(index) = place_of(list.entries, disk, path) {
            let a = if i < index { i } else { i + 1 };
            let b = if j < index { j } else { j + 1 };
            assert(less[i] == list.entries[a]);
            assert(less[j] == list.entries[b]);
        }
    }
}

/// A project put on a list and taken off again leaves the list as it was.
pub proof fn added_and_removed(list: Listed, disk: Places, path: Seq<char>)
    requires
        place_of(list.entries, disk, path) is None,
    ensures
        with_removed(with_added(list, disk, path), disk, path) == list,
{
    let more = with_added(list, disk, path).entries;
    place_is_first(list.entries, disk, path);
    place_is_first(more, disk, path);
    let last = more.len() - 1;
    assert(one_place(disk, more[last].path, path));
    let index = place_of(more, disk, path)->0;
    if index < last {
        assert(more[index] == list.entries[index]);
    }
    assert(more.remove(last) =~= list.entries);
}

/// What a project's own file says of it.
#[derive(Clone, Debug)]
pub struct Project {
    /// What it is called.
    pub name: String,
    /// Its id.
    pub id: String,
}

/// One project, read for showing.
#[derive(Debug)]
pub struct Shown {
    /// The entry it was read for.
    pub entry: Entry,
    /// The project its file describes, or why the file could not be read.
    pub project: Result<Project, String>,
}

/// What a row shows.
pub ghost struct Row {
    pub entry: Kept,
    pub project: Result<(Seq<char>, Seq<char>), Seq<char>>,
}

/// What is called by a directory's own name.
pub open spec fn folder_name(path: Seq<char>) -> Seq<char> {
    match last_name(path) {
        Some(name) => name,
        None => slashed(path),
    }
}

/// A directory's own name, for a project whose file is not there to say.
pub fn folder(path: &str) -> (result: String)
    ensures
        result@ == folder_name(path@),
{
    match file_name(path) {
        Some(name) => name,
        None => spelled(path),
    }
}

/// What a row is called.
pub open spec fn row_name(row: Row) -> Seq<char> {
    match row.project {
        Ok(project) => project.0,
        Err(_) => folder_name(row.entry.path),
    }
}

/// The id a row shows.
pub open spec fn row_id(row: Row) -> Seq<char> {
    match row.project {
        Ok(project) => project.1,
        Err(_) => Seq::empty(),
    }
}

/// Whether a search word is somewhere in what a row shows: the name and the
/// path in any case, the id as it is. No word at all is in every row.
pub open spec fn row_matches(row: Row, filter: Seq<char>) -> bool {
    let word = lowered(trimmed(filter));
    ||| word.len() == 0
    ||| holds(lowered(row_name(row)), word)
    ||| holds(row_id(row), word)
    ||| holds(lowered(slashed(row.entry.path)), word)
}

/// What a project says.
pub open spec fn project_view(project: Result<Project, String>) -> Result<
    (Seq<char>, Seq<char>),
    Seq<char>,
> {
    match project {
        Ok(project) => Ok((project.name@, project.id@)),
        Err(why) => Err(why@),
    }
}

impl Shown {
    /// What the row shows.
    pub open spec fn view(&self) -> Row {
        Row { entry: self.entry.view(), project: project_view(self.project) }
    }

    /// What to call it: the project's name, or the directory's when the file
    /// is not there to say.
    pub fn name(&self) -> (result: String)
        ensures
            result@ == row_name(self.view()),
    {
        match &self.project {
            Ok(project) => project.name.clone(),
            Err(_) => folder(self.entry.path.as_str()),
        }
    }

    /// Its id, or nothing when the file is not there to say.
    pub fn id(&self) -> (result: &str)
        ensures
            result@ == row_id(self.view()),
    {
        proof {
            reveal_strlit("");
            assert(""@ =~= Seq::empty());
        }
        match &self.project {
            Ok(project) => project.id.as_str(),
            Err(_) => "",
        }
    }

    /// Whether a search word is somewhere in what the row shows.
    pub fn matches(&self, filter: &str) -> (result: bool)
        ensures
            result == row_matches(self.view(), filter@),
            trimmed(filter@).len() == 0 ==> result,
            forall|other: Seq<char>|
                alike_in_case(trimmed(other), trimmed(filter@)) ==> result
                    == #[trigger] row_matches(self.view(), other),
    {
        let wanted: String = trim(filter);
        let word: String = wanted.as_str().to_lowercase();
        proof {
            assert forall|other: Seq<char>|
                alike_in_case(trimmed(other), trimmed(filter@)) implies row_matches(
                self.view(),
                filter@,
            ) == #[trigger] row_matches(self.view(), other) by {
                assert(lowered(trimmed(other)) == word@);
            }
            if wanted@.len() == 0 {
                assert(all_plain(wanted@));
                assert(word@.len() == 0);
            }
        }
        if word.as_str().is_empty() {
            return true;
        }
        let name: String = self.name().as_str().to_lowercase();
        if contains(name.as_str(), word.as_str()) {
            return true;
        }
        if contains(self.id(), word.as_str()) {
            return true;
        }
        let path: String = spelled(self.entry.path.as_str()).as_str().to_lowercase();
        contains(path.as_str(), word.as_str())
    }
}

/// A search minds no spaces around its word, and words that are alike in case
/// are still alike once they are trimmed, which is when a search answers them
/// alike.
pub proof fn a_search_minds_no_spaces(
    row: Row,
    before: Seq<char>,
    filter: Seq<char>,
    after: Seq<char>,
    other: Seq<char>,
)
    requires
        blank(before),
        blank(after),
        alike_in_case(other, filter),
    ensures
        row_matches(row, before + filter + after) == row_matches(row, filter),
        alike_in_case(trimmed(before + filter + after), trimmed(filter)),
        alike_in_case(trimmed(other), trimmed(filter)),
{
    spaces_around_go(before, filter, after);
    trimming_minds_no_case(other, filter);
}

/// Whether one row comes before another by name: the name whatever its
/// case, and the path where two are called the same.
pub open spec fn name_sooner(left: Row, right: Row) -> bool {
    let a = lowered(row_name(left));
    let b = lowered(row_name(right));
    if a != b {
        sooner(a, b)
    } else {
        path_sooner(left.entry.path, right.entry.path)
    }
}

/// Whether one row comes before another: a pinned one before one that is
/// not, then as asked, with the name to decide either way.
pub open spec fn row_sooner(left: Row, right: Row, sort: Sort) -> bool {
    if left.entry.pinned != right.entry.pinned {
        left.entry.pinned
    } else if sort == Sort::Recent && left.entry.last_opened != right.entry.last_opened {
        left.entry.last_opened > right.entry.last_opened
    } else {
        name_sooner(left, right)
    }
}

/// The comparison rows are put in order with.
pub open spec fn row_order(sort: Sort) -> spec_fn(Row, Row) -> bool {
    |left: Row, right: Row| row_sooner(left, right, sort)
}

impl Ordered<Sort> for Shown {
    open spec fn sooner_by(&self, other: &Shown, by: Sort) -> bool {
        row_sooner(self.view(), other.view(), by)
    }

    fn before_by(&self, other: &Shown, by: Sort) -> (result: bool) {
        if self.entry.pinned != other.entry.pinned {
            return self.entry.pinned;
        }
        if by == Sort::Recent && self.entry.last_opened != other.entry.last_opened {
            return self.entry.last_opened > other.entry.last_opened;
        }
        let a: String = self.name().as_str().to_lowercase();
        let b: String = other.name().as_str().to_lowercase();
        if !same(a.as_str(), b.as_str()) {
            return before(a.as_str(), b.as_str());
        }
        path_before(self.entry.path.as_str(), other.entry.path.as_str())
    }
}

/// What rows show.
pub open spec fn rows_view(rows: Seq<Shown>) -> Seq<Row> {
    rows.map_values(|row: Shown| row.view())
}

/// The rows of a list before they are put in order: each entry with what was
/// read for it.
pub open spec fn rows_of(entries: Seq<Kept>, read: Seq<Result<Project, String>>) -> Seq<Row> {
    Seq::new(
        entries.len(),
        |i: int| Row { entry: entries[i], project: project_view(read[i]) },
    )
}

/// Puts rows in the order they are shown.
pub fn order(rows: Vec<Shown>, sort: Sort) -> (result: Vec<Shown>)
    ensures
        rows_view(result@) == ranked(rows_view(rows@), row_order(sort)),
{
    proof {
        let less = comparison::<Sort, Shown>(sort);
        let view = |row: Shown| row.view();
        assert forall|a: Shown, b: Shown| #[trigger] less(a, b) == row_order(sort)(
            view(a),
            view(b),
        ) by {}
        ranked_views(rows@, less, view, row_order(sort));
    }
    rank(rows, sort)
}

impl List {
    /// Every project as it is to be shown: with what was read for it, and
    /// put in order. `read` holds what was read for each entry, in the order
    /// the file has them; a project whose file cannot be read is kept in its
    /// place and says so.
    pub fn shown(&self, read: Vec<Result<Project, String>>) -> (result: Vec<Shown>)
        requires
            read@.len() == self.entries@.len(),
        ensures
            rows_view(result@) == ranked(
                rows_of(self.view().entries, read@),
                row_order(self.sort),
            ),
    {
        let ghost all = read@;
        let ghost want = rows_of(self.view().entries, all);
        let mut left: Vec<Result<Project, String>> = read;
        let mut rows: Vec<Shown> = Vec::new();
        let mut i: usize = 0;
        assert(all.skip(0) =~= all);
        while i < self.entries.len()
            invariant
                i <= self.entries@.len(),
                self.entries@.len() == all.len(),
                left@ == all.skip(i as int),
                want == rows_of(self.view().entries, all),
                rows_view(rows@) == want.take(i as int),
            decreases self.entries@.len() - i,
        {
            let ghost was = rows_view(rows@);
            let project: Result<Project, String> = left.remove(0);
            assert(left@ =~= all.skip(i as int + 1));
            let row: Shown = Shown { entry: self.entries[i].copy(), project };
            assert(row.view() == want[i as int]);
            rows.push(row);
            assert(rows_view(rows@) =~= was.push(want[i as int]));
            assert(want.take(i as int + 1) =~= want.take(i as int).push(want[i as int]));
            i = i + 1;
        }
        assert(want.take(i as int) =~= want);
        order(rows, self.sort)
    }
}

/// Rows can be put in order by name.
proof fn names_decide(a: Row, b: Row, c: Row)
    ensures
        !(name_sooner(a, b) && name_sooner(b, a)),
        !name_sooner(b, a) && !name_sooner(c, b) ==> !name_sooner(c, a),
{
    let x = lowered(row_name(a));
    let y = lowered(row_name(b));
    let z = lowered(row_name(c));
    sooner_decides(x, y);
    sooner_decides(y, z);
    sooner_decides(z, x);
    let p = steps(a.entry.path);
    let q = steps(b.entry.path);
    let r = steps(c.entry.path);
    steps_decide(p, q);
    steps_decide(q, r);
    steps_decide(r, p);
    if name_sooner(c, a) && !name_sooner(b, a) && !name_sooner(c, b) {
        if x != y && y != z {
            sooner_carries(x, y, z);
        }
        if x == y && y == z {
            if p != q && q != r {
                steps_carry(p, q, r);
            }
        }
    }
}

/// The order rows are shown in is one.
proof fn rows_decide(sort: Sort)
    ensures
        orders(row_order(sort)),
{
    let less = row_order(sort);
    assert forall|a: Row, b: Row| #[trigger] less(a, b) implies !less(b, a) by {
        names_decide(a, b, a);
    }
    assert forall|a: Row, b: Row, c: Row|
        !(#[trigger] less(b, a)) && !(#[trigger] less(c, b)) implies !less(c, a) by {
        names_decide(a, b, c);
    }
}

/// What is shown is every project of the list and nothing else, pinned ones
/// first, and otherwise nothing before what should stand in front of it.
pub proof fn shown_in_order(rows: Seq<Row>, sort: Sort)
    ensures
        ({
            let shown = ranked(rows, row_order(sort));
            &&& shown.to_multiset() == rows.to_multiset()
            &&& in_order(shown, row_order(sort))
            &&& forall|i: int, j: int|
                0 <= i < j < shown.len() && (#[trigger] shown[j]).entry.pinned
                    ==> (#[trigger] shown[i]).entry.pinned
        }),
{
    rows_decide(sort);
    ranked_keeps(rows, row_order(sort));
    ranked_in_order(rows, row_order(sort));
    let shown = ranked(rows, row_order(sort));
    assert forall|i: int, j: int|
        0 <= i < j < shown.len() && (#[trigger] shown[j]).entry.pinned implies (
    #[trigger] shown[i]).entry.pinned by {
        assert(!row_order(sort)(shown[j], shown[i]));
    }
}

/// The seconds since the epoch, nought for a clock set before it.
pub open spec fn seconds_said(since: Option<u64>) -> u64 {
    match since {
        Some(seconds) => seconds,
        None => 0,
    }
}

/// The seconds since the epoch, nought for a clock set before it.
pub fn seconds(since: Option<u64>) -> (result: u64)
    ensures
        result == seconds_said(since),
{
    match since {
        Some(seconds) => seconds,
        None => 0,
    }
}

/// A moment of the machine's clock.
#[verifier::external_type_specification]
#[verifier::external_body]
pub struct ExSystemTime(std::time::SystemTime);

/// What a moment before another is answered with.
#[verifier::external_type_specification]
#[verifier::external_body]
pub struct ExSystemTimeError(std::time::SystemTimeError);

/// `SystemTime::now`: this moment. Nothing is claimed of what a clock says.
pub assume_specification[ std::time::SystemTime::now ]() -> (result: std::time::SystemTime)
;

/// The whole seconds in a length of time.
pub uninterp spec fn seconds_in(took: Duration) -> u64;

/// `Duration::as_secs`: the whole seconds in a length of time, which depend on
/// the length alone.
pub assume_specification[ Duration::as_secs ](took: &Duration) -> (result: u64)
    ensures
        result == seconds_in(*took),
;

/// How long a moment is past the epoch; nothing for one before it.
pub uninterp spec fn past(moment: std::time::SystemTime) -> Option<Duration>;

/// `SystemTime::duration_since`, asked of the epoch: how long a moment is past
/// it, or an error for a moment before it. Claimed: which of the two comes
/// back, and how long that is, depends on the moment alone.
#[verifier::external_body]
fn past_epoch(moment: std::time::SystemTime) -> (result: Result<
    Duration,
    std::time::SystemTimeError,
>)
    ensures
        past(moment) == match result {
            Ok(since) => Some(since),
            Err(_) => None,
        },
{
    moment.duration_since(std::time::UNIX_EPOCH)
}

/// A moment in seconds since the epoch: the whole ones it is past, and nought
/// for one before it.
pub open spec fn moment_said(moment: std::time::SystemTime) -> u64 {
    seconds_said(
        match past(moment) {
            Some(since) => Some(seconds_in(since)),
            None => None,
        },
    )
}

/// This moment, in seconds since the epoch: what some moment of the machine's
/// clock comes to. Which moment that is, the clock decides.
pub fn now() -> (result: u64)
    ensures
        exists|moment: std::time::SystemTime| result == #[trigger] moment_said(moment),
{
    let moment: std::time::SystemTime = std::time::SystemTime::now();
    let ghost read = moment;
    let result: u64 = match past_epoch(moment) {
        Ok(since) => seconds(Some(since.as_secs())),
        Err(_) => seconds(None),
    };
    assert(result == moment_said(read));
    result
}

/// How long ago a moment was, in words.
pub open spec fn ago_words(now: u64, then: u64) -> Seq<char> {
    let since: nat = if now < then { 0 } else { (now - then) as nat };
    if then == 0 {
        "never opened"@
    } else if since < 60 {
        "just now"@
    } else if since < 3600 {
        digits(since / 60) + " min ago"@
    } else if since < 86400 {
        digits(since / 3600) + " h ago"@
    } else if since < 172800 {
        "yesterday"@
    } else {
        digits(since / 86400) + " days ago"@
    }
}

/// How long ago a moment was, in words: nought is never, and a moment that
/// is still to come is now.
pub fn ago(now: u64, then: u64) -> (result: String)
    ensures
        result@ == ago_words(now, then),
{
    if then == 0 {
        return "never opened".to_owned();
    }
    let since: u64 = now.saturating_sub(then);
    if since < 60 {
        "just now".to_owned()
    } else if since < 3600 {
        plus(decimal(since / 60).as_str(), " min ago")
    } else if since < 86400 {
        plus(decimal(since / 3600).as_str(), " h ago")
    } else if since < 172800 {
        "yesterday".to_owned()
    } else {
        plus(decimal(since / 86400).as_str(), " days ago")
    }
}

/// Where the list is kept for a person whose config directory is known.
pub fn default_file(config: Option<&str>) -> (result: Option<String>)
    ensures
        match config {
            None => result is None,
            Some(config) => result is Some && result->0@ == under(
                under(config@, DIRECTORY@),
                FILE@,
            ),
        },
{
    match config {
        None => None,
        Some(config) => {
            let dir: String = join(config, DIRECTORY);
            Some(join(dir.as_str(), FILE))
        },
    }
}

/// The folder new projects go in unless somebody says otherwise: in the
/// person's documents, or their home when there is no such folder, or where
/// the program stands when there is not even a home.
pub fn default_projects_dir(home: Option<&str>, documents: bool) -> (result: String)
    ensures
        result@ == match home {
            None => PROJECTS_FOLDER@,
            Some(home) => if documents {
                under(under(home@, "Documents"@), PROJECTS_FOLDER@)
            } else {
                under(home@, PROJECTS_FOLDER@)
            },
        },
{
    match home {
        None => PROJECTS_FOLDER.to_owned(),
        Some(home) => {
            if documents {
                let dir: String = join(home, "Documents");
                join(dir.as_str(), PROJECTS_FOLDER)
            } else {
                join(home, PROJECTS_FOLDER)
            }
        },
    }
}

/// The first stranger is one of the names that are not allowed, and there is one
/// wherever any name is not.
pub proof fn strangers_are_told(
    members: Seq<(Seq<char>, Json)>,
    allowed: spec_fn(Seq<char>) -> bool,
)
    ensures
        match stranger(members, allowed) {
            None => forall|i: int| 0 <= i < members.len() ==> allowed((#[trigger] members[i]).0),
            Some(name) => !allowed(name) && exists|i: int|
                0 <= i < members.len() && (#[trigger] members[i]).0 == name,
        },
    decreases members.len(),
{
    if members.len() > 0 && allowed(members[0].0) {
        let rest = members.drop_first();
        strangers_are_told(rest, allowed);
        match stranger(rest, allowed) {
            None => {
                assert forall|i: int| 0 <= i < members.len() implies allowed(
                    (#[trigger] members[i]).0,
                ) by {
                    if i > 0 {
                        assert(members[i] == rest[i - 1]);
                    }
                }
            },
            Some(name) => {
                let i = choose|i: int| 0 <= i < rest.len() && (#[trigger] rest[i]).0 == name;
                assert(members[i + 1] == rest[i]);
            },
        }
    }
}

/// A project of the file needs a path with something in it; whether it is pinned
/// and when it was opened may be left out, and then it is not and never was. What
/// it does say is kept, and a field no project has is refused.
pub proof fn what_describes_a_project(item: Json)
    ensures
        ({
            let read = entry_of(item);
            let strange = exists|i: int|
                0 <= i < said_members(item).len() && ({
                    let name = (#[trigger] said_members(item)[i]).0;
                    name != "path"@ && name != "pinned"@ && name != "last_opened"@
                });
            let path = field(item, "path"@);
            let pinned = field(item, "pinned"@);
            let opened = field(item, "last_opened"@);
            &&& strange ==> read is Err && read->Err_0 is EntryField
            &&& path is None && !strange ==> read == Err::<Kept, Refused>(Refused::Path)
            &&& read is Ok ==> {
                &&& !strange
                &&& path is Some && Some(read->Ok_0.path) == said_text(path->0)
                &&& read->Ok_0.path.len() > 0
                &&& pinned is Some ==> Some(read->Ok_0.pinned) == said_bool(pinned->0)
                &&& pinned is None ==> !read->Ok_0.pinned
                &&& opened is Some ==> Some(read->Ok_0.last_opened as nat) == whole(
                    opened->0,
                    u64::MAX as nat,
                )
                &&& opened is None ==> read->Ok_0.last_opened == 0
            }
            &&& !strange && path is Some && said_text(path->0) is Some && said_text(
                path->0,
            )->0.len() > 0 && (pinned is None || said_bool(pinned->0) is Some) && (opened is None
                || whole(opened->0, u64::MAX as nat) is Some) ==> read is Ok
        }),
{
    strangers_are_told(said_members(item), |name: Seq<char>| entry_field(name));
}

/// A list of a newer shape is refused, and so is one with a field no list has or
/// that does not say its shape. What a list leaves out is taken as it is on a
/// first run: the folder handed in, the most recent first, no projects.
pub proof fn what_describes_a_list(said: Json, fallback: Seq<char>)
    ensures
        ({
            let read = list_said(said, fallback);
            let strange = exists|i: int|
                0 <= i < said_members(said).len() && ({
                    let name = (#[trigger] said_members(said)[i]).0;
                    name != "schema"@ && name != "projects_dir"@ && name != "sort"@ && name
                        != "projects"@
                });
            let schema = field(said, "schema"@);
            let dir = field(said, "projects_dir"@);
            let sort = field(said, "sort"@);
            let projects = field(said, "projects"@);
            &&& strange ==> read is Err && read->Err_0 is Field
            &&& !strange && schema is None ==> read == Err::<Listed, Refused>(Refused::Schema)
            &&& !strange && schema is Some && whole(schema->0, u32::MAX as nat) is Some && whole(
                schema->0,
                u32::MAX as nat,
            )->0 > 1 ==> read is Err && read->Err_0 is Newer
            &&& read is Ok ==> {
                &&& !strange
                &&& schema is Some && whole(schema->0, u32::MAX as nat) is Some && whole(
                    schema->0,
                    u32::MAX as nat,
                )->0 <= 1
                &&& dir is None ==> read->Ok_0.projects_dir == fallback
                &&& dir is Some ==> Some(read->Ok_0.projects_dir) == said_text(dir->0)
                &&& sort is None ==> read->Ok_0.sort == Sort::Recent
                &&& sort is Some ==> Some(
                    if read->Ok_0.sort == Sort::Recent {
                        "recent"@
                    } else {
                        "name"@
                    },
                ) == said_text(sort->0)
                &&& projects is None ==> read->Ok_0.entries.len() == 0
                &&& projects is Some ==> said_list(projects->0) is Some && read->Ok_0.entries.len()
                    == said_list(projects->0)->0.len()
            }
        }),
{
    strangers_are_told(said_members(said), |name: Seq<char>| list_field(name));
    let projects = field(said, "projects"@);
    if projects is Some && said_list(projects->0) is Some {
        every_item_is_read(said_list(projects->0)->0);
    }
    every_item_is_read(Seq::empty());
}

/// Where every item is a project, each is read in its place.
proof fn every_item_is_read(items: Seq<Json>)
    ensures
        entries_of(items) is Ok ==> entries_of(items)->Ok_0.len() == items.len() && forall|i: int|
            0 <= i < items.len() ==> entry_of(#[trigger] items[i]) == Ok::<Kept, Refused>(
                entries_of(items)->Ok_0[i],
            ),
    decreases items.len(),
{
    if items.len() > 0 {
        let less = items.drop_last();
        every_item_is_read(less);
        if entries_of(items) is Ok {
            assert forall|i: int| 0 <= i < items.len() implies entry_of(#[trigger] items[i]) == Ok::<
                Kept,
                Refused,
            >(entries_of(items)->Ok_0[i]) by {
                if i < less.len() {
                    assert(less[i] == items[i]);
                }
            }
        }
    }
}

/// A row is found by any part of its name and of its path whatever the case, and
/// by any part of its id; a row is found by nothing else but no word at all.
pub proof fn a_row_is_found_by_what_it_shows(
    row: Row,
    filter: Seq<char>,
    before: Seq<char>,
    after: Seq<char>,
)
    ensures
        ({
            let word = lowered(trimmed(filter));
            let said = before + word + after;
            &&& lowered(row_name(row)) == said ==> row_matches(row, filter)
            &&& row_id(row) == said ==> row_matches(row, filter)
            &&& lowered(slashed(row.entry.path)) == said ==> row_matches(row, filter)
            &&& row_matches(row, filter) && word.len() > 0 ==> holds(lowered(row_name(row)), word)
                || holds(row_id(row), word) || holds(lowered(slashed(row.entry.path)), word)
            &&& word.len() == 0 ==> row_matches(row, filter)
        }),
{
    crate::text::what_was_put_in_is_held(before, lowered(trimmed(filter)), after);
}

/// A row is called what its project is called and has its id; one whose file
/// cannot be read is called by its folder and has none.
pub proof fn a_row_is_called_by_its_project(
    entry: Kept,
    name: Seq<char>,
    id: Seq<char>,
    why: Seq<char>,
    dir: Seq<char>,
    last: Seq<char>,
)
    requires
        last.len() > 0,
        !last.contains('/'),
        last != seq!['.'],
        last != seq!['.', '.'],
    ensures
        ({
            let read = Row { entry, project: Ok((name, id)) };
            let lost = Row {
                entry: Kept { path: dir + seq!['/'] + last, ..entry },
                project: Err(why),
            };
            &&& row_name(read) == name
            &&& row_id(read) == id
            &&& row_name(lost) == last
            &&& row_id(lost).len() == 0
        }),
{
    crate::paths::the_last_piece_is_the_name(dir, last);
}

/// Of two rows shown that are both pinned or both not, the one in front was
/// opened no earlier where the most recent come first, and otherwise its name,
/// whatever the case, comes no later.
pub proof fn the_front_row_comes_first(rows: Seq<Row>, i: int, j: int)
    requires
        0 <= i < j < rows.len(),
    ensures
        ({
            let recent = ranked(rows, row_order(Sort::Recent));
            let named = ranked(rows, row_order(Sort::Name));
            &&& recent.len() == rows.len() && named.len() == rows.len()
            &&& recent[i].entry.pinned == recent[j].entry.pinned ==> recent[i].entry.last_opened
                >= recent[j].entry.last_opened
            &&& named[i].entry.pinned == named[j].entry.pinned ==> !sooner(
                lowered(row_name(named[j])),
                lowered(row_name(named[i])),
            )
            &&& recent[j].entry.pinned ==> recent[i].entry.pinned
            &&& named[j].entry.pinned ==> named[i].entry.pinned
        }),
{
    let recent = ranked(rows, row_order(Sort::Recent));
    let named = ranked(rows, row_order(Sort::Name));
    shown_in_order(rows, Sort::Recent);
    shown_in_order(rows, Sort::Name);
    rows.to_multiset_ensures();
    recent.to_multiset_ensures();
    named.to_multiset_ensures();
    assert(!row_order(Sort::Recent)(recent[j], recent[i]));
    assert(!row_order(Sort::Name)(named[j], named[i]));
    sooner_decides(lowered(row_name(named[j])), lowered(row_name(named[i])));
}

/// How long ago is said in the largest whole measure: within a minute, a moment
/// to come counting as now; in minutes within the hour, in hours within the day,
/// the day before by its name, and in days from there on. What was never opened
/// says so whenever it is asked.
pub proof fn long_ago_is_said_in_large_measures(then: u64, now: u64, count: nat, rest: nat)
    requires
        then > 0,
    ensures
        ago_words(now, 0) == "never opened"@,
        now < then + 60 ==> ago_words(now, then) == "just now"@,
        1 <= count < 60 && rest < 60 && now == then + 60 * count + rest ==> ago_words(now, then)
            == digits(count) + " min ago"@,
        1 <= count < 24 && rest < 3600 && now == then + 3600 * count + rest ==> ago_words(now, then)
            == digits(count) + " h ago"@,
        rest < 86400 && now == then + 86400 + rest ==> ago_words(now, then) == "yesterday"@,
        2 <= count && rest < 86400 && now == then + 86400 * count + rest ==> ago_words(now, then)
            == digits(count) + " days ago"@,
{
    if rest < 60 {
        assert((60 * count + rest) / 60 == count);
    }
    if rest < 3600 {
        assert((3600 * count + rest) / 3600 == count);
    }
    if rest < 86400 {
        assert((86400 * count + rest) / 86400 == count);
    }
}

/// Taking a project off takes off the one in that place and no other, and no
/// project is in that place any more where none was on the list twice; putting
/// one on puts it last, neither pinned nor ever opened.
pub proof fn a_list_changes_by_one(list: Listed, disk: Places, path: Seq<char>)
    ensures
        ({
            let added = with_added(list, disk, path);
            let removed = with_removed(list, disk, path);
            let at = place_of(list.entries, disk, path);
            &&& added.projects_dir == list.projects_dir && added.sort == list.sort
            &&& removed.projects_dir == list.projects_dir && removed.sort == list.sort
            &&& at is None ==> {
                &&& removed == list
                &&& added.entries.len() == list.entries.len() + 1
                &&& added.entries.last().path == path
                &&& !added.entries.last().pinned
                &&& added.entries.last().last_opened == 0
                &&& forall|i: int|
                    0 <= i < list.entries.len() ==> #[trigger] added.entries[i] == list.entries[i]
            }
            &&& at is Some ==> {
                &&& added == list
                &&& one_place(disk, list.entries[at->0].path, path)
                &&& removed.entries.len() == list.entries.len() - 1
                &&& forall|i: int|
                    0 <= i < at->0 ==> #[trigger] removed.entries[i] == list.entries[i]
                &&& forall|i: int|
                    at->0 <= i < removed.entries.len() ==> #[trigger] removed.entries[i]
                        == list.entries[i + 1]
            }
        }),
{
    place_is_first(list.entries, disk, path);
}

/// Every refusal says what is wrong with the file, the part of it that is wrong
/// where there is one, and what this build reads where it was written by another.
pub proof fn a_refusal_says_what_is_wrong(name: Seq<char>, schema: u32)
    ensures
        refusal(Refused::NotJson) == "the text is not JSON"@,
        refusal(Refused::Field(name)) == "the project list has no field called "@ + name,
        refusal(Refused::Schema) == "the project list needs a schema number"@,
        refusal(Refused::Newer(schema)) == "the project list was written by a newer engine: schema "@
            + digits(schema as nat) + (", and this build reads "@ + seq!['1']),
        refusal(Refused::Folder) == "the project list's projects_dir has to be text"@,
        refusal(Refused::Word) == "the project list's sort has to be a word"@,
        refusal(Refused::Order(name)) == debugged(name) + " is not an order the list knows"@,
        refusal(Refused::EntryField(name)) == "a project on the list has no field called "@ + name,
        refusal(Refused::Path) == "a project on the list needs a path"@,
        refusal(Refused::Pinned) == "a project's pinned has to be true or false"@,
        refusal(Refused::Opened) == "a project's last_opened has to be a whole number"@,
        refusal(Refused::Projects) == "the project list's projects has to be a list"@,
        Sort::Recent.said() == "recent"@,
        Sort::Name.said() == "name"@,
{
    assert(digits(1) == seq!['1']);
}

/// The text of a file that is there is read as a list or refused under the file's
/// name; one that cannot be read says so under its name; and one that is not there
/// is an empty list in the folder handed in.
pub proof fn what_is_found_is_loaded(
    file: Seq<char>,
    text: Seq<char>,
    why: Seq<char>,
    fallback: Seq<char>,
)
    ensures
        loaded(file, None, fallback) == Ok::<Listed, Seq<char>>(
            Listed { projects_dir: fallback, sort: Sort::Recent, entries: Seq::empty() },
        ),
        loaded(file, Some(Err(why)), fallback) == Err::<Listed, Seq<char>>(
            file + " cannot be read: "@ + why,
        ),
        parsed(text) is None ==> loaded(file, Some(Ok(text)), fallback) == Err::<Listed, Seq<char>>(
            file + ": "@ + "the text is not JSON"@,
        ),
        parsed(text) is Some && list_said(parsed(text)->0, fallback) is Ok ==> loaded(
            file,
            Some(Ok(text)),
            fallback,
        ) == Ok::<Listed, Seq<char>>(list_said(parsed(text)->0, fallback)->Ok_0),
{
}

/// The list is kept in `projects.json` in the `colby` of a person's config, and
/// new projects go in `colby projects` among their documents.
pub proof fn where_the_list_is(config: Seq<char>)
    requires
        config.len() > 0,
        config.last() != '/',
    ensures
        under(under(config, DIRECTORY@), FILE@) == config + seq!['/'] + "colby"@ + seq!['/']
            + "projects.json"@,
        PROJECTS_FOLDER@ == "colby projects"@,
{
    reveal_strlit("colby");
    reveal_strlit("projects.json");
    assert((config + seq!['/'] + "colby"@).last() == 'y');
}

/// Two rows called the same, whatever the case, stand in the order of their
/// paths; and the most recent order falls back on names where two were opened at
/// the same moment.
pub proof fn rows_called_the_same_stand_by_path(left: Row, right: Row)
    requires
        left.entry.pinned == right.entry.pinned,
    ensures
        lowered(row_name(left)) == lowered(row_name(right)) ==> row_sooner(left, right, Sort::Name)
            == path_sooner(left.entry.path, right.entry.path),
        lowered(row_name(left)) != lowered(row_name(right)) ==> row_sooner(left, right, Sort::Name)
            == sooner(lowered(row_name(left)), lowered(row_name(right))),
        left.entry.last_opened == right.entry.last_opened ==> row_sooner(left, right, Sort::Recent)
            == row_sooner(left, right, Sort::Name),
        left.entry.last_opened > right.entry.last_opened ==> row_sooner(left, right, Sort::Recent),
        left.entry.last_opened < right.entry.last_opened ==> !row_sooner(left, right, Sort::Recent),
{
}

} // verus!
