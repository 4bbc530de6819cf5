//! The asset browser: which rows match the search, what a press on one asks
//! for, and how one is renamed.

use vstd::prelude::*;
use vstd::string::*;
use crate::catalog::{is_text, word, Entry, Kind, State};
use crate::change::{presses, Change, Pressed};
use crate::make::{stem, stem_of};
use crate::text::{contains, holds, lowered, plus, same, trim, trimmed};

verus! {

/// How many milliseconds pass before the tree is walked again.
pub const RESCAN: u64 = 1000;

/// The last part of an asset name, which is the part a rename changes.
pub fn last(name: &str) -> (result: String)
    ensures
        result@ == stem_of(name@),
{
    stem(name)
}

/// Whether a row matches a search word, whatever its case.
pub open spec fn matching(name: Seq<char>, filter: Seq<char>) -> bool {
    let word = lowered(trimmed(filter));
    word.len() == 0 || holds(lowered(name), word)
}

/// The places of the first so many rows that match a search.
pub open spec fn matches_among(entries: Seq<Entry>, filter: Seq<char>, count: nat) -> Seq<usize>
    decreases count,
{
    if count == 0 {
        Seq::empty()
    } else {
        let so_far = matches_among(entries, filter, (count - 1) as nat);
        if matching(entries[count - 1].name@, filter) {
            so_far.push((count - 1) as usize)
        } else {
            so_far
        }
    }
}

/// Every row that matches the search, by its place.
pub fn rows(entries: &Vec<Entry>, search: &str) -> (result: Vec<usize>)
    ensures
        result@ == matches_among(entries@, search@, entries@.len()),
{
    let filter: String = trim(search).as_str().to_lowercase();
    let mut found: Vec<usize> = Vec::new();
    let mut i: usize = 0;
    while i < entries.len()
        invariant
            i <= entries@.len(),
            filter@ == lowered(trimmed(search@)),
            found@ == matches_among(entries@, search@, i as nat),
        decreases entries@.len() - i,
    {
        if filter.as_str().is_empty() || contains(
            entries[i].name.as_str().to_lowercase().as_str(),
            filter.as_str(),
        ) {
            found.push(i);
        }
        i = i + 1;
    }
    found
}

/// What a press on a row asks for. A double click opens a scene here and
/// sends every other kind that is text out to an editor; a click shows a
/// material or a model in the inspector. A double click is a click as well.
pub open spec fn asked(
    name: Seq<char>,
    kind: Kind,
    clicked: bool,
    double_clicked: bool,
) -> Seq<Pressed> {
    let opened = if double_clicked && kind == Kind::Scene {
        seq![Pressed::Open(name)]
    } else if double_clicked && kind.textual() {
        seq![Pressed::Code(name)]
    } else {
        Seq::empty()
    };
    if clicked && (kind == Kind::Material || kind == Kind::Model) {
        opened.push(Pressed::Inspect(name))
    } else {
        opened
    }
}

/// What a press on a row asks for.
pub fn pressed(entry: &Entry, clicked: bool, double_clicked: bool) -> (result: Vec<Change>)
    ensures
        presses(result@) == asked(entry.name@, entry.kind, clicked, double_clicked),
{
    let mut changes: Vec<Change> = Vec::new();
    assert(presses(changes@) =~= Seq::empty());
    if double_clicked {
        if entry.kind == Kind::Scene {
            changes.push(Change::Open(entry.name.clone()));
            assert(presses(changes@) =~= seq![Pressed::Open(entry.name@)]);
        } else if is_text(entry.kind) {
            changes.push(Change::Code(entry.name.clone()));
            assert(presses(changes@) =~= seq![Pressed::Code(entry.name@)]);
        }
    }
    let ghost so_far = presses(changes@);
    if clicked && (entry.kind == Kind::Material || entry.kind == Kind::Model) {
        changes.push(Change::Inspect(entry.name.clone()));
        assert(presses(changes@) =~= so_far.push(Pressed::Inspect(entry.name@)));
    }
    changes
}

/// What a row says: its kind and its name.
pub fn row_label(entry: &Entry) -> (result: String)
    ensures
        result@ == entry.kind.said() + "  "@ + entry.name@,
{
    plus(plus(word(entry.kind), "  ").as_str(), entry.name.as_str())
}

/// What is said over a row: its name, and under it the identity a source names
/// the asset by, or that it has none yet.
pub fn row_hover(entry: &Entry, identity: Option<&str>) -> (result: String)
    ensures
        result@ == entry.name@ + "\n"@ + match identity {
            Some(identity) => identity@,
            None => "no identity yet; it gets one when it compiles"@,
        },
{
    let head: String = plus(entry.name.as_str(), "\n");
    match identity {
        Some(identity) => plus(head.as_str(), identity),
        None => plus(head.as_str(), "no identity yet; it gets one when it compiles"),
    }
}

/// What a right click on a row offers.
#[derive(Clone, Copy, Debug, PartialEq, Eq, Structural)]
pub enum Offer {
    /// Open the field its name is typed in.
    Rename,
    /// Put its identity in the clipboard.
    Copy,
}

impl Offer {
    /// What the button says.
    pub open spec fn said(self) -> Seq<char> {
        match self {
            Offer::Rename => "rename"@,
            Offer::Copy => "copy identity"@,
        }
    }

    /// What the button says.
    pub fn word(self) -> (result: &'static str)
        ensures
            result@ == self.said(),
    {
        match self {
            Offer::Rename => "rename",
            Offer::Copy => "copy identity",
        }
    }
}

/// Whether an offer can be pressed: an identity is copied only where there is
/// one.
pub fn offered(offer: Offer, identity: Option<&str>) -> (result: bool)
    ensures
        result == (offer == Offer::Copy ==> identity is Some),
{
    match offer {
        Offer::Rename => true,
        Offer::Copy => identity.is_some(),
    }
}

/// What pressing an offer comes to: the name field open on the row, or what
/// goes to the clipboard.
pub fn take_offer(naming: &mut Naming, offer: Offer, name: &str, identity: Option<&str>) -> (result:
    Option<String>)
    ensures
        match offer {
            Offer::Rename => {
                &&& result is None
                &&& final(naming).on is Some && final(naming).on->0@ == name@
                &&& final(naming).typed@ == stem_of(name@)
            },
            Offer::Copy => {
                &&& *final(naming) == *old(naming)
                &&& result is Some == identity is Some
                &&& result is Some ==> result->0@ == identity->0@
            },
        },
{
    match offer {
        Offer::Rename => {
            naming.open(name);
            None
        },
        Offer::Copy => match identity {
            Some(identity) => Some(identity.to_owned()),
            None => None,
        },
    }
}

/// What is said beside a row, where there is anything to say.
pub fn row_state(entry: &Entry) -> (result: Option<&'static str>)
    ensures
        result is Some == (entry.state != State::Compiled),
        result is Some ==> result->0@ == entry.state.said(),
{
    if entry.state == State::Compiled {
        None
    } else {
        Some(entry.state.word())
    }
}

/// The one row that is being renamed, and what is in it.
#[derive(Debug)]
pub struct Naming {
    /// Which asset the field is open on.
    pub on: Option<String>,
    /// What has been typed into it.
    pub typed: String,
}

/// A rename that typing asks for: the last part of the name to become
/// something else. The same name is not a rename, and neither is an empty
/// field.
pub open spec fn rename_asked(name: Seq<char>, typed: Seq<char>) -> Option<Pressed> {
    let to = trimmed(typed);
    if to.len() == 0 || to == stem_of(name) {
        None
    } else {
        Some(Pressed::RenameAsset(name, to))
    }
}

impl Naming {
    /// No row being renamed.
    pub fn new() -> (result: Naming)
        ensures
            result.on is None,
            result.typed@ == Seq::<char>::empty(),
    {
        Naming { on: None, typed: String::new() }
    }

    /// Opens the field on a row, with the last part of its name in it.
    pub fn open(&mut self, name: &str)
        ensures
            final(self).on is Some,
            final(self).on->0@ == name@,
            final(self).typed@ == stem_of(name@),
    {
        self.typed = last(name);
        self.on = Some(name.to_owned());
    }

    /// Whether the field is open on a row.
    pub fn is_on(&self, name: &str) -> (result: bool)
        ensures
            result == (self.on is Some && self.on->0@ == name@),
    {
        match &self.on {
            None => false,
            Some(on) => same(on.as_str(), name),
        }
    }

    /// One frame of the field on a row: escape puts it away, and so does
    /// losing the keyboard; losing it to enter asks for the rename.
    pub fn frame(&mut self, name: &str, escape: bool, lost: bool, enter: bool) -> (result: Option<
        Change,
    >)
        ensures
            final(self).typed@ == old(self).typed@,
            final(self).on == if escape || lost {
                None
            } else {
                old(self).on
            },
            match rename_asked(name@, old(self).typed@) {
                Some(asked) => if !escape && lost && enter {
                    result is Some && result->0.view() == asked
                } else {
                    result is None
                },
                None => result is None,
            },
    {
        if escape {
            self.on = None;
            return None;
        }
        if !lost {
            return None;
        }
        self.on = None;
        let to: String = trim(self.typed.as_str());
        if enter && !to.as_str().is_empty() && !same(to.as_str(), last(name).as_str()) {
            return Some(Change::RenameAsset(name.to_owned(), to));
        }
        None
    }
}

/// What a frame of the browser does to its list of rows.
#[derive(Clone, Copy, Debug, PartialEq, Eq, Structural)]
pub struct Refresh {
    /// Whether the project changed, so that everything starts over.
    pub restart: bool,
    /// Whether the tree is walked again.
    pub walk: bool,
}

/// Walks the tree again when it is time to, and starts over when the project
/// changed. `since` is how many milliseconds ago the last walk was.
pub fn refresh(shown: Option<&str>, project: &str, since: Option<u64>) -> (result: Refresh)
    ensures
        result.restart == !(shown is Some && shown->0@ == project@),
        result.walk == (result.restart || since is None || since->0 >= RESCAN),
{
    let restart: bool = match shown {
        None => true,
        Some(root) => !same(root, project),
    };
    let due: bool = match since {
        None => true,
        Some(elapsed) => elapsed >= RESCAN,
    };
    Refresh { restart, walk: restart || due }
}

/// The rows listed are exactly those a search matches, each once and in the order
/// they stand in.
pub proof fn every_match_is_listed(entries: Seq<Entry>, filter: Seq<char>, count: nat)
    requires
        count <= entries.len() <= usize::MAX,
    ensures
        ({
            let rows = matches_among(entries, filter, count);
            &&& forall|i: int|
                0 <= i < count ==> (rows.contains(i as usize) <==> matching(
                    (#[trigger] entries[i]).name@,
                    filter,
                ))
            &&& forall|k: int| 0 <= k < rows.len() ==> #[trigger] rows[k] < count
            &&& forall|j: int, k: int|
                0 <= j < k < rows.len() ==> #[trigger] rows[j] < #[trigger] rows[k]
        }),
    decreases count,
{
    if count > 0 {
        let less = (count - 1) as nat;
        every_match_is_listed(entries, filter, less);
        let so_far = matches_among(entries, filter, less);
        let rows = matches_among(entries, filter, count);
        assert forall|i: int| 0 <= i < count implies (rows.contains(i as usize) <==> matching(
            (#[trigger] entries[i]).name@,
            filter,
        )) by {
            if i < less {
                if so_far.contains(i as usize) {
                    let k = choose|k: int| 0 <= k < so_far.len() && so_far[k] == i as usize;
                    assert(rows[k] == i as usize);
                }
                if rows.contains(i as usize) {
                    let k = choose|k: int| 0 <= k < rows.len() && rows[k] == i as usize;
                    if k < so_far.len() {
                        assert(so_far[k] == i as usize);
                    }
                }
            } else {
                if matching(entries[i].name@, filter) {
                    assert(rows[so_far.len() as int] == i as usize);
                } else if rows.contains(i as usize) {
                    let k = choose|k: int| 0 <= k < rows.len() && rows[k] == i as usize;
                    assert(so_far[k] < less);
                }
            }
        }
    }
}

/// A row is found by any part of its name, whatever the case, and by no word at
/// all.
pub proof fn a_row_is_found_by_its_name(
    name: Seq<char>,
    filter: Seq<char>,
    before: Seq<char>,
    after: Seq<char>,
)
    ensures
        ({
            let word = lowered(trimmed(filter));
            &&& lowered(name) == before + word + after ==> matching(name, filter)
            &&& word.len() == 0 ==> matching(name, filter)
            &&& word.len() > 0 && !holds(lowered(name), word) ==> !matching(name, filter)
        }),
{
    crate::text::what_was_put_in_is_held(before, lowered(trimmed(filter)), after);
}

/// Two clicks open a scene here and send a document, a material, a program and a
/// translation out to an editor; a click shows a material or a model. Nothing
/// else is asked of a row, and never of another asset.
pub proof fn what_a_press_on_an_asset_asks(name: Seq<char>, kind: Kind)
    ensures
        ({
            let once = asked(name, kind, true, false);
            let twice = asked(name, kind, true, true);
            let shown = kind == Kind::Material || kind == Kind::Model;
            let out = kind == Kind::Document || kind == Kind::Material || kind == Kind::Script
                || kind == Kind::Translation;
            &&& shown ==> once == seq![Pressed::Inspect(name)]
            &&& !shown ==> once.len() == 0
            &&& kind == Kind::Scene ==> twice == seq![Pressed::Open(name)]
            &&& out && !shown ==> twice == seq![Pressed::Code(name)]
            &&& kind == Kind::Material ==> twice == seq![
                Pressed::Code(name),
                Pressed::Inspect(name),
            ]
            &&& kind == Kind::Model ==> twice == seq![Pressed::Inspect(name)]
            &&& kind != Kind::Scene && !out && !shown ==> twice.len() == 0
            &&& asked(name, kind, false, false).len() == 0
        }),
{
    assert(Seq::<Pressed>::empty().push(Pressed::Inspect(name)) =~= seq![Pressed::Inspect(name)]);
    assert(seq![Pressed::Code(name)].push(Pressed::Inspect(name)) =~= seq![
        Pressed::Code(name),
        Pressed::Inspect(name),
    ]);
}

/// Typing the last part of a name again asks for nothing, and neither does an
/// empty field; anything else asks for that asset to be called so, without the
/// spaces around it.
pub proof fn what_typing_a_name_asks(
    folder: Seq<char>,
    last: Seq<char>,
    typed: Seq<char>,
)
    requires
        !last.contains('/'),
    ensures
        ({
            let name = folder + seq!['/'] + last;
            &&& trimmed(typed).len() == 0 ==> rename_asked(name, typed) is None
            &&& trimmed(typed) == last ==> rename_asked(name, typed) is None
            &&& trimmed(typed).len() > 0 && trimmed(typed) != last ==> rename_asked(name, typed)
                == Some(Pressed::RenameAsset(name, trimmed(typed)))
        }),
{
    crate::make::the_last_part_is_the_stem(folder, last);
}

/// Each offer says what it does.
pub proof fn offers_say_what_they_do(one: Offer)
    ensures
        one == Offer::Rename ==> one.said() == "rename"@,
        one == Offer::Copy ==> one.said() == "copy identity"@,
{
}

} // verus!
