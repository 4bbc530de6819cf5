//! What is in a project's asset tree: every source, what it compiles into,
//! and whether it has.

use vstd::prelude::*;
use crate::order::{comparison, in_order, orders, rank, ranked, ranked_in_order, ranked_keeps, ranked_views, ByName, Ordered};
use crate::text::{before, sooner, sooner_carries, sooner_decides};

verus! {

/// What a source compiles into.
#[derive(Clone, Copy, Debug, PartialEq, Eq, Structural)]
pub enum Kind {
    Mesh,
    Texture,
    Font,
    Document,
    Material,
    Model,
    Sound,
    Scene,
    Skeleton,
    Clip,
    Script,
    Translation,
}

impl Kind {
    /// What a kind is called in a row.
    pub open spec fn said(self) -> Seq<char> {
        match self {
            Kind::Mesh => "mesh"@,
            Kind::Texture => "texture"@,
            Kind::Font => "font"@,
            Kind::Document => "document"@,
            Kind::Material => "material"@,
            Kind::Model => "model"@,
            Kind::Sound => "sound"@,
            Kind::Scene => "scene"@,
            Kind::Skeleton => "skeleton"@,
            Kind::Clip => "clip"@,
            Kind::Script => "program"@,
            Kind::Translation => "translation"@,
        }
    }

    /// Whether a source of this kind is text that goes out to an editor. A
    /// scene is text too, and opens here instead.
    pub open spec fn textual(self) -> bool {
        match self {
            Kind::Document => true,
            Kind::Material => true,
            Kind::Script => true,
            Kind::Translation => true,
            _ => false,
        }
    }
}

/// What to call a kind in a row.
pub fn word(kind: Kind) -> (result: &'static str)
    ensures
        result@ == kind.said(),
{
    match kind {
        Kind::Mesh => "mesh",
        Kind::Texture => "texture",
        Kind::Font => "font",
        Kind::Document => "document",
        Kind::Material => "material",
        Kind::Model => "model",
        Kind::Sound => "sound",
        Kind::Scene => "scene",
        Kind::Skeleton => "skeleton",
        Kind::Clip => "clip",
        Kind::Script => "program",
        Kind::Translation => "translation",
    }
}

/// Whether a source of this kind is text that goes out to an editor.
pub fn is_text(kind: Kind) -> (result: bool)
    ensures
        result == kind.textual(),
{
    match kind {
        Kind::Document => true,
        Kind::Material => true,
        Kind::Script => true,
        Kind::Translation => true,
        _ => false,
    }
}

/// Whether a source has been compiled.
#[derive(Clone, Copy, Debug, PartialEq, Eq, Structural)]
pub enum State {
    /// Its output is there and no older than it.
    Compiled,
    /// Its output is there and older than it: the last compile of it did not
    /// finish, and the engine is running the one before.
    Stale,
    /// There is no output at all: never compiled, or never successfully.
    Uncompiled,
}

impl State {
    /// What is said beside a row.
    pub open spec fn said(self) -> Seq<char> {
        match self {
            State::Compiled => ""@,
            State::Stale => "stale"@,
            State::Uncompiled => "not compiled"@,
        }
    }

    /// What to say beside a row, in the fewest words; nothing for the usual
    /// case.
    pub fn word(self) -> (result: &'static str)
        ensures
            result@ == self.said(),
    {
        match self {
            State::Compiled => "",
            State::Stale => "stale",
            State::Uncompiled => "not compiled",
        }
    }
}

/// Whether a source has been compiled, by when the two files were written:
/// nothing for one that is not there.
pub open spec fn state_of(edited: Option<u64>, made: Option<u64>) -> State {
    match made {
        None => State::Uncompiled,
        Some(made) => match edited {
            Some(edited) => if edited > made {
                State::Stale
            } else {
                State::Compiled
            },
            None => State::Compiled,
        },
    }
}

/// Whether a source has been compiled, by the moments the source was edited
/// and the output made.
pub fn state(edited: Option<u64>, made: Option<u64>) -> (result: State)
    ensures
        result == state_of(edited, made),
{
    match made {
        None => State::Uncompiled,
        Some(made) => match edited {
            Some(edited) => if edited > made {
                State::Stale
            } else {
                State::Compiled
            },
            None => State::Compiled,
        },
    }
}

/// One source under the asset tree.
#[derive(Debug)]
pub struct Entry {
    /// The name the engine registers it under.
    pub name: String,
    /// What it compiles into.
    pub kind: Kind,
    /// The source file.
    pub source: String,
    /// Where its output is, or would be.
    pub output: String,
    /// Whether the output is there and current.
    pub state: State,
}

/// What a source is.
pub ghost struct Listed {
    pub name: Seq<char>,
    pub kind: Kind,
    pub source: Seq<char>,
    pub output: Seq<char>,
    pub state: State,
}

impl Entry {
    /// What the source is.
    pub open spec fn view(&self) -> Listed {
        Listed {
            name: self.name@,
            kind: self.kind,
            source: self.source@,
            output: self.output@,
            state: self.state,
        }
    }
}

/// What several sources are.
pub open spec fn entries_view(entries: Seq<Entry>) -> Seq<Listed> {
    entries.map_values(|entry: Entry| entry.view())
}

/// The comparison sources are listed with: by name.
pub open spec fn by_name() -> spec_fn(Listed, Listed) -> bool {
    |left: Listed, right: Listed| sooner(left.name, right.name)
}

impl Ordered<ByName> for Entry {
    open spec fn sooner_by(&self, other: &Entry, by: ByName) -> bool {
        sooner(self.view().name, other.view().name)
    }

    fn before_by(&self, other: &Entry, by: ByName) -> (result: bool) {
        before(self.name.as_str(), other.name.as_str())
    }
}

/// One source as a walk of the two trees found it.
#[derive(Debug)]
pub struct Found {
    pub name: String,
    pub kind: Kind,
    pub source: String,
    pub output: String,
    /// When the source was edited, if that can be said.
    pub edited: Option<u64>,
    /// When the output was made, if it is there.
    pub made: Option<u64>,
}

/// What a found source is.
pub open spec fn listed(found: Found) -> Listed {
    Listed {
        name: found.name@,
        kind: found.kind,
        source: found.source@,
        output: found.output@,
        state: state_of(found.edited, found.made),
    }
}

/// Every source a walk found, by name. A tree that is not there is an empty
/// walk.
pub fn scan(found: Vec<Found>) -> (result: Vec<Entry>)
    ensures
        entries_view(result@) == ranked(
            found@.map_values(|one: Found| listed(one)),
            by_name(),
        ),
{
    let ghost all = found@;
    let ghost want = all.map_values(|one: Found| listed(one));
    let mut left: Vec<Found> = found;
    let mut entries: Vec<Entry> = Vec::new();
    let ghost mut done: int = 0;
    assert(all.skip(0) =~= all);
    assert(entries_view(entries@) =~= want.take(0));
    while left.len() > 0
        invariant
            0 <= done <= all.len(),
            left@ == all.skip(done),
            want == all.map_values(|one: Found| listed(one)),
            entries_view(entries@) == want.take(done),
        decreases left@.len(),
    {
        let ghost was = entries_view(entries@);
        let one: Found = left.remove(0);
        assert(left@ =~= all.skip(done + 1));
        let is: State = state(one.edited, one.made);
        let entry: Entry = Entry {
            name: one.name,
            kind: one.kind,
            source: one.source,
            output: one.output,
            state: is,
        };
        assert(entry.view() == want[done]);
        entries.push(entry);
        assert(entries_view(entries@) =~= was.push(want[done]));
        assert(want.take(done + 1) =~= want.take(done).push(want[done]));
        proof {
            done = done + 1;
        }
    }
    assert(want.take(done) =~= want);
    proof {
        let less = comparison::<ByName, Entry>(ByName);
        let view = |entry: Entry| entry.view();
        assert forall|a: Entry, b: Entry| #[trigger] less(a, b) == by_name()(view(a), view(b)) by {}
        ranked_views(entries@, less, view, by_name());
    }
    rank(entries, ByName)
}

/// Sources are listed by name, every one of them and nothing else.
pub proof fn listed_by_name(found: Seq<Listed>)
    ensures
        ranked(found, by_name()).to_multiset() == found.to_multiset(),
        in_order(ranked(found, by_name()), by_name()),
{
    let less = by_name();
    ranked_keeps(found, less);
    assert(orders(less)) by {
        assert forall|a: Listed, b: Listed| #[trigger] less(a, b) implies !less(b, a) by {
            sooner_decides(a.name, b.name);
        }
        assert forall|a: Listed, b: Listed, c: Listed|
            !(#[trigger] less(b, a)) && !(#[trigger] less(c, b)) implies !less(c, a) by {
            sooner_decides(a.name, b.name);
            sooner_decides(b.name, c.name);
            sooner_decides(a.name, c.name);
            if a.name != b.name && b.name != c.name {
                sooner_carries(a.name, b.name, c.name);
            }
        }
    }
    ranked_in_order(found, less);
}

/// A source is compiled exactly where its output is there and no older than it,
/// stale where it is older, and not compiled where there is none. Editing it
/// later never makes it fresher.
pub proof fn a_source_is_as_fresh_as_its_output(edited: u64, made: u64)
    ensures
        state_of(Some(edited), None) == State::Uncompiled,
        state_of(None, None) == State::Uncompiled,
        state_of(None, Some(made)) == State::Compiled,
        state_of(Some(edited), Some(made)) == State::Compiled <==> edited <= made,
        state_of(Some(edited), Some(made)) == State::Stale <==> made < edited,
{
}

/// Of two sources listed, the name of the one in front comes no later, and each
/// is listed as it was found: under its name, with its files and its kind.
pub proof fn sources_stand_by_name(found: Seq<Listed>, one: Found, i: int, j: int)
    requires
        0 <= i < j < found.len(),
    ensures
        ({
            let all = ranked(found, by_name());
            &&& all.len() == found.len()
            &&& !sooner(all[j].name, all[i].name)
        }),
        listed(one).name == one.name@,
        listed(one).kind == one.kind,
        listed(one).source == one.source@,
        listed(one).output == one.output@,
        listed(one).state == State::Uncompiled <==> one.made is None,
{
    listed_by_name(found);
    let all = ranked(found, by_name());
    all.to_multiset_ensures();
    found.to_multiset_ensures();
}

/// No two kinds are called the same, and no two states are.
pub proof fn kinds_are_told_apart(one: Kind, other: Kind, now: State, then: State)
    ensures
        one.said() == other.said() ==> one == other,
        now.said() == then.said() ==> now == then,
        now.said().len() == 0 <==> now == State::Compiled,
{
    reveal_strlit("mesh");
    reveal_strlit("texture");
    reveal_strlit("font");
    reveal_strlit("document");
    reveal_strlit("material");
    reveal_strlit("model");
    reveal_strlit("sound");
    reveal_strlit("scene");
    reveal_strlit("skeleton");
    reveal_strlit("clip");
    reveal_strlit("program");
    reveal_strlit("translation");
    reveal_strlit("");
    reveal_strlit("stale");
    reveal_strlit("not compiled");
    assert("mesh"@.len() == 4 && "mesh"@[0] == 'm');
    assert("texture"@.len() == 7 && "texture"@[0] == 't');
    assert("font"@.len() == 4 && "font"@[0] == 'f');
    assert("document"@.len() == 8 && "document"@[0] == 'd');
    assert("material"@.len() == 8 && "material"@[0] == 'm');
    assert("model"@.len() == 5 && "model"@[0] == 'm');
    assert("sound"@.len() == 5 && "sound"@[0] == 's' && "sound"@[1] == 'o');
    assert("scene"@.len() == 5 && "scene"@[0] == 's' && "scene"@[1] == 'c');
    assert("skeleton"@.len() == 8 && "skeleton"@[0] == 's');
    assert("clip"@.len() == 4 && "clip"@[0] == 'c');
    assert("program"@.len() == 7 && "program"@[0] == 'p');
    assert("translation"@.len() == 11 && "translation"@[0] == 't');
    assert(""@.len() == 0 && "stale"@.len() == 5 && "not compiled"@.len() == 12);
    if one.said() == other.said() {
        assert(one.said().len() == other.said().len());
        assert(one.said()[0] == other.said()[0]);
        assert(one.said()[1] == other.said()[1]);
    }
    if now.said() == then.said() {
        assert(now.said().len() == then.said().len());
    }
}

/// Each kind is called what it compiles into, a script a program; and a document, a
/// material, a program and a translation go out to an editor, and no other kind.
pub proof fn kinds_are_called_what_they_are(one: Kind)
    ensures
        one == Kind::Mesh ==> one.said() == "mesh"@,
        one == Kind::Texture ==> one.said() == "texture"@,
        one == Kind::Font ==> one.said() == "font"@,
        one == Kind::Document ==> one.said() == "document"@,
        one == Kind::Material ==> one.said() == "material"@,
        one == Kind::Model ==> one.said() == "model"@,
        one == Kind::Sound ==> one.said() == "sound"@,
        one == Kind::Scene ==> one.said() == "scene"@,
        one == Kind::Skeleton ==> one.said() == "skeleton"@,
        one == Kind::Clip ==> one.said() == "clip"@,
        one == Kind::Script ==> one.said() == "program"@,
        one == Kind::Translation ==> one.said() == "translation"@,
        one.textual() <==> one == Kind::Document || one == Kind::Material || one == Kind::Script
            || one == Kind::Translation,
{
}

/// What is stale or was never compiled says so, and nothing else says anything.
pub proof fn states_say_what_is_wrong(one: State)
    ensures
        one == State::Stale ==> one.said() == "stale"@,
        one == State::Uncompiled ==> one.said() == "not compiled"@,
        one == State::Compiled ==> one.said() == ""@,
{
}

} // verus!
