//! What the editor remembers about a project between runs: the scenes that
//! were open, which of them was on screen, and how wide the panels had been
//! dragged.

use vstd::prelude::*;
use vstd::string::*;
use crate::json::{
    all_blank, digits_spell, digits_spell_number, field, first_named, list,
    list_spells, list_text, member_views, named, object, object_spells, object_text, parse,
    parsed, quoted, quoted_text, quotes_spell, said_items, said_text, spelled_parses, spells,
    text_views, whole, Json, Value,
};
use crate::paths::{join, under};
use crate::table::texts;
use crate::text::{decimal, digits, plus};

verus! {

/// The directory a project's derived files live in.
pub const DERIVED: &'static str = ".colby";

/// The file, under the project's derived tree.
pub const FILE: &'static str = "editor.json";

/// The version of the file this build writes.
pub const SCHEMA: u32 = 1;

/// How wide the hierarchy starts out, in points.
pub const HIERARCHY_WIDTH: u32 = 240;

/// How wide the inspector starts out.
pub const INSPECTOR_WIDTH: u32 = 320;

/// How tall the bottom panel starts out.
pub const BOTTOM_HEIGHT: u32 = 220;

/// How wide the panels were, in points.
#[derive(Clone, Copy, Debug, PartialEq, Eq, Structural)]
pub struct Sizes {
    /// The hierarchy, on the left.
    pub left: u32,
    /// The inspector, on the right.
    pub right: u32,
    /// The console and its neighbors, along the bottom.
    pub bottom: u32,
}

/// How wide the panels start out.
pub open spec fn starting_sizes() -> Sizes {
    Sizes { left: HIERARCHY_WIDTH, right: INSPECTOR_WIDTH, bottom: BOTTOM_HEIGHT }
}

impl Default for Sizes {
    fn default() -> (result: Sizes)
        ensures
            result == starting_sizes(),
    {
        Sizes { left: HIERARCHY_WIDTH, right: INSPECTOR_WIDTH, bottom: BOTTOM_HEIGHT }
    }
}

/// Everything the editor keeps about one project.
#[derive(Debug, PartialEq, Eq)]
pub struct Session {
    /// The scenes that were open, in the order they were drawn.
    pub tabs: Vec<String>,
    /// Which of them was on screen.
    pub current: usize,
    /// How wide the three panels had been dragged, in points.
    pub panels: Sizes,
}

/// What a session says.
pub ghost struct Kept {
    pub tabs: Seq<Seq<char>>,
    pub current: nat,
    pub panels: Sizes,
}

/// Why a text is not a session.
#[derive(Debug)]
pub enum SessionError {
    /// It is not JSON.
    NotJson,
    /// It does not say its schema.
    Schema,
    /// Its schema is one this build does not read.
    Newer(u32),
}

/// A refusal in words.
pub open spec fn refusal(why: SessionError) -> Seq<char> {
    match why {
        SessionError::NotJson => "the text is not JSON"@,
        SessionError::Schema => "the editor's file needs a schema number"@,
        SessionError::Newer(schema) => "the editor's file was written by a newer engine: schema "@
            + digits(schema as nat) + (", and this build reads "@ + digits(SCHEMA as nat)),
    }
}

impl SessionError {
    /// The reason in words.
    pub fn words(&self) -> (result: String)
        ensures
            result@ == refusal(*self),
    {
        match self {
            SessionError::NotJson => "the text is not JSON".to_owned(),
            SessionError::Schema => "the editor's file needs a schema number".to_owned(),
            SessionError::Newer(schema) => {
                let start: String = plus(
                    "the editor's file was written by a newer engine: schema ",
                    decimal(*schema as u64).as_str(),
                );
                let reads: String = plus(", and this build reads ", decimal(SCHEMA as u64).as_str());
                plus(start.as_str(), reads.as_str())
            },
        }
    }
}

/// The texts among several values, in their order.
pub open spec fn texts_among(items: Seq<Json>) -> Seq<Seq<char>>
    decreases items.len(),
{
    if items.len() == 0 {
        Seq::empty()
    } else {
        match said_text(items.last()) {
            Some(text) => texts_among(items.drop_last()).push(text),
            None => texts_among(items.drop_last()),
        }
    }
}

/// A size under a name: what it says, or where the panel starts when it says
/// nothing, nought, or no number at all.
pub open spec fn size_said(said: Json, name: Seq<char>, start: u32) -> u32 {
    match field(said, name) {
        None => start,
        Some(number) => match whole(number, u32::MAX as nat) {
            None => start,
            Some(size) => if size > 0 {
                size as u32
            } else {
                start
            },
        },
    }
}

/// The three sizes a value says.
pub open spec fn sizes_said(said: Option<Json>) -> Sizes {
    match said {
        None => starting_sizes(),
        Some(said) => Sizes {
            left: size_said(said, "left"@, HIERARCHY_WIDTH),
            right: size_said(said, "right"@, INSPECTOR_WIDTH),
            bottom: size_said(said, "bottom"@, BOTTOM_HEIGHT),
        },
    }
}

/// A tab that is there: the one asked for, or the last where that is past the
/// end.
pub open spec fn pulled_back(current: nat, count: nat) -> nat {
    let last: nat = if count == 0 { 0 } else { (count - 1) as nat };
    if current < last {
        current
    } else {
        last
    }
}

/// The session a value says, or why it says none.
pub open spec fn session_said(said: Json) -> Result<Kept, SessionError> {
    let schema = match field(said, "schema"@) {
        Some(number) => whole(number, u32::MAX as nat),
        None => None,
    };
    match schema {
        None => Err(SessionError::Schema),
        Some(schema) => if schema > SCHEMA {
            Err(SessionError::Newer(schema as u32))
        } else {
            let tabs = match field(said, "tabs"@) {
                Some(items) => texts_among(said_items(items)),
                None => Seq::empty(),
            };
            let current = match field(said, "current"@) {
                Some(number) => match whole(number, u32::MAX as nat) {
                    Some(current) => current,
                    None => 0,
                },
                None => 0,
            };
            Ok(
                Kept {
                    tabs,
                    current: pulled_back(current, tabs.len()),
                    panels: sizes_said(field(said, "panels"@)),
                },
            )
        },
    }
}

/// The session a text is, or why it is none.
pub open spec fn session_of(text: Seq<char>) -> Result<Kept, SessionError> {
    match parsed(text) {
        None => Err(SessionError::NotJson),
        Some(said) => session_said(said),
    }
}

/// A size under a name.
fn size(value: &Value, name: &str, start: u32) -> (result: u32)
    ensures
        result == size_said(value.view(), name@, start),
{
    match value.get(name) {
        None => start,
        Some(number) => match number.as_u32() {
            None => start,
            Some(size) => if size > 0 {
                size
            } else {
                start
            },
        },
    }
}

/// The three widths, each falling back to what the panel starts at.
fn sizes(value: Option<&Value>) -> (result: Sizes)
    ensures
        result == sizes_said(
            match value {
                None => None,
                Some(value) => Some(value.view()),
            },
        ),
{
    match value {
        None => Sizes {
            left: HIERARCHY_WIDTH,
            right: INSPECTOR_WIDTH,
            bottom: BOTTOM_HEIGHT,
        },
        Some(value) => Sizes {
            left: size(value, "left", HIERARCHY_WIDTH),
            right: size(value, "right", INSPECTOR_WIDTH),
            bottom: size(value, "bottom", BOTTOM_HEIGHT),
        },
    }
}

/// The texts among the items of a list.
fn read_texts(items: &Value) -> (result: Vec<String>)
    ensures
        texts(result@) == texts_among(said_items(items.view())),
{
    let ghost all = said_items(items.view());
    let mut found: Vec<String> = Vec::new();
    let mut i: usize = 0;
    assert(all.take(0) =~= Seq::empty());
    assert(texts(found@) =~= Seq::empty());
    while i < items.count()
        invariant
            i <= all.len(),
            all == said_items(items.view()),
            texts(found@) == texts_among(all.take(i as int)),
        decreases all.len() - i,
    {
        let ghost was = texts(found@);
        proof {
            assert(all.take(i as int + 1).drop_last() =~= all.take(i as int));
            assert(all.take(i as int + 1).last() == all[i as int]);
        }
        match items.item(i).as_str() {
            Some(text) => {
                found.push(text.to_owned());
                assert(texts(found@) =~= was.push(text@));
            },
            None => {},
        }
        i = i + 1;
    }
    assert(all.take(i as int) =~= all);
    found
}

/// The panels as the file writes them.
pub open spec fn panel_members(panels: Sizes) -> Seq<(Seq<char>, Seq<char>)> {
    seq![
        ("left"@, digits(panels.left as nat)),
        ("right"@, digits(panels.right as nat)),
        ("bottom"@, digits(panels.bottom as nat)),
    ]
}

/// The fields of a session as the file writes them.
pub open spec fn session_members(session: Kept) -> Seq<(Seq<char>, Seq<char>)> {
    seq![
        ("schema"@, digits(SCHEMA as nat)),
        (
            "tabs"@,
            list_text(
                "\n\t\t"@,
                "\n\t\t"@,
                "\n\t"@,
                Seq::new(session.tabs.len(), |i: int| quoted_text(session.tabs[i])),
            ),
        ),
        ("current"@, digits(session.current)),
        ("panels"@, object_text(" "@, " "@, " "@, panel_members(session.panels))),
    ]
}

/// The file's text.
pub open spec fn session_written(session: Kept) -> Seq<char> {
    object_text("\n\t"@, "\n\t"@, "\n"@, session_members(session)) + "\n"@
}

impl Session {
    /// What the session says.
    pub open spec fn view(&self) -> Kept {
        Kept { tabs: texts(self.tabs@), current: self.current as nat, panels: self.panels }
    }

    /// Nothing open, and the panels as they start out.
    pub fn new() -> (result: Session)
        ensures
            result.view() == (Kept { tabs: Seq::empty(), current: 0, panels: starting_sizes() }),
    {
        let result: Session = Session {
            tabs: Vec::new(),
            current: 0,
            panels: Sizes {
                left: HIERARCHY_WIDTH,
                right: INSPECTOR_WIDTH,
                bottom: BOTTOM_HEIGHT,
            },
        };
        assert(result.view().tabs =~= Seq::empty());
        result
    }

    /// Where the file is for the project under a directory.
    pub fn path(root: &str) -> (result: String)
        ensures
            result@ == under(under(root@, DERIVED@), FILE@),
    {
        join(join(root, DERIVED).as_str(), FILE)
    }

    /// Reads the file's text.
    pub fn read(text: &str) -> (result: Result<Session, SessionError>)
        ensures
            match session_of(text@) {
                Ok(session) => result is Ok && result->Ok_0.view() == session,
                Err(why) => result is Err && result->Err_0 == why,
            },
    {
        let value: Value = match parse(text) {
            None => {
                return Err(SessionError::NotJson);
            },
            Some(value) => value,
        };
        let schema: u32 = match value.get("schema") {
            None => {
                return Err(SessionError::Schema);
            },
            Some(number) => match number.as_u32() {
                None => {
                    return Err(SessionError::Schema);
                },
                Some(schema) => schema,
            },
        };
        if schema > SCHEMA {
            return Err(SessionError::Newer(schema));
        }
        let tabs: Vec<String> = match value.get("tabs") {
            Some(items) => read_texts(items),
            None => {
                let none: Vec<String> = Vec::new();
                assert(texts(none@) =~= Seq::empty());
                none
            },
        };
        let current: usize = match value.get("current") {
            Some(number) => match number.as_u32() {
                Some(current) => current as usize,
                None => 0,
            },
            None => 0,
        };
        let last: usize = if tabs.len() == 0 { 0 } else { tabs.len() - 1 };
        let panels: Sizes = sizes(value.get("panels"));
        Ok(Session { current: if current < last { current } else { last }, tabs, panels })
    }

    /// Reads what the editor left, or nothing at all: no text, or one that
    /// cannot be read, is the starting state rather than a failure.
    pub fn open(text: Option<&str>) -> (result: Session)
        ensures
            result.view() == match text {
                None => Kept { tabs: Seq::empty(), current: 0, panels: starting_sizes() },
                Some(text) => match session_of(text@) {
                    Ok(session) => session,
                    Err(_) => Kept { tabs: Seq::empty(), current: 0, panels: starting_sizes() },
                },
            },
    {
        match text {
            None => Session::new(),
            Some(text) => match Session::read(text) {
                Ok(session) => session,
                Err(_) => Session::new(),
            },
        }
    }

    /// The file's text.
    pub fn write(&self) -> (result: String)
        ensures
            result@ == session_written(self.view()),
    {
        let ghost all = self.view().tabs;
        let ghost want = Seq::new(all.len(), |i: int| quoted_text(all[i]));
        let mut rows: Vec<String> = Vec::new();
        let mut i: usize = 0;
        while i < self.tabs.len()
            invariant
                i <= self.tabs@.len(),
                all == texts(self.tabs@),
                want == Seq::new(all.len(), |i: int| quoted_text(all[i])),
                text_views(rows@) == want.take(i as int),
            decreases self.tabs@.len() - i,
        {
            let row: String = quoted(self.tabs[i].as_str());
            let ghost was = text_views(rows@);
            rows.push(row);
            assert(text_views(rows@) =~= was.push(want[i as int]));
            assert(want.take(i as int + 1) =~= want.take(i as int).push(want[i as int]));
            i = i + 1;
        }
        assert(want.take(i as int) =~= want);
        let mut panels: Vec<(String, String)> = Vec::new();
        panels.push(("left".to_owned(), decimal(self.panels.left as u64)));
        panels.push(("right".to_owned(), decimal(self.panels.right as u64)));
        panels.push(("bottom".to_owned(), decimal(self.panels.bottom as u64)));
        assert(member_views(panels@) =~= panel_members(self.panels));
        let mut members: Vec<(String, String)> = Vec::new();
        members.push(("schema".to_owned(), decimal(SCHEMA as u64)));
        members.push(("tabs".to_owned(), list("\n\t\t", "\n\t\t", "\n\t", &rows)));
        members.push(("current".to_owned(), decimal(self.current as u64)));
        members.push(("panels".to_owned(), object(" ", " ", " ", &panels)));
        assert(member_views(members@) =~= session_members(self.view()));
        plus(object("\n\t", "\n\t", "\n", &members).as_str(), "\n")
    }
}

impl Default for Session {
    fn default() -> (result: Session)
        ensures
            result.view() == (Kept { tabs: Seq::empty(), current: 0, panels: starting_sizes() }),
    {
        Session::new()
    }
}

/// However a session was left, what is read is a tab that is there and a
/// panel somebody can see.
pub proof fn what_is_read_can_be_shown(text: Seq<char>)
    ensures
        match session_of(text) {
            Ok(session) => {
                &&& session.tabs.len() > 0 ==> session.current < session.tabs.len()
                &&& session.tabs.len() == 0 ==> session.current == 0
                &&& session.panels.left > 0
                &&& session.panels.right > 0
                &&& session.panels.bottom > 0
            },
            Err(_) => true,
        },
{
}

/// A session as it comes back: the current tab pulled back to one that is
/// there, and a panel nobody could see at its starting width.
pub open spec fn mended(session: Kept) -> Kept {
    Kept {
        tabs: session.tabs,
        current: pulled_back(
            if session.current <= u32::MAX {
                session.current
            } else {
                0
            },
            session.tabs.len(),
        ),
        panels: Sizes {
            left: if session.panels.left > 0 {
                session.panels.left
            } else {
                HIERARCHY_WIDTH
            },
            right: if session.panels.right > 0 {
                session.panels.right
            } else {
                INSPECTOR_WIDTH
            },
            bottom: if session.panels.bottom > 0 {
                session.panels.bottom
            } else {
                BOTTOM_HEIGHT
            },
        },
    }
}

/// A session with a tab that is there and panels somebody can see is not
/// mended at all.
pub proof fn a_sound_session_stays(session: Kept)
    requires
        session.current < session.tabs.len() || (session.tabs.len() == 0 && session.current == 0),
        session.current <= u32::MAX,
        session.panels.left > 0,
        session.panels.right > 0,
        session.panels.bottom > 0,
    ensures
        mended(session) == session,
{
}

/// The layout the file is written with is blanks.
proof fn layout_is_blank()
    ensures
        all_blank(" "@),
        all_blank("\n"@),
        all_blank("\n\t"@),
        all_blank("\n\t\t"@),
{
    reveal_strlit(" ");
    reveal_strlit("\n");
    reveal_strlit("\n\t");
    reveal_strlit("\n\t\t");
}

/// Texts among values that are all texts are all of them.
proof fn all_are_texts(said: Seq<Seq<char>>)
    ensures
        texts_among(Seq::new(said.len(), |i: int| Json::Text(said[i]))) == said,
    decreases said.len(),
{
    let items = Seq::new(said.len(), |i: int| Json::Text(said[i]));
    if said.len() == 0 {
        assert(items =~= Seq::empty());
        assert(said =~= Seq::empty());
    } else {
        let less = said.drop_last();
        all_are_texts(less);
        assert(items.drop_last() =~= Seq::new(less.len(), |i: int| Json::Text(less[i])));
        assert(less.push(said.last()) =~= said);
    }
}

/// What is written of the panels reads back as them.
proof fn panels_return(panels: Sizes) -> (said: Json)
    ensures
        spells(object_text(" "@, " "@, " "@, panel_members(panels)), said),
        sizes_said(Some(said)) == (Sizes {
            left: if panels.left > 0 {
                panels.left
            } else {
                HIERARCHY_WIDTH
            },
            right: if panels.right > 0 {
                panels.right
            } else {
                INSPECTOR_WIDTH
            },
            bottom: if panels.bottom > 0 {
                panels.bottom
            } else {
                BOTTOM_HEIGHT
            },
        }),
{
    let members = panel_members(panels);
    let tree = seq![
        Json::Number(digits(panels.left as nat)),
        Json::Number(digits(panels.right as nat)),
        Json::Number(digits(panels.bottom as nat)),
    ];
    layout_is_blank();
    digits_spell_number(panels.left as nat);
    digits_spell_number(panels.right as nat);
    digits_spell_number(panels.bottom as nat);
    digits_spell(panels.left as nat);
    digits_spell(panels.right as nat);
    digits_spell(panels.bottom as nat);
    assert forall|i: int| 0 <= i < members.len() implies spells(
        #[trigger] members[i].1,
        tree[i],
    ) by {
        assert(i == 0 || i == 1 || i == 2);
    }
    object_spells(" "@, " "@, " "@, members, tree);
    let all = named(members, tree);
    let said = Json::Object(all);
    reveal_strlit("left");
    reveal_strlit("right");
    reveal_strlit("bottom");
    assert("left"@.len() == 4 && "right"@.len() == 5 && "bottom"@.len() == 6);
    let one = all.drop_first();
    let two = one.drop_first();
    assert(all[0] == ("left"@, tree[0]));
    assert(one[0] == ("right"@, tree[1]));
    assert(two[0] == ("bottom"@, tree[2]));
    assert(field(said, "left"@) == Some(tree[0]));
    assert(first_named(one, "right"@) == Some(tree[1]));
    assert(field(said, "right"@) == Some(tree[1]));
    assert(first_named(two, "bottom"@) == Some(tree[2]));
    assert(first_named(one, "bottom"@) == Some(tree[2]));
    assert(field(said, "bottom"@) == Some(tree[2]));
    said
}

/// What is written is what is read back, mended where it has to be.
pub proof fn a_session_reads_back(session: Kept)
    ensures
        session_of(session_written(session)) == Ok::<Kept, SessionError>(mended(session)),
{
    let tabs = session.tabs;
    let rows = Seq::new(tabs.len(), |i: int| quoted_text(tabs[i]));
    let items = Seq::new(tabs.len(), |i: int| Json::Text(tabs[i]));
    layout_is_blank();
    assert forall|i: int| 0 <= i < rows.len() implies spells(#[trigger] rows[i], items[i]) by {
        quotes_spell(tabs[i]);
    }
    list_spells("\n\t\t"@, "\n\t\t"@, "\n\t"@, rows, items);
    all_are_texts(tabs);
    let panels = panels_return(session.panels);
    let members = session_members(session);
    let tree = seq![
        Json::Number(digits(SCHEMA as nat)),
        Json::List(items),
        Json::Number(digits(session.current)),
        panels,
    ];
    digits_spell_number(SCHEMA as nat);
    digits_spell(SCHEMA as nat);
    digits_spell_number(session.current);
    digits_spell(session.current);
    assert forall|i: int| 0 <= i < members.len() implies spells(
        #[trigger] members[i].1,
        tree[i],
    ) by {
        assert(i == 0 || i == 1 || i == 2 || i == 3);
    }
    object_spells("\n\t"@, "\n\t"@, "\n"@, members, tree);
    let all = named(members, tree);
    let said = Json::Object(all);
    spelled_parses(object_text("\n\t"@, "\n\t"@, "\n"@, members), "\n"@, said);
    reveal_strlit("schema");
    reveal_strlit("tabs");
    reveal_strlit("current");
    reveal_strlit("panels");
    assert("schema"@.len() == 6 && "tabs"@.len() == 4 && "current"@.len() == 7 && "panels"@.len()
        == 6);
    assert("schema"@[0] == 's' && "panels"@[0] == 'p');
    let one = all.drop_first();
    let two = one.drop_first();
    let three = two.drop_first();
    assert(all[0] == ("schema"@, tree[0]));
    assert(one[0] == ("tabs"@, tree[1]));
    assert(two[0] == ("current"@, tree[2]));
    assert(three[0] == ("panels"@, tree[3]));
    assert(field(said, "schema"@) == Some(tree[0]));
    assert(first_named(one, "tabs"@) == Some(tree[1]));
    assert(field(said, "tabs"@) == Some(tree[1]));
    assert(first_named(two, "current"@) == Some(tree[2]));
    assert(first_named(one, "current"@) == Some(tree[2]));
    assert(field(said, "current"@) == Some(tree[2]));
    assert(first_named(three, "panels"@) == Some(tree[3]));
    assert(first_named(two, "panels"@) == Some(tree[3]));
    assert(first_named(one, "panels"@) == Some(tree[3]));
    assert(field(said, "panels"@) == Some(tree[3]));
}

/// A session is read exactly where it says a shape this build reads. What it
/// leaves out is as it starts: nothing open, the first tab, and the panels as
/// wide as they start out; what it says is kept, but for a tab that is not there
/// and a panel nobody could see.
pub proof fn what_describes_a_session(said: Json)
    ensures
        ({
            let read = session_said(said);
            let schema = field(said, "schema"@);
            let shape = whole(schema->0, u32::MAX as nat);
            let tabs = field(said, "tabs"@);
            let current = field(said, "current"@);
            let asked = whole(current->0, u32::MAX as nat);
            let panels = field(said, "panels"@);
            &&& read is Ok <==> schema is Some && shape is Some && shape->0 <= 1
            &&& schema is None ==> read == Err::<Kept, SessionError>(SessionError::Schema)
            &&& schema is Some && shape is Some && shape->0 > 1 ==> read == Err::<
                Kept,
                SessionError,
            >(SessionError::Newer(shape->0 as u32))
            &&& read is Ok ==> {
                let kept = read->Ok_0;
                &&& tabs is None ==> kept.tabs.len() == 0
                &&& tabs is Some ==> kept.tabs == texts_among(said_items(tabs->0))
                &&& current is None ==> kept.current == 0
                &&& current is Some && asked is Some && asked->0 < kept.tabs.len()
                    ==> kept.current == asked->0
                &&& current is Some && asked is Some && asked->0 >= kept.tabs.len()
                    && kept.tabs.len() > 0 ==> kept.current == kept.tabs.len() - 1
                &&& panels is None ==> kept.panels.left == 240 && kept.panels.right == 320
                    && kept.panels.bottom == 220
            }
        }),
{
}

/// A width that is said and is something is taken; any other is what the panel
/// starts out as.
pub proof fn what_describes_a_width(said: Json, name: Seq<char>, start: u32)
    ensures
        ({
            let held = field(said, name);
            let width = whole(held->0, u32::MAX as nat);
            let given = held is Some && width is Some && width->0 > 0;
            &&& given ==> size_said(said, name, start) == width->0
            &&& !given ==> size_said(said, name, start) == start
        }),
{
}

/// Every refusal says what is wrong with the file, and what this build reads
/// where it was written by another.
pub proof fn a_refusal_says_what_is_wrong(schema: u32)
    ensures
        refusal(SessionError::NotJson) == "the text is not JSON"@,
        refusal(SessionError::Schema) == "the editor's file needs a schema number"@,
        refusal(SessionError::Newer(schema))
            == "the editor's file was written by a newer engine: schema "@ + digits(schema as nat)
            + (", and this build reads "@ + seq!['1']),
{
    assert(digits(1) == seq!['1']);
}

/// The file of a project is `editor.json` in its `.colby`.
pub proof fn where_the_file_is(root: Seq<char>)
    requires
        root.len() > 0,
        root.last() != '/',
    ensures
        under(under(root, DERIVED@), FILE@) == root + seq!['/'] + ".colby"@ + seq!['/']
            + "editor.json"@,
{
    reveal_strlit(".colby");
    reveal_strlit("editor.json");
    assert((root + seq!['/'] + ".colby"@).last() == 'y');
}

} // verus!
