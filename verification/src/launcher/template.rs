//! A template: a directory a new project is copied from.
//!
//! Everything in it is copied as it is, with three words filled in on the way,
//! in file names and in text files alike. A file whose extension is not a
//! text format the engine knows is copied byte for byte.

use vstd::prelude::*;
use vstd::string::*;
use crate::json::{field, parse, parsed, said_members, said_text, whole, Value};
use crate::launcher::list::stranger;
use crate::order::{comparison, in_order, orders, rank, ranked, ranked_in_order, ranked_keeps, ranked_views, ByName, Ordered};
use crate::paths::{file_name, last_name};
use crate::text::{
    before, found_at, holds, letters, part, plus, same, sooner, sooner_carries, sooner_decides,
    stands_at,
};

verus! {

/// The directory under the engine checkout templates live in.
pub const DIRECTORY: &'static str = "templates";

/// The file that marks a directory as a template, and names it.
pub const FILE: &'static str = "template.json";

/// The word a project's id is written as in a template.
pub const ID: &'static str = "$id";

/// The word a project's name is written as.
pub const NAME: &'static str = "$name";

/// The word the engine version is written as.
pub const ENGINE: &'static str = "$engine";

/// A template, as its file describes it.
#[derive(Clone, Debug, PartialEq, Eq)]
pub struct Template {
    /// The directory to copy.
    pub dir: String,
    /// What the wizard calls it.
    pub title: String,
    /// A line under the title.
    pub description: String,
    /// Where it sits in the wizard's list; lower first.
    pub order: u64,
}

/// What a template is.
pub ghost struct Described {
    pub dir: Seq<char>,
    pub title: Seq<char>,
    pub description: Seq<char>,
    pub order: u64,
}

/// Why a text does not describe a template.
#[derive(Debug)]
pub enum TemplateError {
    /// It is not JSON.
    NotJson,
    /// It has a field no template has.
    Field(String),
    /// It has no title.
    Title,
}

/// Why, as a value of specifications.
pub ghost enum Refused {
    NotJson,
    Field(Seq<char>),
    Title,
}

/// A refusal in words.
pub open spec fn refusal(why: Refused) -> Seq<char> {
    match why {
        Refused::NotJson => "the text is not JSON"@,
        Refused::Field(name) => "a template has no field called "@ + name,
        Refused::Title => "a template needs a title"@,
    }
}

impl TemplateError {
    /// Why.
    pub open spec fn view(&self) -> Refused {
        match self {
            TemplateError::NotJson => Refused::NotJson,
            TemplateError::Field(name) => Refused::Field(name@),
            TemplateError::Title => Refused::Title,
        }
    }

    /// The reason in words.
    pub fn words(&self) -> (result: String)
        ensures
            result@ == refusal(self.view()),
    {
        match self {
            TemplateError::NotJson => "the text is not JSON".to_owned(),
            TemplateError::Field(name) => plus("a template has no field called ", name.as_str()),
            TemplateError::Title => "a template needs a title".to_owned(),
        }
    }
}

/// Whether a template has a field of this name.
pub open spec fn template_field(name: Seq<char>) -> bool {
    ||| name == "title"@
    ||| name == "description"@
    ||| name == "order"@
}

/// The template a text describes, or why it describes none.
pub open spec fn template_of(dir: Seq<char>, text: Seq<char>) -> Result<Described, Refused> {
    match parsed(text) {
        None => Err(Refused::NotJson),
        Some(said) => match stranger(said_members(said), |name: Seq<char>| template_field(name)) {
            Some(name) => Err(Refused::Field(name)),
            None => {
                let title = match field(said, "title"@) {
                    Some(title) => said_text(title),
                    None => None,
                };
                if title is None || title->0.len() == 0 {
                    Err(Refused::Title)
                } else {
                    Ok(
                        Described {
                            dir,
                            title: title->0,
                            description: match field(said, "description"@) {
                                Some(said) => match said_text(said) {
                                    Some(text) => text,
                                    None => Seq::empty(),
                                },
                                None => Seq::empty(),
                            },
                            order: match field(said, "order"@) {
                                Some(said) => match whole(said, u64::MAX as nat) {
                                    Some(order) => order as u64,
                                    None => 0,
                                },
                                None => 0,
                            },
                        },
                    )
                }
            },
        },
    }
}

/// The first name an object has that a template has not.
fn strange_field(value: &Value) -> (result: Option<String>)
    ensures
        match stranger(said_members(value.view()), |name: Seq<char>| template_field(name)) {
            None => result is None,
            Some(name) => result is Some && result->0@ == name,
        },
{
    let ghost all = said_members(value.view());
    let ghost allowed = |name: Seq<char>| template_field(name);
    let mut i: usize = 0;
    assert(all.skip(0) =~= all);
    while i < value.width()
        invariant
            i <= all.len(),
            all == said_members(value.view()),
            allowed == (|name: Seq<char>| template_field(name)),
            stranger(all, allowed) == stranger(all.skip(i as int), allowed),
        decreases all.len() - i,
    {
        assert(all.skip(i as int)[0] == all[i as int]);
        assert(all.skip(i as int).drop_first() =~= all.skip(i as int + 1));
        let name: &str = value.name(i);
        if !(same(name, "title") || same(name, "description") || same(name, "order")) {
            return Some(name.to_owned());
        }
        i = i + 1;
    }
    None
}

/// The comparison templates are listed with: by their order, and by title
/// where two share one.
pub open spec fn listing() -> spec_fn(Described, Described) -> bool {
    |left: Described, right: Described| listed_sooner(left, right)
}

/// Whether one template is listed before another.
pub open spec fn listed_sooner(left: Described, right: Described) -> bool {
    if left.order != right.order {
        left.order < right.order
    } else {
        sooner(left.title, right.title)
    }
}

impl Ordered<ByName> for Template {
    open spec fn sooner_by(&self, other: &Template, by: ByName) -> bool {
        listed_sooner(self.view(), other.view())
    }

    fn before_by(&self, other: &Template, by: ByName) -> (result: bool) {
        if self.order != other.order {
            return self.order < other.order;
        }
        before(self.title.as_str(), other.title.as_str())
    }
}

/// What several templates are.
pub open spec fn templates_view(templates: Seq<Template>) -> Seq<Described> {
    templates.map_values(|template: Template| template.view())
}

/// A directory that holds the file of a template, with what is in it.
#[derive(Debug)]
pub struct Candidate {
    pub dir: String,
    pub text: String,
}

/// The templates several directories are, those that are none passed over.
pub open spec fn templates_among(found: Seq<Candidate>) -> Seq<Described>
    decreases found.len(),
{
    if found.len() == 0 {
        Seq::empty()
    } else {
        let so_far = templates_among(found.drop_last());
        match template_of(found.last().dir@, found.last().text@) {
            Ok(template) => so_far.push(template),
            Err(_) => so_far,
        }
    }
}

impl Template {
    /// What the template is.
    pub open spec fn view(&self) -> Described {
        Described {
            dir: self.dir@,
            title: self.title@,
            description: self.description@,
            order: self.order,
        }
    }

    /// Reads one template's file.
    pub fn read(dir: &str, text: &str) -> (result: Result<Template, TemplateError>)
        ensures
            match template_of(dir@, text@) {
                Ok(template) => result is Ok && result->Ok_0.view() == template,
                Err(why) => result is Err && result->Err_0.view() == why,
            },
    {
        let value: Value = match parse(text) {
            None => {
                return Err(TemplateError::NotJson);
            },
            Some(value) => value,
        };
        match strange_field(&value) {
            Some(name) => {
                return Err(TemplateError::Field(name));
            },
            None => {},
        }
        let title: String = match value.get("title") {
            None => {
                return Err(TemplateError::Title);
            },
            Some(said) => match said.as_str() {
                None => {
                    return Err(TemplateError::Title);
                },
                Some(title) => title.to_owned(),
            },
        };
        if title.as_str().is_empty() {
            return Err(TemplateError::Title);
        }
        let description: String = match value.get("description") {
            None => String::new(),
            Some(said) => match said.as_str() {
                None => String::new(),
                Some(text) => text.to_owned(),
            },
        };
        let order: u64 = match value.get("order") {
            None => 0,
            Some(said) => match said.as_u64() {
                None => 0,
                Some(order) => order,
            },
        };
        Ok(Template { dir: dir.to_owned(), title, description, order })
    }

    /// Every template among directories that hold the file of one, in the
    /// order they are listed. One whose file cannot be read is passed over: a
    /// broken template must not keep the wizard from offering the rest.
    pub fn find(found: &Vec<Candidate>) -> (result: Vec<Template>)
        ensures
            templates_view(result@) == ranked(templates_among(found@), listing()),
    {
        let mut out: Vec<Template> = Vec::new();
        let mut i: usize = 0;
        assert(found@.take(0) =~= Seq::empty());
        assert(templates_view(out@) =~= Seq::empty());
        while i < found.len()
            invariant
                i <= found@.len(),
                templates_view(out@) == templates_among(found@.take(i as int)),
            decreases found@.len() - i,
        {
            let ghost was = templates_view(out@);
            proof {
                assert(found@.take(i as int + 1).drop_last() =~= found@.take(i as int));
                assert(found@.take(i as int + 1).last() == found@[i as int]);
            }
            match Template::read(found[i].dir.as_str(), found[i].text.as_str()) {
                Ok(template) => {
                    let ghost one = template.view();
                    out.push(template);
                    assert(templates_view(out@) =~= was.push(one));
                },
                Err(_) => {},
            }
            i = i + 1;
        }
        assert(found@.take(i as int) =~= found@);
        proof {
            let less = comparison::<ByName, Template>(ByName);
            let view = |template: Template| template.view();
            assert forall|a: Template, b: Template| #[trigger] less(a, b) == listing()(
                view(a),
                view(b),
            ) by {}
            ranked_views(out@, less, view, listing());
        }
        rank(out, ByName)
    }
}

/// Templates are listed by their order, every one of them and nothing else.
pub proof fn listed_in_order(found: Seq<Described>)
    ensures
        ranked(found, listing()).to_multiset() == found.to_multiset(),
        in_order(ranked(found, listing()), listing()),
{
    let less = listing();
    ranked_keeps(found, less);
    assert(orders(less)) by {
        assert forall|a: Described, b: Described| #[trigger] less(a, b) implies !less(b, a) by {
            sooner_decides(a.title, b.title);
        }
        assert forall|a: Described, b: Described, c: Described|
            !(#[trigger] less(b, a)) && !(#[trigger] less(c, b)) implies !less(c, a) by {
            sooner_decides(a.title, b.title);
            sooner_decides(b.title, c.title);
            sooner_decides(a.title, c.title);
            if a.title != b.title && b.title != c.title && a.order == b.order && b.order
                == c.order {
                sooner_carries(a.title, b.title, c.title);
            }
        }
    }
    ranked_in_order(found, less);
}

/// The three words, and what each becomes.
#[derive(Clone, Copy, Debug)]
pub struct Words<'a> {
    pub id: &'a str,
    pub name: &'a str,
    pub engine: &'a str,
}

/// A text with the three words filled in, from the left: at each place the
/// word that stands there becomes what it is to become, and what was put in
/// is not read again.
pub open spec fn filled(text: Seq<char>, id: Seq<char>, name: Seq<char>, engine: Seq<char>) -> Seq<
    char,
>
    decreases text.len(),
{
    if text.len() == 0 {
        Seq::empty()
    } else if stands_at(text, ID@, 0) && ID@.len() > 0 {
        id + filled(text.skip(ID@.len() as int), id, name, engine)
    } else if stands_at(text, NAME@, 0) && NAME@.len() > 0 {
        name + filled(text.skip(NAME@.len() as int), id, name, engine)
    } else if stands_at(text, ENGINE@, 0) && ENGINE@.len() > 0 {
        engine + filled(text.skip(ENGINE@.len() as int), id, name, engine)
    } else {
        seq![text[0]] + filled(text.drop_first(), id, name, engine)
    }
}

/// What stands at a place of a text stands at the beginning of the rest.
proof fn stands_in_the_rest(text: Seq<char>, word: Seq<char>, at: int)
    requires
        0 <= at <= text.len(),
    ensures
        stands_at(text, word, at) == stands_at(text.skip(at), word, 0),
{
    let rest = text.skip(at);
    if at + word.len() <= text.len() {
        assert(text.subrange(at, at + word.len()) =~= rest.subrange(0, word.len() as int));
    }
}

impl<'a> Words<'a> {
    /// Fills the words in.
    pub fn fill(&self, text: &str) -> (result: String)
        ensures
            result@ == filled(text@, self.id@, self.name@, self.engine@),
    {
        proof {
            reveal_strlit("$id");
            reveal_strlit("$name");
            reveal_strlit("$engine");
        }
        let all: Vec<char> = letters(text);
        let id: Vec<char> = letters(ID);
        let name: Vec<char> = letters(NAME);
        let engine: Vec<char> = letters(ENGINE);
        let ghost want = filled(text@, self.id@, self.name@, self.engine@);
        let mut out: String = String::new();
        let mut i: usize = 0;
        assert(all@.skip(0) =~= all@);
        assert(out@ + want =~= want);
        while i < all.len()
            invariant
                i <= all@.len(),
                all@ == text@,
                id@ == ID@,
                name@ == NAME@,
                engine@ == ENGINE@,
                id@.len() > 0,
                name@.len() > 0,
                engine@.len() > 0,
                out@ + filled(all@.skip(i as int), self.id@, self.name@, self.engine@) == want,
            decreases all@.len() - i,
        {
            let ghost rest = all@.skip(i as int);
            let ghost was = out@;
            let ghost left = filled(rest, self.id@, self.name@, self.engine@);
            proof {
                stands_in_the_rest(all@, ID@, i as int);
                stands_in_the_rest(all@, NAME@, i as int);
                stands_in_the_rest(all@, ENGINE@, i as int);
                assert(rest.drop_first() =~= all@.skip(i as int + 1));
                assert(rest[0] == all@[i as int]);
            }
            if found_at(&all, &id, i) {
                out.append(self.id);
                i = i + id.len();
                assert(rest.skip(ID@.len() as int) =~= all@.skip(i as int));
            } else if found_at(&all, &name, i) {
                out.append(self.name);
                i = i + name.len();
                assert(rest.skip(NAME@.len() as int) =~= all@.skip(i as int));
            } else if found_at(&all, &engine, i) {
                out.append(self.engine);
                i = i + engine.len();
                assert(rest.skip(ENGINE@.len() as int) =~= all@.skip(i as int));
            } else {
                out.push(all[i]);
                i = i + 1;
                assert(out@ =~= was + seq![rest[0]]);
            }
            assert(out@ + filled(all@.skip(i as int), self.id@, self.name@, self.engine@) =~= was
                + left);
        }
        assert(all@.skip(i as int) =~= Seq::empty());
        assert(out@ + Seq::<char>::empty() =~= out@);
        out
    }
}

/// A text that does not say a word does not say it further on.
proof fn not_further_on(text: Seq<char>, word: Seq<char>)
    requires
        text.len() > 0,
        !holds(text, word),
    ensures
        !stands_at(text, word, 0),
        !holds(text.drop_first(), word),
{
    let less = text.drop_first();
    if holds(less, word) {
        let at = choose|at: int| stands_at(less, word, at);
        assert(text.subrange(at + 1, at + 1 + word.len()) =~= less.subrange(at, at + word.len()));
        assert(stands_at(text, word, at + 1));
    }
    assert(!stands_at(text, word, 0));
}

/// A text that says none of the three words is copied as it is.
pub proof fn a_text_without_words_stays(
    text: Seq<char>,
    id: Seq<char>,
    name: Seq<char>,
    engine: Seq<char>,
)
    requires
        !holds(text, ID@),
        !holds(text, NAME@),
        !holds(text, ENGINE@),
    ensures
        filled(text, id, name, engine) == text,
    decreases text.len(),
{
    if text.len() == 0 {
        assert(text =~= Seq::empty());
    } else {
        not_further_on(text, ID@);
        not_further_on(text, NAME@);
        not_further_on(text, ENGINE@);
        a_text_without_words_stays(text.drop_first(), id, name, engine);
        assert(seq![text[0]] + text.drop_first() =~= text);
    }
}

/// Each word becomes exactly what it is to become, whatever that says: what
/// stands behind it is filled in, and what was put in is not.
pub proof fn a_word_becomes_what_it_is_to_become(
    rest: Seq<char>,
    id: Seq<char>,
    name: Seq<char>,
    engine: Seq<char>,
)
    ensures
        filled(ID@ + rest, id, name, engine) == id + filled(rest, id, name, engine),
        filled(NAME@ + rest, id, name, engine) == name + filled(rest, id, name, engine),
        filled(ENGINE@ + rest, id, name, engine) == engine + filled(rest, id, name, engine),
{
    reveal_strlit("$id");
    reveal_strlit("$name");
    reveal_strlit("$engine");
    let one = ID@ + rest;
    let two = NAME@ + rest;
    let three = ENGINE@ + rest;
    assert(one.subrange(0, ID@.len() as int) =~= ID@);
    assert(one.skip(ID@.len() as int) =~= rest);
    assert(two.subrange(0, NAME@.len() as int) =~= NAME@);
    assert(two.skip(NAME@.len() as int) =~= rest);
    assert(three.subrange(0, ENGINE@.len() as int) =~= ENGINE@);
    assert(three.skip(ENGINE@.len() as int) =~= rest);
    assert(two[1] == 'n' && three[1] == 'e');
    assert(!stands_at(two, ID@, 0)) by {
        if stands_at(two, ID@, 0) {
            assert(two.subrange(0, ID@.len() as int)[1] == 'i');
        }
    }
    assert(!stands_at(three, ID@, 0)) by {
        if stands_at(three, ID@, 0) {
            assert(three.subrange(0, ID@.len() as int)[1] == 'i');
        }
    }
    assert(!stands_at(three, NAME@, 0)) by {
        if stands_at(three, NAME@, 0) {
            assert(three.subrange(0, NAME@.len() as int)[1] == 'n');
        }
    }
}

/// Where the last dot of a name is, before a place.
pub open spec fn last_dot(name: Seq<char>, before: nat) -> Option<nat>
    decreases before,
{
    if before == 0 {
        None
    } else if name[before - 1] == '.' {
        Some((before - 1) as nat)
    } else {
        last_dot(name, (before - 1) as nat)
    }
}

/// The extension of a file's name: what stands behind its last dot, unless
/// that is where the name begins.
pub open spec fn extension_of(name: Seq<char>) -> Option<Seq<char>> {
    match last_dot(name, name.len()) {
        None => None,
        Some(dot) => if dot == 0 {
            None
        } else {
            Some(name.skip((dot + 1) as int))
        },
    }
}

/// The extension of a file's name.
fn extension(name: &str) -> (result: Option<String>)
    ensures
        result is Some == extension_of(name@) is Some,
        result is Some ==> result->0@ == extension_of(name@)->0,
{
    let all: Vec<char> = letters(name);
    let mut i: usize = all.len();
    while i > 0 && all[i - 1] != '.'
        invariant
            i <= all@.len(),
            all@ == name@,
            last_dot(name@, name@.len()) == last_dot(name@, i as nat),
        decreases i,
    {
        i = i - 1;
    }
    if i <= 1 {
        return None;
    }
    let rest: String = part(&all, i, all.len());
    assert(rest@ =~= name@.skip(i as int));
    Some(rest)
}

/// Whether an extension is of a text format.
pub open spec fn text_extension(extension: Seq<char>) -> bool {
    ||| extension == "project"@
    ||| extension == "toml"@
    ||| extension == "rs"@
    ||| extension == "scene"@
    ||| extension == "lua"@
    ||| extension == "html"@
    ||| extension == "css"@
    ||| extension == "cfg"@
    ||| extension == "json"@
    ||| extension == "txt"@
    ||| extension == "md"@
}

/// Whether a file's name says that it is text without an extension to say so.
pub open spec fn text_name(name: Seq<char>) -> bool {
    ||| name == ".gitignore"@
    ||| name == ".gitattributes"@
    ||| name == ".editorconfig"@
}

/// Whether the words are filled in inside a file.
pub open spec fn is_textual(path: Seq<char>) -> bool {
    match last_name(path) {
        None => false,
        Some(name) => text_name(name) || (extension_of(name) is Some && text_extension(
            extension_of(name)->0,
        )),
    }
}

/// Whether the words are filled in inside a file.
pub fn is_text(path: &str) -> (result: bool)
    ensures
        result == is_textual(path@),
{
    match file_name(path) {
        None => false,
        Some(name) => {
            let name: &str = name.as_str();
            if same(name, ".gitignore") || same(name, ".gitattributes") || same(
                name,
                ".editorconfig",
            ) {
                return true;
            }
            match extension(name) {
                None => false,
                Some(end) => {
                    let end: &str = end.as_str();
                    same(end, "project") || same(end, "toml") || same(end, "rs") || same(
                        end,
                        "scene",
                    ) || same(end, "lua") || same(end, "html") || same(end, "css") || same(
                        end,
                        "cfg",
                    ) || same(end, "json") || same(end, "txt") || same(end, "md")
                },
            }
        },
    }
}

/// How one thing in a template is copied.
#[derive(Debug)]
pub enum Copying {
    /// Not at all: the file that marks a template is not part of a project.
    Skip,
    /// As a directory of this name, and everything in it.
    Dir(String),
    /// As text, under this name, with the words filled in.
    Text(String),
    /// As it is, under this name.
    Bytes(String),
}

/// What copying comes to.
pub ghost enum Copied {
    Skip,
    Dir(Seq<char>),
    Text(Seq<char>),
    Bytes(Seq<char>),
}

impl Copying {
    /// What copying comes to.
    pub open spec fn view(&self) -> Copied {
        match self {
            Copying::Skip => Copied::Skip,
            Copying::Dir(name) => Copied::Dir(name@),
            Copying::Text(name) => Copied::Text(name@),
            Copying::Bytes(name) => Copied::Bytes(name@),
        }
    }
}

/// How one thing in a template is copied, by its own name, whether it is a
/// directory, and whether it stands in the template's own directory.
pub fn copying(name: &str, dir: bool, root: bool, words: &Words) -> (result: Copying)
    ensures
        result.view() == {
            let to = filled(name@, words.id@, words.name@, words.engine@);
            if root && name@ == FILE@ {
                Copied::Skip
            } else if dir {
                Copied::Dir(to)
            } else if is_textual(name@) {
                Copied::Text(to)
            } else {
                Copied::Bytes(to)
            }
        },
{
    if root && same(name, FILE) {
        return Copying::Skip;
    }
    let to: String = words.fill(name);
    if dir {
        Copying::Dir(to)
    } else if is_text(name) {
        Copying::Text(to)
    } else {
        Copying::Bytes(to)
    }
}

impl Template {
    /// The words to copy the template into a directory with; a directory that
    /// is there already is refused.
    pub fn apply<'a>(
        &self,
        target: &str,
        exists: bool,
        id: &'a str,
        name: &'a str,
        engine: &'a str,
    ) -> (result: Result<Words<'a>, String>)
        ensures
            result is Ok == !exists,
            result is Ok ==> result->Ok_0.id@ == id@ && result->Ok_0.name@ == name@
                && result->Ok_0.engine@ == engine@,
            result is Err ==> result->Err_0@ == target@ + " already exists"@,
    {
        if exists {
            return Err(plus(target, " already exists"));
        }
        Ok(Words { id, name, engine })
    }
}

/// Where there is no dot from a place on, the last one stands before it.
proof fn no_dot_behind(name: Seq<char>, from: nat, to: nat)
    requires
        from <= to <= name.len(),
        forall|i: int| from <= i < to ==> name[i] != '.',
    ensures
        last_dot(name, to) == last_dot(name, from),
    decreases to - from,
{
    if from < to {
        no_dot_behind(name, from, (to - 1) as nat);
    }
}

/// The words are filled in inside a file exactly where its extension is one of
/// eleven, wherever the file stands.
pub proof fn text_is_told_by_its_extension(dir: Seq<char>, stem: Seq<char>, extension: Seq<char>)
    requires
        stem.len() > 0,
        !stem.contains('/'),
        !extension.contains('/'),
        !extension.contains('.'),
    ensures
        ({
            let file = stem + seq!['.'] + extension;
            let text = extension == "project"@ || extension == "toml"@ || extension == "rs"@
                || extension == "scene"@ || extension == "lua"@ || extension == "html"@ || extension
                == "css"@ || extension == "cfg"@ || extension == "json"@ || extension == "txt"@
                || extension == "md"@;
            &&& is_textual(file) == text
            &&& is_textual(dir + seq!['/'] + file) == text
        }),
{
    let file = stem + seq!['.'] + extension;
    let at = stem.len();
    assert(file[at as int] == '.');
    assert forall|i: int| at + 1 <= i < file.len() implies file[i] != '.' by {
        assert(file[i] == extension[i - at - 1]);
        assert(extension.contains(extension[i - at - 1]));
    }
    no_dot_behind(file, at + 1, file.len());
    assert(last_dot(file, file.len()) == Some(at));
    assert(file.skip(at as int + 1) =~= extension);
    assert(extension_of(file) == Some(extension));
    assert(!file.contains('/')) by {
        if file.contains('/') {
            let k = choose|k: int| 0 <= k < file.len() && file[k] == '/';
            if k < at {
                assert(stem.contains(stem[k]));
            } else if k > at {
                assert(extension.contains(extension[k - at - 1]));
            }
        }
    }
    reveal_strlit(".gitignore");
    reveal_strlit(".gitattributes");
    reveal_strlit(".editorconfig");
    assert(!text_name(file)) by {
        if file == ".gitignore"@ {
            assert(".gitignore"@[at as int] == '.');
        } else if file == ".gitattributes"@ {
            assert(".gitattributes"@[at as int] == '.');
        } else if file == ".editorconfig"@ {
            assert(".editorconfig"@[at as int] == '.');
        }
    }
    if file == seq!['.', '.'] {
        assert(extension.len() == 0);
        reveal_strlit("project");
        reveal_strlit("toml");
        reveal_strlit("rs");
        reveal_strlit("scene");
        reveal_strlit("lua");
        reveal_strlit("html");
        reveal_strlit("css");
        reveal_strlit("cfg");
        reveal_strlit("json");
        reveal_strlit("txt");
        reveal_strlit("md");
        assert(Seq::<char>::empty() + file =~= file);
        crate::paths::one_piece_is_read(file, Seq::empty(), true, Seq::empty());
        let before = if dir.len() == 0 {
            seq![crate::paths::Step::Root]
        } else {
            crate::paths::steps(dir)
        };
        crate::paths::read_behind(dir, file);
        crate::paths::one_piece_is_read(file, Seq::empty(), false, before);
    } else {
        assert(file != seq!['.']);
        crate::paths::the_last_piece_is_the_name(dir, file);
    }
}

/// A file without an extension is text exactly where it is one of three by name:
/// a name that has no dot, or none but the one it begins with.
pub proof fn text_is_told_by_its_name(dir: Seq<char>, file: Seq<char>)
    requires
        file.len() > 0,
        !file.contains('/'),
        file != seq!['.'],
        forall|i: int| 1 <= i < file.len() ==> file[i] != '.',
    ensures
        ({
            let text = file == ".gitignore"@ || file == ".gitattributes"@ || file
                == ".editorconfig"@;
            &&& is_textual(file) == text
            &&& is_textual(dir + seq!['/'] + file) == text
        }),
{
    no_dot_behind(file, 1, file.len());
    reveal_with_fuel(last_dot, 2);
    assert(last_dot(file, 1) is None || last_dot(file, 1) == Some(0nat));
    assert(file != seq!['.', '.']) by {
        if file == seq!['.', '.'] {
            assert(file[1] == '.');
        }
    }
    crate::paths::the_last_piece_is_the_name(dir, file);
}

/// A text describes a template exactly where it is JSON, has no field but the
/// three a template has, and its title is a text with something in it. It is
/// then called that, and what it does not say is nothing: no description, and
/// the first place in the list.
pub proof fn what_describes_a_template(dir: Seq<char>, text: Seq<char>)
    ensures
        ({
            let read = template_of(dir, text);
            let said = parsed(text)->0;
            let strange = exists|i: int|
                0 <= i < said_members(said).len() && ({
                    let name = (#[trigger] said_members(said)[i]).0;
                    name != "title"@ && name != "description"@ && name != "order"@
                });
            let title = field(said, "title"@);
            let titled = title is Some && said_text(title->0) is Some && said_text(
                title->0,
            )->0.len() > 0;
            &&& parsed(text) is None ==> read == Err::<Described, Refused>(Refused::NotJson)
            &&& read is Ok <==> parsed(text) is Some && !strange && titled
            &&& parsed(text) is Some && strange ==> read is Err && read->Err_0 is Field
            &&& parsed(text) is Some && !strange && !titled ==> read == Err::<Described, Refused>(
                Refused::Title,
            )
            &&& read is Ok ==> {
                let described = field(said, "description"@);
                let order = field(said, "order"@);
                &&& read->Ok_0.dir == dir
                &&& Some(read->Ok_0.title) == said_text(title->0)
                &&& described is Some && said_text(described->0) is Some ==> Some(
                    read->Ok_0.description,
                ) == said_text(described->0)
                &&& described is None ==> read->Ok_0.description.len() == 0
                &&& order is Some && whole(order->0, u64::MAX as nat) is Some ==> Some(
                    read->Ok_0.order as nat,
                ) == whole(order->0, u64::MAX as nat)
                &&& order is None ==> read->Ok_0.order == 0
            }
        }),
{
    if parsed(text) is Some {
        let said = parsed(text)->0;
        crate::launcher::list::strangers_are_told(
            said_members(said),
            |name: Seq<char>| template_field(name),
        );
    }
}

/// Every directory that describes a template is one of those listed, and nothing
/// else is.
pub proof fn every_template_is_found(found: Seq<Candidate>, template: Described)
    ensures
        templates_among(found).contains(template) <==> exists|i: int|
            0 <= i < found.len() && template_of((#[trigger] found[i]).dir@, found[i].text@) == Ok::<
                Described,
                Refused,
            >(template),
    decreases found.len(),
{
    let all = templates_among(found);
    if found.len() > 0 {
        let less = found.drop_last();
        every_template_is_found(less, template);
        let so_far = templates_among(less);
        assert(found[found.len() - 1] == found.last());
        if so_far.contains(template) {
            let k = choose|k: int| 0 <= k < so_far.len() && so_far[k] == template;
            assert(all[k] == template);
            let i = choose|i: int|
                0 <= i < less.len() && template_of((#[trigger] less[i]).dir@, less[i].text@)
                    == Ok::<Described, Refused>(template);
            assert(found[i] == less[i]);
        }
        if template_of(found.last().dir@, found.last().text@) == Ok::<Described, Refused>(
            template,
        ) {
            assert(all[so_far.len() as int] == template);
        }
        if all.contains(template) && !so_far.contains(template) {
            let k = choose|k: int| 0 <= k < all.len() && all[k] == template;
            if k < so_far.len() {
                assert(so_far[k] == template);
            }
        }
        if exists|i: int|
            0 <= i < found.len() && template_of((#[trigger] found[i]).dir@, found[i].text@) == Ok::<
                Described,
                Refused,
            >(template) {
            let i = choose|i: int|
                0 <= i < found.len() && template_of((#[trigger] found[i]).dir@, found[i].text@)
                    == Ok::<Described, Refused>(template);
            if i < less.len() {
                assert(less[i] == found[i]);
            }
        }
    }
}

/// Of two templates listed, the one in front has the lower number, or the same
/// one and no later title.
pub proof fn lower_numbers_are_listed_first(found: Seq<Described>, i: int, j: int)
    requires
        0 <= i < j < found.len(),
    ensures
        ({
            let listed = ranked(found, listing());
            &&& listed.len() == found.len()
            &&& listed[i].order <= listed[j].order
            &&& listed[i].order == listed[j].order ==> !sooner(listed[j].title, listed[i].title)
        }),
{
    listed_in_order(found);
    let listed = ranked(found, listing());
    assert(listed.len() == listed.to_multiset().len()) by {
        listed.to_multiset_ensures();
    }
    assert(found.len() == found.to_multiset().len()) by {
        found.to_multiset_ensures();
    }
}

/// Every refusal says what is wrong with the file, and which field it has that no
/// template has.
pub proof fn a_refusal_says_what_is_wrong(name: Seq<char>)
    ensures
        refusal(Refused::NotJson) == "the text is not JSON"@,
        refusal(Refused::Field(name)) == "a template has no field called "@ + name,
        refusal(Refused::Title) == "a template needs a title"@,
{
}

/// The three words a template is written with are a dollar and id, name or
/// engine: each becomes what it is to become, and what is behind it is filled in.
pub proof fn what_the_three_words_are(
    rest: Seq<char>,
    id: Seq<char>,
    name: Seq<char>,
    engine: Seq<char>,
)
    ensures
        filled("$id"@ + rest, id, name, engine) == id + filled(rest, id, name, engine),
        filled("$name"@ + rest, id, name, engine) == name + filled(rest, id, name, engine),
        filled("$engine"@ + rest, id, name, engine) == engine + filled(rest, id, name, engine),
        filled(Seq::empty(), id, name, engine).len() == 0,
{
    a_word_becomes_what_it_is_to_become(rest, id, name, engine);
}

/// What is no dollar stands as it stood, and what is behind it is filled in.
pub proof fn other_characters_stay(
    ch: char,
    rest: Seq<char>,
    id: Seq<char>,
    name: Seq<char>,
    engine: Seq<char>,
)
    requires
        ch != '$',
    ensures
        filled(seq![ch] + rest, id, name, engine) == seq![ch] + filled(rest, id, name, engine),
{
    reveal_strlit("$id");
    reveal_strlit("$name");
    reveal_strlit("$engine");
    let text = seq![ch] + rest;
    assert(text[0] == ch);
    assert(text.drop_first() =~= rest);
    if stands_at(text, ID@, 0) {
        assert(text.subrange(0, ID@.len() as int)[0] == ID@[0]);
    }
    if stands_at(text, NAME@, 0) {
        assert(text.subrange(0, NAME@.len() as int)[0] == NAME@[0]);
    }
    if stands_at(text, ENGINE@, 0) {
        assert(text.subrange(0, ENGINE@.len() as int)[0] == ENGINE@[0]);
    }
}

} // verus!
