//! Making a new project: the form's rules, and what pressing Create comes to.
//!
//! A name, an id derived from it, a location, a template and a
//! version-control choice. The id names the folder, so a project's directory
//! is called what the project is.

use vstd::prelude::*;
use vstd::string::*;
use crate::launcher::list::{slashed, spelled};
use crate::paths::{join, under};
use crate::table::texts;
use crate::text::{
    all_plain, decimal, digits, letters, part, plain_lower, plain_lower_all, plus, same, trim,
    trimmed,
};

verus! {

/// The longest an id may be.
pub const ID_LONGEST: usize = 32;

/// What a project is called until somebody says otherwise.
pub const DEFAULT_NAME: &'static str = "My Project";

/// What a new project's `.gitignore` says: everything a run leaves under a
/// project.
pub const GITIGNORE: &'static str =
    "# what running colby leaves under a project\n.colby/\nsettings.cfg\nsaves/\nscreenshots/\n";

/// What a new project's `.gitattributes` says: line endings normalized, and
/// the binary formats a project holds named as such.
pub const GITATTRIBUTES: &'static str =
    "* text=auto eol=lf\n\n*.png  binary\n*.jpg  binary\n*.jpeg binary\n*.glb  binary\n*.bin  binary\n*.ttf  binary\n*.wav  binary\n";

/// What a character is in lower case.
pub uninterp spec fn lower_char(ch: char) -> Seq<char>;

/// `char::to_lowercase`: what a character is in lower case depends on the
/// character alone. A plain letter has its plain lower case, and every other
/// plain character is its own; what the rest become is left to the Unicode
/// tables behind it.
#[verifier::external_body]
fn lower(ch: char) -> (result: Vec<char>)
    ensures
        result@ == lower_char(ch),
        ch <= '\x7f' ==> result@ == seq![plain_lower(ch)],
{
    ch.to_lowercase().collect()
}

/// A text with every character in lower case, one after the other.
pub open spec fn lower_all(text: Seq<char>) -> Seq<char>
    decreases text.len(),
{
    if text.len() == 0 {
        Seq::empty()
    } else {
        lower_all(text.drop_last()) + lower_char(text.last())
    }
}

/// Whether a character may stand in an id, the underscore apart.
pub open spec fn id_letter(ch: char) -> bool {
    ('a' <= ch <= 'z') || ('0' <= ch <= '9')
}

/// A text with everything that may not stand in an id put as an underscore,
/// runs of them folded into one.
pub open spec fn folded(text: Seq<char>) -> Seq<char>
    decreases text.len(),
{
    if text.len() == 0 {
        Seq::empty()
    } else {
        let so_far = folded(text.drop_last());
        if id_letter(text.last()) {
            so_far.push(text.last())
        } else if so_far.len() == 0 || so_far.last() != '_' {
            so_far.push('_')
        } else {
            so_far
        }
    }
}

/// A text without an underscore it begins with, where it begins with one.
pub open spec fn bare_start(text: Seq<char>) -> Seq<char>
    decreases text.len(),
{
    if text.len() > 0 && text[0] == '_' {
        bare_start(text.drop_first())
    } else {
        text
    }
}

/// A text without an underscore it ends with, where it ends with one.
pub open spec fn bare_end(text: Seq<char>) -> Seq<char>
    decreases text.len(),
{
    if text.len() > 0 && text.last() == '_' {
        bare_end(text.drop_last())
    } else {
        text
    }
}

/// As much of a text as an id may hold.
pub open spec fn cut(text: Seq<char>) -> Seq<char> {
    if text.len() > ID_LONGEST {
        text.take(ID_LONGEST as int)
    } else {
        text
    }
}

/// The id a text in lower case comes to: folded, no longer than an id may be,
/// and its ends bare.
pub open spec fn shaped(lowered: Seq<char>) -> Seq<char> {
    bare_end(cut(bare_start(folded(lowered))))
}

/// The id a name suggests.
pub open spec fn ident_of(name: Seq<char>) -> Seq<char> {
    shaped(lower_all(name))
}

/// A text in lower case, folded.
fn fold(name: &str) -> (result: Vec<char>)
    ensures
        result@ == folded(lower_all(name@)),
        all_plain(name@) ==> result@ == folded(plain_lower_all(name@)),
{
    let all: Vec<char> = letters(name);
    let ghost plain = plain_lower_all(name@);
    let mut id: Vec<char> = Vec::new();
    let mut i: usize = 0;
    assert(all@.take(0) =~= Seq::empty());
    assert(plain.take(0) =~= Seq::empty());
    while i < all.len()
        invariant
            i <= all@.len(),
            all@ == name@,
            plain == plain_lower_all(name@),
            id@ == folded(lower_all(name@.take(i as int))),
            all_plain(name@) ==> id@ == folded(plain.take(i as int)),
        decreases all@.len() - i,
    {
        let lowered: Vec<char> = lower(all[i]);
        let ghost before = lower_all(name@.take(i as int));
        let ghost was = id@;
        proof {
            assert(name@.take(i as int + 1).drop_last() =~= name@.take(i as int));
            assert(name@.take(i as int + 1).last() == name@[i as int]);
            assert(plain.take(i as int + 1).drop_last() =~= plain.take(i as int));
            assert(plain.take(i as int + 1).last() == plain_lower(name@[i as int]));
            assert(before + lowered@.take(0) =~= before);
        }
        let mut k: usize = 0;
        while k < lowered.len()
            invariant
                k <= lowered@.len(),
                id@ == folded(before + lowered@.take(k as int)),
            decreases lowered@.len() - k,
        {
            proof {
                let more = before + lowered@.take(k as int + 1);
                assert(more.drop_last() =~= before + lowered@.take(k as int));
                assert(more.last() == lowered@[k as int]);
            }
            let letter: char = lowered[k];
            if ('a' <= letter && letter <= 'z') || ('0' <= letter && letter <= '9') {
                id.push(letter);
            } else if id.len() == 0 || id[id.len() - 1] != '_' {
                id.push('_');
            }
            k = k + 1;
        }
        proof {
            assert(before + lowered@.take(k as int) =~= lower_all(name@.take(i as int + 1)));
            if all_plain(name@) {
                assert(name@[i as int] <= '\x7f');
                let so_far = before;
                assert(lowered@ == seq![plain_lower(name@[i as int])]);
                assert((before + lowered@).drop_last() =~= before);
                assert((before + lowered@).last() == plain_lower(name@[i as int]));
                assert(before + lowered@.take(k as int) =~= before + lowered@);
            }
        }
        i = i + 1;
    }
    assert(name@.take(i as int) =~= name@);
    assert(plain.take(i as int) =~= plain);
    id
}

/// The id a name suggests: lowercase, anything that is not a letter or a
/// digit turned into an underscore, runs of them folded, the ends trimmed. A
/// name in an alphabet that has no place in an id comes out empty.
pub fn ident(name: &str) -> (result: String)
    ensures
        result@ == ident_of(name@),
        all_plain(name@) ==> result@ == shaped(plain_lower_all(name@)),
{
    let id: Vec<char> = fold(name);
    let ghost all = id@;
    let mut from: usize = 0;
    assert(all.skip(0) =~= all);
    while from < id.len() && id[from] == '_'
        invariant
            from <= id@.len(),
            id@ == all,
            bare_start(all) == bare_start(all.skip(from as int)),
        decreases id@.len() - from,
    {
        assert(all.skip(from as int).drop_first() =~= all.skip(from as int + 1));
        from = from + 1;
    }
    let ghost start = bare_start(all);
    assert(start == all.skip(from as int));
    let mut to: usize = if id.len() - from > ID_LONGEST { from + ID_LONGEST } else { id.len() };
    let ghost held = cut(start);
    assert(all.subrange(from as int, to as int) =~= held);
    while to > from && id[to - 1] == '_'
        invariant
            from <= to <= id@.len(),
            id@ == all,
            bare_end(held) == bare_end(all.subrange(from as int, to as int)),
        decreases to,
    {
        assert(all.subrange(from as int, to as int).drop_last() =~= all.subrange(
            from as int,
            to as int - 1,
        ));
        to = to - 1;
    }
    assert(bare_end(held) == all.subrange(from as int, to as int));
    part(&id, from, to)
}

/// What is folded holds nothing but what may stand in an id, and no two
/// underscores side by side.
proof fn folded_is_id_like(text: Seq<char>)
    ensures
        forall|i: int|
            0 <= i < folded(text).len() ==> id_letter(#[trigger] folded(text)[i]) || folded(text)[i]
                == '_',
        forall|i: int|
            0 <= i < folded(text).len() - 1 ==> !(#[trigger] folded(text)[i] == '_' && folded(
                text,
            )[i + 1] == '_'),
    decreases text.len(),
{
    if text.len() > 0 {
        folded_is_id_like(text.drop_last());
        let so_far = folded(text.drop_last());
        let all = folded(text);
        assert forall|i: int| 0 <= i < all.len() implies id_letter(#[trigger] all[i]) || all[i]
            == '_' by {
            if i < so_far.len() {
                assert(all[i] == so_far[i]);
            }
        }
        assert forall|i: int| 0 <= i < all.len() - 1 implies !(#[trigger] all[i] == '_' && all[i
            + 1] == '_') by {
            if i + 1 < so_far.len() {
                assert(all[i] == so_far[i] && all[i + 1] == so_far[i + 1]);
            } else if i < so_far.len() {
                assert(all[i] == so_far.last());
            }
        }
    }
}

/// What is left with its start bare is the end of the text, and begins with
/// no underscore.
proof fn bare_start_is_tail(text: Seq<char>)
    ensures
        bare_start(text).len() <= text.len(),
        bare_start(text) == text.skip(text.len() - bare_start(text).len()),
        bare_start(text).len() > 0 ==> bare_start(text)[0] != '_',
    decreases text.len(),
{
    if text.len() > 0 && text[0] == '_' {
        bare_start_is_tail(text.drop_first());
        let bare = bare_start(text);
        assert(bare =~= text.skip(text.len() - bare.len()));
    } else {
        assert(text.skip(0) =~= text);
    }
}

/// What is left with its end bare is the start of the text, and ends with no
/// underscore.
proof fn bare_end_is_head(text: Seq<char>)
    ensures
        bare_end(text).len() <= text.len(),
        bare_end(text) == text.take(bare_end(text).len() as int),
        bare_end(text).len() > 0 ==> bare_end(text).last() != '_',
    decreases text.len(),
{
    if text.len() > 0 && text.last() == '_' {
        bare_end_is_head(text.drop_last());
        let bare = bare_end(text);
        assert(bare =~= text.take(bare.len() as int));
    } else {
        assert(text.take(text.len() as int) =~= text);
    }
}

/// Whatever a person types, the id it suggests is made of what an id may
/// hold, is no longer than an id may be, neither begins nor ends with an
/// underscore, and has no two side by side.
pub proof fn an_id_is_id_like(name: Seq<char>)
    ensures
        ({
            let id = ident_of(name);
            &&& id.len() <= ID_LONGEST
            &&& forall|i: int|
                0 <= i < id.len() ==> id_letter(#[trigger] id[i]) || id[i] == '_'
            &&& id.len() > 0 ==> id[0] != '_'
            &&& forall|i: int|
                0 <= i < id.len() - 1 ==> !(#[trigger] id[i] == '_' && id[i + 1] == '_')
            &&& id.len() > 0 ==> id.last() != '_'
            &&& id.len() >= 2 ==> valid(id)
        }),
{
    let all = folded(lower_all(name));
    let start = bare_start(all);
    let held = cut(start);
    folded_is_id_like(lower_all(name));
    bare_start_is_tail(all);
    bare_end_is_head(held);
    let id = ident_of(name);
    let offset = all.len() - start.len();
    assert forall|i: int| 0 <= i < id.len() implies #[trigger] id[i] == all[offset + i] by {
        assert(id[i] == held[i]);
        assert(held[i] == start[i]);
        assert(start[i] == all.skip(offset)[i]);
    }
    assert forall|i: int| 0 <= i < id.len() - 1 implies !(#[trigger] id[i] == '_' && id[i + 1]
        == '_') by {
        assert(id[i] == all[offset + i]);
        assert(id[i + 1] == all[offset + i + 1]);
        assert(!(all[offset + i] == '_' && all[offset + i + 1] == '_'));
    }
}

/// Whether an id is one a project may go by: two to thirty-two of a-z, 0-9
/// and the underscore.
pub open spec fn valid(id: Seq<char>) -> bool {
    &&& 2 <= id.len() <= ID_LONGEST
    &&& forall|i: int| 0 <= i < id.len() ==> id_letter(#[trigger] id[i]) || id[i] == '_'
}

/// Whether an id is one a project may go by.
pub fn valid_id(id: &str) -> (result: bool)
    ensures
        result == valid(id@),
{
    let all: Vec<char> = letters(id);
    if all.len() < 2 || all.len() > ID_LONGEST {
        return false;
    }
    let mut i: usize = 0;
    while i < all.len()
        invariant
            i <= all@.len(),
            all@ == id@,
            forall|k: int| 0 <= k < i ==> id_letter(#[trigger] id@[k]) || id@[k] == '_',
        decreases all@.len() - i,
    {
        let ch: char = all[i];
        if !(('a' <= ch && ch <= 'z') || ('0' <= ch && ch <= '9') || ch == '_') {
            assert(!(id_letter(id@[i as int]) || id@[i as int] == '_'));
            return false;
        }
        i = i + 1;
    }
    true
}

/// The form, as it stands.
#[derive(Clone, Debug, PartialEq, Eq)]
pub struct Wizard {
    /// What a person calls the project.
    pub name: String,
    /// The short lowercase word it goes by, and the folder's name.
    pub id: String,
    /// Whether the id was typed by hand, in which case it stops following the
    /// name.
    pub id_edited: bool,
    /// The folder the project's directory is made in.
    pub location: String,
    /// Whether that folder becomes the one new projects go in from now on.
    pub remember: bool,
    /// Whether to write `.gitignore` and `.gitattributes`.
    pub vcs_files: bool,
    /// Whether to run `git init`.
    pub git_init: bool,
    /// Which template, as a place in the wizard's list.
    pub template: usize,
}

/// What a form says.
pub ghost struct Form {
    pub name: Seq<char>,
    pub id: Seq<char>,
    pub id_edited: bool,
    pub location: Seq<char>,
    pub remember: bool,
    pub vcs_files: bool,
    pub git_init: bool,
    pub template: usize,
}

/// Where the project of a form would be made.
pub open spec fn target_of(form: Form) -> Seq<char> {
    under(trimmed(form.location), trimmed(form.id))
}

/// Whether a form can be created, and why not when it cannot: the first
/// reason, in the order the form asks.
pub open spec fn checked(form: Form, exists: bool) -> Result<Seq<char>, Seq<char>> {
    if trimmed(form.name).len() == 0 {
        Err("a project needs a name"@)
    } else if !valid(trimmed(form.id)) {
        Err("an id is two to thirty-two of a-z, 0-9 and _"@)
    } else if trimmed(form.location).len() == 0 {
        Err("a project needs somewhere to go"@)
    } else if exists {
        Err(slashed(target_of(form)) + " already exists"@)
    } else {
        Ok(target_of(form))
    }
}

/// What making a project comes to: where, under which words, and what else is
/// wanted with it.
#[derive(Debug)]
pub struct Plan {
    pub target: String,
    pub id: String,
    pub name: String,
    pub vcs_files: bool,
    pub git_init: bool,
}

impl Wizard {
    /// What the form says.
    pub open spec fn view(&self) -> Form {
        Form {
            name: self.name@,
            id: self.id@,
            id_edited: self.id_edited,
            location: self.location@,
            remember: self.remember,
            vcs_files: self.vcs_files,
            git_init: self.git_init,
            template: self.template,
        }
    }

    /// A form filled in the way a person is likeliest to want it. `taken` are
    /// the names of what is in the location already, and `git` whether git
    /// was found.
    pub fn new(location: &str, taken: &Vec<String>, git: bool) -> (result: Wizard)
        requires
            taken@.len() < 0x7fff_ffff,
        ensures
            first_unused(texts(taken@), result.view().name),
            result.view() == (Form {
                name: result.view().name,
                id: ident_of(result.view().name),
                id_edited: false,
                location: slashed(location@),
                remember: false,
                vcs_files: true,
                git_init: git,
                template: 0,
            }),
    {
        let name: String = unused_name(taken);
        let id: String = ident(name.as_str());
        Wizard {
            name,
            id,
            id_edited: false,
            location: spelled(location),
            remember: false,
            vcs_files: true,
            git_init: git,
            template: 0,
        }
    }

    /// Follows the name with the id, unless the id was typed by hand.
    pub fn named(&mut self)
        ensures
            final(self).view() == (Form {
                id: if old(self).id_edited {
                    old(self).view().id
                } else {
                    ident_of(old(self).view().name)
                },
                ..old(self).view()
            }),
    {
        if !self.id_edited {
            self.id = ident(self.name.as_str());
        }
    }

    /// Somebody typed a name: the id follows it.
    pub fn enter_name(&mut self, name: &str)
        ensures
            final(self).view() == (Form {
                name: name@,
                id: if old(self).id_edited {
                    old(self).view().id
                } else {
                    ident_of(name@)
                },
                ..old(self).view()
            }),
    {
        self.name = name.to_owned();
        self.named();
    }

    /// Somebody typed an id: it follows the name no longer.
    pub fn enter_id(&mut self, id: &str)
        ensures
            final(self).view() == (Form { id: id@, id_edited: true, ..old(self).view() }),
    {
        self.id = id.to_owned();
        self.id_edited = true;
    }

    /// Where the project would be made: the id under the location.
    pub fn target(&self) -> (result: String)
        ensures
            result@ == target_of(self.view()),
    {
        let location: String = trim(self.location.as_str());
        let id: String = trim(self.id.as_str());
        join(location.as_str(), id.as_str())
    }

    /// Whether the form can be created as it stands, and why not when it
    /// cannot. `exists` is whether there is something at the target already.
    /// The directory that would be made, or the one sentence the form shows
    /// under itself.
    pub fn check(&self, exists: bool) -> (result: Result<String, String>)
        ensures
            match checked(self.view(), exists) {
                Ok(target) => result is Ok && result->Ok_0@ == target,
                Err(why) => result is Err && result->Err_0@ == why,
            },
    {
        if trim(self.name.as_str()).as_str().is_empty() {
            return Err("a project needs a name".to_owned());
        }
        if !valid_id(trim(self.id.as_str()).as_str()) {
            return Err("an id is two to thirty-two of a-z, 0-9 and _".to_owned());
        }
        if trim(self.location.as_str()).as_str().is_empty() {
            return Err("a project needs somewhere to go".to_owned());
        }
        let target: String = self.target();
        if exists {
            return Err(plus(spelled(target.as_str()).as_str(), " already exists"));
        }
        Ok(target)
    }

    /// What making the project comes to, or why it cannot be made.
    pub fn create(&self, exists: bool) -> (result: Result<Plan, String>)
        ensures
            match checked(self.view(), exists) {
                Ok(target) => {
                    &&& result is Ok
                    &&& result->Ok_0.target@ == target
                    &&& result->Ok_0.id@ == trimmed(self.view().id)
                    &&& result->Ok_0.name@ == trimmed(self.view().name)
                    &&& result->Ok_0.vcs_files == self.vcs_files
                    &&& result->Ok_0.git_init == self.git_init
                },
                Err(why) => result is Err && result->Err_0@ == why,
            },
    {
        match self.check(exists) {
            Err(why) => Err(why),
            Ok(target) => Ok(
                Plan {
                    target,
                    id: trim(self.id.as_str()),
                    name: trim(self.name.as_str()),
                    vcs_files: self.vcs_files,
                    git_init: self.git_init,
                },
            ),
        }
    }
}

/// What a project with no name of its own is called: the bare name, or the
/// bare name and a number.
pub open spec fn default_named(number: nat) -> Seq<char> {
    if number < 2 {
        DEFAULT_NAME@
    } else {
        DEFAULT_NAME@ + " "@ + digits(number)
    }
}

/// What the default name comes to as an id, before a number.
spec fn default_stem() -> Seq<char> {
    seq!['m', 'y', '_', 'p', 'r', 'o', 'j', 'e', 'c', 't']
}

/// Digits behind a folded text stay as they are.
proof fn folded_with_digits(text: Seq<char>, spelled: Seq<char>)
    requires
        forall|i: int| 0 <= i < spelled.len() ==> '0' <= #[trigger] spelled[i] <= '9',
    ensures
        folded(text + spelled) == folded(text) + spelled,
    decreases spelled.len(),
{
    if spelled.len() == 0 {
        assert(text + spelled =~= text);
        assert(folded(text) + spelled =~= folded(text));
    } else {
        let less = spelled.drop_last();
        assert forall|i: int| 0 <= i < less.len() implies '0' <= #[trigger] less[i] <= '9' by {
            assert(less[i] == spelled[i]);
        }
        folded_with_digits(text, less);
        assert((text + spelled).drop_last() =~= text + less);
        assert((text + spelled).last() == spelled.last());
        assert('0' <= spelled[spelled.len() - 1] <= '9');
        assert((folded(text) + less).push(spelled.last()) =~= folded(text) + spelled);
    }
}

/// A number is written with as few digits as it is small.
proof fn digits_are_few(n: nat)
    requires
        n < 0x1_0000_0000,
    ensures
        digits(n).len() <= 10,
{
    reveal_with_fuel(digits, 11);
}

/// The digits of a number are plain digits.
proof fn digits_are_digits(n: nat)
    ensures
        forall|i: int| 0 <= i < digits(n).len() ==> '0' <= #[trigger] digits(n)[i] <= '9',
        digits(n).len() > 0,
{
    crate::json::digits_spell(n);
    assert forall|i: int| 0 <= i < digits(n).len() implies '0' <= #[trigger] digits(n)[i] <= '9' by {
        assert(crate::json::is_digit(digits(n)[i]));
    }
}

/// A default name is plain, and comes to the stem and its number as an id.
proof fn default_ids(number: nat)
    requires
        number < 0x1_0000_0000,
    ensures
        all_plain(default_named(number)),
        shaped(plain_lower_all(default_named(number))) == if number < 2 {
            default_stem()
        } else {
            default_stem() + seq!['_'] + digits(number)
        },
{
    reveal_strlit("My Project");
    reveal_strlit(" ");
    let bare = DEFAULT_NAME@;
    assert(bare =~= seq!['M', 'y', ' ', 'P', 'r', 'o', 'j', 'e', 'c', 't']);
    assert(" "@ =~= seq![' ']);
    let low = seq!['m', 'y', ' ', 'p', 'r', 'o', 'j', 'e', 'c', 't'];
    assert(plain_lower_all(bare) =~= low);
    default_stem_folds();
    let spaced = low + seq![' '];
    assert(spaced.drop_last() =~= low);
    assert(folded(spaced) =~= default_stem() + seq!['_']);
    if number < 2 {
        assert(bare_start(default_stem()) == default_stem());
        assert(bare_end(default_stem()) == default_stem());
    } else {
        digits_are_digits(number);
        digits_are_few(number);
        let name = default_named(number);
        let spelled = digits(number);
        assert(name =~= bare + (" "@ + spelled));
        assert forall|i: int| 0 <= i < name.len() implies #[trigger] name[i] <= '\x7f' by {
            if i > 10 {
                assert(name[i] == spelled[i - 11]);
            }
        }
        assert(plain_lower_all(name) =~= spaced + spelled) by {
            assert forall|i: int| 0 <= i < name.len() implies plain_lower(#[trigger] name[i]) == (
            spaced + spelled)[i] by {
                if i > 10 {
                    assert(name[i] == spelled[i - 11]);
                } else if i < 10 {
                    assert(name[i] == bare[i]);
                    assert(plain_lower_all(bare)[i] == low[i]);
                }
            }
        }
        folded_with_digits(spaced, spelled);
        let all = default_stem() + seq!['_'] + spelled;
        assert(folded(plain_lower_all(name)) == all);
        assert(all[0] == 'm');
        assert(bare_start(all) == all);
        assert(all.last() == spelled.last());
        assert('0' <= spelled[spelled.len() - 1] <= '9');
        assert(bare_end(all) == all);
    }
}

/// The default name folds to its stem.
proof fn default_stem_folds()
    ensures
        folded(seq!['m', 'y', ' ', 'p', 'r', 'o', 'j', 'e', 'c', 't']) == default_stem(),
{
    let a = seq!['m', 'y'];
    let b = seq!['m', 'y', ' '];
    let c = seq!['m', 'y', ' ', 'p', 'r', 'o'];
    let d = seq!['m', 'y', ' ', 'p', 'r', 'o', 'j', 'e'];
    let e = seq!['m', 'y', ' ', 'p', 'r', 'o', 'j', 'e', 'c', 't'];
    assert(folded(Seq::<char>::empty()) =~= Seq::empty());
    assert(seq!['m'].drop_last() =~= Seq::empty());
    assert(folded(seq!['m']) =~= seq!['m']);
    assert(a.drop_last() =~= seq!['m']);
    assert(folded(a) =~= seq!['m', 'y']);
    assert(b.drop_last() =~= a);
    assert(folded(b) =~= seq!['m', 'y', '_']);
    assert(seq!['m', 'y', ' ', 'p'].drop_last() =~= b);
    assert(folded(seq!['m', 'y', ' ', 'p']) =~= seq!['m', 'y', '_', 'p']);
    assert(seq!['m', 'y', ' ', 'p', 'r'].drop_last() =~= seq!['m', 'y', ' ', 'p']);
    assert(folded(seq!['m', 'y', ' ', 'p', 'r']) =~= seq!['m', 'y', '_', 'p', 'r']);
    assert(c.drop_last() =~= seq!['m', 'y', ' ', 'p', 'r']);
    assert(folded(c) =~= seq!['m', 'y', '_', 'p', 'r', 'o']);
    assert(seq!['m', 'y', ' ', 'p', 'r', 'o', 'j'].drop_last() =~= c);
    assert(folded(seq!['m', 'y', ' ', 'p', 'r', 'o', 'j']) =~= seq![
        'm',
        'y',
        '_',
        'p',
        'r',
        'o',
        'j',
    ]);
    assert(d.drop_last() =~= seq!['m', 'y', ' ', 'p', 'r', 'o', 'j']);
    assert(folded(d) =~= seq!['m', 'y', '_', 'p', 'r', 'o', 'j', 'e']);
    assert(seq!['m', 'y', ' ', 'p', 'r', 'o', 'j', 'e', 'c'].drop_last() =~= d);
    assert(folded(seq!['m', 'y', ' ', 'p', 'r', 'o', 'j', 'e', 'c']) =~= seq![
        'm',
        'y',
        '_',
        'p',
        'r',
        'o',
        'j',
        'e',
        'c',
    ]);
    assert(e.drop_last() =~= seq!['m', 'y', ' ', 'p', 'r', 'o', 'j', 'e', 'c']);
    assert(folded(e) =~= default_stem());
}

/// Two different numbers make two different ids.
proof fn default_ids_differ(one: nat, other: nat)
    requires
        one != other,
        one == 1 || one >= 2,
        other == 1 || other >= 2,
        one < 0x1_0000_0000,
        other < 0x1_0000_0000,
    ensures
        shaped(plain_lower_all(default_named(one))) != shaped(
            plain_lower_all(default_named(other)),
        ),
{
    default_ids(one);
    default_ids(other);
    digits_are_digits(one);
    digits_are_digits(other);
    crate::json::digits_spell(one);
    crate::json::digits_spell(other);
    let stem = default_stem();
    if one < 2 {
        assert(stem.len() != (stem + seq!['_'] + digits(other)).len());
    } else if other < 2 {
        assert(stem.len() != (stem + seq!['_'] + digits(one)).len());
    } else {
        let a = stem + seq!['_'] + digits(one);
        let b = stem + seq!['_'] + digits(other);
        if a == b {
            assert(a.skip(11) =~= digits(one));
            assert(b.skip(11) =~= digits(other));
        }
    }
}

/// Texts that are all among others, no two the same, are no more than those.
proof fn distinct_among(some: Seq<Seq<char>>, all: Seq<Seq<char>>)
    requires
        some.no_duplicates(),
        forall|i: int| 0 <= i < some.len() ==> all.contains(#[trigger] some[i]),
    ensures
        some.len() <= all.len(),
{
    some.unique_seq_to_set();
    all.lemma_cardinality_of_set();
    assert(some.to_set().subset_of(all.to_set())) by {
        assert forall|text: Seq<char>| some.to_set().contains(text) implies all.to_set().contains(
            text,
        ) by {
            let i = choose|i: int| 0 <= i < some.len() && some[i] == text;
            assert(all.contains(some[i]));
        }
    }
    vstd::set_lib::lemma_len_subset(some.to_set(), all.to_set());
}

/// Whether a folder's name is among those taken.
fn is_taken(taken: &Vec<String>, id: &str) -> (result: bool)
    ensures
        result == texts(taken@).contains(id@),
{
    let mut i: usize = 0;
    while i < taken.len()
        invariant
            i <= taken@.len(),
            forall|k: int| 0 <= k < i ==> (#[trigger] taken@[k])@ != id@,
        decreases taken@.len() - i,
    {
        if same(taken[i].as_str(), id) {
            assert(texts(taken@)[i as int] == id@);
            return true;
        }
        i = i + 1;
    }
    proof {
        if texts(taken@).contains(id@) {
            let k = choose|k: int| 0 <= k < texts(taken@).len() && texts(taken@)[k] == id@;
            assert(taken@[k]@ == id@);
        }
    }
    false
}

/// Whether a name is the first whose folder is not taken: the bare default
/// name, then the name and a number, from two on.
pub open spec fn first_unused(taken: Seq<Seq<char>>, name: Seq<char>) -> bool {
    &&& !taken.contains(ident_of(name))
    &&& name == default_named(0) || exists|number: nat|
        number >= 2 && name == #[trigger] default_named(number) && taken.contains(
            ident_of(default_named(0)),
        ) && forall|lower: nat|
            2 <= lower < number ==> taken.contains(ident_of(#[trigger] default_named(lower)))
}

/// A name whose folder is not taken yet: the bare default name, then the name
/// and a number, from two on; the first of these whose folder is free. `taken`
/// are the names of what is in the location already.
pub fn unused_name(taken: &Vec<String>) -> (result: String)
    requires
        taken@.len() < 0x7fff_ffff,
    ensures
        first_unused(texts(taken@), result@),
{
    let mut name: String = DEFAULT_NAME.to_owned();
    let mut number: u64 = 1;
    let ghost mut seen: Seq<Seq<char>> = Seq::empty();
    let ghost limit = texts(taken@).len();
    assert(default_named(1) == default_named(0));
    loop
        invariant
            taken@.len() < 0x7fff_ffff,
            limit == texts(taken@).len(),
            limit == taken@.len(),
            1 <= number,
            number == seen.len() + 1,
            seen.len() <= limit,
            name@ == default_named(number as nat),
            seen.no_duplicates(),
            forall|i: int|
                0 <= i < seen.len() ==> texts(taken@).contains(#[trigger] seen[i]) && seen[i]
                    == ident_of(default_named((i + 1) as nat)) && seen[i] == shaped(
                    plain_lower_all(default_named((i + 1) as nat)),
                ),
        decreases limit - seen.len(),
    {
        let id: String = ident(name.as_str());
        if !is_taken(taken, id.as_str()) {
            proof {
                if number >= 2 {
                    assert(texts(taken@).contains(seen[0]));
                    assert(default_named(1) == default_named(0));
                    assert forall|lower: nat| 2 <= lower < number implies texts(taken@).contains(
                        ident_of(#[trigger] default_named(lower)),
                    ) by {
                        assert(texts(taken@).contains(seen[lower - 1]));
                    }
                    assert(name@ == default_named(number as nat));
                }
            }
            return name;
        }
        proof {
            default_ids(number as nat);
            let more = seen.push(id@);
            assert forall|i: int, j: int|
                0 <= i < more.len() && 0 <= j < more.len() && i != j implies more[i] != more[j] by {
                if i < seen.len() && j < seen.len() {
                    assert(seen[i] != seen[j]);
                } else {
                    let k = if i < seen.len() { i } else { j };
                    default_ids_differ((k + 1) as nat, number as nat);
                    assert(seen[k] == shaped(plain_lower_all(default_named((k + 1) as nat))));
                }
            }
            assert(more.no_duplicates());
            distinct_among(more, texts(taken@));
            seen = more;
        }
        number = number + 1;
        let head: String = plus(DEFAULT_NAME, " ");
        name = plus(head.as_str(), decimal(number).as_str());
    }
}

/// One of the two files git wants beside a project.
#[derive(Clone, Copy, Debug)]
pub struct Written {
    pub name: &'static str,
    pub text: &'static str,
}

/// The files git wants beside a project that are not there yet: one that is
/// already there is left alone.
pub fn write_vcs_files(ignore_exists: bool, attributes_exists: bool) -> (result: Vec<Written>)
    ensures
        result@.len() == (if ignore_exists {
            0int
        } else {
            1int
        }) + (if attributes_exists {
            0int
        } else {
            1int
        }),
        !ignore_exists ==> result@[0].name@ == ".gitignore"@ && result@[0].text@ == GITIGNORE@,
        !attributes_exists ==> result@.last().name@ == ".gitattributes"@ && result@.last().text@
            == GITATTRIBUTES@,
{
    let mut files: Vec<Written> = Vec::new();
    if !ignore_exists {
        files.push(Written { name: ".gitignore", text: GITIGNORE });
    }
    if !attributes_exists {
        files.push(Written { name: ".gitattributes", text: GITATTRIBUTES });
    }
    files
}

/// The version of the git on the path, by how asking it went and what it
/// said; nothing when it did not answer.
pub fn git_version(answered: bool, said: &str) -> (result: Option<String>)
    ensures
        result is Some == answered,
        result is Some ==> result->0@ == trimmed(said@),
{
    if !answered {
        return None;
    }
    Some(trim(said))
}

/// Folding keeps every letter and digit where it stands among the others: a text
/// of nothing else is as it was, and whatever stands between two such runs is one
/// underscore, however long it was.
pub proof fn folding_keeps_the_letters(left: Seq<char>, between: Seq<char>, right: Seq<char>)
    requires
        forall|i: int| 0 <= i < left.len() ==> id_letter(#[trigger] left[i]),
        forall|i: int| 0 <= i < right.len() ==> id_letter(#[trigger] right[i]),
        forall|i: int| 0 <= i < between.len() ==> !id_letter(#[trigger] between[i]),
        between.len() > 0,
    ensures
        folded(left) == left,
        folded(left + between + right) == left + seq!['_'] + right,
        left.len() > 0 && right.len() > 0 && left.len() + right.len() < 32 ==> shaped(
            left + between + right,
        ) == left + seq!['_'] + right,
        left.len() <= 32 ==> shaped(left) == left,
        left.len() > 0 && left.len() <= 32 ==> shaped(between + left + between) == left,
{
    letters_stay(Seq::empty(), left);
    assert(Seq::<char>::empty() + left =~= left);
    between_is_one(left, between);
    letters_stay(left + between, right);
    let whole = left + seq!['_'] + right;
    if left.len() > 0 && right.len() > 0 {
        assert(whole[0] == left[0] && whole[0] != '_');
        assert(whole.last() == right.last() && whole.last() != '_');
    }
    if left.len() > 0 {
        assert(left[0] != '_');
        assert(left.last() == left[left.len() - 1]);
        between_is_one(Seq::empty(), between);
        assert(Seq::<char>::empty() + between =~= between);
        letters_stay(between, left);
        let front = seq!['_'] + left;
        assert(folded(between + left) =~= front);
        between_behind(between + left, between);
        let both = front.push('_');
        assert(folded(between + left + between) =~= both);
        assert(both.drop_first() =~= left.push('_'));
        assert(left.push('_')[0] == left[0]);
        reveal_with_fuel(bare_start, 2);
        assert(bare_start(both) == left.push('_'));
        let shortened = cut(left.push('_'));
        if left.len() < 32 {
            assert(shortened.drop_last() =~= left);
            reveal_with_fuel(bare_end, 2);
        } else if left.len() == 32 {
            assert(shortened =~= left);
        }
    }
}

/// Letters and digits behind a text stay as they are.
proof fn letters_stay(text: Seq<char>, letters: Seq<char>)
    requires
        forall|i: int| 0 <= i < letters.len() ==> id_letter(#[trigger] letters[i]),
    ensures
        folded(text + letters) == folded(text) + letters,
    decreases letters.len(),
{
    if letters.len() == 0 {
        assert(text + letters =~= text);
        assert(folded(text) + letters =~= folded(text));
    } else {
        let less = letters.drop_last();
        letters_stay(text, less);
        assert((text + letters).drop_last() =~= text + less);
        assert((text + letters).last() == letters.last());
        assert(id_letter(letters[letters.len() - 1]));
        assert(folded(text) + letters =~= (folded(text) + less).push(letters.last()));
    }
}

/// What is no letter and no digit, behind letters and digits alone, is one
/// underscore.
proof fn between_is_one(left: Seq<char>, between: Seq<char>)
    requires
        forall|i: int| 0 <= i < left.len() ==> id_letter(#[trigger] left[i]),
        forall|i: int| 0 <= i < between.len() ==> !id_letter(#[trigger] between[i]),
        between.len() > 0,
    ensures
        folded(left + between) == left + seq!['_'],
{
    letters_stay(Seq::empty(), left);
    assert(Seq::<char>::empty() + left =~= left);
    if left.len() > 0 {
        assert(id_letter(left[left.len() - 1]));
    }
    between_behind(left, between);
    assert(left.push('_') =~= left + seq!['_']);
}

/// What is no letter and no digit, behind a text that does not fold to an
/// underscore at its end, is one underscore.
proof fn between_behind(text: Seq<char>, between: Seq<char>)
    requires
        forall|i: int| 0 <= i < between.len() ==> !id_letter(#[trigger] between[i]),
        between.len() > 0,
        folded(text).len() == 0 || folded(text).last() != '_',
    ensures
        folded(text + between) == folded(text).push('_'),
    decreases between.len(),
{
    let less = between.drop_last();
    assert((text + between).drop_last() =~= text + less);
    assert((text + between).last() == between.last());
    assert(!id_letter(between[between.len() - 1]));
    if less.len() == 0 {
        assert(text + less =~= text);
    } else {
        between_behind(text, less);
    }
}

/// A form can be made exactly where it has a name, an id a project may go by,
/// somewhere to go and nothing in the way there; the project then goes to the id
/// under the location. Otherwise the first of these that is missing, in that
/// order, is what is said.
pub proof fn what_stops_a_form(form: Form, exists: bool)
    ensures
        ({
            let named = trimmed(form.name).len() > 0;
            let id = trimmed(form.id);
            let fits = 2 <= id.len() <= 32 && forall|i: int|
                0 <= i < id.len() ==> ('a' <= #[trigger] id[i] <= 'z') || ('0' <= id[i] <= '9')
                    || id[i] == '_';
            let located = trimmed(form.location).len() > 0;
            let answer = checked(form, exists);
            &&& answer is Ok <==> named && fits && located && !exists
            &&& answer is Ok ==> answer->Ok_0 == under(trimmed(form.location), id)
            &&& !named ==> answer == Err::<Seq<char>, Seq<char>>("a project needs a name"@)
            &&& named && !fits ==> answer == Err::<Seq<char>, Seq<char>>(
                "an id is two to thirty-two of a-z, 0-9 and _"@,
            )
            &&& named && fits && !located ==> answer == Err::<Seq<char>, Seq<char>>(
                "a project needs somewhere to go"@,
            )
            &&& named && fits && located && exists ==> answer == Err::<Seq<char>, Seq<char>>(
                slashed(under(trimmed(form.location), id)) + " already exists"@,
            )
        }),
{
    let id = trimmed(form.id);
    assert(valid(id) == (2 <= id.len() <= 32 && forall|i: int|
        0 <= i < id.len() ==> ('a' <= #[trigger] id[i] <= 'z') || ('0' <= id[i] <= '9') || id[i]
            == '_'));
}

/// A project nobody has named is called by the bare name, and with a number behind
/// it from two on.
pub proof fn unnamed_projects_are_numbered(number: nat)
    ensures
        default_named(0) == "My Project"@,
        number >= 2 ==> default_named(number) == "My Project"@ + seq![' '] + digits(number),
{
    reveal_strlit(" ");
    assert(" "@ =~= seq![' ']);
}

/// What a run leaves under a project is what its files for git leave out, and the
/// binary formats of a project are named as such.
pub proof fn what_git_is_told()
    ensures
        GITIGNORE@
            == "# what running colby leaves under a project\n.colby/\nsettings.cfg\nsaves/\nscreenshots/\n"@,
        GITATTRIBUTES@
            == "* text=auto eol=lf\n\n*.png  binary\n*.jpg  binary\n*.jpeg binary\n*.glb  binary\n*.bin  binary\n*.ttf  binary\n*.wav  binary\n"@,
{
}

} // verus!
