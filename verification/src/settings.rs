//! Every console variable there is, grouped by what its name says before its
//! first dot. Commands are not here: there is nothing to turn on a command.

use vstd::prelude::*;
use vstd::string::*;
use crate::fraction::{alike, same_fraction};
use crate::order::{comparison, in_order, orders, rank, ranked, ranked_in_order, ranked_keeps, ranked_views, ByName, Ordered};
use crate::text::{
    before, contains, holds, letters, lowered, part, same, sooner, sooner_carries, sooner_decides,
    trim, trimmed,
};

verus! {

/// The group a name with no dot in it goes under.
pub const LOOSE: &'static str = "general";

/// Where the first dot of a name is, from a place on.
pub open spec fn first_dot(name: Seq<char>, from: nat) -> Option<nat>
    decreases name.len() - from,
{
    if from >= name.len() {
        None
    } else if name[from as int] == '.' {
        Some(from)
    } else {
        first_dot(name, from + 1)
    }
}

/// The group a name belongs to: what it says before its first dot, or the
/// group of those that say nothing.
pub open spec fn group_said(name: Seq<char>) -> Seq<char> {
    match first_dot(name, 0) {
        None => LOOSE@,
        Some(dot) => if dot == 0 {
            LOOSE@
        } else {
            name.take(dot as int)
        },
    }
}

/// The group a name belongs to.
pub fn group_of(name: &str) -> (result: String)
    ensures
        result@ == group_said(name@),
{
    let all: Vec<char> = letters(name);
    let mut i: usize = 0;
    while i < all.len() && all[i] != '.'
        invariant
            i <= all@.len(),
            all@ == name@,
            first_dot(name@, 0) == first_dot(name@, i as nat),
        decreases all@.len() - i,
    {
        i = i + 1;
    }
    if i == 0 || i == all.len() {
        return LOOSE.to_owned();
    }
    let result: String = part(&all, 0, i);
    assert(result@ =~= name@.take(i as int));
    result
}

/// The first dot of a name is a dot, and nothing before it is one.
pub proof fn first_dot_is_first(name: Seq<char>, from: nat)
    ensures
        match first_dot(name, from) {
            None => forall|i: int| from <= i < name.len() ==> name[i] != '.',
            Some(dot) => {
                &&& from <= dot < name.len()
                &&& name[dot as int] == '.'
                &&& forall|i: int| from <= i < dot ==> name[i] != '.'
            },
        },
    decreases name.len() - from,
{
    if from < name.len() && name[from as int] != '.' {
        first_dot_is_first(name, from + 1);
    }
}

/// What a variable holds.
#[derive(Debug)]
pub enum Value {
    Bool(bool),
    Int(i64),
    /// A fraction, by its bits.
    Float(u32),
    Text(String),
}

/// What a variable says.
pub ghost enum Said {
    Bool(bool),
    Int(i64),
    Float(u32),
    Text(Seq<char>),
}

impl Value {
    /// What the variable says.
    pub open spec fn view(&self) -> Said {
        match self {
            Value::Bool(held) => Said::Bool(*held),
            Value::Int(held) => Said::Int(*held),
            Value::Float(held) => Said::Float(*held),
            Value::Text(held) => Said::Text(held@),
        }
    }

    /// Whether two variables say the same.
    pub fn same(&self, other: &Value) -> (result: bool)
        ensures
            result == said_alike(self.view(), other.view()),
    {
        match (self, other) {
            (Value::Bool(a), Value::Bool(b)) => *a == *b,
            (Value::Int(a), Value::Int(b)) => *a == *b,
            (Value::Float(a), Value::Float(b)) => same_fraction(*a, *b),
            (Value::Text(a), Value::Text(b)) => same(a.as_str(), b.as_str()),
            _ => false,
        }
    }
}

/// Whether two variables say the same: fractions as fractions do, and
/// everything else as it stands.
pub open spec fn said_alike(left: Said, right: Said) -> bool {
    match (left, right) {
        (Said::Float(a), Said::Float(b)) => alike(a, b),
        _ => left == right,
    }
}

/// A variable: something to turn.
#[derive(Debug)]
pub struct Variable {
    /// What it holds.
    pub value: Value,
    /// What it would go back to.
    pub default: Value,
    /// Whether it is kept between runs.
    pub archived: bool,
    /// What it is for.
    pub help: String,
}

/// What stands beside a variable's widget.
pub struct Line {
    /// Whether it can be put back to what it started as.
    pub reset: bool,
    /// Whether it is kept, in a word.
    pub kept: &'static str,
    /// What that word means.
    pub means: &'static str,
}

/// What stands beside a variable's widget.
pub fn line(variable: &Variable) -> (result: Line)
    ensures
        result.reset == !said_alike(variable.value.view(), variable.default.view()),
        result.kept@ == if variable.archived {
            "saved"@
        } else {
            ""@
        },
        result.means@ == if variable.archived {
            "written to the config when the engine stops"@
        } else {
            "for this run only"@
        },
{
    let reset: bool = !variable.value.same(&variable.default);
    if variable.archived {
        Line { reset, kept: "saved", means: "written to the config when the engine stops" }
    } else {
        Line { reset, kept: "", means: "for this run only" }
    }
}

/// Something in the table: a variable, or a command.
#[derive(Debug)]
pub struct Entry {
    /// What it is registered under.
    pub name: String,
    /// What there is to turn; nothing for a command.
    pub variable: Option<Variable>,
}

/// What something in the table is.
pub ghost struct Known {
    pub name: Seq<char>,
    pub valued: bool,
}

/// What several things in the table are.
pub open spec fn known(table: Seq<Entry>) -> Seq<Known> {
    Seq::new(table.len(), |i: int| Known { name: table[i].name@, valued: table[i].variable is Some })
}

/// One group: what it is called, and where its variables are in the table.
#[derive(Debug)]
pub struct Group {
    pub name: String,
    pub rows: Vec<usize>,
}

/// What a group is.
pub ghost struct Section {
    pub name: Seq<char>,
    pub rows: Seq<int>,
}

impl Group {
    /// What the group is.
    pub open spec fn view(&self) -> Section {
        Section {
            name: self.name@,
            rows: Seq::new(self.rows@.len(), |i: int| self.rows@[i] as int),
        }
    }
}

/// What several groups are.
pub open spec fn sections(groups: Seq<Group>) -> Seq<Section> {
    groups.map_values(|group: Group| group.view())
}

/// Whether a variable is listed: it has a value, and its name holds the
/// search word whatever its case.
pub open spec fn listed(entry: Known, filter: Seq<char>) -> bool {
    let word = lowered(trimmed(filter));
    &&& entry.valued
    &&& word.len() == 0 || holds(lowered(entry.name), word)
}

/// Where the group of a name is, if there is one.
pub open spec fn section_at(groups: Seq<Section>, name: Seq<char>) -> Option<int>
    decreases groups.len(),
{
    if groups.len() == 0 {
        None
    } else if groups[0].name == name {
        Some(0)
    } else {
        match section_at(groups.drop_first(), name) {
            None => None,
            Some(index) => Some(index + 1),
        }
    }
}

/// Groups with one more variable in them.
pub open spec fn put_in(groups: Seq<Section>, name: Seq<char>, row: int) -> Seq<Section> {
    match section_at(groups, name) {
        Some(index) => groups.update(
            index,
            Section { rows: groups[index].rows.push(row), ..groups[index] },
        ),
        None => groups.push(Section { name, rows: seq![row] }),
    }
}

/// The groups of a table, in the order their names were first met.
pub open spec fn gathered(table: Seq<Known>, filter: Seq<char>) -> Seq<Section>
    decreases table.len(),
{
    if table.len() == 0 {
        Seq::empty()
    } else {
        let so_far = gathered(table.drop_last(), filter);
        if listed(table.last(), filter) {
            put_in(so_far, group_said(table.last().name), table.len() - 1)
        } else {
            so_far
        }
    }
}

/// The comparison groups are listed with: by name.
pub open spec fn by_name() -> spec_fn(Section, Section) -> bool {
    |left: Section, right: Section| sooner(left.name, right.name)
}

impl Ordered<ByName> for Group {
    open spec fn sooner_by(&self, other: &Group, by: ByName) -> bool {
        sooner(self.view().name, other.view().name)
    }

    fn before_by(&self, other: &Group, by: ByName) -> (result: bool) {
        before(self.name.as_str(), other.name.as_str())
    }
}

/// Where the group of a name is, if there is one.
fn find(groups: &Vec<Group>, name: &str) -> (result: Option<usize>)
    ensures
        match section_at(sections(groups@), name@) {
            None => result is None,
            Some(index) => result is Some && result->0 == index && index < groups@.len(),
        },
{
    let ghost all = sections(groups@);
    let mut i: usize = 0;
    assert(all.skip(0) =~= all);
    while i < groups.len()
        invariant
            i <= groups@.len(),
            all == sections(groups@),
            match section_at(all.skip(i as int), name@) {
                None => section_at(all, name@) is None,
                Some(index) => section_at(all, name@) == Some(index + i),
            },
        decreases groups@.len() - i,
    {
        assert(all.skip(i as int)[0] == all[i as int]);
        assert(all.skip(i as int).drop_first() =~= all.skip(i as int + 1));
        if same(groups[i].name.as_str(), name) {
            return Some(i);
        }
        i = i + 1;
    }
    None
}

/// Every variable in the table, by group, whose name holds the filter: the
/// groups in name order, the variables in the order the table holds them.
pub fn groups(table: &Vec<Entry>, filter: &str) -> (result: Vec<Group>)
    ensures
        sections(result@) == ranked(gathered(known(table@), filter@), by_name()),
{
    let word: String = trim(filter).as_str().to_lowercase();
    let ghost all = known(table@);
    let mut out: Vec<Group> = Vec::new();
    let mut i: usize = 0;
    assert(all.take(0) =~= Seq::empty());
    assert(sections(out@) =~= Seq::empty());
    while i < table.len()
        invariant
            i <= table@.len(),
            all == known(table@),
            word@ == lowered(trimmed(filter@)),
            sections(out@) == gathered(all.take(i as int), filter@),
        decreases table@.len() - i,
    {
        let ghost was = sections(out@);
        proof {
            assert(all.take(i as int + 1).drop_last() =~= all.take(i as int));
            assert(all.take(i as int + 1).last() == all[i as int]);
        }
        let entry: &Entry = &table[i];
        if entry.variable.is_some() && (word.as_str().is_empty() || contains(
            entry.name.as_str().to_lowercase().as_str(),
            word.as_str(),
        )) {
            let name: String = group_of(entry.name.as_str());
            match find(&out, name.as_str()) {
                Some(at) => {
                    let ghost rows = was[at as int].rows;
                    out[at].rows.push(i);
                    assert(out@[at as int].view().rows =~= rows.push(i as int));
                    assert(sections(out@) =~= was.update(
                        at as int,
                        Section { rows: rows.push(i as int), ..was[at as int] },
                    ));
                },
                None => {
                    let ghost said = name@;
                    let mut rows: Vec<usize> = Vec::new();
                    rows.push(i);
                    let group: Group = Group { name, rows };
                    assert(group.view().rows =~= seq![i as int]);
                    out.push(group);
                    assert(sections(out@) =~= was.push(
                        Section { name: said, rows: seq![i as int] },
                    ));
                },
            }
        }
        i = i + 1;
    }
    assert(all.take(i as int) =~= all);
    proof {
        let less = comparison::<ByName, Group>(ByName);
        let view = |group: Group| group.view();
        assert forall|a: Group, b: Group| #[trigger] less(a, b) == by_name()(view(a), view(b)) by {}
        ranked_views(out@, less, view, by_name());
    }
    rank(out, ByName)
}

/// The group of a name is of that name.
proof fn section_is_named(groups: Seq<Section>, name: Seq<char>)
    ensures
        match section_at(groups, name) {
            None => forall|i: int| 0 <= i < groups.len() ==> (#[trigger] groups[i]).name != name,
            Some(index) => 0 <= index < groups.len() && groups[index].name == name,
        },
    decreases groups.len(),
{
    if groups.len() > 0 && groups[0].name != name {
        let less = groups.drop_first();
        section_is_named(less, name);
        if section_at(less, name) is None {
            assert forall|i: int| 0 <= i < groups.len() implies (#[trigger] groups[i]).name
                != name by {
                if i > 0 {
                    assert(groups[i] == less[i - 1]);
                }
            }
        }
    }
}

/// Every variable that is listed is in the one group its name says, no two
/// groups share a name, and inside a group the variables keep the order of
/// the table.
pub proof fn variables_are_grouped_once(table: Seq<Known>, filter: Seq<char>)
    ensures
        ({
            let groups = gathered(table, filter);
            &&& forall|i: int, j: int|
                0 <= i < j < groups.len() ==> (#[trigger] groups[i]).name != (
                #[trigger] groups[j]).name
            &&& forall|i: int, k: int|
                0 <= i < groups.len() && 0 <= k < groups[i].rows.len() ==> {
                    let row = #[trigger] groups[i].rows[k];
                    &&& 0 <= row < table.len()
                    &&& listed(table[row], filter)
                    &&& group_said(table[row].name) == groups[i].name
                    &&& k > 0 ==> groups[i].rows[k - 1] < row
                }
            &&& forall|row: int|
                0 <= row < table.len() && listed(#[trigger] table[row], filter) ==> exists|
                    i: int,
                    k: int,
                |
                    0 <= i < groups.len() && 0 <= k < groups[i].rows.len()
                        && #[trigger] groups[i].rows[k] == row
        }),
    decreases table.len(),
{
    if table.len() > 0 {
        let less = table.drop_last();
        variables_are_grouped_once(less, filter);
        let so_far = gathered(less, filter);
        let groups = gathered(table, filter);
        let last = table.last();
        let name = group_said(last.name);
        let row = table.len() - 1;
        section_is_named(so_far, name);
        if listed(last, filter) {
            assert forall|i: int, j: int| 0 <= i < j < groups.len() implies (
            #[trigger] groups[i]).name != (#[trigger] groups[j]).name by {
                if j < so_far.len() {
                    assert(so_far[i].name != so_far[j].name);
                } else {
                    assert(so_far[i].name != name);
                }
            }
            assert forall|i: int, k: int|
                0 <= i < groups.len() && 0 <= k < groups[i].rows.len() implies {
                let at = #[trigger] groups[i].rows[k];
                &&& 0 <= at < table.len()
                &&& listed(table[at], filter)
                &&& group_said(table[at].name) == groups[i].name
                &&& k > 0 ==> groups[i].rows[k - 1] < at
            } by {
                if i < so_far.len() && k < so_far[i].rows.len() {
                    let at = so_far[i].rows[k];
                    assert(groups[i].rows[k] == at);
                    assert(less[at] == table[at]);
                    if k > 0 {
                        assert(groups[i].rows[k - 1] == so_far[i].rows[k - 1]);
                    }
                } else if k > 0 {
                    let before = so_far[i].rows[k - 1];
                    assert(0 <= before < less.len());
                }
            }
        }
        assert forall|at: int| 0 <= at < table.len() && listed(#[trigger] table[at], filter) implies exists|
            i: int,
            k: int,
        |
            0 <= i < groups.len() && 0 <= k < groups[i].rows.len() && #[trigger] groups[i].rows[k]
                == at by {
            if at < row {
                assert(less[at] == table[at]);
                let (i, k) = choose|i: int, k: int|
                    0 <= i < so_far.len() && 0 <= k < so_far[i].rows.len()
                        && #[trigger] so_far[i].rows[k] == at;
                assert(groups[i].rows[k] == at);
            } else {
                match section_at(so_far, name) {
                    Some(index) => {
                        assert(groups[index].rows[so_far[index].rows.len() as int] == at);
                    },
                    None => {
                        assert(groups[so_far.len() as int].rows[0] == at);
                    },
                }
            }
        }
    }
}

/// Groups come out in the order of their names, every one of them and
/// nothing else.
pub proof fn groups_in_name_order(groups: Seq<Section>)
    ensures
        ranked(groups, by_name()).to_multiset() == groups.to_multiset(),
        in_order(ranked(groups, by_name()), by_name()),
{
    let less = by_name();
    ranked_keeps(groups, less);
    assert(orders(less)) by {
        assert forall|a: Section, b: Section| #[trigger] less(a, b) implies !less(b, a) by {
            sooner_decides(a.name, b.name);
        }
        assert forall|a: Section, b: Section, c: Section|
            !(#[trigger] less(b, a)) && !(#[trigger] less(c, b)) implies !less(c, a) by {
            sooner_decides(a.name, b.name);
            sooner_decides(b.name, c.name);
            sooner_decides(a.name, c.name);
            if a.name != b.name && b.name != c.name {
                sooner_carries(a.name, b.name, c.name);
            }
        }
    }
    ranked_in_order(groups, less);
}

/// A name goes under what it says before its first dot, and under the group of
/// the rest where it says nothing there or has no dot.
pub proof fn a_name_is_grouped_by_its_beginning(group: Seq<char>, rest: Seq<char>)
    requires
        !group.contains('.'),
    ensures
        group.len() > 0 ==> group_said(group + seq!['.'] + rest) == group,
        group_said(seq!['.'] + rest) == "general"@,
        group_said(group) == "general"@,
{
    let name = group + seq!['.'] + rest;
    first_dot_is_first(name, 0);
    assert(name[group.len() as int] == '.');
    assert forall|i: int| 0 <= i < group.len() implies name[i] != '.' by {
        assert(group.contains(group[i]));
    }
    assert(name.take(group.len() as int) =~= group);
    assert((seq!['.'] + rest)[0] == '.');
    first_dot_is_first(group, 0);
    assert forall|i: int| 0 <= i < group.len() implies group[i] != '.' by {
        assert(group.contains(group[i]));
    }
}

/// A variable is listed where what is searched for stands anywhere in its name,
/// whatever the case and the spaces around it; a command never is.
pub proof fn variables_are_found_by_their_names(
    entry: Known,
    filter: Seq<char>,
    before: Seq<char>,
    word: Seq<char>,
    after: Seq<char>,
)
    requires
        lowered(trimmed(filter)) == word,
        lowered(entry.name) == before + word + after,
    ensures
        listed(entry, filter) == entry.valued,
        listed(entry, Seq::empty()) ==> entry.valued,
        !entry.valued ==> !listed(entry, filter),
{
    crate::text::what_was_put_in_is_held(before, word, after);
}

/// Two variables that say the same are of one kind and hold the same; fractions
/// that are equal say the same whatever their bits.
pub proof fn what_says_the_same(left: Said, right: Said)
    ensures
        said_alike(left, right) ==> (left is Bool == right is Bool) && (left is Int
            == right is Int) && (left is Float == right is Float) && (left is Text
            == right is Text),
        said_alike(left, right) && !(left is Float) ==> left == right,
        left == right && !(left is Float) ==> said_alike(left, right),
        left is Float && right is Float ==> said_alike(left, right) == alike(
            left->Float_0,
            right->Float_0,
        ),
{
}

} // verus!
