//! Paths as text: how they join, fold, compare and order.
//!
//! A path is its parts, set apart by forward slashes. What a disk says about
//! one is handed in, @ref [`Disk`].

use vstd::prelude::*;
use vstd::string::*;
use crate::text::{before, letters, part, same, sooner, sooner_carries, sooner_decides};

verus! {

/// One part of a path.
pub enum Part {
    /// The root, which an absolute path begins with.
    Root,
    /// A step that goes nowhere, which only the beginning of a path keeps.
    Here,
    /// A step up.
    Up,
    /// A name.
    Named(String),
}

/// What a part is.
pub ghost enum Step {
    Root,
    Here,
    Up,
    Named(Seq<char>),
}

impl Part {
    /// What the part is.
    pub open spec fn view(&self) -> Step {
        match self {
            Part::Root => Step::Root,
            Part::Here => Step::Here,
            Part::Up => Step::Up,
            Part::Named(name) => Step::Named(name@),
        }
    }
}

/// What several parts are.
pub open spec fn steps_view(parts: Seq<Part>) -> Seq<Step> {
    Seq::new(parts.len(), |i: int| parts[i].view())
}

/// The step a piece between two slashes is, if it is one.
pub open spec fn step_of(piece: Seq<char>, first: bool) -> Option<Step> {
    if piece.len() == 0 {
        None
    } else if piece == seq!['.'] {
        if first {
            Some(Step::Here)
        } else {
            None
        }
    } else if piece == seq!['.', '.'] {
        Some(Step::Up)
    } else {
        Some(Step::Named(piece))
    }
}

/// The steps of a path behind the ones read so far, `piece` being the part
/// of a piece already read.
pub open spec fn steps_from(path: Seq<char>, piece: Seq<char>, first: bool, so_far: Seq<Step>) -> Seq<
    Step,
>
    decreases path.len(),
{
    let done = match step_of(piece, first) {
        None => so_far,
        Some(step) => so_far.push(step),
    };
    if path.len() == 0 {
        done
    } else if path[0] == '/' {
        steps_from(path.drop_first(), Seq::empty(), false, done)
    } else {
        steps_from(path.drop_first(), piece.push(path[0]), first, so_far)
    }
}

/// The steps of a path: the root of an absolute one, then what stands
/// between the slashes. Nothing between two, and a step that goes nowhere
/// anywhere but at the beginning, is left out.
pub open spec fn steps(path: Seq<char>) -> Seq<Step> {
    if path.len() > 0 && path[0] == '/' {
        steps_from(path.drop_first(), Seq::empty(), false, seq![Step::Root])
    } else {
        steps_from(path, Seq::empty(), true, Seq::empty())
    }
}

/// Puts the step a piece is behind the others.
fn put(parts: &mut Vec<Part>, piece: String, first: bool)
    ensures
        steps_view(final(parts)@) == match step_of(piece@, first) {
            None => steps_view(old(parts)@),
            Some(step) => steps_view(old(parts)@).push(step),
        },
{
    proof {
        reveal_strlit(".");
        reveal_strlit("..");
        assert("."@ =~= seq!['.']);
        assert(".."@ =~= seq!['.', '.']);
    }
    let ghost was = steps_view(parts@);
    if piece.as_str().is_empty() {
        return;
    }
    if same(piece.as_str(), ".") {
        if first {
            parts.push(Part::Here);
            assert(steps_view(parts@) =~= was.push(Step::Here));
        }
        return;
    }
    if same(piece.as_str(), "..") {
        parts.push(Part::Up);
        assert(steps_view(parts@) =~= was.push(Step::Up));
        return;
    }
    let ghost named = piece@;
    parts.push(Part::Named(piece));
    assert(steps_view(parts@) =~= was.push(Step::Named(named)));
}

/// The parts of a path.
pub fn parts(path: &str) -> (result: Vec<Part>)
    ensures
        steps_view(result@) == steps(path@),
{
    let all: Vec<char> = letters(path);
    let mut found: Vec<Part> = Vec::new();
    let mut first: bool = true;
    let mut i: usize = 0;
    let mut from: usize = 0;
    if all.len() > 0 && all[0] == '/' {
        found.push(Part::Root);
        first = false;
        i = 1;
        from = 1;
        assert(steps_view(found@) =~= seq![Step::Root]);
        assert(all@.skip(1) =~= all@.drop_first());
    } else {
        assert(steps_view(found@) =~= Seq::empty());
        assert(all@.skip(0) =~= all@);
    }
    assert(all@.subrange(from as int, i as int) =~= Seq::empty());
    while i < all.len()
        invariant
            from <= i <= all@.len(),
            all@ == path@,
            steps(path@) == steps_from(
                all@.skip(i as int),
                all@.subrange(from as int, i as int),
                first,
                steps_view(found@),
            ),
        decreases all@.len() - i,
    {
        proof {
            assert(all@.skip(i as int).drop_first() =~= all@.skip(i as int + 1));
            assert(all@.subrange(from as int, i as int).push(all@[i as int]) =~= all@.subrange(
                from as int,
                i as int + 1,
            ));
        }
        if all[i] == '/' {
            let piece: String = part(&all, from, i);
            put(&mut found, piece, first);
            first = false;
            from = i + 1;
            assert(all@.subrange(from as int, i as int + 1) =~= Seq::empty());
        }
        i = i + 1;
    }
    let piece: String = part(&all, from, i);
    put(&mut found, piece, first);
    found
}

/// Where a step comes among the others when no name decides.
pub open spec fn step_rank(step: Step) -> int {
    match step {
        Step::Root => 0,
        Step::Here => 1,
        Step::Up => 2,
        Step::Named(_) => 3,
    }
}

/// Whether one step comes before another.
pub open spec fn step_sooner(left: Step, right: Step) -> bool {
    match (left, right) {
        (Step::Named(a), Step::Named(b)) => sooner(a, b),
        _ => step_rank(left) < step_rank(right),
    }
}

/// Whether one run of steps comes before another, step by step, a shorter
/// one before a longer one that begins with it.
pub open spec fn steps_sooner(left: Seq<Step>, right: Seq<Step>) -> bool
    decreases left.len(),
{
    if right.len() == 0 {
        false
    } else if left.len() == 0 {
        true
    } else if left[0] != right[0] {
        step_sooner(left[0], right[0])
    } else {
        steps_sooner(left.drop_first(), right.drop_first())
    }
}

/// Whether one path comes before another.
pub open spec fn path_sooner(left: Seq<char>, right: Seq<char>) -> bool {
    steps_sooner(steps(left), steps(right))
}

/// Of two different steps one comes before the other, and only one.
proof fn step_decides(left: Step, right: Step)
    ensures
        left != right ==> step_sooner(left, right) != step_sooner(right, left),
        left == right ==> !step_sooner(left, right),
{
    match (left, right) {
        (Step::Named(a), Step::Named(b)) => {
            sooner_decides(a, b);
        },
        _ => {},
    }
}

/// Steps never come both before and after each other.
pub proof fn steps_decide(left: Seq<Step>, right: Seq<Step>)
    ensures
        !(steps_sooner(left, right) && steps_sooner(right, left)),
        left != right ==> steps_sooner(left, right) || steps_sooner(right, left),
        left == right ==> !steps_sooner(left, right),
    decreases left.len(),
{
    if left.len() == 0 || right.len() == 0 {
        if left.len() == 0 && right.len() == 0 {
            assert(left =~= right);
        }
    } else if left[0] != right[0] {
        step_decides(left[0], right[0]);
    } else {
        steps_decide(left.drop_first(), right.drop_first());
        if left.drop_first() == right.drop_first() {
            assert(left =~= seq![left[0]] + left.drop_first());
            assert(right =~= seq![right[0]] + right.drop_first());
        }
    }
}

/// What comes before some steps comes before everything after them.
pub proof fn steps_carry(first: Seq<Step>, second: Seq<Step>, third: Seq<Step>)
    requires
        steps_sooner(first, second),
        steps_sooner(second, third),
    ensures
        steps_sooner(first, third),
    decreases first.len(),
{
    if first.len() > 0 {
        if first[0] == second[0] && second[0] == third[0] {
            steps_carry(first.drop_first(), second.drop_first(), third.drop_first());
        } else if first[0] != second[0] && second[0] != third[0] {
            match (first[0], second[0], third[0]) {
                (Step::Named(a), Step::Named(b), Step::Named(c)) => {
                    sooner_carries(a, b, c);
                },
                _ => {},
            }
            step_decides(first[0], third[0]);
            step_decides(first[0], second[0]);
            if first[0] == third[0] {
                step_decides(second[0], first[0]);
            }
        }
    }
}

/// Whether two parts are the same.
fn same_part(left: &Part, right: &Part) -> (result: bool)
    ensures
        result == (left.view() == right.view()),
{
    match (left, right) {
        (Part::Root, Part::Root) => true,
        (Part::Here, Part::Here) => true,
        (Part::Up, Part::Up) => true,
        (Part::Named(a), Part::Named(b)) => same(a.as_str(), b.as_str()),
        _ => false,
    }
}

/// Where a part comes among the others when no name decides.
fn part_rank(part: &Part) -> (result: u8)
    ensures
        result == step_rank(part.view()),
{
    match part {
        Part::Root => 0,
        Part::Here => 1,
        Part::Up => 2,
        Part::Named(_) => 3,
    }
}

/// Whether one part comes before another.
fn part_before(left: &Part, right: &Part) -> (result: bool)
    ensures
        result == step_sooner(left.view(), right.view()),
{
    match (left, right) {
        (Part::Named(a), Part::Named(b)) => before(a.as_str(), b.as_str()),
        _ => part_rank(left) < part_rank(right),
    }
}

/// Whether one path comes before another.
pub fn path_before(left: &str, right: &str) -> (result: bool)
    ensures
        result == path_sooner(left@, right@),
{
    let a: Vec<Part> = parts(left);
    let b: Vec<Part> = parts(right);
    let ghost x = steps_view(a@);
    let ghost y = steps_view(b@);
    let mut i: usize = 0;
    assert(x.skip(0) =~= x);
    assert(y.skip(0) =~= y);
    while i < a.len() && i < b.len()
        invariant
            i <= a@.len(),
            i <= b@.len(),
            x == steps_view(a@),
            y == steps_view(b@),
            steps_sooner(x, y) == steps_sooner(x.skip(i as int), y.skip(i as int)),
            x == steps(left@),
            y == steps(right@),
        decreases a@.len() - i,
    {
        assert(x.skip(i as int)[0] == x[i as int] && y.skip(i as int)[0] == y[i as int]);
        assert(x.skip(i as int).drop_first() =~= x.skip(i as int + 1));
        assert(y.skip(i as int).drop_first() =~= y.skip(i as int + 1));
        if !same_part(&a[i], &b[i]) {
            return part_before(&a[i], &b[i]);
        }
        i = i + 1;
    }
    i < b.len()
}

/// Steps with every step up taken against the name before it.
///
/// At the root there is nowhere to go up to; a step up with nothing before
/// it, or behind another that stayed, stays.
pub open spec fn folded(steps: Seq<Step>) -> Seq<Step>
    decreases steps.len(),
{
    if steps.len() == 0 {
        Seq::empty()
    } else {
        fold_one(folded(steps.drop_last()), steps.last())
    }
}

/// One more step behind steps that are folded.
pub open spec fn fold_one(so_far: Seq<Step>, step: Step) -> Seq<Step> {
    match step {
        Step::Here => so_far,
        Step::Up => if so_far.len() == 0 || so_far.last() == Step::Up {
            so_far.push(Step::Up)
        } else if so_far.last() == Step::Root {
            so_far
        } else {
            so_far.drop_last()
        },
        _ => so_far.push(step),
    }
}

/// A step as it is written.
pub open spec fn step_text(step: Step) -> Seq<char> {
    match step {
        Step::Root => seq!['/'],
        Step::Here => seq!['.'],
        Step::Up => seq!['.', '.'],
        Step::Named(name) => name,
    }
}

/// Steps as they are written: a slash between any two, none behind the root.
pub open spec fn steps_text(steps: Seq<Step>) -> Seq<char>
    decreases steps.len(),
{
    if steps.len() == 0 {
        Seq::empty()
    } else if steps.len() == 1 || steps[steps.len() - 2] == Step::Root {
        steps_text(steps.drop_last()) + step_text(steps.last())
    } else {
        steps_text(steps.drop_last()) + seq!['/'] + step_text(steps.last())
    }
}

/// A path folded by its spelling alone.
pub open spec fn folded_path(path: Seq<char>) -> Seq<char> {
    steps_text(folded(steps(path)))
}

/// Whether the last of several parts is a step up.
fn ends_up(parts: &Vec<Part>) -> (result: bool)
    requires
        parts@.len() > 0,
    ensures
        result == (steps_view(parts@).last() == Step::Up),
{
    match parts[parts.len() - 1] {
        Part::Up => true,
        _ => false,
    }
}

/// Whether the last of several parts is the root.
fn ends_root(parts: &Vec<Part>) -> (result: bool)
    requires
        parts@.len() > 0,
    ensures
        result == (steps_view(parts@).last() == Step::Root),
{
    match parts[parts.len() - 1] {
        Part::Root => true,
        _ => false,
    }
}

/// Folds a path by its spelling alone: no step that goes nowhere, and no
/// step up behind a name.
pub fn lexical(path: &str) -> (result: String)
    ensures
        result@ == folded_path(path@),
{
    let all: Vec<Part> = parts(path);
    let ghost whole = steps_view(all@);
    let mut kept: Vec<Part> = Vec::new();
    let mut i: usize = 0;
    assert(whole.take(0) =~= Seq::empty());
    assert(steps_view(kept@) =~= Seq::empty());
    while i < all.len()
        invariant
            i <= all@.len(),
            whole == steps_view(all@),
            steps_view(kept@) == folded(whole.take(i as int)),
        decreases all@.len() - i,
    {
        let ghost was = steps_view(kept@);
        proof {
            assert(whole.take(i as int + 1).drop_last() =~= whole.take(i as int));
            assert(whole.take(i as int + 1).last() == whole[i as int]);
        }
        match &all[i] {
            Part::Here => {},
            Part::Up => {
                if kept.len() == 0 {
                    kept.push(Part::Up);
                    assert(steps_view(kept@) =~= was.push(Step::Up));
                } else if ends_up(&kept) {
                    kept.push(Part::Up);
                    assert(steps_view(kept@) =~= was.push(Step::Up));
                } else if !ends_root(&kept) {
                    kept.pop();
                    assert(steps_view(kept@) =~= was.drop_last());
                }
            },
            Part::Root => {
                kept.push(Part::Root);
                assert(steps_view(kept@) =~= was.push(Step::Root));
            },
            Part::Named(name) => {
                kept.push(Part::Named(name.clone()));
                assert(steps_view(kept@) =~= was.push(Step::Named(name@)));
            },
        }
        i = i + 1;
    }
    assert(whole.take(i as int) =~= whole);
    written(&kept)
}

/// Parts as they are written.
fn written(parts: &Vec<Part>) -> (result: String)
    ensures
        result@ == steps_text(steps_view(parts@)),
{
    proof {
        reveal_strlit("/");
        reveal_strlit(".");
        reveal_strlit("..");
        assert("/"@ =~= seq!['/']);
        assert("."@ =~= seq!['.']);
        assert(".."@ =~= seq!['.', '.']);
    }
    let ghost whole = steps_view(parts@);
    let mut out: String = String::new();
    let mut i: usize = 0;
    assert(whole.take(0) =~= Seq::empty());
    while i < parts.len()
        invariant
            i <= parts@.len(),
            whole == steps_view(parts@),
            out@ == steps_text(whole.take(i as int)),
            "/"@ == seq!['/'],
            "."@ == seq!['.'],
            ".."@ == seq!['.', '.'],
        decreases parts@.len() - i,
    {
        let ghost more = whole.take(i as int + 1);
        proof {
            assert(more.drop_last() =~= whole.take(i as int));
            assert(more.last() == whole[i as int]);
            if i > 0 {
                assert(more[more.len() - 2] == whole[i as int - 1]);
            }
        }
        let after_root: bool = i > 0 && match parts[i - 1] {
            Part::Root => true,
            _ => false,
        };
        if i > 0 && !after_root {
            out.append("/");
        }
        match &parts[i] {
            Part::Root => {
                out.append("/");
            },
            Part::Here => {
                out.append(".");
            },
            Part::Up => {
                out.append("..");
            },
            Part::Named(name) => {
                out.append(name.as_str());
            },
        }
        i = i + 1;
    }
    assert(whole.take(i as int) =~= whole);
    out
}

/// A path under another.
pub open spec fn under(base: Seq<char>, more: Seq<char>) -> Seq<char> {
    if more.len() > 0 && more[0] == '/' {
        more
    } else if base.len() == 0 || base.last() == '/' {
        base + more
    } else {
        base + seq!['/'] + more
    }
}

/// A path under another: what stands alone where it is absolute.
pub fn join(base: &str, more: &str) -> (result: String)
    ensures
        result@ == under(base@, more@),
{
    let head: Vec<char> = letters(base);
    let tail: Vec<char> = letters(more);
    if tail.len() > 0 && tail[0] == '/' {
        return more.to_owned();
    }
    let mut result: String = base.to_owned();
    if head.len() > 0 && head[head.len() - 1] != '/' {
        result.push('/');
        assert(result@ =~= base@ + seq!['/']);
    }
    result.append(more);
    result
}

/// The last name of a path, if it ends in one.
pub open spec fn last_name(path: Seq<char>) -> Option<Seq<char>> {
    let all = steps(path);
    if all.len() > 0 {
        match all.last() {
            Step::Named(name) => Some(name),
            _ => None,
        }
    } else {
        None
    }
}

/// The last name of a path, if it ends in one.
pub fn file_name(path: &str) -> (result: Option<String>)
    ensures
        result is Some == last_name(path@) is Some,
        result is Some ==> result->0@ == last_name(path@)->0,
{
    let mut all: Vec<Part> = parts(path);
    let ghost whole = steps_view(all@);
    match all.pop() {
        Some(Part::Named(name)) => {
            assert(whole.last() == Step::Named(name@));
            Some(name)
        },
        Some(other) => {
            assert(whole.last() == other.view());
            None
        },
        None => None,
    }
}

/// A path without what is of no account at its end: slashes, but for the
/// root, and steps that go nowhere behind them.
pub open spec fn end_bared(path: Seq<char>) -> Seq<char>
    decreases path.len(),
{
    let len = path.len() as int;
    if len > 1 && (path[len - 1] == '/' || path[len - 1] == '.' && path[len - 2] == '/') {
        end_bared(path.drop_last())
    } else {
        path
    }
}

/// A path up to its last slash, that one included; nothing where there is
/// none.
pub open spec fn to_last_slash(path: Seq<char>) -> Seq<char>
    decreases path.len(),
{
    if path.len() == 0 || path.last() == '/' {
        path
    } else {
        to_last_slash(path.drop_last())
    }
}

/// The path a path's last part stands in, spelled as the path spells it.
pub open spec fn held_by(path: Seq<char>) -> Seq<char> {
    end_bared(to_last_slash(end_bared(path)))
}

/// The path a path's last part stands in, spelled as the path spells it.
pub fn parent(path: &str) -> (result: String)
    ensures
        result@ == held_by(path@),
{
    let all: Vec<char> = letters(path);
    let mut end: usize = bared(&all, all.len());
    let ghost whole = all@.take(end as int);
    while end > 0 && all[end - 1] != '/'
        invariant
            end <= all@.len(),
            to_last_slash(whole) == to_last_slash(all@.take(end as int)),
        decreases end,
    {
        assert(all@.take(end as int).drop_last() =~= all@.take(end - 1));
        assert(all@.take(end as int).last() == all@[end - 1]);
        end = end - 1;
    }
    assert(all@.take(all@.len() as int) =~= all@);
    assert(end > 0 ==> all@.take(end as int).last() == all@[end - 1]);
    assert(to_last_slash(whole) == all@.take(end as int));
    let end: usize = bared(&all, end);
    let result: String = part(&all, 0, end);
    assert(result@ =~= all@.take(end as int));
    result
}

/// How much of the beginning of a path is left without what is of no account
/// at its end.
fn bared(all: &Vec<char>, upto: usize) -> (result: usize)
    requires
        upto <= all@.len(),
    ensures
        result <= upto,
        all@.take(result as int) == end_bared(all@.take(upto as int)),
{
    let mut end: usize = upto;
    while end > 1 && (all[end - 1] == '/' || (all[end - 1] == '.' && all[end - 2] == '/'))
        invariant
            end <= upto <= all@.len(),
            end_bared(all@.take(upto as int)) == end_bared(all@.take(end as int)),
        decreases end,
    {
        let ghost before = all@.take(end as int);
        assert(before[end - 1] == all@[end - 1] && before[end - 2] == all@[end - 2]);
        assert(before.drop_last() =~= all@.take(end - 1));
        end = end - 1;
    }
    proof {
        let left = all@.take(end as int);
        assert(end > 1 ==> left[end - 1] == all@[end - 1] && left[end - 2] == all@[end - 2]);
    }
    end
}

/// What a disk says paths are, once every link is followed: each folded path
/// that leads somewhere, with the one true path of that place.
pub struct Disk {
    pub places: Vec<(String, String)>,
}

impl Disk {
    /// What the disk says.
    pub open spec fn view(&self) -> Seq<(Seq<char>, Seq<char>)> {
        Seq::new(self.places@.len(), |i: int| (self.places@[i].0@, self.places@[i].1@))
    }

    /// A disk on which nothing leads anywhere.
    pub fn bare() -> (result: Disk)
        ensures
            result.view() == Seq::<(Seq<char>, Seq<char>)>::empty(),
    {
        let result: Disk = Disk { places: Vec::new() };
        assert(result.view() =~= Seq::empty());
        result
    }

    /// Where a path leads, if it leads anywhere.
    pub fn leads(&self, path: &str) -> (result: Option<&str>)
        ensures
            result is Some == resolved(self.view(), path@) is Some,
            result is Some ==> result->0@ == resolved(self.view(), path@)->0,
    {
        let ghost all = self.view();
        let mut i: usize = 0;
        assert(all.skip(0) =~= all);
        while i < self.places.len()
            invariant
                i <= self.places@.len(),
                all == self.view(),
                resolved(all, path@) == resolved(all.skip(i as int), path@),
            decreases self.places@.len() - i,
        {
            assert(all.skip(i as int)[0] == all[i as int]);
            assert(all.skip(i as int).drop_first() =~= all.skip(i as int + 1));
            if same(self.places[i].0.as_str(), path) {
                return Some(self.places[i].1.as_str());
            }
            i = i + 1;
        }
        None
    }
}

/// Where a folded path leads on a disk, if it leads anywhere.
pub open spec fn resolved(disk: Seq<(Seq<char>, Seq<char>)>, path: Seq<char>) -> Option<Seq<char>>
    decreases disk.len(),
{
    if disk.len() == 0 {
        None
    } else if disk[0].0 == path {
        Some(disk[0].1)
    } else {
        resolved(disk.drop_first(), path)
    }
}

/// Whether two paths name the same place: by where they lead when both lead
/// somewhere, and by their folded spelling otherwise.
pub open spec fn one_place(
    disk: Seq<(Seq<char>, Seq<char>)>,
    left: Seq<char>,
    right: Seq<char>,
) -> bool {
    match (resolved(disk, folded_path(left)), resolved(disk, folded_path(right))) {
        (Some(a), Some(b)) => a == b,
        _ => folded_path(left) == folded_path(right),
    }
}

/// Whether two paths name the same place.
pub fn same_place(disk: &Disk, left: &str, right: &str) -> (result: bool)
    ensures
        result == one_place(disk.view(), left@, right@),
{
    let left: String = lexical(left);
    let right: String = lexical(right);
    match (disk.leads(left.as_str()), disk.leads(right.as_str())) {
        (Some(a), Some(b)) => same(a, b),
        _ => same(left.as_str(), right.as_str()),
    }
}

/// Every path names the same place as itself, and the two sides of a
/// comparison can be swapped.
pub proof fn one_place_is_fair(
    disk: Seq<(Seq<char>, Seq<char>)>,
    left: Seq<char>,
    right: Seq<char>,
)
    ensures
        one_place(disk, left, left),
        one_place(disk, left, right) == one_place(disk, right, left),
{
}

/// Whether a text is a name between two slashes.
pub open spec fn plain_name(name: Seq<char>) -> bool {
    &&& name.len() > 0
    &&& !name.contains('/')
    &&& name != seq!['.']
    &&& name != seq!['.', '.']
}

/// Whether steps are as a path has them: the root only first, and every name
/// one.
pub open spec fn readable(steps: Seq<Step>) -> bool {
    forall|i: int|
        0 <= i < steps.len() ==> match #[trigger] steps[i] {
            Step::Root => i == 0,
            Step::Named(name) => plain_name(name),
            _ => true,
        }
}

/// Whether steps are folded: no step that goes nowhere, and steps up only
/// before all others.
pub open spec fn normal(steps: Seq<Step>) -> bool {
    &&& readable(steps)
    &&& forall|i: int| 0 <= i < steps.len() ==> #[trigger] steps[i] != Step::Here
    &&& forall|i: int, j: int|
        0 <= j < i < steps.len() && #[trigger] steps[i] == Step::Up ==> #[trigger] steps[j]
            == Step::Up
}

/// What is read of a path is as a path has it.
proof fn read_is_readable(path: Seq<char>, piece: Seq<char>, first: bool, so_far: Seq<Step>)
    requires
        !piece.contains('/'),
        readable(so_far),
    ensures
        readable(steps_from(path, piece, first, so_far)),
    decreases path.len(),
{
    let done = match step_of(piece, first) {
        None => so_far,
        Some(step) => so_far.push(step),
    };
    assert(readable(done));
    if path.len() > 0 {
        if path[0] == '/' {
            read_is_readable(path.drop_first(), Seq::empty(), false, done);
        } else {
            let more = piece.push(path[0]);
            assert(!more.contains('/')) by {
                if more.contains('/') {
                    let k = choose|k: int| 0 <= k < more.len() && more[k] == '/';
                    assert(piece[k] == '/');
                }
            }
            read_is_readable(path.drop_first(), more, first, so_far);
        }
    }
}

/// Folded steps are folded.
proof fn folding_is_normal(steps: Seq<Step>)
    requires
        readable(steps),
    ensures
        normal(folded(steps)),
        folded(steps).len() <= steps.len(),
        forall|i: int|
            0 < i < folded(steps).len() ==> #[trigger] folded(steps)[i] != Step::Root,
    decreases steps.len(),
{
    if steps.len() > 0 {
        let less = steps.drop_last();
        folding_is_normal(less);
        let so_far = folded(less);
        let step = steps.last();
        if step == Step::Root {
            assert(steps[steps.len() - 1] == Step::Root);
            assert(less.len() == 0);
        }
        assert(step == steps[steps.len() - 1]);
    }
}

/// Folding what is folded changes nothing.
proof fn normal_stays(steps: Seq<Step>)
    requires
        normal(steps),
    ensures
        folded(steps) == steps,
    decreases steps.len(),
{
    if steps.len() == 0 {
        assert(steps =~= Seq::empty());
    } else {
        let less = steps.drop_last();
        assert(normal(less)) by {
            assert forall|i: int| 0 <= i < less.len() implies #[trigger] less[i] == steps[i] by {}
        }
        normal_stays(less);
        assert(less.push(steps.last()) =~= steps);
        if steps.last() == Step::Up && less.len() > 0 {
            assert(steps[steps.len() - 1] == Step::Up);
            assert(steps[less.len() - 1] == Step::Up);
        }
    }
}

/// A path is read piece by piece: what stands behind a slash after what
/// stands before it.
proof fn read_in_pieces(
    before: Seq<char>,
    after: Seq<char>,
    piece: Seq<char>,
    first: bool,
    so_far: Seq<Step>,
)
    ensures
        steps_from(before + seq!['/'] + after, piece, first, so_far) == steps_from(
            after,
            Seq::empty(),
            false,
            steps_from(before, piece, first, so_far),
        ),
    decreases before.len(),
{
    let path = before + seq!['/'] + after;
    if before.len() == 0 {
        assert(path.drop_first() =~= after);
    } else {
        let rest = before.drop_first();
        assert(path.drop_first() =~= rest + seq!['/'] + after);
        let done = match step_of(piece, first) {
            None => so_far,
            Some(step) => so_far.push(step),
        };
        if before[0] == '/' {
            read_in_pieces(rest, after, Seq::empty(), false, done);
        } else {
            read_in_pieces(rest, after, piece.push(before[0]), first, so_far);
        }
    }
}

/// A piece with no slash in it is read as one step.
pub proof fn one_piece_is_read(rest: Seq<char>, piece: Seq<char>, first: bool, so_far: Seq<Step>)
    requires
        !rest.contains('/'),
    ensures
        steps_from(rest, piece, first, so_far) == match step_of(piece + rest, first) {
            None => so_far,
            Some(step) => so_far.push(step),
        },
    decreases rest.len(),
{
    if rest.len() == 0 {
        assert(piece + rest =~= piece);
    } else {
        let less = rest.drop_first();
        assert(rest.contains(rest[0]));
        assert(!less.contains('/')) by {
            if less.contains('/') {
                let k = choose|k: int| 0 <= k < less.len() && less[k] == '/';
                assert(rest[k + 1] == '/');
            }
        }
        one_piece_is_read(less, piece.push(rest[0]), first, so_far);
        assert(piece.push(rest[0]) + less =~= piece + rest);
    }
}

/// Folded steps are read back out of what they are written as.
proof fn written_steps_are_read(all: Seq<Step>)
    requires
        normal(all),
    ensures
        steps(steps_text(all)) == all,
        all.len() > 0 ==> steps_text(all).len() > 0,
        all.len() > 0 ==> (steps_text(all)[0] == '/' <==> all[0] == Step::Root),
    decreases all.len(),
{
    if all.len() == 0 {
        assert(steps(steps_text(all)) =~= all);
    } else {
        let less = all.drop_last();
        let last = all.last();
        assert(last == all[all.len() - 1]);
        assert(normal(less)) by {
            assert forall|i: int| 0 <= i < less.len() implies #[trigger] less[i] == all[i] by {}
        }
        written_steps_are_read(less);
        let name = step_text(last);
        let path = steps_text(all);
        assert(less.push(last) =~= all);
        if last == Step::Root {
            assert(all =~= seq![Step::Root]);
            assert(path =~= seq!['/']);
            assert(path.drop_first() =~= Seq::empty());
            assert(steps(path) =~= all);
        } else {
            assert(name.len() > 0 && !name.contains('/')) by {
                if last == Step::Up {
                    assert(name[0] != '/' && name[1] != '/');
                }
            }
            assert(name[0] != '/') by {
                assert(name.contains(name[0]));
            }
            assert(Seq::<char>::empty() + name =~= name);
            if all.len() == 1 {
                assert(less =~= Seq::empty());
                assert(path =~= name);
                one_piece_is_read(name, Seq::empty(), true, Seq::empty());
                assert(steps(path) =~= all);
            } else if all[all.len() - 2] == Step::Root {
                assert(all.len() == 2);
                assert(less =~= seq![Step::Root]);
                reveal_with_fuel(steps_text, 2);
                assert(less.drop_last() =~= Seq::empty());
                assert(steps_text(less) =~= seq!['/']);
                assert(path =~= seq!['/'] + name);
                assert(path.drop_first() =~= name);
                if last == Step::Up {
                    assert(all[1] == Step::Up);
                    assert(all[0] == Step::Up);
                }
                one_piece_is_read(name, Seq::empty(), false, seq![Step::Root]);
                assert(steps(path) =~= all);
            } else {
                let head = steps_text(less);
                assert(path == head + seq!['/'] + name);
                assert(path[0] == head[0]);
                assert(less[0] == all[0]);
                one_piece_is_read(name, Seq::empty(), false, less);
                if head[0] == '/' {
                    assert(path.drop_first() =~= head.drop_first() + seq!['/'] + name);
                    read_in_pieces(
                        head.drop_first(),
                        name,
                        Seq::empty(),
                        false,
                        seq![Step::Root],
                    );
                } else {
                    read_in_pieces(head, name, Seq::empty(), true, Seq::empty());
                }
                assert(steps(path) =~= all);
            }
        }
    }
}

/// Folding a path twice is folding it once, so that a folded path names the
/// place that the path it was folded from names.
pub proof fn a_folded_path_stays(disk: Seq<(Seq<char>, Seq<char>)>, path: Seq<char>)
    ensures
        folded_path(folded_path(path)) == folded_path(path),
        one_place(disk, path, folded_path(path)),
{
    if path.len() > 0 && path[0] == '/' {
        read_is_readable(path.drop_first(), Seq::empty(), false, seq![Step::Root]);
    } else {
        read_is_readable(path, Seq::empty(), true, Seq::empty());
    }
    folding_is_normal(steps(path));
    written_steps_are_read(folded(steps(path)));
    normal_stays(folded(steps(path)));
}

/// The steps of a path behind a slash, from the steps of the path before it.
pub proof fn read_behind(before: Seq<char>, after: Seq<char>)
    ensures
        steps(before + seq!['/'] + after) == if before.len() == 0 {
            steps_from(after, Seq::empty(), false, seq![Step::Root])
        } else {
            steps_from(after, Seq::empty(), false, steps(before))
        },
{
    let whole = before + seq!['/'] + after;
    if before.len() == 0 {
        assert(whole.drop_first() =~= after);
    } else if before[0] == '/' {
        assert(whole.drop_first() =~= before.drop_first() + seq!['/'] + after);
        read_in_pieces(before.drop_first(), after, Seq::empty(), false, seq![Step::Root]);
    } else {
        read_in_pieces(before, after, Seq::empty(), true, Seq::empty());
    }
}

/// What is of no account at the end of a path says nothing of where it leads.
proof fn a_bare_end_leads_there(path: Seq<char>)
    ensures
        steps(end_bared(path)) == steps(path),
        ({
            let bare = end_bared(path);
            let len = bare.len() as int;
            len > 1 ==> bare[len - 1] != '/' && !(bare[len - 1] == '.' && bare[len - 2] == '/')
        }),
    decreases path.len(),
{
    let len = path.len() as int;
    if len > 1 && path[len - 1] == '/' {
        let before = path.drop_last();
        assert(path =~= before + seq!['/'] + Seq::empty());
        read_behind(before, Seq::empty());
        a_bare_end_leads_there(before);
    } else if len > 1 && path[len - 1] == '.' && path[len - 2] == '/' {
        let before = path.take(len - 2);
        assert(path =~= before + seq!['/'] + seq!['.']);
        assert(path.drop_last() =~= before + seq!['/'] + Seq::empty());
        read_behind(before, seq!['.']);
        read_behind(before, Seq::empty());
        assert(seq!['.'].drop_first() =~= Seq::<char>::empty());
        assert(Seq::<char>::empty().push('.') =~= seq!['.']);
        reveal_with_fuel(steps_from, 3);
        a_bare_end_leads_there(path.drop_last());
    }
}

/// A path is what stands up to its last slash, and a piece with none.
proof fn parted_at_the_last_slash(path: Seq<char>)
    ensures
        to_last_slash(path).len() <= path.len(),
        path.take(to_last_slash(path).len() as int) == to_last_slash(path),
        to_last_slash(path).len() > 0 ==> to_last_slash(path).last() == '/',
        forall|i: int| to_last_slash(path).len() <= i < path.len() ==> path[i] != '/',
    decreases path.len(),
{
    if path.len() == 0 || path.last() == '/' {
        assert(path.take(path.len() as int) =~= path);
    } else {
        parted_at_the_last_slash(path.drop_last());
        let len = to_last_slash(path).len() as int;
        assert(path.take(len) =~= path.drop_last().take(len));
        assert forall|i: int| len <= i < path.len() implies path[i] != '/' by {
            if i < path.len() - 1 {
                assert(path.drop_last()[i] == path[i]);
            }
        }
    }
}

/// The path a path's last part stands in leads wherever the path does without
/// its last step.
pub proof fn a_parent_is_one_step_short(path: Seq<char>)
    requires
        steps(path).len() > 0,
        steps(path).last() != Step::Root,
    ensures
        steps(held_by(path)) == steps(path).drop_last(),
{
    let bare = end_bared(path);
    let front = to_last_slash(bare);
    let tail = bare.skip(front.len() as int);
    a_bare_end_leads_there(path);
    parted_at_the_last_slash(bare);
    a_bare_end_leads_there(front);
    assert forall|i: int| 0 <= i < tail.len() implies tail[i] != '/' by {
        assert(tail[i] == bare[front.len() + i]);
    }
    assert(Seq::<char>::empty() + tail =~= tail);
    if front.len() == 0 {
        assert(tail =~= bare);
        one_piece_is_read(tail, Seq::empty(), true, Seq::empty());
        assert(bare.len() > 0 ==> bare[0] != '/');
        assert(steps(path).drop_last() =~= Seq::empty());
        assert(steps(front) == Seq::<Step>::empty());
    } else {
        let before = front.drop_last();
        assert(front =~= before + seq!['/'] + Seq::empty());
        assert(bare =~= before + seq!['/'] + tail);
        read_behind(before, tail);
        read_behind(before, Seq::empty());
        let above = steps(front);
        one_piece_is_read(tail, Seq::empty(), false, above);
        let len = bare.len() as int;
        assert(bare[before.len() as int] == '/');
        if tail.len() == 0 {
            assert(bare[len - 1] == '/');
        } else if tail == seq!['.'] {
            assert(bare[len - 1] == tail[0] && bare[len - 2] == '/');
        }
        assert(steps(path).drop_last() =~= above);
    }
}

/// What a path that ends in a piece without a slash ends in: that piece, unless
/// it goes nowhere or up.
pub proof fn the_last_piece_is_the_name(dir: Seq<char>, name: Seq<char>)
    requires
        !name.contains('/'),
        name.len() > 0,
        name != seq!['.'],
        name != seq!['.', '.'],
    ensures
        last_name(name) == Some(name),
        last_name(dir + seq!['/'] + name) == Some(name),
{
    assert(name.contains(name[0]));
    assert(Seq::<char>::empty() + name =~= name);
    one_piece_is_read(name, Seq::empty(), true, Seq::empty());
    let before = if dir.len() == 0 {
        seq![Step::Root]
    } else {
        steps(dir)
    };
    read_behind(dir, name);
    one_piece_is_read(name, Seq::empty(), false, before);
}

/// A step up behind a name takes the name back, a step that goes nowhere and a
/// slash too many say nothing, and a path folds to what it folds to without any
/// of them. At the root there is nowhere to go up to.
pub proof fn folding_takes_steps_back(dir: Seq<char>, name: Seq<char>)
    requires
        dir.len() > 0,
        plain_name(name),
    ensures
        folded_path(dir + seq!['/'] + name + seq!['/', '.', '.']) == folded_path(dir),
        folded_path(dir + seq!['/', '.']) == folded_path(dir),
        folded_path(dir + seq!['/']) == folded_path(dir),
        folded_path(seq!['/', '.', '.']) == folded_path(seq!['/']),
{
    let inner = dir + seq!['/'] + name;
    let up = seq!['.', '.'];
    read_behind(dir, name);
    one_piece_is_read(name, Seq::empty(), false, steps(dir));
    assert(Seq::<char>::empty() + name =~= name);
    assert(steps(inner) == steps(dir).push(Step::Named(name)));
    read_behind(inner, up);
    no_slash(up);
    one_piece_is_read(up, Seq::empty(), false, steps(inner));
    assert(Seq::<char>::empty() + up =~= up);
    assert(inner + seq!['/', '.', '.'] =~= inner + seq!['/'] + up);
    let all = steps(inner).push(Step::Up);
    assert(all.drop_last() =~= steps(inner));
    assert(steps(inner).drop_last() =~= steps(dir));
    assert(folded(steps(inner)) == folded(steps(dir)).push(Step::Named(name)));
    assert(folded(all) =~= folded(steps(dir)));
    let here = seq!['.'];
    read_behind(dir, here);
    no_slash(here);
    one_piece_is_read(here, Seq::empty(), false, steps(dir));
    assert(Seq::<char>::empty() + here =~= here);
    assert(dir + seq!['/', '.'] =~= dir + seq!['/'] + here);
    read_behind(dir, Seq::empty());
    one_piece_is_read(Seq::empty(), Seq::empty(), false, steps(dir));
    assert(dir + seq!['/'] + Seq::<char>::empty() =~= dir + seq!['/']);
    let root = Seq::<char>::empty();
    read_behind(root, up);
    one_piece_is_read(up, Seq::empty(), false, seq![Step::Root]);
    assert(root + seq!['/'] + up =~= seq!['/', '.', '.']);
    read_behind(root, root);
    one_piece_is_read(root, Seq::empty(), false, seq![Step::Root]);
    assert(root + seq!['/'] + root =~= seq!['/']);
    let over = seq![Step::Root].push(Step::Up);
    assert(over.drop_last() =~= seq![Step::Root]);
    assert(seq![Step::Root].drop_last() =~= Seq::<Step>::empty());
    assert(folded(seq![Step::Root]) =~= seq![Step::Root]) by {
        reveal_with_fuel(folded, 2);
        assert(Seq::<Step>::empty().push(Step::Root) =~= seq![Step::Root]);
    }
    assert(folded(over) == fold_one(folded(seq![Step::Root]), Step::Up));
}

/// Dots alone hold no slash.
proof fn no_slash(dots: Seq<char>)
    requires
        forall|i: int| 0 <= i < dots.len() ==> #[trigger] dots[i] == '.',
    ensures
        !dots.contains('/'),
{
}

/// A path put under another leads to the other and then on, one slash between
/// them; an absolute one leads where it led.
pub proof fn a_path_under_another_leads_on(base: Seq<char>, more: Seq<char>)
    ensures
        more.len() > 0 && more[0] == '/' ==> under(base, more) == more,
        base.len() > 0 && base.last() != '/' && (more.len() == 0 || more[0] != '/') ==> under(
            base,
            more,
        ) == base + seq!['/'] + more,
        base.len() > 0 && base.last() == '/' && (more.len() == 0 || more[0] != '/') ==> under(
            base,
            more,
        ) == base + more,
        plain_name(more) && base.len() > 0 ==> last_name(under(base, more)) == Some(more),
        plain_name(more) && base.len() > 0 ==> steps(under(base, more)) == steps(base).push(
            Step::Named(more),
        ),
{
    if plain_name(more) && base.len() > 0 {
        assert(more[0] != '/') by {
            assert(more.contains(more[0]));
        }
        assert(Seq::<char>::empty() + more =~= more);
        if base.last() == '/' {
            let front = base.drop_last();
            assert(base =~= front + seq!['/']);
            assert(base + more =~= front + seq!['/'] + more);
            assert(base =~= front + seq!['/'] + Seq::<char>::empty());
            read_behind(front, more);
            read_behind(front, Seq::empty());
            let so_far = if front.len() == 0 {
                seq![Step::Root]
            } else {
                steps(front)
            };
            one_piece_is_read(more, Seq::empty(), false, so_far);
            one_piece_is_read(Seq::empty(), Seq::empty(), false, so_far);
        } else {
            read_behind(base, more);
            one_piece_is_read(more, Seq::empty(), false, steps(base));
        }
    }
}

/// Two paths that lead somewhere name one place exactly where they lead to the
/// same one, however they are spelled; where either leads nowhere they do exactly
/// where they fold to the same spelling.
pub proof fn places_are_told_by_where_they_lead(
    disk: Seq<(Seq<char>, Seq<char>)>,
    left: Seq<char>,
    right: Seq<char>,
)
    ensures
        ({
            let a = resolved(disk, folded_path(left));
            let b = resolved(disk, folded_path(right));
            &&& a is Some && b is Some ==> one_place(disk, left, right) == (a == b)
            &&& a is None || b is None ==> one_place(disk, left, right) == (folded_path(left)
                == folded_path(right))
        }),
        match resolved(disk, left) {
            None => forall|i: int| 0 <= i < disk.len() ==> (#[trigger] disk[i]).0 != left,
            Some(place) => exists|i: int|
                0 <= i < disk.len() && #[trigger] disk[i] == (left, place),
        },
    decreases disk.len(),
{
    if disk.len() > 0 && disk[0].0 != left {
        let rest = disk.drop_first();
        places_are_told_by_where_they_lead(rest, left, right);
        match resolved(rest, left) {
            None => {
                assert forall|i: int| 0 <= i < disk.len() implies (#[trigger] disk[i]).0 != left by {
                    if i > 0 {
                        assert(disk[i] == rest[i - 1]);
                    }
                }
            },
            Some(place) => {
                let i = choose|i: int| 0 <= i < rest.len() && #[trigger] rest[i] == (left, place);
                assert(disk[i + 1] == rest[i]);
            },
        }
    } else if disk.len() > 0 {
        assert(disk[0] == (left, resolved(disk, left)->0));
    }
}

/// Paths stand in the order of the first name they differ in, and a path stands
/// before everything under it.
pub proof fn paths_stand_by_their_first_difference(
    start: Seq<Step>,
    one: Seq<char>,
    other: Seq<char>,
    left: Seq<Step>,
    right: Seq<Step>,
)
    requires
        sooner(one, other),
    ensures
        steps_sooner(
            start + seq![Step::Named(one)] + left,
            start + seq![Step::Named(other)] + right,
        ),
        steps_sooner(start, start + seq![Step::Named(one)] + left),
    decreases start.len(),
{
    let near = start + seq![Step::Named(one)] + left;
    let far = start + seq![Step::Named(other)] + right;
    if start.len() == 0 {
        sooner_decides(one, other);
        assert(near[0] == Step::Named(one) && far[0] == Step::Named(other));
    } else {
        let rest = start.drop_first();
        paths_stand_by_their_first_difference(rest, one, other, left, right);
        assert(near.drop_first() =~= rest + seq![Step::Named(one)] + left);
        assert(far.drop_first() =~= rest + seq![Step::Named(other)] + right);
        assert(near[0] == start[0] && far[0] == start[0]);
    }
}

} // verus!
