//! The workspace as `cargo metadata` lists it, and which of its members a run
//! can judge.

use vstd::prelude::*;
use vstd::string::*;

use crate::args::{
    has_arg, is_given, option_values, values_of, Arg, ArgView, Value, ValueView,
};
use crate::judge::{RunUnit, RunUnitView};
use crate::paths::{
    a_file_lies_in_the_directory_it_is_joined_to, are_same, components, directory, directory_of,
    is_absolute, joined_path, same_path,
};
use crate::sets::TextSet;
use crate::text::{chars_of, opt_view, same, viewed, views};

verus! {

/// What a member depends on.
pub struct Dependency {
    /// The package's name, whatever the manifest renames it to.
    pub name: String,
    /// Set for a path dependency, which is how one member names another.
    pub path: Option<String>,
}

/// What a [`Dependency`] is.
pub struct DependencyView {
    pub name: Seq<char>,
    pub path: Option<Seq<char>>,
}

impl View for Dependency {
    type V = DependencyView;

    open spec fn view(&self) -> DependencyView {
        DependencyView { name: self.name@, path: opt_view(self.path) }
    }
}

/// A member, as `cargo metadata --no-deps` lists it.
pub struct Package {
    pub id: String,
    pub name: String,
    pub manifest_path: String,
    pub dependencies: Vec<Dependency>,
}

/// What a [`Package`] is.
pub struct PackageView {
    pub id: Seq<char>,
    pub name: Seq<char>,
    pub manifest_path: Seq<char>,
    pub dependencies: Seq<DependencyView>,
}

impl View for Package {
    type V = PackageView;

    open spec fn view(&self) -> PackageView {
        PackageView {
            id: self.id@,
            name: self.name@,
            manifest_path: self.manifest_path@,
            dependencies: viewed(self.dependencies@),
        }
    }
}

/// The workspace.
pub struct Metadata {
    pub workspace_root: String,
    pub target_directory: String,
    pub workspace_members: Vec<String>,
    pub packages: Vec<Package>,
}

/// Whether a dependency is on `package`: a path dependency on the member's
/// directory, or failing a path, a dependency of the member's name. One more
/// edge than there is only keeps an item from being judged, and one fewer
/// would call it unused.
pub open spec fn is_on(package: PackageView, dep: DependencyView) -> bool {
    match dep.path {
        Some(path) => match directory(package.manifest_path) {
            Some(dir) => are_same(dir, path),
            None => false,
        },
        None => package.name == dep.name,
    }
}

/// The place of the first member that a dependency is on, or how many members
/// there are.
pub open spec fn member_of(packages: Seq<PackageView>, dep: DependencyView) -> int
    decreases packages.len(),
{
    if packages.len() == 0 || is_on(packages[0], dep) {
        0
    } else {
        1 + member_of(packages.skip(1), dep)
    }
}

/// Whether `dependent` is a member with a dependency on the member `on`.
pub open spec fn depends(
    packages: Seq<PackageView>,
    on: Seq<char>,
    dependent: Seq<char>,
) -> bool {
    exists|i: int, j: int|
        #![trigger packages[i].dependencies[j]]
        0 <= i < packages.len() && 0 <= j < packages[i].dependencies.len() && is_edge(
            packages,
            i,
            packages[i].dependencies[j],
            on,
            dependent,
        )
}

pub open spec fn is_edge(
    packages: Seq<PackageView>,
    i: int,
    dep: DependencyView,
    on: Seq<char>,
    dependent: Seq<char>,
) -> bool {
    let k = member_of(packages, dep);
    0 <= k < packages.len() && packages[k].id == on && packages[i].id == dependent
}

/// Whether each member on `way` is followed by one that depends on it.
pub open spec fn is_way(packages: Seq<PackageView>, way: Seq<Seq<char>>) -> bool {
    forall|i: int|
        #![trigger way[i]]
        0 <= i < way.len() - 1 ==> depends(packages, way[i], way[i + 1])
}

/// Whether `dependent` depends on `on`, directly or through others.
pub open spec fn depends_through(
    packages: Seq<PackageView>,
    on: Seq<char>,
    dependent: Seq<char>,
) -> bool {
    exists|way: Seq<Seq<char>>| #[trigger]
        is_way(packages, way) && way.len() >= 2 && way[0] == on && way.last() == dependent
}

/// Whether there is a member with that id.
pub open spec fn is_member(packages: Seq<PackageView>, id: Seq<char>) -> bool {
    exists|i: int| 0 <= i < packages.len() && (#[trigger] packages[i]).id == id
}

/// Whether `char::is_alphanumeric` says yes.
pub uninterp spec fn alphanumeric(c: char) -> bool;

/// `char::is_alphanumeric`. Of an ASCII character it says whether it is a
/// letter or a digit; of any other it is a function of the character.
#[verifier::external_body]
fn is_alphanumeric(c: char) -> (r: bool)
    ensures
        r == alphanumeric(c),
        c <= '\u{7f}' ==> r == (('a' <= c <= 'z') || ('A' <= c <= 'Z') || ('0' <= c <= '9')),
{
    c.is_alphanumeric()
}

/// Whether a value can be the plain name of a package.
pub open spec fn is_plain_name(value: ValueView) -> bool {
    value.utf8 && forall|i: int|
        0 <= i < value.text.len() ==> alphanumeric(#[trigger] value.text[i]) || value.text[i] == '-'
            || value.text[i] == '_'
}

/// Whether the run selects the whole workspace, but for members it names.
pub open spec fn selects_workspace(args: Seq<ArgView>) -> bool {
    let excluded = values_of(args, "--exclude"@);
    (has_arg(args, "--workspace"@) || has_arg(args, "--all"@)) && forall|i: int|
        0 <= i < excluded.len() ==> is_plain_name(#[trigger] excluded[i])
}

/// Whether one of the values is `name`.
pub open spec fn names_package(values: Seq<ValueView>, name: Seq<char>) -> bool {
    exists|i: int| 0 <= i < values.len() && (#[trigger] values[i]).text == name
}

/// Whether a unit of the package was built.
pub open spec fn was_built(units: Seq<RunUnitView>, id: Seq<char>) -> bool {
    exists|i: int| 0 <= i < units.len() && (#[trigger] units[i]).package_id == id
}

/// Whether the run does not select the member: under `--workspace`, one that
/// `--exclude` names, and else one of which no unit was built.
pub open spec fn leaves_out(
    args: Seq<ArgView>,
    units: Seq<RunUnitView>,
    package: PackageView,
) -> bool {
    if selects_workspace(args) {
        names_package(values_of(args, "--exclude"@), package.name)
    } else {
        !was_built(units, package.id)
    }
}

/// Whether `id` is of a member that the run does not select.
pub open spec fn is_left_out(
    packages: Seq<PackageView>,
    args: Seq<ArgView>,
    units: Seq<RunUnitView>,
    id: Seq<char>,
) -> bool {
    exists|i: int|
        0 <= i < packages.len() && (#[trigger] packages[i]).id == id && leaves_out(
            args,
            units,
            packages[i],
        )
}

/// Whether the run can judge the items of a member: no member that the run
/// leaves out depends on it, directly or through others.
pub open spec fn can_judge(
    packages: Seq<PackageView>,
    args: Seq<ArgView>,
    units: Seq<RunUnitView>,
    id: Seq<char>,
) -> bool {
    is_member(packages, id) && forall|other: Seq<char>| #[trigger]
        is_left_out(packages, args, units, other) ==> !depends_through(packages, id, other)
}

fn plain_name(value: &Value) -> (r: bool)
    ensures
        r == is_plain_name(value@),
{
    if !value.utf8 {
        return false;
    }
    let chars = chars_of(value.text.as_str());
    let mut i: usize = 0;
    while i < chars.len()
        invariant
            chars@ == value@.text,
            value@.utf8,
            i <= chars@.len(),
            forall|j: int|
                0 <= j < i ==> alphanumeric(#[trigger] chars@[j]) || chars@[j] == '-' || chars@[j]
                    == '_',
        decreases chars@.len() - i,
    {
        let c = chars[i];
        if !is_alphanumeric(c) && c != '-' && c != '_' {
            assert(!(alphanumeric(value@.text[i as int]) || value@.text[i as int] == '-'
                || value@.text[i as int] == '_'));
            return false;
        }
        i = i + 1;
    }
    true
}

fn every_plain_name(values: &Vec<Value>) -> (r: bool)
    ensures
        r == (forall|i: int|
            0 <= i < viewed(values@).len() ==> is_plain_name(#[trigger] viewed(values@)[i])),
{
    let ghost all = viewed(values@);
    let mut i: usize = 0;
    while i < values.len()
        invariant
            all == viewed(values@),
            i <= values@.len(),
            forall|j: int| 0 <= j < i ==> is_plain_name(#[trigger] all[j]),
        decreases values@.len() - i,
    {
        assert(all[i as int] == values@[i as int]@);
        if !plain_name(&values[i]) {
            return false;
        }
        i = i + 1;
    }
    true
}

fn has_name(values: &Vec<Value>, name: &str) -> (r: bool)
    ensures
        r == names_package(viewed(values@), name@),
{
    let ghost all = viewed(values@);
    let mut i: usize = 0;
    while i < values.len()
        invariant
            all == viewed(values@),
            i <= values@.len(),
            forall|j: int| 0 <= j < i ==> (#[trigger] all[j]).text != name@,
        decreases values@.len() - i,
    {
        assert(all[i as int] == values@[i as int]@);
        if same(values[i].text.as_str(), name) {
            return true;
        }
        i = i + 1;
    }
    false
}

fn has_unit(units: &Vec<RunUnit>, id: &str) -> (r: bool)
    ensures
        r == was_built(viewed(units@), id@),
{
    let ghost all = viewed(units@);
    let mut i: usize = 0;
    while i < units.len()
        invariant
            all == viewed(units@),
            i <= units@.len(),
            forall|j: int| 0 <= j < i ==> (#[trigger] all[j]).package_id != id@,
        decreases units@.len() - i,
    {
        assert(all[i as int] == units@[i as int]@);
        if same(units[i].package_id.as_str(), id) {
            return true;
        }
        i = i + 1;
    }
    false
}

fn dependency_is_on(package: &Package, dep: &Dependency) -> (r: bool)
    ensures
        r == is_on(package@, dep@),
{
    match &dep.path {
        Some(path) => match directory_of(package.manifest_path.as_str()) {
            Some(dir) => same_path(dir.as_str(), path.as_str()),
            None => false,
        },
        None => same(package.name.as_str(), dep.name.as_str()),
    }
}

/// The place of the first member that a dependency is on.
fn find_member(packages: &Vec<Package>, dep: &Dependency) -> (at: Option<usize>)
    ensures
        match at {
            Some(at) => at == member_of(viewed(packages@), dep@) && at < packages@.len(),
            None => member_of(viewed(packages@), dep@) == packages@.len(),
        },
{
    let ghost all = viewed(packages@);
    let mut i: usize = 0;
    assert(all.skip(0) =~= all);
    while i < packages.len()
        invariant
            all == viewed(packages@),
            i <= packages@.len(),
            member_of(all, dep@) == i + member_of(all.skip(i as int), dep@),
        decreases packages@.len() - i,
    {
        assert(all.skip(i as int)[0] == packages@[i as int]@);
        assert(all.skip(i as int).skip(1) =~= all.skip(i + 1));
        if dependency_is_on(&packages[i], dep) {
            return Some(i);
        }
        i = i + 1;
    }
    None
}

/// The pairs that a list of edges holds.
spec fn pairs(edges: Seq<(String, String)>) -> Seq<(Seq<char>, Seq<char>)> {
    edges.map_values(|edge: (String, String)| (edge.0@, edge.1@))
}

/// Whether the edges are those of the workspace.
spec fn are_edges_of(
    edges: Seq<(String, String)>,
    packages: Seq<PackageView>,
) -> bool {
    forall|on: Seq<char>, dependent: Seq<char>| #[trigger]
        pairs(edges).contains((on, dependent)) <==> depends(packages, on, dependent)
}

/// Whether one of the first `n` members, or of the first `m` dependencies of
/// the next one, is an edge.
spec fn depends_so_far(
    packages: Seq<PackageView>,
    n: int,
    m: int,
    on: Seq<char>,
    dependent: Seq<char>,
) -> bool {
    exists|i: int, j: int|
        #![trigger packages[i].dependencies[j]]
        0 <= i < packages.len() && 0 <= j < packages[i].dependencies.len() && (i < n || (i == n && j
            < m)) && is_edge(packages, i, packages[i].dependencies[j], on, dependent)
}

/// The edges of the workspace.
fn edges_of(packages: &Vec<Package>) -> (edges: Vec<(String, String)>)
    ensures
        are_edges_of(edges@, viewed(packages@)),
{
    let ghost all = viewed(packages@);
    let mut edges: Vec<(String, String)> = Vec::new();
    let mut i: usize = 0;
    while i < packages.len()
        invariant
            all == viewed(packages@),
            i <= packages@.len(),
            forall|on: Seq<char>, dependent: Seq<char>| #[trigger]
                pairs(edges@).contains((on, dependent)) <==> depends_so_far(
                    all,
                    i as int,
                    0,
                    on,
                    dependent,
                ),
        decreases packages@.len() - i,
    {
        let package = &packages[i];
        assert(all[i as int] == package@);
        let mut j: usize = 0;
        while j < package.dependencies.len()
            invariant
                all == viewed(packages@),
                i < packages@.len(),
                package == packages@[i as int],
                all[i as int] == package@,
                j <= package.dependencies@.len(),
                forall|on: Seq<char>, dependent: Seq<char>| #[trigger]
                    pairs(edges@).contains((on, dependent)) <==> depends_so_far(
                        all,
                        i as int,
                        j as int,
                        on,
                        dependent,
                    ),
            decreases package.dependencies@.len() - j,
        {
            let ghost before = edges@;
            let dep = &package.dependencies[j];
            assert(all[i as int].dependencies[j as int] == dep@);
            let member = find_member(packages, dep);
            match member {
                Some(at) => {
                    let on = packages[at].id.clone();
                    let dependent = package.id.clone();
                    edges.push((on, dependent));
                    assert(pairs(edges@) =~= pairs(before).push((on@, dependent@)));
                    assert(all[at as int] == packages@[at as int]@);
                    assert(is_edge(all, i as int, dep@, on@, dependent@));
                },
                None => {},
            }
            proof {
                assert forall|on: Seq<char>, dependent: Seq<char>| #[trigger]
                    pairs(edges@).contains((on, dependent)) <==> depends_so_far(
                        all,
                        i as int,
                        j + 1,
                        on,
                        dependent,
                    ) by {
                    assert(pairs(before).contains((on, dependent)) <==> depends_so_far(
                        all,
                        i as int,
                        j as int,
                        on,
                        dependent,
                    ));
                    let hit = is_edge(all, i as int, dep@, on, dependent);
                    if pairs(before).contains((on, dependent)) {
                        let k = choose|k: int|
                            0 <= k < pairs(before).len() && pairs(before)[k] == (on, dependent);
                        assert(pairs(edges@)[k] == (on, dependent));
                    }
                    if hit {
                        assert(pairs(edges@)[pairs(before).len() as int] == (on, dependent));
                        assert(is_edge(
                            all,
                            i as int,
                            all[i as int].dependencies[j as int],
                            on,
                            dependent,
                        ));
                    }
                    if pairs(edges@).contains((on, dependent)) && !pairs(before).contains(
                        (on, dependent),
                    ) {
                        let k = choose|k: int|
                            0 <= k < pairs(edges@).len() && pairs(edges@)[k] == (on, dependent);
                        if k < pairs(before).len() {
                            assert(pairs(before)[k] == (on, dependent));
                        }
                        assert(hit);
                    }
                }
            }
            j = j + 1;
        }
        proof {
            let m = package.dependencies@.len() as int;
            assert forall|on: Seq<char>, dependent: Seq<char>| #[trigger]
                pairs(edges@).contains((on, dependent)) <==> depends_so_far(
                    all,
                    i + 1,
                    0,
                    on,
                    dependent,
                ) by {
                assert(depends_so_far(all, i + 1, 0, on, dependent) == depends_so_far(
                    all,
                    i as int,
                    m,
                    on,
                    dependent,
                ));
            }
        }
        i = i + 1;
    }
    proof {
        assert forall|on: Seq<char>, dependent: Seq<char>| #[trigger]
            pairs(edges@).contains((on, dependent)) <==> depends(all, on, dependent) by {
            assert(depends_so_far(all, i as int, 0, on, dependent) == depends(all, on, dependent));
        }
    }
    edges
}

/// How many of the edges lead to a member that is not among `seen`.
spec fn unseen(edges: Seq<(Seq<char>, Seq<char>)>, seen: Seq<Seq<char>>) -> nat
    decreases edges.len(),
{
    if edges.len() == 0 {
        0
    } else {
        unseen(edges.drop_last(), seen) + if seen.contains(edges.last().1) {
            0nat
        } else {
            1nat
        }
    }
}

/// Seeing more leaves fewer unseen.
proof fn lemma_unseen(
    edges: Seq<(Seq<char>, Seq<char>)>,
    before: Seq<Seq<char>>,
    after: Seq<Seq<char>>,
    new: Seq<char>,
)
    requires
        !before.contains(new),
        forall|t: Seq<char>| #[trigger] after.contains(t) <==> before.contains(t) || t == new,
    ensures
        unseen(edges, after) <= unseen(edges, before),
        (exists|j: int| 0 <= j < edges.len() && (#[trigger] edges[j]).1 == new) ==> unseen(
            edges,
            after,
        ) < unseen(edges, before),
    decreases edges.len(),
{
    if edges.len() > 0 {
        let front = edges.drop_last();
        lemma_unseen(front, before, after, new);
        if exists|j: int| 0 <= j < edges.len() && (#[trigger] edges[j]).1 == new {
            let j = choose|j: int| 0 <= j < edges.len() && (#[trigger] edges[j]).1 == new;
            if j < front.len() {
                assert(front[j].1 == new);
            }
        }
    }
}

/// One step further on a way.
proof fn lemma_one_step(
    packages: Seq<PackageView>,
    start: Seq<char>,
    at: Seq<char>,
    next: Seq<char>,
)
    requires
        at == start || depends_through(packages, start, at),
        depends(packages, at, next),
    ensures
        depends_through(packages, start, next),
{
    if at == start {
        let way = seq![start, next];
        assert(is_way(packages, way));
    } else {
        let way = choose|way: Seq<Seq<char>>| #[trigger]
            is_way(packages, way) && way.len() >= 2 && way[0] == start && way.last() == at;
        let longer = way.push(next);
        assert forall|i: int|
            #![trigger longer[i]]
            0 <= i < longer.len() - 1 implies depends(packages, longer[i], longer[i + 1]) by {
            if i < way.len() - 1 {
                assert(longer[i] == way[i] && longer[i + 1] == way[i + 1]);
            }
        }
        assert(is_way(packages, longer));
        assert(longer[0] == start);
    }
}

/// Where every step leads to what was seen, every way does.
proof fn lemma_all_seen(
    packages: Seq<PackageView>,
    start: Seq<char>,
    seen: Seq<Seq<char>>,
    way: Seq<Seq<char>>,
    i: int,
)
    requires
        is_way(packages, way),
        way.len() >= 2,
        way[0] == start,
        0 < i < way.len(),
        forall|x: Seq<char>, d: Seq<char>|
            (x == start || seen.contains(x)) && #[trigger] depends(packages, x, d)
                ==> seen.contains(d),
    ensures
        seen.contains(way[i]),
    decreases i,
{
    if i > 1 {
        lemma_all_seen(packages, start, seen, way, i - 1);
    }
    assert(depends(packages, way[i - 1], way[i - 1 + 1]));
}

/// Whether every step from `x` leads to what was seen.
spec fn is_done(packages: Seq<PackageView>, seen: Seq<Seq<char>>, x: Seq<char>) -> bool {
    forall|d: Seq<char>| #[trigger] depends(packages, x, d) ==> seen.contains(d)
}

/// Whether no member that is left out depends on `start`.
fn nothing_left_out_depends_on(
    edges: &Vec<(String, String)>,
    left_out: &TextSet,
    start: &str,
    Ghost(packages): Ghost<Seq<PackageView>>,
) -> (r: bool)
    requires
        are_edges_of(edges@, packages),
        left_out.wf(),
    ensures
        r == (forall|other: Seq<char>| #[trigger]
            left_out.contains(other) ==> !depends_through(packages, start@, other)),
{
    let ghost known = pairs(edges@);
    let mut seen = TextSet::new();
    let mut queue: Vec<String> = Vec::new();
    queue.push(start.to_owned());
    assert(views(queue@)[0] == start@);
    while queue.len() > 0
        invariant
            known == pairs(edges@),
            are_edges_of(edges@, packages),
            left_out.wf(),
            seen.wf(),
            forall|x: Seq<char>| #[trigger]
                seen.contains(x) ==> depends_through(packages, start@, x) && !left_out.contains(x),
            forall|k: int|
                0 <= k < queue@.len() ==> (#[trigger] queue@[k])@ == start@ || seen.contains(
                    queue@[k]@,
                ),
            forall|x: Seq<char>|
                (x == start@ || seen.contains(x)) && !views(queue@).contains(x)
                    ==> #[trigger] is_done(packages, seen.listed(), x),
        decreases unseen(known, seen.listed()), queue@.len(),
    {
        let ghost queue_before = views(queue@);
        let ghost seen_before = seen.listed();
        let id = queue.pop().unwrap();
        let ghost rest = queue@;
        assert(queue_before =~= views(rest).push(id@));
        assert forall|x: Seq<char>|
            (x == start@ || seen.contains(x)) && !views(queue@).contains(x) && x
                != id@ implies #[trigger] is_done(packages, seen.listed(), x) by {
            if queue_before.contains(x) {
                let k = choose|k: int| 0 <= k < queue_before.len() && queue_before[k] == x;
                assert(views(rest)[k] == x);
            }
        }
        let mut j: usize = 0;
        while j < edges.len()
            invariant
                known == pairs(edges@),
                are_edges_of(edges@, packages),
                left_out.wf(),
                seen.wf(),
                j <= edges@.len(),
                id@ == start@ || depends_through(packages, start@, id@),
                forall|x: Seq<char>| #[trigger]
                    seen.contains(x) ==> depends_through(packages, start@, x)
                        && !left_out.contains(x),
                forall|k: int|
                    0 <= k < queue@.len() ==> (#[trigger] queue@[k])@ == start@ || seen.contains(
                        queue@[k]@,
                    ),
                forall|x: Seq<char>|
                    (x == start@ || seen.contains(x)) && !views(queue@).contains(x) && x != id@
                        ==> #[trigger] is_done(packages, seen.listed(), x),
                forall|k: int|
                    0 <= k < j && (#[trigger] known[k]).0 == id@ ==> seen.contains(known[k].1),
                (seen.listed() == seen_before && queue@ == rest) || unseen(known, seen.listed())
                    < unseen(known, seen_before),
            decreases edges@.len() - j,
        {
            let edge = &edges[j];
            assert(known[j as int] == (edge.0@, edge.1@));
            if same(edge.0.as_str(), id.as_str()) {
                proof {
                    assert(known.contains((id@, edge.1@)));
                    assert(depends(packages, id@, edge.1@));
                    lemma_one_step(packages, start@, id@, edge.1@);
                }
                if left_out.has(edge.1.as_str()) {
                    return false;
                }
                if !seen.has(edge.1.as_str()) {
                    let ghost was = seen.listed();
                    let ghost queued = queue@;
                    seen.insert(edge.1.as_str());
                    queue.push(edge.1.clone());
                    proof {
                        assert forall|t: Seq<char>| #[trigger]
                            seen.listed().contains(t) <==> was.contains(t) || t == edge.1@ by {
                            assert(seen.contains(t) <==> was.contains(t) || t == edge.1@);
                        }
                        lemma_unseen(known, was, seen.listed(), edge.1@);
                        assert(known[j as int].1 == edge.1@);
                        assert(views(queue@) =~= views(queued).push(edge.1@));
                        assert(views(queue@)[views(queued).len() as int] == edge.1@);
                        assert forall|x: Seq<char>|
                            (x == start@ || seen.contains(x)) && !views(queue@).contains(x) && x
                                != id@ implies #[trigger] is_done(packages, seen.listed(), x) by {
                            assert(x != edge.1@);
                            if views(queued).contains(x) {
                                let k = choose|k: int|
                                    0 <= k < views(queued).len() && views(queued)[k] == x;
                                assert(views(queue@)[k] == x);
                            }
                            assert(is_done(packages, was, x));
                        }
                        assert forall|k: int|
                            0 <= k < queue@.len() implies (#[trigger] queue@[k])@ == start@
                            || seen.contains(queue@[k]@) by {
                            if k < queued.len() {
                                assert(queue@[k] == queued[k]);
                            }
                        }
                        assert forall|k: int|
                            0 <= k < j && (#[trigger] known[k]).0 == id@ implies seen.contains(
                            known[k].1,
                        ) by {
                            assert(was.contains(known[k].1));
                        }
                    }
                }
            }
            j = j + 1;
        }
        proof {
            assert forall|d: Seq<char>| #[trigger]
                depends(packages, id@, d) implies seen.listed().contains(d) by {
                assert(known.contains((id@, d)));
                let k = choose|k: int| 0 <= k < known.len() && known[k] == (id@, d);
                assert(seen.contains(known[k].1));
            }
            assert(is_done(packages, seen.listed(), id@));
        }
    }
    proof {
        assert forall|other: Seq<char>| #[trigger] left_out.contains(other) implies
            !depends_through(packages, start@, other) by {
            if depends_through(packages, start@, other) {
                let way = choose|way: Seq<Seq<char>>| #[trigger]
                    is_way(packages, way) && way.len() >= 2 && way[0] == start@ && way.last()
                        == other;
                assert forall|x: Seq<char>, d: Seq<char>|
                    (x == start@ || seen.listed().contains(x)) && #[trigger] depends(
                        packages,
                        x,
                        d,
                    ) implies seen.listed().contains(d) by {
                    assert(seen.listed().contains(x) ==> seen.contains(x));
                    assert(is_done(packages, seen.listed(), x));
                }
                lemma_all_seen(packages, start@, seen.listed(), way, way.len() - 1);
                assert(seen.contains(other));
            }
        }
    }
    true
}

impl Metadata {
    /// The members the run does not select. Under `--workspace` they are the
    /// ones `--exclude` names. A member the run selects and builds nothing of
    /// (its only target wants a feature that is off) is not left out: there
    /// is no use in it to miss. Any other selection is read off the units
    /// cargo built, which is every member the run selected and a few it only
    /// depends on.
    pub fn left_out(&self, args: &Vec<Arg>, units: &Vec<RunUnit>) -> (ids: TextSet)
        ensures
            ids.wf(),
            forall|id: Seq<char>| #[trigger]
                ids.contains(id) <==> is_left_out(
                    viewed(self.packages@),
                    viewed(args@),
                    viewed(units@),
                    id,
                ),
    {
        let ghost all = viewed(self.packages@);
        let excluded = option_values(args, "--exclude");
        let whole = (is_given(args, "--workspace") || is_given(args, "--all")) && every_plain_name(
            &excluded,
        );
        assert(whole == selects_workspace(viewed(args@)));
        let mut ids = TextSet::new();
        let mut i: usize = 0;
        while i < self.packages.len()
            invariant
                all == viewed(self.packages@),
                i <= self.packages@.len(),
                whole == selects_workspace(viewed(args@)),
                viewed(excluded@) == values_of(viewed(args@), "--exclude"@),
                ids.wf(),
                forall|id: Seq<char>| #[trigger]
                    ids.contains(id) <==> is_left_out(
                        all.take(i as int),
                        viewed(args@),
                        viewed(units@),
                        id,
                    ),
            decreases self.packages@.len() - i,
        {
            let package = &self.packages[i];
            let ghost before = ids;
            let ghost was = all.take(i as int);
            let ghost now = all.take(i + 1);
            assert(now[i as int] == package@);
            let out = if whole {
                has_name(&excluded, package.name.as_str())
            } else {
                !has_unit(units, package.id.as_str())
            };
            if out {
                ids.insert(package.id.as_str());
            }
            proof {
                assert forall|id: Seq<char>| #[trigger]
                    ids.contains(id) <==> is_left_out(now, viewed(args@), viewed(units@), id) by {
                    assert(before.contains(id) <==> is_left_out(
                        was,
                        viewed(args@),
                        viewed(units@),
                        id,
                    ));
                    if is_left_out(was, viewed(args@), viewed(units@), id) {
                        let k = choose|k: int|
                            0 <= k < was.len() && (#[trigger] was[k]).id == id && leaves_out(
                                viewed(args@),
                                viewed(units@),
                                was[k],
                            );
                        assert(now[k] == was[k]);
                    }
                    if is_left_out(now, viewed(args@), viewed(units@), id) {
                        let k = choose|k: int|
                            0 <= k < now.len() && (#[trigger] now[k]).id == id && leaves_out(
                                viewed(args@),
                                viewed(units@),
                                now[k],
                            );
                        if k < i {
                            assert(was[k] == now[k]);
                        }
                    }
                }
            }
            i = i + 1;
        }
        assert(all.take(i as int) =~= all);
        ids
    }

    /// The members whose items this run can judge: those that no member the
    /// run leaves out depends on, directly or through others, for any kind of
    /// target. A member left out, as the rest of the workspace is under `-p`,
    /// may hold the only use of an item, and its records are not read.
    pub fn judged(&self, args: &Vec<Arg>, units: &Vec<RunUnit>) -> (ids: TextSet)
        ensures
            ids.wf(),
            forall|id: Seq<char>| #[trigger]
                ids.contains(id) <==> can_judge(
                    viewed(self.packages@),
                    viewed(args@),
                    viewed(units@),
                    id,
                ),
    {
        let ghost all = viewed(self.packages@);
        let edges = edges_of(&self.packages);
        let left_out = self.left_out(args, units);
        let mut ids = TextSet::new();
        let mut i: usize = 0;
        while i < self.packages.len()
            invariant
                all == viewed(self.packages@),
                i <= self.packages@.len(),
                are_edges_of(edges@, all),
                left_out.wf(),
                forall|id: Seq<char>| #[trigger]
                    left_out.contains(id) <==> is_left_out(
                        all,
                        viewed(args@),
                        viewed(units@),
                        id,
                    ),
                ids.wf(),
                forall|id: Seq<char>| #[trigger]
                    ids.contains(id) <==> is_member(all.take(i as int), id) && can_judge(
                        all,
                        viewed(args@),
                        viewed(units@),
                        id,
                    ),
            decreases self.packages@.len() - i,
        {
            let id = self.packages[i].id.as_str();
            let ghost before = ids;
            let ghost was = all.take(i as int);
            let ghost now = all.take(i + 1);
            assert(now[i as int].id == id@ && all[i as int].id == id@);
            let free = nothing_left_out_depends_on(&edges, &left_out, id, Ghost(all));
            assert(free == can_judge(all, viewed(args@), viewed(units@), id@)) by {
                assert(is_member(all, id@));
                if free {
                    assert forall|other: Seq<char>| #[trigger]
                        is_left_out(all, viewed(args@), viewed(units@), other) implies
                        !depends_through(all, id@, other) by {
                        assert(left_out.contains(other));
                    }
                } else {
                    let other = choose|other: Seq<char>| #[trigger]
                        left_out.contains(other) && depends_through(all, id@, other);
                    assert(is_left_out(all, viewed(args@), viewed(units@), other));
                }
            }
            if free {
                ids.insert(id);
            }
            proof {
                assert forall|x: Seq<char>| #[trigger]
                    ids.contains(x) <==> is_member(now, x) && can_judge(
                        all,
                        viewed(args@),
                        viewed(units@),
                        x,
                    ) by {
                    assert(before.contains(x) <==> is_member(was, x) && can_judge(
                        all,
                        viewed(args@),
                        viewed(units@),
                        x,
                    ));
                    if is_member(was, x) {
                        let k = choose|k: int| 0 <= k < was.len() && (#[trigger] was[k]).id == x;
                        assert(now[k] == was[k]);
                    }
                    if is_member(now, x) {
                        let k = choose|k: int| 0 <= k < now.len() && (#[trigger] now[k]).id == x;
                        if k < i {
                            assert(was[k] == now[k]);
                        }
                    }
                }
            }
            i = i + 1;
        }
        assert(all.take(i as int) =~= all);
        ids
    }
}

/// A run over the whole workspace judges every member.
pub proof fn a_whole_run_judges_every_member(
    packages: Seq<PackageView>,
    args: Seq<ArgView>,
    units: Seq<RunUnitView>,
    id: Seq<char>,
)
    requires
        selects_workspace(args),
        values_of(args, "--exclude"@).len() == 0,
        is_member(packages, id),
    ensures
        can_judge(packages, args, units, id),
{
    assert forall|other: Seq<char>| #[trigger] is_left_out(packages, args, units, other) implies
        !depends_through(packages, id, other) by {
        let i = choose|i: int|
            0 <= i < packages.len() && (#[trigger] packages[i]).id == other && leaves_out(
                args,
                units,
                packages[i],
            );
        assert(!names_package(values_of(args, "--exclude"@), packages[i].name));
    }
}

/// A member is not judged while a member that depends on it is left out.
pub proof fn a_left_out_dependent_keeps_a_member_from_being_judged(
    packages: Seq<PackageView>,
    args: Seq<ArgView>,
    units: Seq<RunUnitView>,
    id: Seq<char>,
    other: Seq<char>,
)
    requires
        depends(packages, id, other),
        is_left_out(packages, args, units, other),
    ensures
        !can_judge(packages, args, units, id),
{
    let way = seq![id, other];
    assert(is_way(packages, way));
    assert(depends_through(packages, id, other));
}

/// With a member, the run judges every member that depends on it.
pub proof fn dependents_of_a_judged_member_are_judged(
    packages: Seq<PackageView>,
    args: Seq<ArgView>,
    units: Seq<RunUnitView>,
    id: Seq<char>,
    dependent: Seq<char>,
)
    requires
        can_judge(packages, args, units, id),
        depends(packages, id, dependent),
    ensures
        can_judge(packages, args, units, dependent),
{
    let (i, j) = choose|i: int, j: int|
        #![trigger packages[i].dependencies[j]]
        0 <= i < packages.len() && 0 <= j < packages[i].dependencies.len() && is_edge(
            packages,
            i,
            packages[i].dependencies[j],
            id,
            dependent,
        );
    assert(packages[i].id == dependent);
    assert forall|other: Seq<char>| #[trigger] is_left_out(packages, args, units, other) implies
        !depends_through(packages, dependent, other) by {
        if depends_through(packages, dependent, other) {
            let way = choose|way: Seq<Seq<char>>| #[trigger]
                is_way(packages, way) && way.len() >= 2 && way[0] == dependent && way.last()
                    == other;
            let longer = seq![id] + way;
            assert forall|k: int|
                #![trigger longer[k]]
                0 <= k < longer.len() - 1 implies depends(packages, longer[k], longer[k + 1]) by {
                if k > 0 {
                    assert(longer[k] == way[k - 1] && longer[k + 1] == way[k - 1 + 1]);
                }
            }
            assert(is_way(packages, longer));
            assert(longer.last() == other);
            assert(depends_through(packages, id, other));
        }
    }
}

/// Where exactly one member is what a dependency is on, the dependency is on
/// that one.
proof fn lemma_member_of(packages: Seq<PackageView>, dep: DependencyView, k: int)
    requires
        0 <= k < packages.len(),
        forall|m: int| 0 <= m < packages.len() ==> (#[trigger] is_on(packages[m], dep) <==> m == k),
    ensures
        member_of(packages, dep) == k,
    decreases packages.len(),
{
    assert(is_on(packages[0], dep) <==> 0 == k);
    if k > 0 {
        let rest = packages.skip(1);
        assert forall|m: int| 0 <= m < rest.len() implies (#[trigger] is_on(rest[m], dep) <==> m
            == k - 1) by {
            assert(is_on(packages[m + 1], dep) <==> m + 1 == k);
        }
        lemma_member_of(rest, dep, k - 1);
    }
}

/// What a dependency is taken to be on is a member of which that holds.
proof fn lemma_member_of_is_on(packages: Seq<PackageView>, dep: DependencyView)
    ensures
        0 <= member_of(packages, dep) <= packages.len(),
        member_of(packages, dep) < packages.len() ==> is_on(
            packages[member_of(packages, dep)],
            dep,
        ),
    decreases packages.len(),
{
    if packages.len() > 0 && !is_on(packages[0], dep) {
        lemma_member_of_is_on(packages.skip(1), dep);
    }
}

/// A member depends on the member in whose directory the path of one of its
/// dependencies leads, whatever the package and the directory are named. While
/// the dependent is left out, the other is not judged.
pub proof fn a_path_dependency_is_on_the_member_in_that_directory(
    packages: Seq<PackageView>,
    dirs: Seq<Seq<char>>,
    args: Seq<ArgView>,
    units: Seq<RunUnitView>,
    i: int,
    j: int,
    k: int,
    path: Seq<char>,
)
    requires
        dirs.len() == packages.len(),
        forall|m: int|
            0 <= m < packages.len() ==> (#[trigger] packages[m]).manifest_path == joined_path(
                dirs[m],
                "Cargo.toml"@,
            ),
        0 <= i < packages.len(),
        0 <= j < packages[i].dependencies.len(),
        packages[i].dependencies[j].path == Some(path),
        0 <= k < packages.len(),
        forall|m: int|
            #![trigger dirs[m]]
            0 <= m < packages.len() ==> (is_absolute(dirs[m]) == is_absolute(path) && components(
                dirs[m],
            ) == components(path) <==> m == k),
    ensures
        depends(packages, packages[k].id, packages[i].id),
        is_left_out(packages, args, units, packages[i].id) ==> !can_judge(
            packages,
            args,
            units,
            packages[k].id,
        ),
{
    let dep = packages[i].dependencies[j];
    assert forall|m: int| 0 <= m < packages.len() implies (#[trigger] is_on(packages[m], dep) <==> m
        == k) by {
        reveal_strlit("Cargo.toml");
        reveal_strlit(".");
        reveal_strlit("..");
        assert(packages[m].manifest_path == joined_path(dirs[m], "Cargo.toml"@));
        assert("Cargo.toml"@.len() == 10);
        a_file_lies_in_the_directory_it_is_joined_to(dirs[m], "Cargo.toml"@);
    }
    lemma_member_of(packages, dep, k);
    assert(is_edge(packages, i, dep, packages[k].id, packages[i].id));
    if is_left_out(packages, args, units, packages[i].id) {
        a_left_out_dependent_keeps_a_member_from_being_judged(
            packages,
            args,
            units,
            packages[k].id,
            packages[i].id,
        );
    }
}

/// Without a path, a member depends on the member that its dependency names.
/// While the dependent is left out, the other is not judged.
pub proof fn a_dependency_without_a_path_is_on_the_member_of_its_name(
    packages: Seq<PackageView>,
    args: Seq<ArgView>,
    units: Seq<RunUnitView>,
    i: int,
    j: int,
    k: int,
)
    requires
        0 <= i < packages.len(),
        0 <= j < packages[i].dependencies.len(),
        packages[i].dependencies[j].path is None,
        0 <= k < packages.len(),
        forall|m: int|
            0 <= m < packages.len() ==> ((#[trigger] packages[m]).name
                == packages[i].dependencies[j].name <==> m == k),
    ensures
        depends(packages, packages[k].id, packages[i].id),
        is_left_out(packages, args, units, packages[i].id) ==> !can_judge(
            packages,
            args,
            units,
            packages[k].id,
        ),
{
    let dep = packages[i].dependencies[j];
    lemma_member_of(packages, dep, k);
    assert(is_edge(packages, i, dep, packages[k].id, packages[i].id));
    if is_left_out(packages, args, units, packages[i].id) {
        a_left_out_dependent_keeps_a_member_from_being_judged(
            packages,
            args,
            units,
            packages[k].id,
            packages[i].id,
        );
    }
}

/// One member depends on another only by a dependency of its own: one whose
/// path leads to the directory of the other's manifest, or one without a path
/// that has the other's name.
pub proof fn members_depend_only_by_path_or_name(
    packages: Seq<PackageView>,
    on: Seq<char>,
    dependent: Seq<char>,
)
    requires
        depends(packages, on, dependent),
    ensures
        exists|i: int, j: int, k: int|
            #![trigger packages[i].dependencies[j], packages[k]]
            0 <= i < packages.len() && 0 <= k < packages.len() && 0 <= j
                < packages[i].dependencies.len() && packages[i].id == dependent && packages[k].id
                == on && match packages[i].dependencies[j].path {
                Some(path) => directory(packages[k].manifest_path) matches Some(dir) && is_absolute(
                    dir,
                ) == is_absolute(path) && components(dir) == components(path),
                None => packages[k].name == packages[i].dependencies[j].name,
            },
{
    let (i, j) = choose|i: int, j: int|
        #![trigger packages[i].dependencies[j]]
        0 <= i < packages.len() && 0 <= j < packages[i].dependencies.len() && is_edge(
            packages,
            i,
            packages[i].dependencies[j],
            on,
            dependent,
        );
    let dep = packages[i].dependencies[j];
    lemma_member_of_is_on(packages, dep);
    let k = member_of(packages, dep);
    assert(is_on(packages[k], dep));
    assert(packages[k].id == on);
}

/// A member is judged when the members that depend on it, those that depend on
/// them and so on are all in the run: when some set of ids holds the member's,
/// and with one the id of every member that depends on it, and none of a
/// member left out.
pub proof fn a_member_whose_dependents_are_all_in_the_run_is_judged(
    packages: Seq<PackageView>,
    args: Seq<ArgView>,
    units: Seq<RunUnitView>,
    id: Seq<char>,
    safe: Set<Seq<char>>,
)
    requires
        is_member(packages, id),
        safe.contains(id),
        forall|on: Seq<char>, dependent: Seq<char>|
            safe.contains(on) && #[trigger] depends(packages, on, dependent) ==> safe.contains(
                dependent,
            ),
        forall|other: Seq<char>| #[trigger]
            safe.contains(other) ==> !is_left_out(packages, args, units, other),
    ensures
        can_judge(packages, args, units, id),
{
    assert forall|other: Seq<char>| #[trigger] is_left_out(packages, args, units, other) implies
        !depends_through(packages, id, other) by {
        if depends_through(packages, id, other) {
            let way = choose|way: Seq<Seq<char>>| #[trigger]
                is_way(packages, way) && way.len() >= 2 && way[0] == id && way.last() == other;
            lemma_way_is_safe(packages, way, safe, way.len() - 1);
        }
    }
}

proof fn lemma_way_is_safe(
    packages: Seq<PackageView>,
    way: Seq<Seq<char>>,
    safe: Set<Seq<char>>,
    i: int,
)
    requires
        is_way(packages, way),
        0 <= i < way.len(),
        safe.contains(way[0]),
        forall|on: Seq<char>, dependent: Seq<char>|
            safe.contains(on) && #[trigger] depends(packages, on, dependent) ==> safe.contains(
                dependent,
            ),
    ensures
        safe.contains(way[i]),
    decreases i,
{
    if i > 0 {
        lemma_way_is_safe(packages, way, safe, i - 1);
        assert(depends(packages, way[i - 1], way[i - 1 + 1]));
    }
}

/// A member is not judged while one that depends on it is left out, nor while
/// one that depends on it is not judged itself.
pub proof fn a_member_is_judged_only_with_its_dependents(
    packages: Seq<PackageView>,
    args: Seq<ArgView>,
    units: Seq<RunUnitView>,
    id: Seq<char>,
    dependent: Seq<char>,
)
    requires
        depends(packages, id, dependent),
        is_left_out(packages, args, units, dependent) || !can_judge(
            packages,
            args,
            units,
            dependent,
        ),
    ensures
        !can_judge(packages, args, units, id),
{
    if can_judge(packages, args, units, id) {
        dependents_of_a_judged_member_are_judged(packages, args, units, id, dependent);
        a_left_out_dependent_keeps_a_member_from_being_judged(
            packages,
            args,
            units,
            id,
            dependent,
        );
    }
}

/// Without `--workspace` and `--all` a member is left out exactly when no unit
/// of it was built.
pub proof fn a_selection_leaves_out_what_was_not_built(
    packages: Seq<PackageView>,
    args: Seq<ArgView>,
    units: Seq<RunUnitView>,
    id: Seq<char>,
)
    requires
        !has_arg(args, "--workspace"@),
        !has_arg(args, "--all"@),
        exists|i: int| 0 <= i < packages.len() && (#[trigger] packages[i]).id == id,
    ensures
        is_left_out(packages, args, units, id) <==> forall|u: int|
            0 <= u < units.len() ==> (#[trigger] units[u]).package_id != id,
{
    let i = choose|i: int| 0 <= i < packages.len() && (#[trigger] packages[i]).id == id;
    if forall|u: int| 0 <= u < units.len() ==> (#[trigger] units[u]).package_id != id {
        assert(leaves_out(args, units, packages[i]));
    }
}

/// With `--workspace` or `--all`, and plain names behind `--exclude`, a member
/// is left out exactly when one of those is its name, whatever was built.
pub proof fn a_whole_run_leaves_out_what_it_excludes(
    packages: Seq<PackageView>,
    args: Seq<ArgView>,
    units: Seq<RunUnitView>,
    i: int,
)
    requires
        has_arg(args, "--workspace"@) || has_arg(args, "--all"@),
        forall|v: int|
            0 <= v < values_of(args, "--exclude"@).len() ==> is_plain_name(
                #[trigger] values_of(args, "--exclude"@)[v],
            ),
        0 <= i < packages.len(),
        forall|m: int|
            0 <= m < packages.len() && (#[trigger] packages[m]).id == packages[i].id ==> m == i,
    ensures
        is_left_out(packages, args, units, packages[i].id) <==> exists|v: int|
            0 <= v < values_of(args, "--exclude"@).len() && (#[trigger] values_of(
                args,
                "--exclude"@,
            )[v]).text == packages[i].name,
{
    if exists|v: int|
        0 <= v < values_of(args, "--exclude"@).len() && (#[trigger] values_of(
            args,
            "--exclude"@,
        )[v]).text == packages[i].name {
        assert(leaves_out(args, units, packages[i]));
    }
}

/// A plain name is letters, digits, `-` and `_` and nothing else.
pub proof fn a_plain_name_has_no_other_character(value: ValueView, i: int)
    requires
        0 <= i < value.text.len(),
    ensures
        is_plain_name(value) ==> value.utf8 && (alphanumeric(value.text[i]) || value.text[i] == '-'
            || value.text[i] == '_'),
        value.utf8 && (forall|k: int|
            0 <= k < value.text.len() ==> alphanumeric(#[trigger] value.text[k]) || value.text[k]
                == '-' || value.text[k] == '_') ==> is_plain_name(value),
{
}

} // verus!
