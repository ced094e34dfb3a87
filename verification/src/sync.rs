//! What is to be done so that a library holds the packages that a project needs.
use crate::description::{
    all_relations, dropped, field_relations, hard_fields, identity_issues, lemma_dropped,
    package_names, r_only, relation_issues,
    required_dependencies, root_package, Description, DescriptionParseError, ErrorV,
};
use crate::document::{depends_of, field_of, fits, imports_of, linking_to_of, ParsedFieldV};
use crate::metadata::{
    components_order, equal_relations_share_their_package, parsed_relation, Relation, RelationV,
};
use crate::order::{
    has_equal, increasing, text_order_equal, Order, Ordered, Total,
};
use crate::repository::{LocalRepository, PackageRepository, RepositoryV};
use crate::resolver::{PackageVersion, PackageVersionV};
use crate::schedule::{
    balanced, equal_tasks_are_the_same, holds_task, input_views, is_table, lemma_collected_rows,
    lemma_place, place_of,
    pointers, points, unique_tasks, DependencyInput, Schedule, TaskId, TaskIdV, TaskKind, TaskRow,
    TaskRowV,
};
use crate::sorted::{collected, key_at, lemma_collected, SortedSet, TextMap};
use crate::text;
use crate::text::texts;
use vstd::prelude::*;

verus! {

/// A package that a project needs: the version of it that was chosen, and its description.
#[derive(Debug)]
pub struct RequiredPackage {
    pub version: PackageVersion,
    pub description: Description,
}

/// A package that a project needs.
pub struct RequiredV {
    pub version: PackageVersionV,
    pub description: Seq<char>,
}

impl RequiredPackage {
    /// The version and the description.
    pub open spec fn view(&self) -> RequiredV {
        RequiredV { version: self.version@, description: self.description@ }
    }
}

/// The packages of a list.
pub open spec fn required_views(v: Seq<RequiredPackage>) -> Seq<RequiredV> {
    v.map_values(|x: RequiredPackage| x@)
}

/// The versions of a list.
pub open spec fn version_views(v: Seq<PackageVersion>) -> Seq<PackageVersionV> {
    v.map_values(|x: PackageVersion| x@)
}

/// The packages that a project needs, by name. Each is well formed, and its description is
/// of a size that can be read.
pub open spec fn required_wf(required: &TextMap<RequiredPackage>) -> bool {
    &&& required.wf()
    &&& forall|i: int| 0 <= i < required.values@.len() ==> (#[trigger] required.values@[i]).version.wf() && fits(
        required.values@[i].description@,
    )
}

/// The packages of a library, by name.
pub open spec fn installed_wf(installed: &TextMap<PackageVersion>) -> bool {
    &&& installed.wf()
    &&& forall|i: int| 0 <= i < installed.values@.len() ==> (#[trigger] installed.values@[i]).wf()
}

/// Whether a package has to be installed: it is not there, or not in that version, or comes
/// from a source that can change without a change of its version.
pub open spec fn requires_install(
    required: PackageVersionV,
    installed: Option<PackageVersionV>,
) -> bool {
    ||| required.repository is Git
    ||| required.repository is Local
    ||| match installed {
        Some(installed) => required.order(installed) != Order::Equal,
        None => true,
    }
}

/// The version that may be there.
pub open spec fn opt_version(v: Option<&PackageVersion>) -> Option<PackageVersionV> {
    match v {
        Some(version) => Some(version@),
        None => None,
    }
}

/// Whether a package has to be installed.
pub fn package_requires_install(required: &PackageVersion, installed: Option<&PackageVersion>) -> (r:
    bool)
    ensures
        r == requires_install(required@, opt_version(installed)),
{
    let changes = match &required.repository {
        PackageRepository::Git(_) => true,
        PackageRepository::Local(_) => true,
        _ => false,
    };
    changes || match installed {
        Some(installed) => !required.same(installed),
        None => true,
    }
}

/// The version of a package in a library.
pub open spec fn installed_at(
    installed: Map<Seq<char>, PackageVersion>,
    name: Seq<char>,
) -> Option<PackageVersionV> {
    if installed.contains_key(name) {
        Some(installed[name]@)
    } else {
        None
    }
}

/// The names of the packages that a package needs, in order.
pub open spec fn dependency_names(document: Seq<char>) -> Seq<Seq<char>> {
    collected(package_names(dropped(collected(all_relations(hard_fields(document))), r_only())))
}

/// A package that has to be installed, with the names of those that it needs.
#[derive(Debug)]
pub struct Planned {
    pub name: String,
    pub version: PackageVersion,
    pub dependencies: SortedSet<String>,
}

/// A package that has to be installed, with the names of those that it needs.
pub struct PlannedV {
    pub name: Seq<char>,
    pub version: PackageVersionV,
    pub dependencies: Seq<Seq<char>>,
}

impl Planned {
    /// The package, as characters.
    pub open spec fn view(&self) -> PlannedV {
        PlannedV {
            name: self.name@,
            version: self.version@,
            dependencies: self.dependencies@,
        }
    }

    /// The dependencies are in order.
    pub open spec fn wf(&self) -> bool {
        self.version.wf() && self.dependencies.wf()
    }
}

/// The packages of a list.
pub open spec fn planned_views(v: Seq<Planned>) -> Seq<PlannedV> {
    v.map_values(|x: Planned| x@)
}

/// The packages that have to be installed.
pub open spec fn planned(
    names: Seq<Seq<char>>,
    items: Seq<RequiredV>,
    installed: Map<Seq<char>, PackageVersion>,
) -> Seq<PlannedV>
    decreases names.len(),
{
    if names.len() == 0 {
        Seq::empty()
    } else {
        let rest = planned(names.drop_last(), items.drop_last(), installed);
        let name = names.last();
        let item = items.last();
        if requires_install(item.version, installed_at(installed, name)) {
            rest.push(
                PlannedV {
                    name,
                    version: item.version,
                    dependencies: dependency_names(item.description),
                },
            )
        } else {
            rest
        }
    }
}

/// What is wrong with the fields of the first package that has to be installed and whose
/// fields cannot be read.
pub open spec fn plan_fault(
    names: Seq<Seq<char>>,
    items: Seq<RequiredV>,
    installed: Map<Seq<char>, PackageVersion>,
) -> Option<ErrorV>
    decreases names.len(),
{
    if names.len() == 0 {
        None
    } else {
        let rest = plan_fault(names.drop_last(), items.drop_last(), installed);
        let name = names.last();
        let item = items.last();
        let issues = relation_issues(hard_fields(item.description));
        if rest is Some {
            rest
        } else if requires_install(item.version, installed_at(installed, name)) && issues.len() > 0 {
            Some(
                ErrorV {
                    source_name: name + " "@ + item.version.version.text,
                    source_code: item.description,
                    issues,
                },
            )
        } else {
            None
        }
    }
}

fn collect_names(set: &SortedSet<Relation>) -> (r: SortedSet<String>)
    ensures
        r.wf(),
        r@ == collected(package_names(set@)),
{
    let ghost all = package_names(set@);
    let mut out: SortedSet<String> = SortedSet::new();
    let mut i: usize = 0;
    assert(out@ =~= collected(all.take(0)));
    while i < set.items.len()
        invariant
            i <= set.items@.len(),
            all == package_names(set@),
            out.wf(),
            out@ == collected(all.take(i as int)),
        decreases set.items@.len() - i,
    {
        let name = set.items[i].package.clone();
        assert(set@[i as int] == set.items@[i as int]@);
        assert(all[i as int] == name@);
        assert(all.take(i + 1).drop_last() =~= all.take(i as int));
        out.replace(name);
        i = i + 1;
    }
    assert(all.take(i as int) =~= all);
    out
}

/// The packages that have to be installed; or what is wrong with the first whose fields
/// cannot be read.
fn plan(required: &TextMap<RequiredPackage>, installed: &TextMap<PackageVersion>) -> (r: Result<
    Vec<Planned>,
    DescriptionParseError,
>)
    requires
        required_wf(required),
        installed_wf(installed),
    ensures
        match r {
            Ok(list) => {
                &&& plan_fault(
                    texts(required.keys@),
                    required_views(required.values@),
                    installed@,
                ) is None
                &&& planned_views(list@) == planned(
                    texts(required.keys@),
                    required_views(required.values@),
                    installed@,
                )
                &&& forall|i: int| 0 <= i < list@.len() ==> (#[trigger] list@[i]).wf()
                &&& list@.len() <= required.keys@.len()
            },
            Err(error) => error.wf() && plan_fault(
                texts(required.keys@),
                required_views(required.values@),
                installed@,
            ) == Some(error@),
        },
{
    let ghost names = texts(required.keys@);
    let ghost items = required_views(required.values@);
    let mut list: Vec<Planned> = Vec::new();
    let mut i: usize = 0;
    assert(planned_views(list@) =~= planned(names.take(0), items.take(0), installed@));
    while i < required.keys.len()
        invariant
            i <= required.keys@.len(),
            required_wf(required),
            installed_wf(installed),
            names == texts(required.keys@),
            items == required_views(required.values@),
            plan_fault(names.take(i as int), items.take(i as int), installed@) is None,
            planned_views(list@) == planned(names.take(i as int), items.take(i as int), installed@),
            forall|k: int| 0 <= k < list@.len() ==> (#[trigger] list@[k]).wf(),
            list@.len() <= i,
        decreases required.keys@.len() - i,
    {
        proof {
            assert(names.take(i + 1).drop_last() =~= names.take(i as int));
            assert(items.take(i + 1).drop_last() =~= items.take(i as int));
            assert(items[i as int] == required.values@[i as int]@);
            assert(fits(required.values@[i as int].description@));
            lemma_fault_stays(names, items, installed@, i + 1);
        }
        let name = &required.keys[i];
        let package = &required.values[i];
        let present = installed.get(name.as_str());
        assert(opt_version(present) == installed_at(installed@, name@));
        if package_requires_install(&package.version, present) {
            let source_name = text::cat3(name.as_str(), " ", package.version.version.text.as_str());
            let relations = match required_dependencies(source_name, &package.description) {
                Ok(relations) => relations,
                Err(error) => {
                    return Err(error);
                },
            };
            let dependencies = collect_names(&relations);
            let ghost before = list@;
            list.push(
                Planned { name: name.clone(), version: package.version.copy(), dependencies },
            );
            assert(planned_views(list@) =~= planned_views(before).push(
                PlannedV {
                    name: names[i as int],
                    version: items[i as int].version,
                    dependencies: dependency_names(items[i as int].description),
                },
            ));
        }
        i = i + 1;
    }
    assert(names.take(i as int) =~= names);
    assert(items.take(i as int) =~= items);
    Ok(list)
}

/// A fault that the first packages have stays the first one.
proof fn lemma_fault_stays(
    names: Seq<Seq<char>>,
    items: Seq<RequiredV>,
    installed: Map<Seq<char>, PackageVersion>,
    k: int,
)
    requires
        names.len() == items.len(),
        0 <= k <= names.len(),
    ensures
        plan_fault(names.take(k), items.take(k), installed) is Some ==> plan_fault(
            names,
            items,
            installed,
        ) == plan_fault(names.take(k), items.take(k), installed),
    decreases names.len() - k,
{
    if k == names.len() {
        assert(names.take(k) =~= names);
        assert(items.take(k) =~= items);
    } else {
        lemma_fault_stays(names, items, installed, k + 1);
        assert(names.take(k + 1).drop_last() =~= names.take(k));
        assert(items.take(k + 1).drop_last() =~= items.take(k));
    }
}

/// The number of texts of a list that are in another one.
pub open spec fn count_in(xs: Seq<Seq<char>>, ys: Seq<Seq<char>>) -> int
    decreases xs.len(),
{
    if xs.len() == 0 {
        0
    } else {
        count_in(xs.drop_last(), ys) + if ys.contains(xs.last()) {
            1int
        } else {
            0
        }
    }
}

/// The names of packages.
pub open spec fn planned_names(plan: Seq<PlannedV>) -> Seq<Seq<char>> {
    plan.map_values(|p: PlannedV| p.name)
}

/// The installations that wait for the installation of a package: those of the packages
/// that need it.
pub open spec fn dependent_ids(plan: Seq<PlannedV>, name: Seq<char>) -> Seq<TaskIdV>
    decreases plan.len(),
{
    if plan.len() == 0 {
        Seq::empty()
    } else {
        let rest = dependent_ids(plan.drop_last(), name);
        if plan.last().dependencies.contains(name) {
            rest.push(TaskIdV { package: plan.last().name, kind: TaskKind::Install })
        } else {
            rest
        }
    }
}

/// The version of a package that a project needs.
pub open spec fn required_text(
    required: Map<Seq<char>, RequiredPackage>,
    name: Seq<char>,
) -> Option<Seq<char>> {
    if required.contains_key(name) {
        Some(required[name].version@.version.text)
    } else {
        None
    }
}

/// The packages that an installation may use, with the versions that were chosen.
pub open spec fn inputs(
    names: Seq<Seq<char>>,
    required: Map<Seq<char>, RequiredPackage>,
) -> Seq<(Seq<char>, Option<Seq<char>>)> {
    names.map_values(|name: Seq<char>| (name, required_text(required, name)))
}

/// A task that comes before the installation of a package.
pub open spec fn step_row(p: PlannedV, kind: TaskKind, blockers: int, next: TaskKind) -> TaskRowV {
    TaskRowV {
        blockers,
        task: TaskIdV { package: p.name, kind },
        version: p.version,
        dependencies: Seq::empty(),
        dependents: seq![TaskIdV { package: p.name, kind: next }],
    }
}

/// The installation of a package: it waits for the step before it and for the installations
/// of the packages that it needs.
pub open spec fn install_row(
    p: PlannedV,
    plan: Seq<PlannedV>,
    required: Map<Seq<char>, RequiredPackage>,
) -> TaskRowV {
    TaskRowV {
        blockers: 1 + count_in(p.dependencies, planned_names(plan)),
        task: TaskIdV { package: p.name, kind: TaskKind::Install },
        version: p.version,
        dependencies: inputs(p.dependencies, required),
        dependents: collected(dependent_ids(plan, p.name)),
    }
}

/// The tasks for one package: what is in a directory is built, what is in a Git repository
/// is checked out and built, and what is in a registry is downloaded; all is then installed.
pub open spec fn package_rows(
    p: PlannedV,
    plan: Seq<PlannedV>,
    required: Map<Seq<char>, RequiredPackage>,
) -> Seq<TaskRowV> {
    let install = install_row(p, plan, required);
    match p.version.repository {
        RepositoryV::Local(_, _) => seq![
            step_row(p, TaskKind::Build, 0, TaskKind::Install),
            install,
        ],
        RepositoryV::Git(_) => seq![
            step_row(p, TaskKind::Checkout, 0, TaskKind::Build),
            step_row(p, TaskKind::Build, 1, TaskKind::Install),
            install,
        ],
        _ => seq![step_row(p, TaskKind::Download, 0, TaskKind::Install), install],
    }
}

/// The tasks for the first packages of a plan.
pub open spec fn plan_rows(
    front: Seq<PlannedV>,
    plan: Seq<PlannedV>,
    required: Map<Seq<char>, RequiredPackage>,
) -> Seq<TaskRowV>
    decreases front.len(),
{
    if front.len() == 0 {
        Seq::empty()
    } else {
        plan_rows(front.drop_last(), plan, required) + package_rows(front.last(), plan, required)
    }
}

/// The removal of a package.
pub open spec fn removal_row(name: Seq<char>, version: PackageVersionV) -> TaskRowV {
    TaskRowV {
        blockers: 0,
        task: TaskIdV { package: name, kind: TaskKind::Remove },
        version,
        dependencies: Seq::empty(),
        dependents: Seq::empty(),
    }
}

/// The removals of the packages of a library that a project does not need.
pub open spec fn removal_rows(
    names: Seq<Seq<char>>,
    versions: Seq<PackageVersionV>,
    required: Map<Seq<char>, RequiredPackage>,
) -> Seq<TaskRowV>
    decreases names.len(),
{
    if names.len() == 0 {
        Seq::empty()
    } else {
        let rest = removal_rows(names.drop_last(), versions.drop_last(), required);
        if required.contains_key(names.last()) {
            rest
        } else {
            rest.push(removal_row(names.last(), versions.last()))
        }
    }
}

/// All tasks, in no particular order.
pub open spec fn task_rows(
    plan: Seq<PlannedV>,
    names: Seq<Seq<char>>,
    versions: Seq<PackageVersionV>,
    required: Map<Seq<char>, RequiredPackage>,
) -> Seq<TaskRowV> {
    plan_rows(plan, plan, required) + removal_rows(names, versions, required)
}

/// The tasks that bring a library to what a project needs, in order.
pub open spec fn sync_table(
    required: &TextMap<RequiredPackage>,
    installed: &TextMap<PackageVersion>,
) -> Seq<TaskRowV> {
    collected(
        task_rows(
            planned(texts(required.keys@), required_views(required.values@), installed@),
            texts(installed.keys@),
            version_views(installed.values@),
            required@,
        ),
    )
}

fn contains_name(list: &Vec<Planned>, name: &str) -> (r: bool)
    ensures
        r == planned_names(planned_views(list@)).contains(name@),
{
    let ghost names = planned_names(planned_views(list@));
    let mut i: usize = 0;
    while i < list.len()
        invariant
            i <= list@.len(),
            names == planned_names(planned_views(list@)),
            forall|k: int| 0 <= k < i ==> names[k] != name@,
        decreases list@.len() - i,
    {
        assert(names[i as int] == list@[i as int].name@);
        if text::same(list[i].name.as_str(), name) {
            return true;
        }
        i = i + 1;
    }
    false
}

fn count_planned(dependencies: &SortedSet<String>, list: &Vec<Planned>) -> (r: usize)
    ensures
        r == count_in(dependencies@, planned_names(planned_views(list@))),
{
    let ghost all = dependencies@;
    let ghost names = planned_names(planned_views(list@));
    let mut count: usize = 0;
    let mut i: usize = 0;
    while i < dependencies.items.len()
        invariant
            i <= dependencies.items@.len(),
            all == dependencies@,
            names == planned_names(planned_views(list@)),
            count <= i,
            count == count_in(all.take(i as int), names),
        decreases dependencies.items@.len() - i,
    {
        assert(all.take(i + 1).drop_last() =~= all.take(i as int));
        assert(all[i as int] == dependencies.items@[i as int]@);
        if contains_name(list, dependencies.items[i].as_str()) {
            count = count + 1;
        }
        i = i + 1;
    }
    assert(all.take(i as int) =~= all);
    count
}

fn waiting_installs(list: &Vec<Planned>, name: &String) -> (r: SortedSet<TaskId>)
    requires
        forall|i: int| 0 <= i < list@.len() ==> (#[trigger] list@[i]).wf(),
    ensures
        r.wf(),
        r@ == collected(dependent_ids(planned_views(list@), name@)),
{
    let ghost plan = planned_views(list@);
    let mut out: SortedSet<TaskId> = SortedSet::new();
    let mut i: usize = 0;
    assert(out@ =~= collected(dependent_ids(plan.take(0), name@)));
    while i < list.len()
        invariant
            i <= list@.len(),
            plan == planned_views(list@),
            out.wf(),
            out@ == collected(dependent_ids(plan.take(i as int), name@)),
            forall|k: int| 0 <= k < list@.len() ==> (#[trigger] list@[k]).wf(),
        decreases list@.len() - i,
    {
        assert(plan.take(i + 1).drop_last() =~= plan.take(i as int));
        assert(plan[i as int] == list@[i as int]@);
        assert(list@[i as int].wf());
        proof {
            lemma_text_member(list@[i as int].dependencies@, name@);
        }
        if list[i].dependencies.contains(name) {
            let ghost rest = dependent_ids(plan.take(i as int), name@);
            let id: TaskId = (list[i].name.clone(), TaskKind::Install);
            let ghost idv = TaskIdV { package: plan[i as int].name, kind: TaskKind::Install };
            assert(id.key() == idv);
            assert(rest.push(idv).drop_last() =~= rest);
            out.replace(id);
        }
        i = i + 1;
    }
    assert(plan.take(i as int) =~= plan);
    out
}

/// A text is in a list if one that compares as equal is.
pub proof fn lemma_text_member(list: Seq<Seq<char>>, name: Seq<char>)
    ensures
        has_equal(list, name) <==> list.contains(name),
{
    if has_equal(list, name) {
        let i = choose|i: int| 0 <= i < list.len() && (#[trigger] list[i]).order(name)
            == Order::Equal;
        text_order_equal(list[i], name);
    }
    if list.contains(name) {
        let i = choose|i: int| 0 <= i < list.len() && list[i] == name;
        text_order_equal(list[i], name);
        assert(list[i].order(name) == Order::Equal);
    }
}

fn read_inputs(names: &SortedSet<String>, required: &TextMap<RequiredPackage>) -> (r: Vec<
    DependencyInput,
>)
    requires
        required.wf(),
    ensures
        input_views(r@) == inputs(names@, required@),
{
    let ghost all = inputs(names@, required@);
    let mut out: Vec<DependencyInput> = Vec::new();
    let mut i: usize = 0;
    assert(input_views(out@) =~= all.take(0));
    while i < names.items.len()
        invariant
            i <= names.items@.len(),
            required.wf(),
            all == inputs(names@, required@),
            input_views(out@) == all.take(i as int),
        decreases names.items@.len() - i,
    {
        let name = names.items[i].clone();
        assert(names@[i as int] == names.items@[i as int]@);
        let version = match required.get(name.as_str()) {
            Some(package) => Some(package.version.version.text.clone()),
            None => None,
        };
        let ghost before = out@;
        out.push(DependencyInput { name, version });
        assert(input_views(out@) =~= input_views(before).push(all[i as int]));
        assert(all.take(i + 1) =~= all.take(i as int).push(all[i as int]));
        i = i + 1;
    }
    assert(all.take(i as int) =~= all);
    out
}

fn one_task(name: &String, kind: TaskKind) -> (r: SortedSet<TaskId>)
    ensures
        r.wf(),
        r@ == seq![TaskIdV { package: name@, kind }],
{
    let mut items: Vec<TaskId> = Vec::new();
    items.push((name.clone(), kind));
    let r: SortedSet<TaskId> = SortedSet { items };
    assert(r@ =~= seq![TaskIdV { package: name@, kind }]);
    r
}

fn step(p: &Planned, kind: TaskKind, blockers: usize, next: TaskKind) -> (r: TaskRow)
    requires
        p.wf(),
    ensures
        r.wf(),
        r@ == step_row(p@, kind, blockers as int, next),
{
    let r = TaskRow {
        blockers,
        task: (p.name.clone(), kind),
        version: p.version.copy(),
        dependencies: Vec::new(),
        dependents: one_task(&p.name, next),
    };
    assert(r@.dependencies =~= Seq::<(Seq<char>, Option<Seq<char>>)>::empty());
    r
}

fn install(p: &Planned, list: &Vec<Planned>, required: &TextMap<RequiredPackage>) -> (r: TaskRow)
    requires
        required.wf(),
        p.wf(),
        forall|i: int| 0 <= i < list@.len() ==> (#[trigger] list@[i]).wf(),
        count_in(p@.dependencies, planned_names(planned_views(list@))) < usize::MAX,
    ensures
        r.wf(),
        r@ == install_row(p@, planned_views(list@), required@),
{
    let count = count_planned(&p.dependencies, list);
    TaskRow {
        blockers: 1 + count,
        task: (p.name.clone(), TaskKind::Install),
        version: p.version.copy(),
        dependencies: read_inputs(&p.dependencies, required),
        dependents: waiting_installs(list, &p.name),
    }
}

fn put(tasks: &mut SortedSet<TaskRow>, row: TaskRow, Ghost(rows): Ghost<Seq<TaskRowV>>)
    requires
        old(tasks).wf(),
        row.wf(),
        old(tasks)@ == collected(rows),
    ensures
        final(tasks).wf(),
        final(tasks)@ == collected(rows.push(row@)),
{
    assert(rows.push(row@).drop_last() =~= rows);
    tasks.replace(row);
}

fn put_package(
    tasks: &mut SortedSet<TaskRow>,
    p: &Planned,
    list: &Vec<Planned>,
    required: &TextMap<RequiredPackage>,
    Ghost(rows): Ghost<Seq<TaskRowV>>,
)
    requires
        old(tasks).wf(),
        old(tasks)@ == collected(rows),
        required.wf(),
        p.wf(),
        forall|i: int| 0 <= i < list@.len() ==> (#[trigger] list@[i]).wf(),
        count_in(p@.dependencies, planned_names(planned_views(list@))) < usize::MAX,
    ensures
        final(tasks).wf(),
        final(tasks)@ == collected(rows + package_rows(p@, planned_views(list@), required@)),
{
    let ghost all = rows + package_rows(p@, planned_views(list@), required@);
    let last = install(p, list, required);
    let ghost lastv = last@;
    match &p.version.repository {
        PackageRepository::Local(_) => {
            let build = step(p, TaskKind::Build, 0, TaskKind::Install);
            let ghost v = build@;
            put(tasks, build, Ghost(rows));
            put(tasks, last, Ghost(rows.push(v)));
            assert(rows.push(v).push(lastv) =~= all);
        },
        PackageRepository::Git(_) => {
            let checkout = step(p, TaskKind::Checkout, 0, TaskKind::Build);
            let build = step(p, TaskKind::Build, 1, TaskKind::Install);
            let ghost u = checkout@;
            let ghost v = build@;
            put(tasks, checkout, Ghost(rows));
            put(tasks, build, Ghost(rows.push(u)));
            put(tasks, last, Ghost(rows.push(u).push(v)));
            assert(rows.push(u).push(v).push(lastv) =~= all);
        },
        _ => {
            let download = step(p, TaskKind::Download, 0, TaskKind::Install);
            let ghost v = download@;
            put(tasks, download, Ghost(rows));
            put(tasks, last, Ghost(rows.push(v)));
            assert(rows.push(v).push(lastv) =~= all);
        },
    }
}

proof fn lemma_count_bound(xs: Seq<Seq<char>>, ys: Seq<Seq<char>>)
    ensures
        0 <= count_in(xs, ys) <= xs.len(),
    decreases xs.len(),
{
    if xs.len() > 0 {
        lemma_count_bound(xs.drop_last(), ys);
    }
}

proof fn lemma_count_push(xs: Seq<Seq<char>>, ys: Seq<Seq<char>>, y: Seq<char>)
    requires
        xs.no_duplicates(),
        !ys.contains(y),
    ensures
        count_in(xs, ys.push(y)) == count_in(xs, ys) + (if xs.contains(y) {
            1int
        } else {
            0
        }),
    decreases xs.len(),
{
    assert forall|x: Seq<char>| ys.push(y).contains(x) <==> ys.contains(x) || x == y by {
        if ys.push(y).contains(x) {
            let i = choose|i: int| 0 <= i < ys.push(y).len() && ys.push(y)[i] == x;
            if i < ys.len() {
                assert(ys[i] == x);
            }
        }
        if ys.contains(x) {
            let i = choose|i: int| 0 <= i < ys.len() && ys[i] == x;
            assert(ys.push(y)[i] == x);
        }
        if x == y {
            assert(ys.push(y)[ys.len() as int] == x);
        }
    }
    if xs.len() > 0 {
        let t = xs.drop_last();
        lemma_count_push(t, ys, y);
        assert(xs.contains(y) <==> t.contains(y) || xs.last() == y) by {
            if xs.contains(y) {
                let i = choose|i: int| 0 <= i < xs.len() && xs[i] == y;
                if i < t.len() {
                    assert(t[i] == y);
                }
            }
            if t.contains(y) {
                let i = choose|i: int| 0 <= i < t.len() && t[i] == y;
                assert(xs[i] == y);
            }
            if xs.last() == y {
                assert(xs[xs.len() - 1] == y);
            }
        }
        if t.contains(y) {
            let i = choose|i: int| 0 <= i < t.len() && t[i] == y;
            assert(xs[i] == y);
            assert(xs[i] != xs[xs.len() - 1]);
        }
    }
}

/// Of two lists without repetition as many texts of the first are in the second as of the
/// second in the first.
proof fn lemma_count_symmetric(xs: Seq<Seq<char>>, ys: Seq<Seq<char>>)
    requires
        xs.no_duplicates(),
        ys.no_duplicates(),
    ensures
        count_in(xs, ys) == count_in(ys, xs),
    decreases xs.len(),
{
    if xs.len() == 0 {
        lemma_count_none(ys);
        assert(xs =~= Seq::empty());
    } else {
        let t = xs.drop_last();
        let x = xs.last();
        lemma_count_symmetric(t, ys);
        assert(!t.contains(x)) by {
            if t.contains(x) {
                let i = choose|i: int| 0 <= i < t.len() && t[i] == x;
                assert(xs[i] == xs[xs.len() - 1]);
            }
        }
        lemma_count_push(ys, t, x);
        assert(t.push(x) =~= xs);
    }
}

proof fn lemma_count_none(ys: Seq<Seq<char>>)
    ensures
        count_in(ys, Seq::empty()) == 0,
    decreases ys.len(),
{
    if ys.len() > 0 {
        lemma_count_none(ys.drop_last());
    }
}

proof fn lemma_texts_distinct(list: Seq<Seq<char>>)
    requires
        increasing(list),
    ensures
        list.no_duplicates(),
{
    assert forall|i: int, j: int| 0 <= i < list.len() && 0 <= j < list.len() && i
        != j implies list[i] != list[j] by {
        text_order_equal(list[i], list[j]);
        text_order_equal(list[j], list[i]);
        if i < j {
            assert(list[i].order(list[j]) == Order::Less);
        } else {
            assert(list[j].order(list[i]) == Order::Less);
        }
    }
}

/// No two packages of a plan have the same name, and each has the name of one that is
/// needed; the packages that each of them needs are listed once.
pub open spec fn sound_plan(plan: Seq<PlannedV>, names: Seq<Seq<char>>) -> bool {
    &&& forall|i: int, j: int| 0 <= i < j < plan.len() ==> (#[trigger] plan[i]).name != (
        #[trigger] plan[j]).name
    &&& forall|i: int| 0 <= i < plan.len() ==> names.contains((#[trigger] plan[i]).name)
    &&& forall|i: int| 0 <= i < plan.len() ==> (#[trigger] plan[i]).dependencies.no_duplicates()
}

proof fn lemma_plan_sound(
    names: Seq<Seq<char>>,
    items: Seq<RequiredV>,
    installed: Map<Seq<char>, PackageVersion>,
)
    requires
        names.len() == items.len(),
        names.no_duplicates(),
    ensures
        sound_plan(planned(names, items, installed), names),
        planned(names, items, installed).len() <= names.len(),
    decreases names.len(),
{
    if names.len() > 0 {
        let front = names.drop_last();
        let rest = planned(front, items.drop_last(), installed);
        let plan = planned(names, items, installed);
        assert(front.no_duplicates());
        lemma_plan_sound(front, items.drop_last(), installed);
        assert forall|i: int| 0 <= i < plan.len() implies names.contains(
            (#[trigger] plan[i]).name,
        ) by {
            if i < rest.len() {
                assert(plan[i] == rest[i]);
                let k = choose|k: int| 0 <= k < front.len() && front[k] == rest[i].name;
                assert(names[k] == plan[i].name);
            } else {
                assert(names[names.len() - 1] == plan[i].name);
            }
        }
        assert forall|i: int| 0 <= i < plan.len() implies (
        #[trigger] plan[i]).dependencies.no_duplicates() by {
            if i < rest.len() {
                assert(plan[i] == rest[i]);
            } else {
                let document = items.last().description;
                let all = package_names(
                    dropped(collected(all_relations(hard_fields(document))), r_only()),
                );
                lemma_collected(all);
                lemma_texts_distinct(collected(all));
            }
        }
        assert forall|i: int, j: int| 0 <= i < j < plan.len() implies (#[trigger] plan[i]).name != (
        #[trigger] plan[j]).name by {
            assert(plan[i] == rest[i]);
            if j < rest.len() {
                assert(plan[j] == rest[j]);
            } else {
                let k = choose|k: int| 0 <= k < front.len() && front[k] == rest[i].name;
                assert(names[k] != names[names.len() - 1]);
            }
        }
    }
}

proof fn lemma_names_distinct(plan: Seq<PlannedV>, names: Seq<Seq<char>>)
    requires
        sound_plan(plan, names),
    ensures
        planned_names(plan).no_duplicates(),
{
    let listed = planned_names(plan);
    assert forall|i: int, j: int| 0 <= i < listed.len() && 0 <= j < listed.len() && i
        != j implies listed[i] != listed[j] by {
        if i < j {
            assert(plan[i].name != plan[j].name);
        } else {
            assert(plan[j].name != plan[i].name);
        }
    }
}

/// The tasks that make a library hold the packages that a project needs, in the order in
/// which they are looked at; or what is wrong with the first package that has to be
/// installed and whose fields cannot be read.
pub fn sync_tasks(required: &TextMap<RequiredPackage>, installed: &TextMap<PackageVersion>) -> (r:
    Result<SortedSet<TaskRow>, DescriptionParseError>)
    requires
        required_wf(required),
        installed_wf(installed),
        required.keys@.len() < usize::MAX,
    ensures
        match r {
            Ok(tasks) => {
                &&& plan_fault(
                    texts(required.keys@),
                    required_views(required.values@),
                    installed@,
                ) is None
                &&& tasks.wf()
                &&& tasks@ == sync_table(required, installed)
            },
            Err(error) => error.wf() && plan_fault(
                texts(required.keys@),
                required_views(required.values@),
                installed@,
            ) == Some(error@),
        },
{
    let list = match plan(required, installed) {
        Ok(list) => list,
        Err(error) => {
            return Err(error);
        },
    };
    let ghost plan = planned_views(list@);
    let ghost listed = planned_names(plan);
    proof {
        lemma_texts_distinct(texts(required.keys@));
        lemma_plan_sound(texts(required.keys@), required_views(required.values@), installed@);
        lemma_names_distinct(plan, texts(required.keys@));
    }
    let mut tasks: SortedSet<TaskRow> = SortedSet::new();
    let mut i: usize = 0;
    assert(tasks@ =~= collected(plan_rows(plan.take(0), plan, required@)));
    while i < list.len()
        invariant
            i <= list@.len(),
            list@.len() < usize::MAX,
            required_wf(required),
            plan == planned_views(list@),
            listed == planned_names(plan),
            listed.no_duplicates(),
            sound_plan(plan, texts(required.keys@)),
            forall|k: int| 0 <= k < list@.len() ==> (#[trigger] list@[k]).wf(),
            tasks.wf(),
            tasks@ == collected(plan_rows(plan.take(i as int), plan, required@)),
        decreases list@.len() - i,
    {
        assert(plan.take(i + 1).drop_last() =~= plan.take(i as int));
        assert(plan[i as int] == list@[i as int]@);
        let ghost rows = plan_rows(plan.take(i as int), plan, required@);
        proof {
            let deps = plan[i as int].dependencies;
            assert(deps.no_duplicates());
            lemma_count_symmetric(deps, listed);
            lemma_count_bound(listed, deps);
        }
        put_package(&mut tasks, &list[i], &list, required, Ghost(rows));
        i = i + 1;
    }
    assert(plan.take(i as int) =~= plan);
    let ghost base = plan_rows(plan, plan, required@);
    let ghost names = texts(installed.keys@);
    let ghost versions = version_views(installed.values@);
    let mut j: usize = 0;
    assert(base + removal_rows(names.take(0), versions.take(0), required@) =~= base);
    while j < installed.keys.len()
        invariant
            j <= installed.keys@.len(),
            installed_wf(installed),
            required_wf(required),
            names == texts(installed.keys@),
            versions == version_views(installed.values@),
            tasks.wf(),
            tasks@ == collected(
                base + removal_rows(names.take(j as int), versions.take(j as int), required@),
            ),
        decreases installed.keys@.len() - j,
    {
        let ghost rest = removal_rows(names.take(j as int), versions.take(j as int), required@);
        assert(names.take(j + 1).drop_last() =~= names.take(j as int));
        assert(versions.take(j + 1).drop_last() =~= versions.take(j as int));
        assert(names[j as int] == installed.keys@[j as int]@);
        assert(versions[j as int] == installed.values@[j as int]@);
        assert(installed.values@[j as int].wf());
        let name = &installed.keys[j];
        if !required.contains_key(name.as_str()) {
            let row = TaskRow {
                blockers: 0,
                task: (name.clone(), TaskKind::Remove),
                version: installed.values[j].copy(),
                dependencies: Vec::new(),
                dependents: SortedSet::new(),
            };
            assert(row@.dependencies =~= Seq::<(Seq<char>, Option<Seq<char>>)>::empty());
            assert(row@ == removal_row(names[j as int], versions[j as int]));
            assert((base + rest).push(row@) =~= base + rest.push(row@));
            put(&mut tasks, row, Ghost(base + rest));
        }
        j = j + 1;
    }
    assert(names.take(j as int) =~= names);
    assert(versions.take(j as int) =~= versions);
    Ok(tasks)
}

/// Whether a package comes from a Git repository.
pub open spec fn from_git(p: PlannedV) -> bool {
    p.version.repository is Git
}

spec fn flag(b: bool) -> int {
    if b {
        1
    } else {
        0
    }
}

/// The packages of a plan with a name need another one.
spec fn needs(plan: Seq<PlannedV>, name: Seq<char>, other: Seq<char>) -> bool {
    exists|i: int| 0 <= i < plan.len() && (#[trigger] plan[i]).name == name
        && plan[i].dependencies.contains(other)
}

/// How many of the tasks of one package are such that a task waits for them.
spec fn expected(p: PlannedV, plan: Seq<PlannedV>, id: TaskIdV) -> int {
    match id.kind {
        TaskKind::Install => flag(p.name == id.package) + flag(needs(plan, id.package, p.name)),
        TaskKind::Build => flag(from_git(p) && p.name == id.package),
        _ => 0,
    }
}

spec fn expected_all(front: Seq<PlannedV>, plan: Seq<PlannedV>, id: TaskIdV) -> int
    decreases front.len(),
{
    if front.len() == 0 {
        0
    } else {
        expected_all(front.drop_last(), plan, id) + expected(front.last(), plan, id)
    }
}

proof fn lemma_dependent_ids(plan: Seq<PlannedV>, name: Seq<char>, id: TaskIdV)
    ensures
        dependent_ids(plan, name).contains(id) <==> id.kind == TaskKind::Install && needs(
            plan,
            id.package,
            name,
        ),
    decreases plan.len(),
{
    if plan.len() > 0 {
        let t = plan.drop_last();
        let p = plan.last();
        let rest = dependent_ids(t, name);
        let ids = dependent_ids(plan, name);
        lemma_dependent_ids(t, name, id);
        if ids.contains(id) {
            let i = choose|i: int| 0 <= i < ids.len() && ids[i] == id;
            if i < rest.len() {
                assert(rest[i] == id);
                let k = choose|k: int| 0 <= k < t.len() && (#[trigger] t[k]).name == id.package
                    && t[k].dependencies.contains(name);
                assert(plan[k] == t[k]);
            } else {
                assert(plan[plan.len() - 1] == p);
            }
        }
        if id.kind == TaskKind::Install && needs(plan, id.package, name) {
            let k = choose|k: int| 0 <= k < plan.len() && (#[trigger] plan[k]).name == id.package
                && plan[k].dependencies.contains(name);
            if k < t.len() {
                assert(t[k] == plan[k]);
                let i = choose|i: int| 0 <= i < rest.len() && rest[i] == id;
                assert(ids[i] == id);
            } else {
                assert(ids[ids.len() - 1] == id);
            }
        }
    }
}

/// A task is among collected ones if it is among those that were collected.
proof fn lemma_collected_tasks(ids: Seq<TaskIdV>, id: TaskIdV)
    ensures
        collected(ids).contains(id) <==> ids.contains(id),
{
    lemma_collected(ids);
    if ids.contains(id) {
        let i = choose|i: int| 0 <= i < ids.len() && ids[i] == id;
        assert(has_equal(collected(ids), ids[i]));
        let k = choose|k: int| 0 <= k < collected(ids).len() && (
        #[trigger] collected(ids)[k]).order(ids[i]) == Order::Equal;
        equal_tasks_are_the_same(collected(ids)[k], ids[i]);
    }
}

proof fn lemma_pointers_concat(a: Seq<TaskRowV>, b: Seq<TaskRowV>, id: TaskIdV)
    ensures
        pointers(a + b, id) == pointers(a, id) + pointers(b, id),
    decreases b.len(),
{
    if b.len() == 0 {
        assert(a + b =~= a);
    } else {
        assert((a + b).drop_last() =~= a + b.drop_last());
        lemma_pointers_concat(a, b.drop_last(), id);
    }
}

proof fn lemma_step_points(p: PlannedV, kind: TaskKind, blockers: int, next: TaskKind, id: TaskIdV)
    ensures
        points(step_row(p, kind, blockers, next), id) == flag(
            id == (TaskIdV { package: p.name, kind: next }),
        ),
{
    let row = step_row(p, kind, blockers, next);
    assert(row.dependents[0] == (TaskIdV { package: p.name, kind: next }));
    if row.dependents.contains(id) {
        let k = choose|k: int| 0 <= k < row.dependents.len() && row.dependents[k] == id;
    }
}

proof fn lemma_package_pointers(
    p: PlannedV,
    plan: Seq<PlannedV>,
    required: Map<Seq<char>, RequiredPackage>,
    id: TaskIdV,
)
    ensures
        pointers(package_rows(p, plan, required), id) == expected(p, plan, id),
{
    let rows = package_rows(p, plan, required);
    let last = install_row(p, plan, required);
    lemma_dependent_ids(plan, p.name, id);
    lemma_collected_tasks(dependent_ids(plan, p.name), id);
    assert(rows.last() == last);
    lemma_step_points(p, TaskKind::Build, 0, TaskKind::Install, id);
    lemma_step_points(p, TaskKind::Checkout, 0, TaskKind::Build, id);
    lemma_step_points(p, TaskKind::Build, 1, TaskKind::Install, id);
    lemma_step_points(p, TaskKind::Download, 0, TaskKind::Install, id);
    let t = rows.drop_last();
    assert(pointers(rows, id) == pointers(t, id) + points(last, id));
    assert(pointers(t, id) == pointers(t.drop_last(), id) + points(t.last(), id));
    if from_git(p) {
        let u = t.drop_last();
        assert(u.drop_last() =~= Seq::empty());
        assert(pointers(u, id) == pointers(u.drop_last(), id) + points(u.last(), id));
    } else {
        assert(t.drop_last() =~= Seq::empty());
    }
}

proof fn lemma_plan_pointers(
    front: Seq<PlannedV>,
    plan: Seq<PlannedV>,
    required: Map<Seq<char>, RequiredPackage>,
    id: TaskIdV,
)
    ensures
        pointers(plan_rows(front, plan, required), id) == expected_all(front, plan, id),
    decreases front.len(),
{
    if front.len() > 0 {
        lemma_plan_pointers(front.drop_last(), plan, required, id);
        lemma_package_pointers(front.last(), plan, required, id);
        lemma_pointers_concat(
            plan_rows(front.drop_last(), plan, required),
            package_rows(front.last(), plan, required),
            id,
        );
    }
}

proof fn lemma_removal_rows(
    names: Seq<Seq<char>>,
    versions: Seq<PackageVersionV>,
    required: Map<Seq<char>, RequiredPackage>,
)
    requires
        names.len() == versions.len(),
        names.no_duplicates(),
    ensures
        forall|id: TaskIdV| #[trigger] pointers(removal_rows(names, versions, required), id) == 0,
        forall|i: int| 0 <= i < removal_rows(names, versions, required).len() ==> {
            let row = #[trigger] removal_rows(names, versions, required)[i];
            &&& row.blockers == 0
            &&& row.task.kind == TaskKind::Remove
            &&& row.dependents.len() == 0
            &&& names.contains(row.task.package)
        },
        unique_tasks(removal_rows(names, versions, required)),
    decreases names.len(),
{
    if names.len() > 0 {
        let front = names.drop_last();
        let rest = removal_rows(front, versions.drop_last(), required);
        let rows = removal_rows(names, versions, required);
        assert(front.no_duplicates());
        lemma_removal_rows(front, versions.drop_last(), required);
        assert forall|id: TaskIdV| #[trigger] pointers(rows, id) == 0 by {
            assert(pointers(rest, id) == 0);
            if !required.contains_key(names.last()) {
                assert(rows.drop_last() =~= rest);
                assert(points(rows.last(), id) == 0);
            }
        }
        if !required.contains_key(names.last()) {
            assert(rows.drop_last() =~= rest);
            assert(names[names.len() - 1] == rows.last().task.package);
            assert forall|i: int, j: int| 0 <= i < j < rows.len() implies (#[trigger] rows[i]).task
                != (#[trigger] rows[j]).task by {
                assert(rows[i] == rest[i]);
                if j < rest.len() {
                    assert(rows[j] == rest[j]);
                } else {
                    let k = choose|k: int| 0 <= k < front.len() && front[k]
                        == rest[i].task.package;
                    assert(names[k] != names[names.len() - 1]);
                }
            }
        }
        assert forall|i: int| 0 <= i < rows.len() implies {
            let row = #[trigger] rows[i];
            &&& row.blockers == 0
            &&& row.task.kind == TaskKind::Remove
            &&& row.dependents.len() == 0
            &&& names.contains(row.task.package)
        } by {
            if i < rest.len() {
                assert(rows[i] == rest[i]);
                let k = choose|k: int| 0 <= k < front.len() && front[k] == rest[i].task.package;
                assert(names[k] == rows[i].task.package);
            }
        }
    }
}

proof fn lemma_expected_install(plan: Seq<PlannedV>, names: Seq<Seq<char>>, n: int, k: int)
    requires
        sound_plan(plan, names),
        0 <= n <= plan.len(),
        0 <= k < plan.len(),
    ensures
        expected_all(
            plan.take(n),
            plan,
            TaskIdV { package: plan[k].name, kind: TaskKind::Install },
        ) == flag(k < n) + count_in(planned_names(plan.take(n)), plan[k].dependencies),
    decreases n,
{
    let id = TaskIdV { package: plan[k].name, kind: TaskKind::Install };
    if n > 0 {
        lemma_expected_install(plan, names, n - 1, k);
        let front = plan.take(n);
        let q = plan[n - 1];
        assert(front.drop_last() =~= plan.take(n - 1));
        assert(planned_names(front).drop_last() =~= planned_names(plan.take(n - 1)));
        assert(planned_names(front).last() == q.name);
        assert(needs(plan, id.package, q.name) <==> plan[k].dependencies.contains(q.name)) by {
            if needs(plan, id.package, q.name) {
                let i = choose|i: int| 0 <= i < plan.len() && (#[trigger] plan[i]).name
                    == id.package && plan[i].dependencies.contains(q.name);
                assert(i == k) by {
                    if i < k {
                        assert(plan[i].name != plan[k].name);
                    } else if k < i {
                        assert(plan[k].name != plan[i].name);
                    }
                }
            }
        }
        if k < n - 1 {
            assert(plan[k].name != plan[n - 1].name);
        } else if n - 1 < k {
            assert(plan[n - 1].name != plan[k].name);
        }
    } else {
        assert(planned_names(plan.take(0)) =~= Seq::empty());
    }
}

proof fn lemma_expected_step(
    plan: Seq<PlannedV>,
    names: Seq<Seq<char>>,
    n: int,
    k: int,
    kind: TaskKind,
)
    requires
        sound_plan(plan, names),
        0 <= n <= plan.len(),
        0 <= k < plan.len(),
        kind != TaskKind::Install,
    ensures
        expected_all(plan.take(n), plan, TaskIdV { package: plan[k].name, kind }) == flag(
            kind == TaskKind::Build && k < n && from_git(plan[k]),
        ),
    decreases n,
{
    if n > 0 {
        lemma_expected_step(plan, names, n - 1, k, kind);
        assert(plan.take(n).drop_last() =~= plan.take(n - 1));
        if k < n - 1 {
            assert(plan[k].name != plan[n - 1].name);
        } else if n - 1 < k {
            assert(plan[n - 1].name != plan[k].name);
        }
    }
}

proof fn lemma_expected_none(front: Seq<PlannedV>, plan: Seq<PlannedV>, id: TaskIdV)
    requires
        id.kind == TaskKind::Remove,
    ensures
        expected_all(front, plan, id) == 0,
    decreases front.len(),
{
    if front.len() > 0 {
        lemma_expected_none(front.drop_last(), plan, id);
    }
}

/// A row is one of those of a package of the plan.
spec fn is_row_of(
    front: Seq<PlannedV>,
    plan: Seq<PlannedV>,
    required: Map<Seq<char>, RequiredPackage>,
    row: TaskRowV,
    k: int,
) -> bool {
    0 <= k < front.len() && package_rows(front[k], plan, required).contains(row)
}

spec fn is_row(
    front: Seq<PlannedV>,
    plan: Seq<PlannedV>,
    required: Map<Seq<char>, RequiredPackage>,
    row: TaskRowV,
) -> bool {
    exists|k: int| is_row_of(front, plan, required, row, k)
}

proof fn lemma_package_row(
    p: PlannedV,
    plan: Seq<PlannedV>,
    required: Map<Seq<char>, RequiredPackage>,
    i: int,
)
    requires
        0 <= i < package_rows(p, plan, required).len(),
    ensures
        package_rows(p, plan, required)[i].task.package == p.name,
        package_rows(p, plan, required)[i].task.kind != TaskKind::Remove,
        unique_tasks(package_rows(p, plan, required)),
{
    let rows = package_rows(p, plan, required);
    assert(rows.len() == 2 || rows.len() == 3);
    assert(rows[0].task.package == p.name && rows[1].task.package == p.name);
}

proof fn lemma_plan_rows(
    front: Seq<PlannedV>,
    plan: Seq<PlannedV>,
    required: Map<Seq<char>, RequiredPackage>,
)
    requires
        forall|i: int, j: int| 0 <= i < j < front.len() ==> (#[trigger] front[i]).name != (
        #[trigger] front[j]).name,
    ensures
        unique_tasks(plan_rows(front, plan, required)),
        forall|i: int|
            0 <= i < plan_rows(front, plan, required).len() ==> is_row(
                front,
                plan,
                required,
                #[trigger] plan_rows(front, plan, required)[i],
            ),
        forall|k: int, row: TaskRowV| #[trigger]
            is_row_of(front, plan, required, row, k) ==> plan_rows(front, plan, required).contains(
                row,
            ),
    decreases front.len(),
{
    if front.len() > 0 {
        let t = front.drop_last();
        let p = front.last();
        let rest = plan_rows(t, plan, required);
        let more = package_rows(p, plan, required);
        let rows = plan_rows(front, plan, required);
        assert forall|i: int, j: int| 0 <= i < j < t.len() implies (#[trigger] t[i]).name != (
        #[trigger] t[j]).name by {
            assert(t[i] == front[i] && t[j] == front[j]);
        }
        lemma_plan_rows(t, plan, required);
        assert forall|i: int| 0 <= i < rows.len() implies is_row(
            front,
            plan,
            required,
            #[trigger] rows[i],
        ) by {
            if i < rest.len() {
                assert(rows[i] == rest[i]);
                assert(is_row(t, plan, required, rest[i]));
                let k = choose|k: int| is_row_of(t, plan, required, rest[i], k);
                assert(t[k] == front[k]);
                assert(is_row_of(front, plan, required, rows[i], k));
            } else {
                assert(rows[i] == more[i - rest.len()]);
                assert(is_row_of(front, plan, required, rows[i], front.len() - 1));
            }
        }
        assert forall|k: int, row: TaskRowV| #[trigger]
            is_row_of(front, plan, required, row, k) implies rows.contains(row) by {
            if k < t.len() {
                assert(t[k] == front[k]);
                assert(is_row_of(t, plan, required, row, k));
                let i = choose|i: int| 0 <= i < rest.len() && rest[i] == row;
                assert(rows[i] == row);
            } else {
                let i = choose|i: int| 0 <= i < more.len() && more[i] == row;
                assert(rows[rest.len() + i] == row);
            }
        }
        assert forall|i: int, j: int| 0 <= i < j < rows.len() implies (#[trigger] rows[i]).task != (
        #[trigger] rows[j]).task by {
            if j < rest.len() {
                assert(rows[i] == rest[i] && rows[j] == rest[j]);
            } else {
                let b = j - rest.len();
                assert(rows[j] == more[b]);
                lemma_package_row(p, plan, required, b);
                if i < rest.len() {
                    assert(rows[i] == rest[i]);
                    assert(is_row(t, plan, required, rest[i]));
                    let k = choose|k: int| is_row_of(t, plan, required, rest[i], k);
                    let a = choose|a: int|
                        0 <= a < package_rows(t[k], plan, required).len() && package_rows(
                            t[k],
                            plan,
                            required,
                        )[a] == rest[i];
                    lemma_package_row(t[k], plan, required, a);
                    assert(front[k].name != front[front.len() - 1].name);
                } else {
                    assert(rows[i] == more[i - rest.len()]);
                }
            }
        }
    }
}

/// The number of tasks that the row of a package says it waits for is the number of rows
/// that it waits for, and the tasks that wait for it have rows.
proof fn lemma_row_balance(
    plan: Seq<PlannedV>,
    names: Seq<Seq<char>>,
    required: Map<Seq<char>, RequiredPackage>,
    row: TaskRowV,
    k: int,
)
    requires
        sound_plan(plan, names),
        is_row_of(plan, plan, required, row, k),
    ensures
        row.blockers == expected_all(plan, plan, row.task),
        row.task.kind != TaskKind::Remove,
        forall|d: int| 0 <= d < row.dependents.len() ==> holds_task(
            plan_rows(plan, plan, required),
            #[trigger] row.dependents[d],
        ),
{
    let p = plan[k];
    let rows = package_rows(p, plan, required);
    let i = choose|i: int| 0 <= i < rows.len() && rows[i] == row;
    lemma_package_row(p, plan, required, i);
    assert(plan.take(plan.len() as int) =~= plan);
    lemma_plan_rows(plan, plan, required);
    if row.task.kind == TaskKind::Install {
        lemma_expected_install(plan, names, plan.len() as int, k);
        lemma_names_distinct(plan, names);
        lemma_count_symmetric(p.dependencies, planned_names(plan));
        assert(row == install_row(p, plan, required));
        let ids = dependent_ids(plan, p.name);
        assert forall|d: int| 0 <= d < row.dependents.len() implies holds_task(
            plan_rows(plan, plan, required),
            #[trigger] row.dependents[d],
        ) by {
            let id = row.dependents[d];
            assert(collected(ids).contains(id));
            lemma_collected_tasks(ids, id);
            lemma_dependent_ids(plan, p.name, id);
            let j = choose|j: int| 0 <= j < plan.len() && (#[trigger] plan[j]).name == id.package
                && plan[j].dependencies.contains(p.name);
            lemma_install_held(plan, required, j);
        }
    } else {
        lemma_expected_step(plan, names, plan.len() as int, k, row.task.kind);
        lemma_install_held(plan, required, k);
        lemma_build_held(plan, required, k);
        assert(row.dependents.len() == 1);
    }
}

proof fn lemma_install_held(
    plan: Seq<PlannedV>,
    required: Map<Seq<char>, RequiredPackage>,
    k: int,
)
    requires
        forall|i: int, j: int| 0 <= i < j < plan.len() ==> (#[trigger] plan[i]).name != (
        #[trigger] plan[j]).name,
        0 <= k < plan.len(),
    ensures
        holds_task(
            plan_rows(plan, plan, required),
            TaskIdV { package: plan[k].name, kind: TaskKind::Install },
        ),
{
    lemma_plan_rows(plan, plan, required);
    let rows = package_rows(plan[k], plan, required);
    let row = install_row(plan[k], plan, required);
    assert(rows[rows.len() - 1] == row);
    assert(is_row_of(plan, plan, required, row, k));
    let all = plan_rows(plan, plan, required);
    let i = choose|i: int| 0 <= i < all.len() && all[i] == row;
    assert(all[i].task == row.task);
}

proof fn lemma_build_held(plan: Seq<PlannedV>, required: Map<Seq<char>, RequiredPackage>, k: int)
    requires
        forall|i: int, j: int| 0 <= i < j < plan.len() ==> (#[trigger] plan[i]).name != (
        #[trigger] plan[j]).name,
        0 <= k < plan.len(),
    ensures
        from_git(plan[k]) ==> holds_task(
            plan_rows(plan, plan, required),
            TaskIdV { package: plan[k].name, kind: TaskKind::Build },
        ),
{
    if from_git(plan[k]) {
        lemma_plan_rows(plan, plan, required);
        let rows = package_rows(plan[k], plan, required);
        let row = rows[1];
        assert(is_row_of(plan, plan, required, row, k));
        let all = plan_rows(plan, plan, required);
        let i = choose|i: int| 0 <= i < all.len() && all[i] == row;
        assert(all[i].task == row.task);
    }
}

/// What holds of a row of any task: the number of tasks that it says it waits for is the
/// number of rows that it waits for, and the tasks that wait for it have rows.
spec fn row_balanced(rows: Seq<TaskRowV>, row: TaskRowV) -> bool {
    &&& row.blockers == pointers(rows, row.task)
    &&& forall|d: int| 0 <= d < row.dependents.len() ==> holds_task(rows, #[trigger] row.dependents[d])
}

proof fn lemma_rows_balanced(
    plan: Seq<PlannedV>,
    needed: Seq<Seq<char>>,
    names: Seq<Seq<char>>,
    versions: Seq<PackageVersionV>,
    required: Map<Seq<char>, RequiredPackage>,
)
    requires
        sound_plan(plan, needed),
        names.no_duplicates(),
        names.len() == versions.len(),
    ensures
        unique_tasks(task_rows(plan, names, versions, required)),
        forall|i: int|
            0 <= i < task_rows(plan, names, versions, required).len() ==> row_balanced(
                task_rows(plan, names, versions, required),
                #[trigger] task_rows(plan, names, versions, required)[i],
            ),
{
    let first = plan_rows(plan, plan, required);
    let second = removal_rows(names, versions, required);
    let rows = task_rows(plan, names, versions, required);
    lemma_plan_rows(plan, plan, required);
    lemma_removal_rows(names, versions, required);
    assert forall|i: int| 0 <= i < first.len() implies (#[trigger] first[i]).task.kind
        != TaskKind::Remove by {
        assert(is_row(plan, plan, required, first[i]));
        let k = choose|k: int| is_row_of(plan, plan, required, first[i], k);
        lemma_row_balance(plan, needed, required, first[i], k);
    }
    assert forall|i: int, j: int| 0 <= i < j < rows.len() implies (#[trigger] rows[i]).task != (
    #[trigger] rows[j]).task by {
        if j < first.len() {
            assert(rows[i] == first[i] && rows[j] == first[j]);
        } else {
            assert(rows[j] == second[j - first.len()]);
            if i < first.len() {
                assert(rows[i] == first[i]);
            } else {
                assert(rows[i] == second[i - first.len()]);
            }
        }
    }
    assert forall|i: int| 0 <= i < rows.len() implies row_balanced(rows, #[trigger] rows[i]) by {
        let row = rows[i];
        lemma_pointers_concat(first, second, row.task);
        lemma_plan_pointers(plan, plan, required, row.task);
        assert(pointers(second, row.task) == 0);
        if i < first.len() {
            assert(row == first[i]);
            assert(is_row(plan, plan, required, first[i]));
            let k = choose|k: int| is_row_of(plan, plan, required, first[i], k);
            lemma_row_balance(plan, needed, required, first[i], k);
            assert forall|d: int| 0 <= d < row.dependents.len() implies holds_task(
                rows,
                #[trigger] row.dependents[d],
            ) by {
                assert(holds_task(first, row.dependents[d]));
                let a = choose|a: int| 0 <= a < first.len() && (#[trigger] first[a]).task
                    == row.dependents[d];
                assert(rows[a] == first[a]);
            }
        } else {
            assert(row == second[i - first.len()]);
            lemma_expected_none(plan, plan, row.task);
        }
    }
}

/// The tasks of a synchronisation make a table without two rows for one task, in which each
/// task is blocked by exactly as many tasks as it waits for, and every task that waits for
/// another one has a row: the table can be worked off.
pub proof fn tasks_are_balanced(
    plan: Seq<PlannedV>,
    needed: Seq<Seq<char>>,
    names: Seq<Seq<char>>,
    versions: Seq<PackageVersionV>,
    required: Map<Seq<char>, RequiredPackage>,
)
    requires
        sound_plan(plan, needed),
        names.no_duplicates(),
        names.len() == versions.len(),
    ensures
        is_table(collected(task_rows(plan, names, versions, required))),
        balanced(collected(task_rows(plan, names, versions, required)), Seq::empty()),
{
    let rows = task_rows(plan, names, versions, required);
    let tasks = collected(rows);
    let none = Seq::<TaskRowV>::empty();
    lemma_rows_balanced(plan, needed, names, versions, required);
    lemma_collected_rows(rows);
    assert forall|i: int| 0 <= i < tasks.len() implies row_balanced(tasks, #[trigger] tasks[i]) by {
        let row = tasks[i];
        assert(tasks.contains(row));
        let a = choose|a: int| 0 <= a < rows.len() && rows[a] == row;
        assert(row_balanced(rows, rows[a]));
        assert forall|d: int| 0 <= d < row.dependents.len() implies holds_task(
            tasks,
            #[trigger] row.dependents[d],
        ) by {
            assert(holds_task(rows, rows[a].dependents[d]));
            let b = choose|b: int| 0 <= b < rows.len() && (#[trigger] rows[b]).task
                == row.dependents[d];
            assert(rows.contains(rows[b]));
            assert(tasks.contains(rows[b]));
            let c = choose|c: int| 0 <= c < tasks.len() && tasks[c] == rows[b];
            assert(tasks[c].task == row.dependents[d]);
        }
    }
    assert(balanced(tasks, none)) by {
        reveal(balanced);
        assert forall|i: int| 0 <= i < tasks.len() implies (#[trigger] tasks[i]).blockers
            == pointers(tasks, tasks[i].task) + pointers(none, tasks[i].task) by {
            assert(row_balanced(tasks, tasks[i]));
        }
        assert forall|i: int, d: int|
            #![trigger tasks[i].dependents[d]]
            0 <= i < tasks.len() && 0 <= d < tasks[i].dependents.len() implies holds_task(
            tasks,
            tasks[i].dependents[d],
        ) by {
            assert(row_balanced(tasks, tasks[i]));
        }
    }
}

/// The schedule of the tasks that make a library hold the packages that a project needs,
/// none of them started; or what is wrong with the first package that has to be installed
/// and whose fields cannot be read.
pub fn plan_sync(required: &TextMap<RequiredPackage>, installed: &TextMap<PackageVersion>) -> (r:
    Result<Schedule, DescriptionParseError>)
    requires
        required_wf(required),
        installed_wf(installed),
        required.keys@.len() < usize::MAX,
    ensures
        match r {
            Ok(schedule) => {
                &&& plan_fault(
                    texts(required.keys@),
                    required_views(required.values@),
                    installed@,
                ) is None
                &&& schedule.wf()
                &&& schedule.running@.len() == 0
                &&& schedule.tasks@ == sync_table(required, installed)
            },
            Err(error) => error.wf() && plan_fault(
                texts(required.keys@),
                required_views(required.values@),
                installed@,
            ) == Some(error@),
        },
{
    let tasks = match sync_tasks(required, installed) {
        Ok(tasks) => tasks,
        Err(error) => {
            return Err(error);
        },
    };
    proof {
        let needed = texts(required.keys@);
        let items = required_views(required.values@);
        lemma_texts_distinct(needed);
        lemma_texts_distinct(texts(installed.keys@));
        lemma_plan_sound(needed, items, installed@);
        tasks_are_balanced(
            planned(needed, items, installed@),
            needed,
            texts(installed.keys@),
            version_views(installed.values@),
            required@,
        );
    }
    Ok(Schedule::new(tasks))
}

/// The version of a package in a library once the tasks are done: the one that was installed,
/// none where the package was removed, and otherwise what was there before.
pub open spec fn version_after(
    tasks: Seq<TaskRowV>,
    installed: Map<Seq<char>, PackageVersion>,
    name: Seq<char>,
) -> Option<PackageVersionV> {
    let install = TaskIdV { package: name, kind: TaskKind::Install };
    if holds_task(tasks, install) {
        Some(tasks[place_of(tasks, install)].version)
    } else if holds_task(tasks, TaskIdV { package: name, kind: TaskKind::Remove }) {
        None
    } else {
        installed_at(installed, name)
    }
}

spec fn plans(
    names: Seq<Seq<char>>,
    items: Seq<RequiredV>,
    installed: Map<Seq<char>, PackageVersion>,
    p: PlannedV,
    k: int,
) -> bool {
    &&& 0 <= k < names.len()
    &&& requires_install(items[k].version, installed_at(installed, names[k]))
    &&& p.name == names[k]
    &&& p.version == items[k].version
    &&& p.dependencies == dependency_names(items[k].description)
}

proof fn lemma_planned_members(
    names: Seq<Seq<char>>,
    items: Seq<RequiredV>,
    installed: Map<Seq<char>, PackageVersion>,
)
    requires
        names.len() == items.len(),
    ensures
        forall|p: PlannedV| #[trigger]
            planned(names, items, installed).contains(p) <==> exists|k: int|
                plans(names, items, installed, p, k),
    decreases names.len(),
{
    let plan = planned(names, items, installed);
    if names.len() > 0 {
        let n = names.drop_last();
        let t = items.drop_last();
        let rest = planned(n, t, installed);
        let last: int = names.len() - 1;
        lemma_planned_members(n, t, installed);
        assert forall|p: PlannedV| #[trigger] plan.contains(p) implies exists|k: int|
            plans(names, items, installed, p, k) by {
            let i = choose|i: int| 0 <= i < plan.len() && plan[i] == p;
            if i < rest.len() {
                assert(rest[i] == p);
                assert(rest.contains(p));
                let k = choose|k: int| plans(n, t, installed, p, k);
                assert(plans(names, items, installed, p, k));
            } else {
                assert(plans(names, items, installed, p, last));
            }
        }
        assert forall|p: PlannedV|
            (exists|k: int| plans(names, items, installed, p, k)) implies #[trigger] plan.contains(
            p,
        ) by {
            let k = choose|k: int| plans(names, items, installed, p, k);
            if k < last {
                assert(plans(n, t, installed, p, k));
                assert(rest.contains(p));
                let i = choose|i: int| 0 <= i < rest.len() && rest[i] == p;
                assert(plan[i] == p);
            } else {
                assert(plan[plan.len() - 1] == p);
            }
        }
    }
}

proof fn lemma_removal_members(
    names: Seq<Seq<char>>,
    versions: Seq<PackageVersionV>,
    required: Map<Seq<char>, RequiredPackage>,
    name: Seq<char>,
)
    requires
        names.len() == versions.len(),
    ensures
        holds_task(
            removal_rows(names, versions, required),
            TaskIdV { package: name, kind: TaskKind::Remove },
        ) <==> names.contains(name) && !required.contains_key(name),
    decreases names.len(),
{
    let rows = removal_rows(names, versions, required);
    let id = TaskIdV { package: name, kind: TaskKind::Remove };
    if names.len() > 0 {
        let front = names.drop_last();
        let rest = removal_rows(front, versions.drop_last(), required);
        lemma_removal_members(front, versions.drop_last(), required, name);
        if holds_task(rows, id) {
            let i = choose|i: int| 0 <= i < rows.len() && (#[trigger] rows[i]).task == id;
            if i < rest.len() {
                assert(rest[i].task == id);
                let k = choose|k: int| 0 <= k < front.len() && front[k] == name;
                assert(names[k] == name);
            } else {
                assert(names[names.len() - 1] == name);
            }
        }
        if names.contains(name) && !required.contains_key(name) {
            let k = choose|k: int| 0 <= k < names.len() && names[k] == name;
            if k < front.len() {
                assert(front[k] == name);
                let i = choose|i: int| 0 <= i < rest.len() && (#[trigger] rest[i]).task == id;
                assert(rows[i].task == id);
            } else {
                assert(rows[rows.len() - 1].task == id);
            }
        }
    }
}

/// Once all tasks are done, a library holds the packages that the project needs and no others,
/// each in the version that it needs.
pub proof fn syncing_makes_the_library_exact(
    required: &TextMap<RequiredPackage>,
    installed: &TextMap<PackageVersion>,
    name: Seq<char>,
)
    requires
        required_wf(required),
        installed_wf(installed),
    ensures
        match version_after(sync_table(required, installed), installed@, name) {
            Some(version) => required@.contains_key(name) && required@[name].version@.order(version)
                == Order::Equal,
            None => !required@.contains_key(name),
        },
{
    let names = texts(required.keys@);
    let items = required_views(required.values@);
    let inames = texts(installed.keys@);
    let versions = version_views(installed.values@);
    let plan = planned(names, items, installed@);
    let first = plan_rows(plan, plan, required@);
    let second = removal_rows(inames, versions, required@);
    let rows = task_rows(plan, inames, versions, required@);
    let tasks = sync_table(required, installed);
    let install = TaskIdV { package: name, kind: TaskKind::Install };
    let remove = TaskIdV { package: name, kind: TaskKind::Remove };
    lemma_texts_distinct(names);
    lemma_texts_distinct(inames);
    lemma_plan_sound(names, items, installed@);
    lemma_rows_balanced(plan, names, inames, versions, required@);
    lemma_collected_rows(rows);
    lemma_planned_members(names, items, installed@);
    lemma_removal_members(inames, versions, required@, name);
    lemma_removal_rows(inames, versions, required@);
    lemma_plan_rows(plan, plan, required@);
    lemma_place(tasks, install);
    if required@.contains_key(name) {
        let k = choose|k: int| key_at(required.keys@, name, k);
        required.lemma_at(k);
        assert(items[k] == required@[name]@);
        if requires_install(items[k].version, installed_at(installed@, name)) {
            let p = PlannedV {
                name,
                version: items[k].version,
                dependencies: dependency_names(items[k].description),
            };
            assert(plans(names, items, installed@, p, k));
            assert(plan.contains(p));
            let j = choose|j: int| 0 <= j < plan.len() && plan[j] == p;
            let of_package = package_rows(p, plan, required@);
            let row = install_row(p, plan, required@);
            assert(of_package[of_package.len() - 1] == row);
            assert(is_row_of(plan, plan, required@, row, j));
            let i = choose|i: int| 0 <= i < first.len() && first[i] == row;
            assert(rows[i] == row);
            assert(tasks.contains(row));
        }
    }
    if holds_task(tasks, install) {
        let row = tasks[place_of(tasks, install)];
        assert(tasks.contains(row));
        let i = choose|i: int| 0 <= i < rows.len() && rows[i] == row;
        if i >= first.len() {
            assert(second[i - first.len()] == row);
        }
        assert(first[i] == row);
        let j = choose|j: int| is_row_of(plan, plan, required@, row, j);
        let of_package = package_rows(plan[j], plan, required@);
        let a = choose|a: int| 0 <= a < of_package.len() && of_package[a] == row;
        assert(of_package[a].version == plan[j].version && of_package[a].task.package
            == plan[j].name);
        assert(plan.contains(plan[j]));
        let k = choose|k: int| plans(names, items, installed@, plan[j], k);
        required.lemma_at(k);
        assert(items[k] == required@[name]@);
        PackageVersionV::order_flips(row.version, row.version);
    }
    if holds_task(tasks, remove) {
        let i = choose|i: int| 0 <= i < tasks.len() && (#[trigger] tasks[i]).task == remove;
        assert(tasks.contains(tasks[i]));
        let b = choose|b: int| 0 <= b < rows.len() && rows[b] == tasks[i];
        if b < first.len() {
            assert(first[b] == rows[b]);
            let j = choose|j: int| is_row_of(plan, plan, required@, first[b], j);
            let of_package = package_rows(plan[j], plan, required@);
            let a = choose|a: int| 0 <= a < of_package.len() && of_package[a] == first[b];
            lemma_package_row(plan[j], plan, required@, a);
        }
        assert(second[b - first.len()].task == remove);
    } else if installed@.contains_key(name) && !required@.contains_key(name) {
        let k = choose|k: int| key_at(installed.keys@, name, k);
        assert(inames[k] == name);
        let b = choose|b: int| 0 <= b < second.len() && (#[trigger] second[b]).task == remove;
        assert(rows[first.len() + b] == second[b]);
        assert(tasks.contains(second[b]));
        let c = choose|c: int| 0 <= c < tasks.len() && tasks[c] == second[b];
        assert(tasks[c].task == remove);
    }
}

/// Whether the package of the project itself is installed.
#[derive(Clone, Copy, PartialEq, Eq, Structural, Debug)]
pub enum ProjectPackageMode {
    Install,
    Omit,
}

impl From<bool> for ProjectPackageMode {
    fn from(no_install: bool) -> (r: Self) {
        if no_install {
            ProjectPackageMode::Omit
        } else {
            ProjectPackageMode::Install
        }
    }
}

impl vstd::std_specs::convert::FromSpecImpl<bool> for ProjectPackageMode {
    open spec fn obeys_from_spec() -> bool {
        true
    }

    open spec fn from_spec(no_install: bool) -> Self {
        if no_install {
            ProjectPackageMode::Omit
        } else {
            ProjectPackageMode::Install
        }
    }
}

/// What is done about missing system dependencies.
#[derive(Clone, Copy, PartialEq, Eq, Structural, Debug)]
pub enum SystemSyncMode {
    Check,
    Install,
    InstallOnly,
}

impl SystemSyncMode {
    /// What is done, by the two flags of the command line.
    pub fn from_flags(install_system: bool, install_only_system: bool) -> (r: SystemSyncMode)
        ensures
            r == if install_only_system {
                SystemSyncMode::InstallOnly
            } else if install_system {
                SystemSyncMode::Install
            } else {
                SystemSyncMode::Check
            },
    {
        if install_only_system {
            SystemSyncMode::InstallOnly
        } else if install_system {
            SystemSyncMode::Install
        } else {
            SystemSyncMode::Check
        }
    }
}

/// Whether a project is a package itself.
#[derive(Clone, Copy, PartialEq, Eq, Structural, Debug)]
pub enum ProjectType {
    Package,
    Project,
}

/// The packages that a library is to hold: those that were resolved, but for one of the name
/// of the project; and the project itself, from its directory, if it is a package and not
/// left out.
pub fn with_project_package(
    required: TextMap<RequiredPackage>,
    source_name: String,
    root: &str,
    description: &Description,
    project_type: ProjectType,
    mode: ProjectPackageMode,
) -> (r: Result<TextMap<RequiredPackage>, DescriptionParseError>)
    requires
        required_wf(&required),
        fits(description@),
    ensures
        match r {
            Ok(all) => {
                &&& identity_issues(description@).len() == 0
                &&& required_wf(&all)
                &&& field_of(description@, "Package"@) matches Some(field) && if project_type
                    == ProjectType::Package && mode == ProjectPackageMode::Install {
                    &&& all@.contains_key(field.message)
                    &&& all@ == required@.remove(field.message).insert(
                        field.message,
                        all@[field.message],
                    )
                    &&& all@[field.message]@.description == description@
                    &&& all@[field.message]@.version.repository == RepositoryV::Local(
                        root@,
                        Some(description@),
                    )
                    &&& Some(all@[field.message]@.version.version.text) == (match field_of(
                        description@,
                        "Version"@,
                    ) {
                        Some(version) => Some(version.message),
                        None => None,
                    })
                } else {
                    all@ == required@.remove(field.message)
                }
            },
            Err(error) => {
                &&& identity_issues(description@).len() > 0
                &&& error.wf()
                &&& error@ == (ErrorV {
                    source_name: source_name@,
                    source_code: description@,
                    issues: identity_issues(description@),
                })
            },
        },
{
    let (root_name, root_version) = match root_package(source_name, description) {
        Ok(identity) => identity,
        Err(error) => {
            return Err(error);
        },
    };
    let mut all = required;
    let ghost before = all;
    all.remove(root_name.as_str());
    proof {
        lemma_values_come_from(&before, &all, root_name@);
    }
    if project_type == ProjectType::Package && mode == ProjectPackageMode::Install {
        let repository = LocalRepository::new(root.to_owned()).with_description(
            description.copy(),
        );
        let version = PackageVersion::new(root_version, PackageRepository::Local(repository));
        let ghost middle = all;
        let ghost name = root_name@;
        let package = RequiredPackage { version, description: description.copy() };
        let ghost given = package;
        all.insert(root_name, package);
        proof {
            assert forall|i: int| 0 <= i < all.values@.len() implies (
            #[trigger] all.values@[i]).version.wf() && fits(all.values@[i].description@) by {
                all.lemma_at(i);
                let key = all.keys@[i]@;
                if key != name {
                    assert(middle@.contains_key(key));
                    lemma_value_wf(&middle, key);
                } else {
                    assert(all.values@[i] == given);
                }
            }
        }
    }
    Ok(all)
}

proof fn lemma_value_wf(map: &TextMap<RequiredPackage>, key: Seq<char>)
    requires
        required_wf(map),
        map@.contains_key(key),
    ensures
        map@[key].version.wf(),
        fits(map@[key].description@),
{
    let i = choose|i: int| crate::sorted::key_at(map.keys@, key, i);
    map.lemma_at(i);
    assert(map.values@[i].version.wf());
}

proof fn lemma_values_come_from(
    before: &TextMap<RequiredPackage>,
    after: &TextMap<RequiredPackage>,
    name: Seq<char>,
)
    requires
        required_wf(before),
        after.wf(),
        after@ == before@.remove(name),
    ensures
        required_wf(after),
{
    assert forall|i: int| 0 <= i < after.values@.len() implies (
    #[trigger] after.values@[i]).version.wf() && fits(after.values@[i].description@) by {
        after.lemma_at(i);
        let key = after.keys@[i]@;
        assert(before@.contains_key(key));
        lemma_value_wf(before, key);
    }
}

/// A field names a package.
pub open spec fn field_names(field: ParsedFieldV, name: Seq<char>) -> bool {
    exists|i: int|
        0 <= i < field.entries.len() && parsed_relation(
            (#[trigger] field.entries[i]).message,
        )->Ok_0.0 == name
}

/// A package needs another one, which is not R: one of its fields `Imports`, `Depends` and
/// `LinkingTo` names it.
pub open spec fn needs_package(document: Seq<char>, name: Seq<char>) -> bool {
    name != "R"@ && (field_names(imports_of(document), name) || field_names(
        depends_of(document),
        name,
    ) || field_names(linking_to_of(document), name))
}

proof fn lemma_field_names(field: ParsedFieldV, name: Seq<char>)
    ensures
        field_names(field, name) <==> package_names(field_relations(field)).contains(name),
{
    let names = package_names(field_relations(field));
    if field_names(field, name) {
        let i = choose|i: int|
            0 <= i < field.entries.len() && parsed_relation(
                (#[trigger] field.entries[i]).message,
            )->Ok_0.0 == name;
        assert(names[i] == name);
    }
    if names.contains(name) {
        let i = choose|i: int| 0 <= i < names.len() && names[i] == name;
        assert(parsed_relation(field.entries[i].message)->Ok_0.0 == name);
    }
}

proof fn lemma_name_among(s: Seq<RelationV>, name: Seq<char>)
    ensures
        package_names(s).contains(name) <==> exists|r: RelationV| #[trigger]
            s.contains(r) && r.package == name,
{
    let names = package_names(s);
    if names.contains(name) {
        let i = choose|i: int| 0 <= i < names.len() && names[i] == name;
        assert(s.contains(s[i]));
    }
    if exists|r: RelationV| #[trigger] s.contains(r) && r.package == name {
        let r = choose|r: RelationV| #[trigger] s.contains(r) && r.package == name;
        let i = choose|i: int| 0 <= i < s.len() && s[i] == r;
        assert(names[i] == name);
    }
}

proof fn lemma_names_joined(a: Seq<RelationV>, b: Seq<RelationV>, name: Seq<char>)
    ensures
        package_names(a + b).contains(name) <==> package_names(a).contains(name) || package_names(
            b,
        ).contains(name),
{
    let x = package_names(a);
    let y = package_names(b);
    let z = package_names(a + b);
    assert(z =~= x + y);
    if z.contains(name) {
        let i = choose|i: int| 0 <= i < z.len() && z[i] == name;
        if i < x.len() {
            assert(x[i] == name);
        } else {
            assert(y[i - x.len()] == name);
        }
    }
    if x.contains(name) {
        let i = choose|i: int| 0 <= i < x.len() && x[i] == name;
        assert(z[i] == name);
    }
    if y.contains(name) {
        let i = choose|i: int| 0 <= i < y.len() && y[i] == name;
        assert(z[x.len() + i] == name);
    }
}

proof fn lemma_hard_relations(document: Seq<char>)
    ensures
        all_relations(hard_fields(document)) == field_relations(imports_of(document))
            + field_relations(depends_of(document)) + field_relations(linking_to_of(document)),
{
    let fields = hard_fields(document);
    let a = field_relations(imports_of(document));
    let b = field_relations(depends_of(document));
    let two = fields.drop_last();
    let one = two.drop_last();
    assert(one.drop_last() =~= Seq::<(Seq<char>, ParsedFieldV)>::empty());
    assert(all_relations(one.drop_last()) =~= Seq::<RelationV>::empty());
    assert(one.last() == ("Imports"@, imports_of(document)));
    assert(two.last() == ("Depends"@, depends_of(document)));
    assert(fields.last() == ("LinkingTo"@, linking_to_of(document)));
    assert(all_relations(one) =~= a);
    assert(all_relations(two) =~= a + b);
}

/// A name that is among relations is among those that stay of equal ones.
proof fn lemma_collected_names(all: Seq<RelationV>, name: Seq<char>)
    ensures
        package_names(collected(all)).contains(name) <==> package_names(all).contains(name),
{
    let set = collected(all);
    lemma_collected(all);
    lemma_name_among(all, name);
    lemma_name_among(set, name);
    if package_names(all).contains(name) {
        let r = choose|r: RelationV| #[trigger] all.contains(r) && r.package == name;
        let i = choose|i: int| 0 <= i < all.len() && all[i] == r;
        assert(has_equal(set, all[i]));
        let k = choose|k: int| 0 <= k < set.len() && (#[trigger] set[k]).order(all[i])
            == Order::Equal;
        equal_relations_share_their_package(set[k], all[i]);
        assert(set.contains(set[k]));
    }
}

proof fn lemma_kept_names(set: Seq<RelationV>, name: Seq<char>)
    ensures
        package_names(dropped(set, r_only())).contains(name) <==> package_names(set).contains(name)
            && name != "R"@,
{
    let kept = dropped(set, r_only());
    lemma_dropped(set, r_only());
    lemma_name_among(set, name);
    lemma_name_among(kept, name);
    assert(r_only().contains(name) <==> name == "R"@) by {
        assert(r_only()[0] == "R"@);
    }
    if package_names(kept).contains(name) {
        let r = choose|r: RelationV| #[trigger] kept.contains(r) && r.package == name;
        assert(set.contains(r));
    }
    if package_names(set).contains(name) && name != "R"@ {
        let r = choose|r: RelationV| #[trigger] set.contains(r) && r.package == name;
        assert(kept.contains(r));
    }
}

proof fn lemma_collected_texts(list: Seq<Seq<char>>, name: Seq<char>)
    ensures
        collected(list).contains(name) <==> list.contains(name),
{
    lemma_collected(list);
    if list.contains(name) {
        let i = choose|i: int| 0 <= i < list.len() && list[i] == name;
        assert(has_equal(collected(list), list[i]));
        lemma_text_member(collected(list), name);
    }
}

/// The names that a package needs are those of the packages that its fields name, R left out.
pub proof fn needed_names_come_from_the_fields(document: Seq<char>, name: Seq<char>)
    ensures
        dependency_names(document).contains(name) <==> needs_package(document, name),
{
    let a = field_relations(imports_of(document));
    let b = field_relations(depends_of(document));
    let c = field_relations(linking_to_of(document));
    let all = all_relations(hard_fields(document));
    lemma_hard_relations(document);
    lemma_names_joined(a, b, name);
    lemma_names_joined(a + b, c, name);
    lemma_field_names(imports_of(document), name);
    lemma_field_names(depends_of(document), name);
    lemma_field_names(linking_to_of(document), name);
    lemma_collected_names(all, name);
    lemma_kept_names(collected(all), name);
    lemma_collected_texts(package_names(dropped(collected(all), r_only())), name);
}

/// The installation of a package.
pub open spec fn installation(package: Seq<char>) -> TaskIdV {
    TaskIdV { package, kind: TaskKind::Install }
}

/// What is known of the installation of a package: it is in the table exactly if it has to be
/// done, with one row that is the one for its place in the plan.
proof fn lemma_installation(
    required: &TextMap<RequiredPackage>,
    installed: &TextMap<PackageVersion>,
    package: Seq<char>,
)
    requires
        required_wf(required),
        installed_wf(installed),
    ensures
        ({
            let plan = planned(
                texts(required.keys@),
                required_views(required.values@),
                installed@,
            );
            let tasks = sync_table(required, installed);
            &&& holds_task(tasks, installation(package)) <==> required@.contains_key(package)
                && requires_install(
                required@[package].version@,
                installed_at(installed@, package),
            )
            &&& required@.contains_key(package) && requires_install(
                required@[package].version@,
                installed_at(installed@, package),
            ) ==> plan.contains(
                (PlannedV {
                    name: package,
                    version: required@[package].version@,
                    dependencies: dependency_names(required@[package].description@),
                }),
            )
            &&& forall|i: int|
                0 <= i < tasks.len() && (#[trigger] tasks[i]).task == installation(package)
                    ==> tasks[i] == install_row(
                    PlannedV {
                        name: package,
                        version: required@[package].version@,
                        dependencies: dependency_names(required@[package].description@),
                    },
                    plan,
                    required@,
                )
        }),
{
    let names = texts(required.keys@);
    let items = required_views(required.values@);
    let inames = texts(installed.keys@);
    let versions = version_views(installed.values@);
    let plan = planned(names, items, installed@);
    let first = plan_rows(plan, plan, required@);
    let second = removal_rows(inames, versions, required@);
    let rows = task_rows(plan, inames, versions, required@);
    let tasks = sync_table(required, installed);
    let p = PlannedV {
        name: package,
        version: required@[package].version@,
        dependencies: dependency_names(required@[package].description@),
    };
    let row = install_row(p, plan, required@);
    let of_p = package_rows(p, plan, required@);
    lemma_texts_distinct(names);
    lemma_texts_distinct(inames);
    lemma_plan_sound(names, items, installed@);
    lemma_rows_balanced(plan, names, inames, versions, required@);
    lemma_collected_rows(rows);
    lemma_planned_members(names, items, installed@);
    lemma_removal_rows(inames, versions, required@);
    lemma_plan_rows(plan, plan, required@);
    if required@.contains_key(package) && requires_install(
        required@[package].version@,
        installed_at(installed@, package),
    ) {
        let k = choose|k: int| key_at(required.keys@, package, k);
        required.lemma_at(k);
        assert(items[k] == required@[package]@);
        assert(plans(names, items, installed@, p, k));
        assert(plan.contains(p));
        let j = choose|j: int| 0 <= j < plan.len() && plan[j] == p;
        assert(of_p[of_p.len() - 1] == row);
        assert(is_row_of(plan, plan, required@, row, j));
        let i = choose|i: int| 0 <= i < first.len() && first[i] == row;
        assert(rows[i] == row);
        assert(rows.contains(row));
        assert(tasks.contains(row));
        let t = choose|t: int| 0 <= t < tasks.len() && tasks[t] == row;
        assert(tasks[t].task == installation(package));
    }
    assert forall|i: int|
        0 <= i < tasks.len() && (#[trigger] tasks[i]).task == installation(package) implies tasks[i]
        == row && required@.contains_key(package) && requires_install(
        required@[package].version@,
        installed_at(installed@, package),
    ) by {
        let found = tasks[i];
        assert(tasks.contains(found));
        let b = choose|b: int| 0 <= b < rows.len() && rows[b] == found;
        if b >= first.len() {
            assert(second[b - first.len()] == found);
        }
        assert(first[b] == found);
        let j = choose|j: int| is_row_of(plan, plan, required@, found, j);
        let of_package = package_rows(plan[j], plan, required@);
        let a = choose|a: int| 0 <= a < of_package.len() && of_package[a] == found;
        assert(of_package[a].task.kind == TaskKind::Install ==> a == of_package.len() - 1);
        assert(plan.contains(plan[j]));
        let k = choose|k: int| plans(names, items, installed@, plan[j], k);
        required.lemma_at(k);
        assert(items[k] == required@[package]@);
        assert(plan[j] == p);
    }
}

/// A package is installed exactly if the project needs it and the library does not hold it in
/// an equal version, or if it comes from a Git repository or a directory.
pub proof fn packages_are_installed_if_they_have_to_be(
    required: &TextMap<RequiredPackage>,
    installed: &TextMap<PackageVersion>,
    package: Seq<char>,
)
    requires
        required_wf(required),
        installed_wf(installed),
    ensures
        holds_task(sync_table(required, installed), installation(package)) <==> {
            &&& required@.contains_key(package)
            &&& {
                ||| required@[package].version@.repository is Git
                ||| required@[package].version@.repository is Local
                ||| !installed@.contains_key(package)
                ||| components_order(
                    required@[package].version@.version.components,
                    installed@[package]@.version.components,
                ) != Order::Equal
            }
        },
        forall|i: int|
            0 <= i < sync_table(required, installed).len() && (#[trigger] sync_table(
                required,
                installed,
            )[i]).task == installation(package) ==> sync_table(required, installed)[i].version
                == required@[package].version@,
{
    lemma_installation(required, installed, package);
}

/// Every package is installed after those that it needs: the installation of a package that is
/// planned is among those that wait for the installation of each planned package that its
/// fields name, and it waits for no other package. The installation knows all packages that the
/// fields name, each with the version that the project needs of it.
pub proof fn packages_are_installed_after_those_they_need(
    required: &TextMap<RequiredPackage>,
    installed: &TextMap<PackageVersion>,
    package: Seq<char>,
    needed: Seq<char>,
    i: int,
    j: int,
)
    requires
        required_wf(required),
        installed_wf(installed),
        0 <= i < sync_table(required, installed).len(),
        sync_table(required, installed)[i].task == installation(package),
        0 <= j < sync_table(required, installed).len(),
        sync_table(required, installed)[j].task == installation(needed),
    ensures
        sync_table(required, installed)[j].dependents.contains(installation(package))
            <==> needs_package(required@[package].description@, needed),
        sync_table(required, installed)[i].dependencies.contains(
            (needed, Some(required@[needed].version@.version.text)),
        ) <==> needs_package(required@[package].description@, needed),
{
    let plan = planned(texts(required.keys@), required_views(required.values@), installed@);
    let tasks = sync_table(required, installed);
    lemma_installation(required, installed, package);
    lemma_installation(required, installed, needed);
    let p = PlannedV {
        name: package,
        version: required@[package].version@,
        dependencies: dependency_names(required@[package].description@),
    };
    assert(holds_task(tasks, installation(package))) by {
        assert(tasks[i].task == installation(package));
    }
    assert(holds_task(tasks, installation(needed))) by {
        assert(tasks[j].task == installation(needed));
    }
    needed_names_come_from_the_fields(required@[package].description@, needed);
    lemma_dependent_ids(plan, needed, installation(package));
    lemma_collected_tasks(dependent_ids(plan, needed), installation(package));
    lemma_texts_distinct(texts(required.keys@));
    lemma_plan_sound(texts(required.keys@), required_views(required.values@), installed@);
    assert(needs(plan, package, needed) <==> p.dependencies.contains(needed)) by {
        let k = choose|k: int| 0 <= k < plan.len() && plan[k] == p;
        if needs(plan, package, needed) {
            let m = choose|m: int|
                0 <= m < plan.len() && (#[trigger] plan[m]).name == package
                    && plan[m].dependencies.contains(needed);
            if m < k {
                assert(plan[m].name != plan[k].name);
            } else if k < m {
                assert(plan[k].name != plan[m].name);
            }
        }
        if p.dependencies.contains(needed) {
            assert(plan[k].name == package && plan[k].dependencies.contains(needed));
        }
    }
    let listed = inputs(p.dependencies, required@);
    if p.dependencies.contains(needed) {
        let m = choose|m: int| 0 <= m < p.dependencies.len() && p.dependencies[m] == needed;
        assert(listed[m] == (needed, required_text(required@, needed)));
    }
    if listed.contains((needed, Some(required@[needed].version@.version.text))) {
        let m = choose|m: int|
            0 <= m < listed.len() && listed[m] == (
                needed,
                Some(required@[needed].version@.version.text),
            );
        assert(p.dependencies[m] == needed);
    }
}

/// The installation of a package knows exactly the packages that its fields name, those that
/// the project does not need without a version.
pub proof fn installations_know_what_packages_need(
    required: &TextMap<RequiredPackage>,
    installed: &TextMap<PackageVersion>,
    package: Seq<char>,
    i: int,
    name: Seq<char>,
    version: Option<Seq<char>>,
)
    requires
        required_wf(required),
        installed_wf(installed),
        0 <= i < sync_table(required, installed).len(),
        sync_table(required, installed)[i].task == installation(package),
    ensures
        sync_table(required, installed)[i].dependencies.contains((name, version)) <==> {
            &&& needs_package(required@[package].description@, name)
            &&& match version {
                Some(text) => required@.contains_key(name)
                    && required@[name].version@.version.text == text,
                None => !required@.contains_key(name),
            }
        },
{
    lemma_installation(required, installed, package);
    let names = dependency_names(required@[package].description@);
    let listed = inputs(names, required@);
    needed_names_come_from_the_fields(required@[package].description@, name);
    if names.contains(name) {
        let m = choose|m: int| 0 <= m < names.len() && names[m] == name;
        assert(listed[m] == (name, required_text(required@, name)));
    }
    if listed.contains((name, version)) {
        let m = choose|m: int| 0 <= m < listed.len() && listed[m] == (name, version);
        assert(names[m] == name);
    }
}

/// The step before the installation of a package.
proof fn lemma_steps(
    required: &TextMap<RequiredPackage>,
    installed: &TextMap<PackageVersion>,
    package: Seq<char>,
    kind: TaskKind,
)
    requires
        required_wf(required),
        installed_wf(installed),
        kind != TaskKind::Install,
        kind != TaskKind::Remove,
    ensures
        ({
            let tasks = sync_table(required, installed);
            let p = PlannedV {
                name: package,
                version: required@[package].version@,
                dependencies: dependency_names(required@[package].description@),
            };
            let plan = planned(
                texts(required.keys@),
                required_views(required.values@),
                installed@,
            );
            let of_p = package_rows(p, plan, required@);
            let id = TaskIdV { package, kind };
            let due = holds_task(tasks, installation(package));
            &&& due ==> forall|a: int|
                0 <= a < of_p.len() ==> tasks.contains(#[trigger] of_p[a])
            &&& forall|i: int|
                0 <= i < tasks.len() && (#[trigger] tasks[i]).task == id ==> due && of_p.contains(
                    tasks[i],
                )
        }),
{
    let names = texts(required.keys@);
    let items = required_views(required.values@);
    let inames = texts(installed.keys@);
    let versions = version_views(installed.values@);
    let plan = planned(names, items, installed@);
    let first = plan_rows(plan, plan, required@);
    let second = removal_rows(inames, versions, required@);
    let rows = task_rows(plan, inames, versions, required@);
    let tasks = sync_table(required, installed);
    let id = TaskIdV { package, kind };
    let p = PlannedV {
        name: package,
        version: required@[package].version@,
        dependencies: dependency_names(required@[package].description@),
    };
    let of_p = package_rows(p, plan, required@);
    lemma_installation(required, installed, package);
    lemma_texts_distinct(names);
    lemma_texts_distinct(inames);
    lemma_plan_sound(names, items, installed@);
    lemma_rows_balanced(plan, names, inames, versions, required@);
    lemma_collected_rows(rows);
    lemma_planned_members(names, items, installed@);
    lemma_removal_rows(inames, versions, required@);
    lemma_plan_rows(plan, plan, required@);
    if holds_task(tasks, installation(package)) {
        let j = choose|j: int| 0 <= j < plan.len() && plan[j] == p;
        assert forall|a: int| 0 <= a < of_p.len() implies tasks.contains(#[trigger] of_p[a]) by {
            assert(is_row_of(plan, plan, required@, of_p[a], j));
            let i = choose|i: int| 0 <= i < first.len() && first[i] == of_p[a];
            assert(rows[i] == of_p[a]);
            assert(rows.contains(of_p[a]));
        }
    }
    assert forall|i: int| 0 <= i < tasks.len() && (#[trigger] tasks[i]).task == id implies holds_task(
        tasks,
        installation(package),
    ) && of_p.contains(tasks[i]) by {
        let found = tasks[i];
        assert(tasks.contains(found));
        let b = choose|b: int| 0 <= b < rows.len() && rows[b] == found;
        if b >= first.len() {
            assert(second[b - first.len()] == found);
        }
        assert(first[b] == found);
        let j = choose|j: int| is_row_of(plan, plan, required@, found, j);
        let of_package = package_rows(plan[j], plan, required@);
        let a = choose|a: int| 0 <= a < of_package.len() && of_package[a] == found;
        lemma_package_row(plan[j], plan, required@, a);
        assert(plan.contains(plan[j]));
        let k = choose|k: int| plans(names, items, installed@, plan[j], k);
        required.lemma_at(k);
        assert(items[k] == required@[package]@);
        assert(plan[j] == p);
    }
}

/// What is done for a package that is installed: one of a registry is downloaded, one of a Git
/// repository is checked out and then built, and one of a directory is built, each before it is
/// installed; nothing is done for any other package.
pub proof fn packages_are_made_ready_for_installation(
    required: &TextMap<RequiredPackage>,
    installed: &TextMap<PackageVersion>,
    package: Seq<char>,
)
    requires
        required_wf(required),
        installed_wf(installed),
    ensures
        ({
            let tasks = sync_table(required, installed);
            let repository = required@[package].version@.repository;
            let due = holds_task(tasks, installation(package));
            let download = TaskIdV { package, kind: TaskKind::Download };
            let checkout = TaskIdV { package, kind: TaskKind::Checkout };
            let build = TaskIdV { package, kind: TaskKind::Build };
            &&& holds_task(tasks, download) <==> due && !(repository is Git) && !(
            repository is Local)
            &&& holds_task(tasks, checkout) <==> due && repository is Git
            &&& holds_task(tasks, build) <==> due && (repository is Git || repository is Local)
            &&& forall|i: int|
                0 <= i < tasks.len() && ((#[trigger] tasks[i]).task == download || tasks[i].task
                    == build) ==> tasks[i].dependents == seq![installation(package)]
                    && tasks[i].version == required@[package].version@
            &&& forall|i: int|
                0 <= i < tasks.len() && (#[trigger] tasks[i]).task == checkout
                    ==> tasks[i].dependents == seq![build] && tasks[i].version
                    == required@[package].version@
        }),
{
    let tasks = sync_table(required, installed);
    let p = PlannedV {
        name: package,
        version: required@[package].version@,
        dependencies: dependency_names(required@[package].description@),
    };
    let plan = planned(texts(required.keys@), required_views(required.values@), installed@);
    let of_p = package_rows(p, plan, required@);
    let download = TaskIdV { package, kind: TaskKind::Download };
    let checkout = TaskIdV { package, kind: TaskKind::Checkout };
    let build = TaskIdV { package, kind: TaskKind::Build };
    lemma_steps(required, installed, package, TaskKind::Download);
    lemma_steps(required, installed, package, TaskKind::Checkout);
    lemma_steps(required, installed, package, TaskKind::Build);
    assert(of_p.len() == 2 || of_p.len() == 3);
    if holds_task(tasks, installation(package)) {
        assert(tasks.contains(of_p[0]) && tasks.contains(of_p[1]));
        let a = choose|a: int| 0 <= a < tasks.len() && tasks[a] == of_p[0];
        assert(tasks[a].task == of_p[0].task);
        let b = choose|b: int| 0 <= b < tasks.len() && tasks[b] == of_p[1];
        assert(tasks[b].task == of_p[1].task);
    }
}

/// A plan fails for the first package that has to be installed and whose needs cannot be read,
/// and for no other.
pub proof fn plans_fail_for_unreadable_needs(
    names: Seq<Seq<char>>,
    items: Seq<RequiredV>,
    installed: Map<Seq<char>, PackageVersion>,
    i: int,
)
    requires
        names.len() == items.len(),
        0 <= i < names.len(),
        forall|k: int|
            0 <= k < i ==> !requires_install(
                items[k].version,
                installed_at(installed, #[trigger] names[k]),
            ) || relation_issues(hard_fields(items[k].description)).len() == 0,
    ensures
        requires_install(items[i].version, installed_at(installed, names[i])) && relation_issues(
            hard_fields(items[i].description),
        ).len() > 0 ==> (plan_fault(names, items, installed) matches Some(error)
            && error.source_name == names[i] + " "@ + items[i].version.version.text
            && error.source_code == items[i].description && error.issues == relation_issues(
            hard_fields(items[i].description),
        )),
        i == names.len() - 1 && (!requires_install(
            items[i].version,
            installed_at(installed, names[i]),
        ) || relation_issues(hard_fields(items[i].description)).len() == 0) ==> plan_fault(
            names,
            items,
            installed,
        ) is None,
    decreases names.len(),
{
    let t = names.drop_last();
    let u = items.drop_last();
    let n = names.len() - 1;
    assert(names[n] == names.last() && items[n] == items.last());
    if i < n {
        assert(t[i] == names[i] && u[i] == items[i]);
        assert forall|k: int| 0 <= k < i implies !requires_install(
            u[k].version,
            installed_at(installed, #[trigger] t[k]),
        ) || relation_issues(hard_fields(u[k].description)).len() == 0 by {
            assert(t[k] == names[k] && u[k] == items[k]);
        }
        plans_fail_for_unreadable_needs(t, u, installed, i);
    } else if n > 0 {
        assert forall|k: int| 0 <= k < n - 1 implies !requires_install(
            u[k].version,
            installed_at(installed, #[trigger] t[k]),
        ) || relation_issues(hard_fields(u[k].description)).len() == 0 by {
            assert(t[k] == names[k] && u[k] == items[k]);
        }
        assert(t[n - 1] == names[n - 1] && u[n - 1] == items[n - 1]);
        plans_fail_for_unreadable_needs(t, u, installed, n - 1);
    }
}

/// A package of the library is removed exactly if the project does not require it; nothing has
/// to be waited for, and nothing that is not in the library is removed.
pub proof fn packages_are_removed_if_nothing_requires_them(
    names: Seq<Seq<char>>,
    versions: Seq<PackageVersionV>,
    required: Map<Seq<char>, RequiredPackage>,
)
    requires
        names.len() == versions.len(),
    ensures
        forall|i: int|
            0 <= i < names.len() && !required.contains_key(#[trigger] names[i]) ==> removal_rows(
                names,
                versions,
                required,
            ).contains(
                TaskRowV {
                    blockers: 0,
                    task: TaskIdV { package: names[i], kind: TaskKind::Remove },
                    version: versions[i],
                    dependencies: Seq::empty(),
                    dependents: Seq::empty(),
                },
            ),
        forall|k: int|
            0 <= k < removal_rows(names, versions, required).len() ==> {
                let row = #[trigger] removal_rows(names, versions, required)[k];
                &&& row.task.kind == TaskKind::Remove
                &&& row.blockers == 0
                &&& !required.contains_key(row.task.package)
                &&& names.contains(row.task.package)
            },
    decreases names.len(),
{
    let all = removal_rows(names, versions, required);
    if names.len() > 0 {
        let t = names.drop_last();
        let u = versions.drop_last();
        let n = names.len() - 1;
        let rest = removal_rows(t, u, required);
        assert(names[n] == names.last() && versions[n] == versions.last());
        packages_are_removed_if_nothing_requires_them(t, u, required);
        assert forall|i: int|
            0 <= i < names.len() && !required.contains_key(
                #[trigger] names[i],
            ) implies all.contains(
            TaskRowV {
                blockers: 0,
                task: TaskIdV { package: names[i], kind: TaskKind::Remove },
                version: versions[i],
                dependencies: Seq::empty(),
                dependents: Seq::empty(),
            },
        ) by {
            let row = removal_row(names[i], versions[i]);
            if i < n {
                assert(t[i] == names[i] && u[i] == versions[i]);
                assert(rest.contains(row));
                let k = choose|k: int| 0 <= k < rest.len() && rest[k] == row;
                assert(all[k] == row);
            } else {
                assert(all[rest.len() as int] == row);
            }
        }
        assert forall|k: int| 0 <= k < all.len() implies {
            let row = #[trigger] all[k];
            &&& row.task.kind == TaskKind::Remove
            &&& row.blockers == 0
            &&& !required.contains_key(row.task.package)
            &&& names.contains(row.task.package)
        } by {
            if k < rest.len() {
                assert(all[k] == rest[k]);
                let j = choose|j: int| 0 <= j < t.len() && t[j] == rest[k].task.package;
                assert(names[j] == rest[k].task.package);
            }
        }
    }
}

} // verus!
