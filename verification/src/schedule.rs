//! The order in which the tasks of a synchronisation are run.
use crate::order::{
    after, compare_text, has_equal, increasing, int_order, text_order, text_order_coherent,
    text_order_equal, text_order_flips, then_order, Order, Ordered, Total,
};
use crate::resolver::{PackageVersion, PackageVersionV};
use crate::sorted::{
    collected, inserted, lemma_inserted, lemma_rank_splits, lemma_removed, replaced, SortedSet,
};
use crate::text;
use crate::text::opt_text;
use vstd::prelude::*;

verus! {

/// What a task does with a package.
#[derive(Clone, Copy, PartialEq, Eq, Structural, Debug)]
pub enum TaskKind {
    Remove,
    Download,
    Checkout,
    Build,
    Install,
}

/// The place of a kind among the kinds.
pub open spec fn kind_rank(kind: TaskKind) -> int {
    match kind {
        TaskKind::Remove => 0,
        TaskKind::Download => 1,
        TaskKind::Checkout => 2,
        TaskKind::Build => 3,
        TaskKind::Install => 4,
    }
}

fn kind_number(kind: TaskKind) -> (r: usize)
    ensures
        r == kind_rank(kind),
{
    match kind {
        TaskKind::Remove => 0,
        TaskKind::Download => 1,
        TaskKind::Checkout => 2,
        TaskKind::Build => 3,
        TaskKind::Install => 4,
    }
}

/// A task is known by its package and what it does with it.
pub type TaskId = (String, TaskKind);

/// A task is known by its package and what it does with it.
pub struct TaskIdV {
    pub package: Seq<char>,
    pub kind: TaskKind,
}

fn compare_numbers(a: usize, b: usize) -> (r: Order)
    ensures
        r == int_order(a as int, b as int),
{
    if a < b {
        Order::Less
    } else if a == b {
        Order::Equal
    } else {
        Order::Greater
    }
}

impl Total for TaskIdV {
    open spec fn order(self, other: Self) -> Order {
        then_order(
            text_order(self.package, other.package),
            int_order(kind_rank(self.kind), kind_rank(other.kind)),
        )
    }

    proof fn order_flips(a: Self, b: Self) {
        text_order_flips(a.package, b.package);
    }

    proof fn order_coherent(a: Self, b: Self, c: Self) {
        text_order_coherent(a.package, b.package, c.package);
    }
}

/// The identity of a task.
pub open spec fn id_of(task: TaskId) -> TaskIdV {
    TaskIdV { package: task.0@, kind: task.1 }
}

impl Ordered for TaskId {
    type Key = TaskIdV;

    open spec fn key(self) -> TaskIdV {
        id_of(self)
    }

    open spec fn sound(self) -> bool {
        true
    }

    fn compare(&self, other: &Self) -> (r: Order) {
        assert(self.key().order(other.key()) == id_of(*self).order(id_of(*other)));
        assert(id_of(*self).order(id_of(*other)) == then_order(
            text_order(self.0@, other.0@),
            int_order(kind_rank(self.1), kind_rank(other.1)),
        ));
        let names = compare_text(self.0.as_str(), other.0.as_str());
        let kinds = compare_numbers(kind_number(self.1), kind_number(other.1));
        after(names, kinds)
    }
}

/// Two tasks that compare as equal are the same.
pub proof fn equal_tasks_are_the_same(a: TaskIdV, b: TaskIdV)
    ensures
        a.order(b) == Order::Equal <==> a == b,
{
    text_order_equal(a.package, b.package);
}

/// A package that an installation may use, with its version if it is known.
#[derive(Debug)]
pub struct DependencyInput {
    pub name: String,
    pub version: Option<String>,
}

impl DependencyInput {
    /// The name and the version.
    pub open spec fn view(&self) -> (Seq<char>, Option<Seq<char>>) {
        (self.name@, opt_text(self.version))
    }
}

/// The names and versions of a list.
pub open spec fn input_views(v: Seq<DependencyInput>) -> Seq<(Seq<char>, Option<Seq<char>>)> {
    v.map_values(|x: DependencyInput| x@)
}

/// A task that is to be run, the number of tasks that it waits for and the tasks that wait
/// for it.
#[derive(Debug)]
pub struct TaskRow {
    pub blockers: usize,
    pub task: TaskId,
    pub version: PackageVersion,
    pub dependencies: Vec<DependencyInput>,
    pub dependents: SortedSet<TaskId>,
}

/// A task that is to be run.
pub struct TaskRowV {
    pub blockers: int,
    pub task: TaskIdV,
    pub version: PackageVersionV,
    pub dependencies: Seq<(Seq<char>, Option<Seq<char>>)>,
    pub dependents: Seq<TaskIdV>,
}

impl Total for TaskRowV {
    open spec fn order(self, other: Self) -> Order {
        then_order(int_order(self.blockers, other.blockers), self.task.order(other.task))
    }

    proof fn order_flips(a: Self, b: Self) {
        TaskIdV::order_flips(a.task, b.task);
        assert(a.order(b) == then_order(int_order(a.blockers, b.blockers), a.task.order(b.task)));
        assert(b.order(a) == then_order(int_order(b.blockers, a.blockers), b.task.order(a.task)));
    }

    proof fn order_coherent(a: Self, b: Self, c: Self) {
        TaskIdV::order_coherent(a.task, b.task, c.task);
        assert(a.order(b) == then_order(int_order(a.blockers, b.blockers), a.task.order(b.task)));
        assert(b.order(c) == then_order(int_order(b.blockers, c.blockers), b.task.order(c.task)));
        assert(a.order(c) == then_order(int_order(a.blockers, c.blockers), a.task.order(c.task)));
    }
}

impl TaskRow {
    /// The row, as characters.
    pub open spec fn view(&self) -> TaskRowV {
        TaskRowV {
            blockers: self.blockers as int,
            task: id_of(self.task),
            version: self.version@,
            dependencies: input_views(self.dependencies@),
            dependents: self.dependents@,
        }
    }

    /// The tasks that wait are in order.
    pub open spec fn wf(&self) -> bool {
        self.dependents.wf() && self.version.wf()
    }

    /// A copy.
    pub fn copy(&self) -> (r: TaskRow)
        requires
            self.wf(),
        ensures
            r.wf(),
            r@ == self@,
    {
        let inputs = copy_inputs(&self.dependencies);
        let waiting = copy_tasks(&self.dependents);
        TaskRow {
            blockers: self.blockers,
            task: (self.task.0.clone(), self.task.1),
            version: self.version.copy(),
            dependencies: inputs,
            dependents: waiting,
        }
    }
}

fn copy_inputs(list: &Vec<DependencyInput>) -> (r: Vec<DependencyInput>)
    ensures
        input_views(r@) == input_views(list@),
{
    let ghost all = input_views(list@);
    let mut out: Vec<DependencyInput> = Vec::new();
    let mut i: usize = 0;
    assert(input_views(out@) =~= all.take(0));
    while i < list.len()
        invariant
            i <= list.len(),
            all == input_views(list@),
            input_views(out@) == all.take(i as int),
        decreases list.len() - i,
    {
        let ghost before = out@;
        out.push(
            DependencyInput {
                name: list[i].name.clone(),
                version: text::copy_opt(&list[i].version),
            },
        );
        assert(input_views(out@) =~= input_views(before).push(all[i as int]));
        assert(all.take(i + 1) =~= all.take(i as int).push(all[i as int]));
        i = i + 1;
    }
    assert(all.take(i as int) =~= all);
    out
}

fn copy_tasks(list: &SortedSet<TaskId>) -> (r: SortedSet<TaskId>)
    requires
        list.wf(),
    ensures
        r.wf(),
        r@ == list@,
{
    let mut out: Vec<TaskId> = Vec::new();
    let mut i: usize = 0;
    while i < list.items.len()
        invariant
            i <= list.items.len(),
            out@.len() == i,
            forall|k: int| 0 <= k < i ==> id_of(#[trigger] out@[k]) == id_of(list.items@[k]),
        decreases list.items.len() - i,
    {
        out.push((list.items[i].0.clone(), list.items[i].1));
        i = i + 1;
    }
    let r = SortedSet { items: out };
    assert(r@ =~= list@);
    r
}

impl Ordered for TaskRow {
    type Key = TaskRowV;

    open spec fn key(self) -> TaskRowV {
        self@
    }

    open spec fn sound(self) -> bool {
        self.wf()
    }

    fn compare(&self, other: &Self) -> (r: Order) {
        assert(self.key().order(other.key()) == self@.order(other@));
        assert(self@.order(other@) == then_order(
            int_order(self.blockers as int, other.blockers as int),
            id_of(self.task).order(id_of(other.task)),
        ));
        let blockers = compare_numbers(self.blockers, other.blockers);
        let tasks = self.task.compare(&other.task);
        after(blockers, tasks)
    }
}

/// The largest number of tasks that run at the same time.
pub const SYNC_SHARED_WORKERS: usize = 50;

/// The largest number of checkouts that run at the same time.
pub const SYNC_CHECKOUT_WORKERS: usize = 1;

/// The largest number of builds and installations that run at the same time.
pub const SYNC_R_WORKERS: usize = 8;

/// The numbers of tasks that run: of all, of checkouts and of those that run R.
#[derive(Clone, Copy, PartialEq, Eq, Structural, Debug)]
pub struct ResourcePool {
    pub shared: usize,
    pub checkout: usize,
    pub r: usize,
}

/// Whether a task of this kind runs R.
pub open spec fn runs_r(kind: TaskKind) -> bool {
    kind == TaskKind::Build || kind == TaskKind::Install
}

impl ResourcePool {
    /// No limit is exceeded.
    pub open spec fn within_limits(&self) -> bool {
        &&& self.shared <= SYNC_SHARED_WORKERS
        &&& self.checkout <= SYNC_CHECKOUT_WORKERS
        &&& self.r <= SYNC_R_WORKERS
    }

    /// One more task of a kind stays within the limits.
    pub open spec fn has_place(&self, kind: TaskKind) -> bool {
        &&& self.shared < SYNC_SHARED_WORKERS
        &&& kind == TaskKind::Checkout ==> self.checkout < SYNC_CHECKOUT_WORKERS
        &&& runs_r(kind) ==> self.r < SYNC_R_WORKERS
    }

    /// A task of this kind may be among those that run.
    pub open spec fn counts(&self, kind: TaskKind) -> bool {
        &&& self.shared > 0
        &&& kind == TaskKind::Checkout ==> self.checkout > 0
        &&& runs_r(kind) ==> self.r > 0
    }

    /// A pool without running tasks.
    pub fn new() -> (r: ResourcePool)
        ensures
            r == (ResourcePool { shared: 0, checkout: 0, r: 0 }),
            r.within_limits(),
    {
        ResourcePool { shared: 0, checkout: 0, r: 0 }
    }

    /// Whether one more task of a kind stays within the limits.
    pub fn can_reserve(&self, kind: TaskKind) -> (r: bool)
        ensures
            r == self.has_place(kind),
    {
        self.shared < SYNC_SHARED_WORKERS && (kind != TaskKind::Checkout || self.checkout
            < SYNC_CHECKOUT_WORKERS) && (!(kind == TaskKind::Build || kind == TaskKind::Install)
            || self.r < SYNC_R_WORKERS)
    }

    /// Counts one more task.
    pub fn reserve(&mut self, kind: TaskKind)
        requires
            old(self).shared < usize::MAX,
            kind == TaskKind::Checkout ==> old(self).checkout < usize::MAX,
            runs_r(kind) ==> old(self).r < usize::MAX,
        ensures
            final(self).shared == old(self).shared + 1,
            final(self).checkout == old(self).checkout + (if kind == TaskKind::Checkout {
                1int
            } else {
                0
            }),
            final(self).r == old(self).r + (if runs_r(kind) {
                1int
            } else {
                0
            }),
            final(self).counts(kind),
            old(self).within_limits() && old(self).has_place(kind) ==> final(self).within_limits(),
    {
        self.shared = self.shared + 1;
        if kind == TaskKind::Checkout {
            self.checkout = self.checkout + 1;
        }
        if kind == TaskKind::Build || kind == TaskKind::Install {
            self.r = self.r + 1;
        }
    }

    /// Counts one task less.
    pub fn release(&mut self, kind: TaskKind)
        requires
            old(self).counts(kind),
        ensures
            final(self).shared == old(self).shared - 1,
            final(self).checkout == old(self).checkout - (if kind == TaskKind::Checkout {
                1int
            } else {
                0
            }),
            final(self).r == old(self).r - (if runs_r(kind) {
                1int
            } else {
                0
            }),
            old(self).within_limits() ==> final(self).within_limits(),
    {
        self.shared = self.shared - 1;
        if kind == TaskKind::Checkout {
            self.checkout = self.checkout - 1;
        }
        if kind == TaskKind::Build || kind == TaskKind::Install {
            self.r = self.r - 1;
        }
    }
}

/// No task has two rows.
pub open spec fn unique_tasks(rows: Seq<TaskRowV>) -> bool {
    forall|i: int, j: int|
        0 <= i < j < rows.len() ==> (#[trigger] rows[i]).task != (#[trigger] rows[j]).task
}

/// Some row is that of the task.
pub open spec fn holds_task(rows: Seq<TaskRowV>, task: TaskIdV) -> bool {
    exists|i: int| 0 <= i < rows.len() && (#[trigger] rows[i]).task == task
}

/// The place of the first row of a task; the end where there is none.
pub open spec fn place_of(rows: Seq<TaskRowV>, task: TaskIdV) -> int
    decreases rows.len(),
{
    if rows.len() == 0 {
        0
    } else {
        let p = place_of(rows.drop_last(), task);
        if p < rows.len() - 1 {
            p
        } else if rows.last().task == task {
            rows.len() - 1
        } else {
            rows.len() as int
        }
    }
}

/// The place of a task is that of its first row.
pub proof fn lemma_place(rows: Seq<TaskRowV>, task: TaskIdV)
    ensures
        0 <= place_of(rows, task) <= rows.len(),
        forall|i: int| 0 <= i < place_of(rows, task) ==> (#[trigger] rows[i]).task != task,
        place_of(rows, task) < rows.len() ==> rows[place_of(rows, task)].task == task,
        holds_task(rows, task) <==> place_of(rows, task) < rows.len(),
    decreases rows.len(),
{
    if rows.len() > 0 {
        let t = rows.drop_last();
        lemma_place(t, task);
        assert forall|i: int| 0 <= i < place_of(rows, task) implies (#[trigger] rows[i]).task
            != task by {
            if i < t.len() {
                assert(t[i] == rows[i]);
            }
        }
    }
    if place_of(rows, task) < rows.len() {
        assert(rows[place_of(rows, task)].task == task);
    }
}

/// The row with one task less to wait for.
pub open spec fn one_less(row: TaskRowV) -> TaskRowV {
    TaskRowV { blockers: row.blockers - 1, ..row }
}

/// The rows after a task that the given one waited for is done.
pub open spec fn released_one(rows: Seq<TaskRowV>, task: TaskIdV) -> Seq<TaskRowV> {
    let i = place_of(rows, task);
    inserted(rows.remove(i), one_less(rows[i]))
}

/// The rows after a task that the given ones waited for is done.
pub open spec fn released(rows: Seq<TaskRowV>, tasks: Seq<TaskIdV>) -> Seq<TaskRowV>
    decreases tasks.len(),
{
    if tasks.len() == 0 {
        rows
    } else {
        released_one(released(rows, tasks.drop_last()), tasks.last())
    }
}

/// Whether a task waits for the task of a row.
pub open spec fn points(row: TaskRowV, task: TaskIdV) -> int {
    if row.dependents.contains(task) {
        1
    } else {
        0
    }
}

/// The number of rows whose task the given one waits for.
pub open spec fn pointers(rows: Seq<TaskRowV>, task: TaskIdV) -> int
    decreases rows.len(),
{
    if rows.len() == 0 {
        0
    } else {
        pointers(rows.drop_last(), task) + points(rows.last(), task)
    }
}

proof fn lemma_pointers_insert(rows: Seq<TaskRowV>, i: int, row: TaskRowV, task: TaskIdV)
    requires
        0 <= i <= rows.len(),
    ensures
        pointers(rows.insert(i, row), task) == pointers(rows, task) + points(row, task),
    decreases rows.len(),
{
    let n = rows.insert(i, row);
    if i == rows.len() {
        assert(n.drop_last() =~= rows);
    } else {
        assert(n.drop_last() =~= rows.drop_last().insert(i, row));
        lemma_pointers_insert(rows.drop_last(), i, row, task);
    }
}

proof fn lemma_pointers_remove(rows: Seq<TaskRowV>, i: int, task: TaskIdV)
    requires
        0 <= i < rows.len(),
    ensures
        pointers(rows.remove(i), task) == pointers(rows, task) - points(rows[i], task),
{
    lemma_pointers_insert(rows.remove(i), i, rows[i], task);
    assert(rows.remove(i).insert(i, rows[i]) =~= rows);
}

proof fn lemma_pointers(rows: Seq<TaskRowV>, task: TaskIdV)
    ensures
        pointers(rows, task) >= 0,
        pointers(rows, task) == 0 <==> forall|i: int|
            0 <= i < rows.len() ==> !(#[trigger] rows[i]).dependents.contains(task),
    decreases rows.len(),
{
    if rows.len() > 0 {
        let t = rows.drop_last();
        lemma_pointers(t, task);
        if pointers(rows, task) == 0 {
            assert forall|i: int| 0 <= i < rows.len() implies !(
            #[trigger] rows[i]).dependents.contains(task) by {
                if i < t.len() {
                    assert(t[i] == rows[i]);
                }
            }
        }
        if forall|i: int| 0 <= i < rows.len() ==> !(#[trigger] rows[i]).dependents.contains(task) {
            assert forall|i: int| 0 <= i < t.len() implies !(
            #[trigger] t[i]).dependents.contains(task) by {
                assert(t[i] == rows[i]);
            }
            assert(!rows[rows.len() - 1].dependents.contains(task));
        }
    }
}

/// Rows of different tasks never compare as equal.
proof fn lemma_no_tie(a: TaskRowV, b: TaskRowV)
    requires
        a.task != b.task,
    ensures
        a.order(b) != Order::Equal,
{
    equal_tasks_are_the_same(a.task, b.task);
    assert(a.order(b) == then_order(int_order(a.blockers, b.blockers), a.task.order(b.task)));
}

/// A row that is taken out and put back in another place and with another number changes
/// nothing else.
proof fn lemma_moved(rows: Seq<TaskRowV>, i: int, p: int, row: TaskRowV)
    requires
        unique_tasks(rows),
        0 <= i < rows.len(),
        0 <= p < rows.len(),
        row == one_less(rows[i]),
    ensures
        unique_tasks(rows.remove(i).insert(p, row)),
        forall|y: TaskRowV|
            #![trigger rows.remove(i).insert(p, row).contains(y)]
            rows.remove(i).insert(p, row).contains(y) <==> (rows.contains(y) && y.task
                != rows[i].task) || y == row,
        forall|id: TaskIdV| #[trigger]
            pointers(rows.remove(i).insert(p, row), id) == pointers(rows, id),
{
    let rest = rows.remove(i);
    let n = rest.insert(p, row);
    lemma_others(rows, i);
    assert forall|a: int, b: int| 0 <= a < b < n.len() implies (#[trigger] n[a]).task != (
    #[trigger] n[b]).task by {
        if a != p && b != p {
            let x = if a < p { a } else { a - 1 };
            let y = if b < p { b } else { b - 1 };
            assert(n[a] == rest[x] && n[b] == rest[y]);
            assert(rest[x].task != rest[y].task);
        } else if a == p {
            assert(n[b] == rest[b - 1]);
        } else {
            assert(n[a] == rest[a]);
        }
    }
    assert forall|y: TaskRowV| #![trigger n.contains(y)] n.contains(y) <==> (rows.contains(y)
        && y.task != rows[i].task) || y == row by {
        if n.contains(y) && y != row {
            let a = choose|a: int| 0 <= a < n.len() && n[a] == y;
            assert(a != p);
            let k = if a < p { a } else { a - 1 };
            assert(rest[k] == y);
            assert(rows[if k < i { k } else { k + 1 }] == y);
        }
        if rows.contains(y) && y.task != rows[i].task {
            let a = choose|a: int| 0 <= a < rows.len() && rows[a] == y;
            let k = if a < i { a } else { a - 1 };
            assert(rest[k] == y);
            assert(n[if k < p { k } else { k + 1 }] == y);
        }
        if y == row {
            assert(n[p] == y);
        }
    }
    assert forall|id: TaskIdV| #[trigger] pointers(n, id) == pointers(rows, id) by {
        lemma_pointers_remove(rows, i, id);
        lemma_pointers_insert(rest, p, row, id);
    }
}

/// The other rows are those of other tasks.
proof fn lemma_others(rows: Seq<TaskRowV>, i: int)
    requires
        unique_tasks(rows),
        0 <= i < rows.len(),
    ensures
        unique_tasks(rows.remove(i)),
        forall|k: int| 0 <= k < rows.remove(i).len() ==> (#[trigger] rows.remove(i)[k]).task
            != rows[i].task,
{
    let rest = rows.remove(i);
    assert forall|k: int| 0 <= k < rest.len() implies (#[trigger] rest[k]).task
        != rows[i].task by {
        let a = if k < i { k } else { k + 1 };
        assert(rest[k] == rows[a]);
        if a < i {
            assert(rows[a].task != rows[i].task);
        } else {
            assert(rows[i].task != rows[a].task);
        }
    }
    assert forall|a: int, b: int| 0 <= a < b < rest.len() implies (#[trigger] rest[a]).task != (
    #[trigger] rest[b]).task by {
        let u = if a < i { a } else { a + 1 };
        let v = if b < i { b } else { b + 1 };
        assert(rest[a] == rows[u] && rest[b] == rows[v]);
        assert(rows[u].task != rows[v].task);
    }
}

/// A row goes to a place of its own among rows of other tasks.
proof fn lemma_own_place(rest: Seq<TaskRowV>, row: TaskRowV)
    requires
        increasing(rest),
        forall|k: int| 0 <= k < rest.len() ==> (#[trigger] rest[k]).task != row.task,
    ensures
        !has_equal(rest, row),
        increasing(inserted(rest, row)),
        exists|p: int| 0 <= p <= rest.len() && inserted(rest, row) == #[trigger] rest.insert(p, row),
{
    if has_equal(rest, row) {
        let k = choose|k: int| 0 <= k < rest.len() && (#[trigger] rest[k]).order(row)
            == Order::Equal;
        lemma_no_tie(rest[k], row);
    }
    lemma_inserted(rest, row);
    lemma_rank_splits(rest, row);
    let p = crate::order::rank(rest, row);
    assert(inserted(rest, row) == rest.insert(p, row));
}

/// The rows of a table are in order, and no task has two.
#[verifier::opaque]
pub open spec fn is_table(rows: Seq<TaskRowV>) -> bool {
    increasing(rows) && unique_tasks(rows)
}

/// Letting one task wait for one task less changes its row and no other.
proof fn lemma_released_one(rows: Seq<TaskRowV>, task: TaskIdV)
    requires
        is_table(rows),
        holds_task(rows, task),
    ensures
        is_table(released_one(rows, task)),
        released_one(rows, task).len() == rows.len(),
        !has_equal(
            rows.remove(place_of(rows, task)),
            one_less(rows[place_of(rows, task)]),
        ),
        forall|row: TaskRowV|
            #![trigger released_one(rows, task).contains(row)]
            released_one(rows, task).contains(row) <==> (rows.contains(row) && row.task != task)
                || row == one_less(rows[place_of(rows, task)]),
        forall|id: TaskIdV|
            #[trigger] pointers(released_one(rows, task), id) == pointers(rows, id),
{
    reveal(is_table);
    lemma_place(rows, task);
    let i = place_of(rows, task);
    let row = one_less(rows[i]);
    lemma_removed(rows, i);
    lemma_others(rows, i);
    lemma_own_place(rows.remove(i), row);
    let p = choose|p: int|
        0 <= p <= rows.remove(i).len() && inserted(rows.remove(i), row) == #[trigger] rows.remove(
            i,
        ).insert(p, row);
    lemma_moved(rows, i, p, row);
}

/// What becomes of a row when tasks that it may wait for are done.
pub open spec fn eased(row: TaskRowV, tasks: Seq<TaskIdV>) -> TaskRowV {
    if tasks.contains(row.task) {
        one_less(row)
    } else {
        row
    }
}

/// The rows after the given tasks wait for one task less.
#[verifier::opaque]
pub open spec fn eases(rows: Seq<TaskRowV>, after: Seq<TaskRowV>, tasks: Seq<TaskIdV>) -> bool {
    &&& forall|row: TaskRowV| #[trigger] rows.contains(row) ==> after.contains(eased(row, tasks))
    &&& forall|row: TaskRowV| #[trigger]
        after.contains(row) ==> exists|origin: TaskRowV| #[trigger]
            rows.contains(origin) && row == eased(origin, tasks)
}

proof fn lemma_same_row(rows: Seq<TaskRowV>, a: TaskRowV, b: TaskRowV)
    requires
        unique_tasks(rows),
        rows.contains(a),
        rows.contains(b),
        a.task == b.task,
    ensures
        a == b,
{
    let i = choose|i: int| 0 <= i < rows.len() && rows[i] == a;
    let j = choose|j: int| 0 <= j < rows.len() && rows[j] == b;
    if i < j {
        assert(rows[i].task != rows[j].task);
    } else if j < i {
        assert(rows[j].task != rows[i].task);
    }
}

proof fn lemma_eased_further(
    rows: Seq<TaskRowV>,
    mid: Seq<TaskRowV>,
    n: Seq<TaskRowV>,
    front: Seq<TaskIdV>,
    last: TaskIdV,
    row: TaskRowV,
)
    requires
        unique_tasks(rows),
        unique_tasks(mid),
        eases(rows, mid, front),
        !front.contains(last),
        mid.contains(row),
        row.task == last,
        forall|y: TaskRowV|
            #![trigger n.contains(y)]
            n.contains(y) <==> (mid.contains(y) && y.task != last) || y == one_less(row),
    ensures
        eases(rows, n, front.push(last)),
{
    reveal(eases);
    let tasks = front.push(last);
    assert forall|id: TaskIdV| tasks.contains(id) <==> front.contains(id) || id == last by {
        if front.contains(id) {
            let k = choose|k: int| 0 <= k < front.len() && front[k] == id;
            assert(tasks[k] == id);
        }
        if id == last {
            assert(tasks[front.len() as int] == id);
        }
    }
    let origin = choose|origin: TaskRowV| #[trigger]
        rows.contains(origin) && row == eased(origin, front);
    assert(origin.task == last);
    assert(row == origin);
    assert forall|y: TaskRowV| #[trigger] rows.contains(y) implies n.contains(
        eased(y, tasks),
    ) by {
        assert(mid.contains(eased(y, front)));
        if y.task == last {
            lemma_same_row(rows, y, origin);
        } else {
            assert(eased(y, tasks) == eased(y, front));
        }
    }
    assert forall|y: TaskRowV| #[trigger] n.contains(y) implies exists|o: TaskRowV| #[trigger]
        rows.contains(o) && y == eased(o, tasks) by {
        if y == one_less(row) {
            assert(rows.contains(origin) && y == eased(origin, tasks));
        } else {
            let o = choose|o: TaskRowV| #[trigger] rows.contains(o) && y == eased(o, front);
            assert(rows.contains(o) && y == eased(o, tasks));
        }
    }
}

proof fn lemma_held(rows: Seq<TaskRowV>, mid: Seq<TaskRowV>, front: Seq<TaskIdV>, task: TaskIdV)
    requires
        eases(rows, mid, front),
        holds_task(rows, task),
    ensures
        holds_task(mid, task),
{
    reveal(eases);
    let a = choose|a: int| 0 <= a < rows.len() && (#[trigger] rows[a]).task == task;
    assert(rows.contains(rows[a]));
    assert(mid.contains(eased(rows[a], front)));
    let b = choose|b: int| 0 <= b < mid.len() && mid[b] == eased(rows[a], front);
    assert(mid[b].task == task);
}

/// Letting tasks wait for one task less changes their rows and no others.
proof fn lemma_released(rows: Seq<TaskRowV>, tasks: Seq<TaskIdV>)
    requires
        is_table(rows),
        tasks.no_duplicates(),
        forall|k: int| 0 <= k < tasks.len() ==> holds_task(rows, #[trigger] tasks[k]),
    ensures
        is_table(released(rows, tasks)),
        released(rows, tasks).len() == rows.len(),
        eases(rows, released(rows, tasks), tasks),
        forall|id: TaskIdV| #[trigger] pointers(released(rows, tasks), id) == pointers(rows, id),
    decreases tasks.len(),
{
    if tasks.len() == 0 {
        assert(eases(rows, rows, tasks)) by {
            reveal(eases);
            assert forall|row: TaskRowV| rows.contains(row) implies #[trigger] rows.contains(
                eased(row, tasks),
            ) by {}
            assert forall|row: TaskRowV| #[trigger] rows.contains(row) implies exists|
                origin: TaskRowV,
            | #[trigger] rows.contains(origin) && row == eased(origin, tasks) by {
                assert(rows.contains(row) && row == eased(row, tasks));
            }
        }
    } else {
        let front = tasks.drop_last();
        let last = tasks.last();
        assert forall|k: int| 0 <= k < front.len() implies holds_task(rows, #[trigger] front[k]) by {
            assert(front[k] == tasks[k]);
        }
        assert(front.no_duplicates());
        lemma_released(rows, front);
        let mid = released(rows, front);
        assert(!front.contains(last)) by {
            if front.contains(last) {
                let k = choose|k: int| 0 <= k < front.len() && front[k] == last;
                assert(tasks[k] == tasks[tasks.len() - 1]);
            }
        }
        assert(tasks[tasks.len() - 1] == last);
        lemma_held(rows, mid, front, last);
        lemma_released_one(mid, last);
        lemma_place(mid, last);
        let row = mid[place_of(mid, last)];
        assert(mid.contains(row));
        assert(unique_tasks(rows) && unique_tasks(mid)) by {
            reveal(is_table);
        }
        lemma_eased_further(rows, mid, released(rows, tasks), front, last, row);
        assert(front.push(last) =~= tasks);
    }
}

/// Rows of different tasks make a table that holds each of them.
pub proof fn lemma_collected_rows(rows: Seq<TaskRowV>)
    requires
        unique_tasks(rows),
    ensures
        is_table(collected(rows)),
        forall|row: TaskRowV| #[trigger] collected(rows).contains(row) <==> rows.contains(row),
        forall|id: TaskIdV| #[trigger] pointers(collected(rows), id) == pointers(rows, id),
    decreases rows.len(),
{
    if rows.len() == 0 {
        assert(is_table(collected(rows))) by {
            reveal(is_table);
        }
    } else {
        let t = rows.drop_last();
        let row = rows.last();
        let s = collected(t);
        assert forall|i: int, j: int| 0 <= i < j < t.len() implies (#[trigger] t[i]).task != (
        #[trigger] t[j]).task by {
            assert(t[i] == rows[i] && t[j] == rows[j]);
        }
        lemma_collected_rows(t);
        assert forall|k: int| 0 <= k < s.len() implies (#[trigger] s[k]).task != row.task by {
            assert(s.contains(s[k]));
            let a = choose|a: int| 0 <= a < t.len() && t[a] == s[k];
            assert(rows[a].task != rows[rows.len() - 1].task);
        }
        lemma_table_grows(s, row);
        let n = collected(rows);
        assert(n == replaced(s, row));
        assert forall|y: TaskRowV| #[trigger] n.contains(y) <==> rows.contains(y) by {
            if rows.contains(y) {
                let a = choose|a: int| 0 <= a < rows.len() && rows[a] == y;
                if a < t.len() {
                    assert(t[a] == y);
                    assert(t.contains(y));
                }
            }
            if t.contains(y) {
                let a = choose|a: int| 0 <= a < t.len() && t[a] == y;
                assert(rows[a] == y);
            }
            if y == row {
                assert(rows[rows.len() - 1] == y);
            }
        }
        assert forall|id: TaskIdV| #[trigger] pointers(n, id) == pointers(rows, id) by {
            assert(pointers(s, id) == pointers(t, id));
        }
    }
}

proof fn lemma_table_grows(s: Seq<TaskRowV>, row: TaskRowV)
    requires
        is_table(s),
        forall|k: int| 0 <= k < s.len() ==> (#[trigger] s[k]).task != row.task,
    ensures
        is_table(replaced(s, row)),
        forall|y: TaskRowV| #[trigger] replaced(s, row).contains(y) <==> s.contains(y) || y == row,
        forall|id: TaskIdV| #[trigger]
            pointers(replaced(s, row), id) == pointers(s, id) + points(row, id),
{
    reveal(is_table);
    lemma_own_place(s, row);
    let p = choose|p: int| 0 <= p <= s.len() && inserted(s, row) == #[trigger] s.insert(p, row);
    assert(replaced(s, row) == s.insert(p, row));
    lemma_joined(s, row, p);
    assert forall|id: TaskIdV| #[trigger] pointers(replaced(s, row), id) == pointers(s, id)
        + points(row, id) by {
        lemma_pointers_insert(s, p, row, id);
    }
}

proof fn lemma_joined(s: Seq<TaskRowV>, row: TaskRowV, p: int)
    requires
        unique_tasks(s),
        0 <= p <= s.len(),
        forall|k: int| 0 <= k < s.len() ==> (#[trigger] s[k]).task != row.task,
    ensures
        unique_tasks(s.insert(p, row)),
        forall|y: TaskRowV| #[trigger] s.insert(p, row).contains(y) <==> s.contains(y) || y == row,
{
    let n = s.insert(p, row);
    assert forall|i: int, j: int| 0 <= i < j < n.len() implies (#[trigger] n[i]).task != (
    #[trigger] n[j]).task by {
        if i != p && j != p {
            let x = if i < p { i } else { i - 1 };
            let y = if j < p { j } else { j - 1 };
            assert(n[i] == s[x] && n[j] == s[y]);
        } else if i == p {
            assert(n[j] == s[j - 1]);
        } else {
            assert(n[i] == s[i]);
        }
    }
    assert forall|y: TaskRowV| #[trigger] n.contains(y) <==> s.contains(y) || y == row by {
        if n.contains(y) {
            let i = choose|i: int| 0 <= i < n.len() && n[i] == y;
            if i != p {
                assert(s[if i < p { i } else { i - 1 }] == y);
            }
        }
        if s.contains(y) {
            let k = choose|k: int| 0 <= k < s.len() && s[k] == y;
            assert(n[if k < p { k } else { k + 1 }] == y);
        }
        if y == row {
            assert(n[p] == y);
        }
    }
}

/// The place of the first task that can be started: it waits for nothing, and there is a
/// place for it.
pub open spec fn is_startable(rows: Seq<TaskRowV>, pool: ResourcePool, i: int) -> bool {
    &&& 0 <= i < rows.len()
    &&& rows[i].blockers == 0
    &&& pool.has_place(rows[i].task.kind)
    &&& forall|j: int|
        0 <= j < i ==> (#[trigger] rows[j]).blockers != 0 || !pool.has_place(rows[j].task.kind)
}

/// No task can be started: each waits for another one or has no place.
pub open spec fn none_startable(rows: Seq<TaskRowV>, pool: ResourcePool) -> bool {
    forall|j: int|
        0 <= j < rows.len() ==> (#[trigger] rows[j]).blockers != 0 || !pool.has_place(
            rows[j].task.kind,
        )
}

/// In an increasing list of rows the numbers of blockers do not decrease.
proof fn lemma_blockers_grow(rows: Seq<TaskRowV>, i: int, j: int)
    requires
        increasing(rows),
        0 <= i < j < rows.len(),
    ensures
        rows[i].blockers <= rows[j].blockers,
{
    let a = rows[i];
    let b = rows[j];
    assert(a.order(b) == Order::Less);
    assert(a.order(b) == then_order(int_order(a.blockers, b.blockers), a.task.order(b.task)));
}

/// Takes out the first task that can be started.
pub fn pop_startable(tasks: &mut SortedSet<TaskRow>, resources: &ResourcePool) -> (r: Option<
    TaskRow,
>)
    requires
        old(tasks).wf(),
    ensures
        final(tasks).wf(),
        match r {
            Some(row) => row.wf() && exists|i: int| #[trigger]
                is_startable(old(tasks)@, *resources, i) && row@ == old(tasks)@[i] && final(tasks)@
                    == old(tasks)@.remove(i),
            None => none_startable(old(tasks)@, *resources) && final(tasks)@ == old(tasks)@,
        },
{
    let ghost rows = tasks@;
    assert forall|k: int| 0 <= k < rows.len() implies (#[trigger] rows[k]).blockers >= 0 by {
        assert(rows[k] == tasks.items@[k]@);
    }
    let mut i: usize = 0;
    while i < tasks.items.len()
        invariant
            i <= tasks.items@.len(),
            tasks.wf(),
            tasks@ == rows,
            rows == old(tasks)@,
            forall|k: int| 0 <= k < rows.len() ==> (#[trigger] rows[k]).blockers >= 0,
            forall|j: int|
                0 <= j < i ==> (#[trigger] rows[j]).blockers != 0 || !resources.has_place(
                    rows[j].task.kind,
                ),
        decreases tasks.items@.len() - i,
    {
        assert(rows[i as int] == tasks.items@[i as int]@);
        if tasks.items[i].blockers != 0 {
            proof {
                assert forall|j: int| i < j < rows.len() implies (#[trigger] rows[j]).blockers
                    != 0 by {
                    lemma_blockers_grow(rows, i as int, j);
                }
            }
            return None;
        }
        if resources.can_reserve(tasks.items[i].task.1) {
            let row = tasks.take_at(i);
            assert(is_startable(rows, *resources, i as int));
            return Some(row);
        }
        i = i + 1;
    }
    None
}

/// Lets the tasks that waited for a completed one wait for one task less.
pub fn complete_task(tasks: &mut SortedSet<TaskRow>, completed: TaskRow)
    requires
        old(tasks).wf(),
        unique_tasks(old(tasks)@),
        completed.wf(),
        forall|k: int|
            0 <= k < completed@.dependents.len() ==> holds_task(
                old(tasks)@,
                #[trigger] completed@.dependents[k],
            ),
        forall|i: int|
            0 <= i < old(tasks)@.len() && completed@.dependents.contains(
                (#[trigger] old(tasks)@[i]).task,
            ) ==> old(tasks)@[i].blockers > 0,
    ensures
        final(tasks).wf(),
        unique_tasks(final(tasks)@),
        final(tasks)@ == released(old(tasks)@, completed@.dependents),
{
    let ghost rows = tasks@;
    let ghost all = completed@.dependents;
    proof {
        lemma_no_duplicates(all);
        assert(all.take(0) =~= Seq::<TaskIdV>::empty());
    }
    let mut k: usize = 0;
    while k < completed.dependents.items.len()
        invariant
            k <= completed.dependents.items@.len(),
            all == completed@.dependents,
            all == completed.dependents@,
            all.no_duplicates(),
            rows == old(tasks)@,
            increasing(rows),
            unique_tasks(rows),
            tasks.wf(),
            unique_tasks(tasks@),
            tasks@ == released(rows, all.take(k as int)),
            forall|j: int| 0 <= j < all.len() ==> holds_task(rows, #[trigger] all[j]),
            forall|i: int|
                0 <= i < rows.len() && all.contains((#[trigger] rows[i]).task) ==> rows[i].blockers
                    > 0,
        decreases completed.dependents.items@.len() - k,
    {
        let ghost front = all.take(k as int);
        let ghost mid = tasks@;
        let dependent = &completed.dependents.items[k];
        let ghost last = all[k as int];
        assert(id_of(*dependent) == last);
        proof {
            lemma_front(rows, all, k as int);
            reveal(is_table);
            lemma_released(rows, front);
            lemma_held(rows, mid, front, last);
            lemma_place(mid, last);
            lemma_released_one(mid, last);
            lemma_still_blocked(rows, mid, all, k as int);
            assert(all.take(k + 1).drop_last() =~= front);
        }
        let count: usize = tasks.items.len();
        let mut i: usize = 0;
        while !(text::same(tasks.items[i].task.0.as_str(), dependent.0.as_str())
            && tasks.items[i].task.1 == dependent.1)
            invariant
                0 <= i <= place_of(mid, last) < mid.len(),
                tasks@ == mid,
                tasks.wf(),
                mid.len() == tasks.items@.len() == count,
                id_of(*dependent) == last,
                mid[place_of(mid, last)].task == last,
                forall|j: int| 0 <= j < place_of(mid, last) ==> (#[trigger] mid[j]).task != last,
            decreases mid.len() - i,
        {
            assert(mid[i as int] == tasks.items@[i as int]@);
            assert(mid[i as int].task != last);
            i = i + 1;
        }
        assert(mid[i as int] == tasks.items@[i as int]@);
        assert(mid[i as int].task == last);
        assert(i == place_of(mid, last));
        let mut row = tasks.take_at(i);
        row.blockers = row.blockers - 1;
        assert(row@ == one_less(mid[i as int]));
        let _ = tasks.insert(row);
        k = k + 1;
    }
    assert(all.take(k as int) =~= all);
}

proof fn lemma_no_duplicates(tasks: Seq<TaskIdV>)
    requires
        increasing(tasks),
    ensures
        tasks.no_duplicates(),
{
    assert forall|i: int, j: int| 0 <= i < tasks.len() && 0 <= j < tasks.len() && i
        != j implies tasks[i] != tasks[j] by {
        equal_tasks_are_the_same(tasks[i], tasks[j]);
        equal_tasks_are_the_same(tasks[j], tasks[i]);
        if i < j {
            assert(tasks[i].order(tasks[j]) == Order::Less);
        } else {
            assert(tasks[j].order(tasks[i]) == Order::Less);
        }
    }
}

proof fn lemma_front(rows: Seq<TaskRowV>, all: Seq<TaskIdV>, k: int)
    requires
        all.no_duplicates(),
        0 <= k < all.len(),
        forall|j: int| 0 <= j < all.len() ==> holds_task(rows, #[trigger] all[j]),
    ensures
        all.take(k).no_duplicates(),
        !all.take(k).contains(all[k]),
        forall|j: int| 0 <= j < all.take(k).len() ==> holds_task(rows, #[trigger] all.take(k)[j]),
{
    assert forall|j: int| 0 <= j < all.take(k).len() implies holds_task(
        rows,
        #[trigger] all.take(k)[j],
    ) by {
        assert(all.take(k)[j] == all[j]);
    }
    if all.take(k).contains(all[k]) {
        let j = choose|j: int| 0 <= j < k && all.take(k)[j] == all[k];
        assert(all[j] == all[k]);
    }
}

/// A task that is yet to be released waits for something.
proof fn lemma_still_blocked(rows: Seq<TaskRowV>, mid: Seq<TaskRowV>, all: Seq<TaskIdV>, k: int)
    requires
        eases(rows, mid, all.take(k)),
        0 <= k < all.len(),
        !all.take(k).contains(all[k]),
        holds_task(mid, all[k]),
        forall|i: int|
            0 <= i < rows.len() && all.contains((#[trigger] rows[i]).task) ==> rows[i].blockers
                > 0,
    ensures
        mid[place_of(mid, all[k])].blockers > 0,
{
    reveal(eases);
    lemma_place(mid, all[k]);
    let row = mid[place_of(mid, all[k])];
    assert(mid.contains(row));
    let origin = choose|origin: TaskRowV| #[trigger]
        rows.contains(origin) && row == eased(origin, all.take(k));
    assert(row == origin);
    let i = choose|i: int| 0 <= i < rows.len() && rows[i] == origin;
    assert(all.contains(rows[i].task));
}

/// The number of rows of installations.
pub open spec fn installations(rows: Seq<TaskRowV>) -> int
    decreases rows.len(),
{
    if rows.len() == 0 {
        0
    } else {
        installations(rows.drop_last()) + if rows.last().task.kind == TaskKind::Install {
            1int
        } else {
            0
        }
    }
}

/// The number of packages that are yet to be installed.
pub fn pending_package_count(tasks: &SortedSet<TaskRow>) -> (r: usize)
    ensures
        r == installations(tasks@),
{
    let ghost rows = tasks@;
    let mut count: usize = 0;
    let mut i: usize = 0;
    while i < tasks.items.len()
        invariant
            i <= tasks.items@.len(),
            rows == tasks@,
            count <= i,
            count == installations(rows.take(i as int)),
        decreases tasks.items@.len() - i,
    {
        assert(rows.take(i + 1).drop_last() =~= rows.take(i as int));
        assert(rows[i as int] == tasks.items@[i as int]@);
        if tasks.items[i].task.1 == TaskKind::Install {
            count = count + 1;
        }
        i = i + 1;
    }
    assert(rows.take(i as int) =~= rows);
    count
}

/// Every task that waits has a row that is yet to be started.
pub open spec fn all_held(rows: Seq<TaskRowV>, tasks: Seq<TaskRowV>) -> bool {
    forall|i: int, k: int|
        #![trigger rows[i].dependents[k]]
        0 <= i < rows.len() && 0 <= k < rows[i].dependents.len() ==> holds_task(
            tasks,
            rows[i].dependents[k],
        )
}

/// No task is both running and yet to be started.
pub open spec fn apart(tasks: Seq<TaskRowV>, running: Seq<TaskRowV>) -> bool {
    forall|i: int, j: int|
        0 <= i < tasks.len() && 0 <= j < running.len() ==> (#[trigger] tasks[i]).task != (
        #[trigger] running[j]).task
}

/// Each task is blocked by exactly the tasks, running or yet to be started, that it waits
/// for; a running task waits for none; and a task that waits is yet to be started.
#[verifier::opaque]
pub open spec fn balanced(tasks: Seq<TaskRowV>, running: Seq<TaskRowV>) -> bool {
    &&& unique_tasks(running)
    &&& apart(tasks, running)
    &&& forall|i: int|
        0 <= i < tasks.len() ==> (#[trigger] tasks[i]).blockers == pointers(tasks, tasks[i].task)
            + pointers(running, tasks[i].task)
    &&& forall|i: int|
        0 <= i < running.len() ==> pointers(tasks, (#[trigger] running[i]).task) + pointers(
            running,
            running[i].task,
        ) == 0
    &&& all_held(tasks, tasks)
    &&& all_held(running, tasks)
}

/// No task, running or yet to be started, is one that the given task waits for.
pub open spec fn waits_for_nothing(
    tasks: Seq<TaskRowV>,
    running: Seq<TaskRowV>,
    task: TaskIdV,
) -> bool {
    &&& forall|i: int|
        0 <= i < tasks.len() ==> !(#[trigger] tasks[i]).dependents.contains(task)
    &&& forall|i: int|
        0 <= i < running.len() ==> !(#[trigger] running[i]).dependents.contains(task)
}

proof fn lemma_unpointed(tasks: Seq<TaskRowV>, running: Seq<TaskRowV>, task: TaskIdV)
    requires
        pointers(tasks, task) + pointers(running, task) == 0,
    ensures
        waits_for_nothing(tasks, running, task),
{
    lemma_pointers(tasks, task);
    lemma_pointers(running, task);
}

proof fn lemma_held_without(tasks: Seq<TaskRowV>, i: int, task: TaskIdV)
    requires
        0 <= i < tasks.len(),
        holds_task(tasks, task),
        tasks[i].task != task,
    ensures
        holds_task(tasks.remove(i), task),
{
    let a = choose|a: int| 0 <= a < tasks.len() && (#[trigger] tasks[a]).task == task;
    let k = if a < i { a } else { a - 1 };
    assert(tasks.remove(i)[k] == tasks[a]);
}

/// Starting a task that waits for nothing keeps the balance.
proof fn lemma_started(tasks: Seq<TaskRowV>, running: Seq<TaskRowV>, i: int)
    requires
        unique_tasks(tasks),
        balanced(tasks, running),
        0 <= i < tasks.len(),
        tasks[i].blockers == 0,
    ensures
        balanced(tasks.remove(i), running.push(tasks[i])),
        waits_for_nothing(tasks, running, tasks[i].task),
{
    reveal(balanced);
    let row = tasks[i];
    let rest = tasks.remove(i);
    let more = running.push(row);
    lemma_unpointed(tasks, running, row.task);
    lemma_others(tasks, i);
    assert forall|id: TaskIdV| #[trigger] pointers(rest, id) + pointers(more, id) == pointers(
        tasks,
        id,
    ) + pointers(running, id) by {
        lemma_pointers_remove(tasks, i, id);
        assert(more.drop_last() =~= running);
    }
    assert forall|k: int| 0 <= k < rest.len() implies (#[trigger] rest[k]).blockers == pointers(
        rest,
        rest[k].task,
    ) + pointers(more, rest[k].task) by {
        let a = if k < i { k } else { k + 1 };
        assert(rest[k] == tasks[a]);
    }
    assert forall|k: int| 0 <= k < more.len() implies pointers(rest, (#[trigger] more[k]).task)
        + pointers(more, more[k].task) == 0 by {
        if k < running.len() {
            assert(more[k] == running[k]);
        }
    }
    assert forall|a: int, b: int|
        0 <= a < rest.len() && 0 <= b < more.len() implies (#[trigger] rest[a]).task != (
    #[trigger] more[b]).task by {
        let x = if a < i { a } else { a + 1 };
        assert(rest[a] == tasks[x]);
        if b < running.len() {
            assert(more[b] == running[b]);
        }
    }
    assert forall|a: int, b: int| 0 <= a < b < more.len() implies (#[trigger] more[a]).task != (
    #[trigger] more[b]).task by {
        assert(more[a] == running[a]);
        if b < running.len() {
            assert(more[b] == running[b]);
        } else {
            assert(tasks[i].task != running[a].task);
        }
    }
    assert forall|a: int, k: int|
        #![trigger rest[a].dependents[k]]
        0 <= a < rest.len() && 0 <= k < rest[a].dependents.len() implies holds_task(
        rest,
        rest[a].dependents[k],
    ) by {
        let x = if a < i { a } else { a + 1 };
        assert(rest[a] == tasks[x]);
        let d = tasks[x].dependents[k];
        assert(holds_task(tasks, d));
        assert(tasks[x].dependents.contains(d));
        lemma_held_without(tasks, i, d);
    }
    assert forall|a: int, k: int|
        #![trigger more[a].dependents[k]]
        0 <= a < more.len() && 0 <= k < more[a].dependents.len() implies holds_task(
        rest,
        more[a].dependents[k],
    ) by {
        let d = more[a].dependents[k];
        if a < running.len() {
            assert(more[a] == running[a]);
            assert(holds_task(tasks, running[a].dependents[k]));
            assert(running[a].dependents.contains(d));
        } else {
            assert(holds_task(tasks, tasks[i].dependents[k]));
            assert(tasks[i].dependents.contains(d));
        }
        lemma_held_without(tasks, i, d);
    }
}

/// What completing a running task asks of the table: the tasks that waited for it are
/// there, and each waits for something.
proof fn lemma_releasable(tasks: Seq<TaskRowV>, running: Seq<TaskRowV>, k: int)
    requires
        balanced(tasks, running),
        0 <= k < running.len(),
    ensures
        forall|d: int|
            0 <= d < running[k].dependents.len() ==> holds_task(
                tasks,
                #[trigger] running[k].dependents[d],
            ),
        forall|i: int|
            0 <= i < tasks.len() && running[k].dependents.contains((#[trigger] tasks[i]).task)
                ==> tasks[i].blockers > 0,
{
    reveal(balanced);
    assert forall|i: int|
        0 <= i < tasks.len() && running[k].dependents.contains(
            (#[trigger] tasks[i]).task,
        ) implies tasks[i].blockers > 0 by {
        lemma_pointers(tasks, tasks[i].task);
        lemma_pointers(running, tasks[i].task);
    }
}

spec fn has_origin(tasks: Seq<TaskRowV>, row: TaskRowV, ds: Seq<TaskIdV>) -> bool {
    exists|a: int| 0 <= a < tasks.len() && row == eased(#[trigger] tasks[a], ds)
}

/// Completing a running task keeps the balance.
proof fn lemma_finished(tasks: Seq<TaskRowV>, running: Seq<TaskRowV>, k: int)
    requires
        is_table(tasks),
        balanced(tasks, running),
        0 <= k < running.len(),
        running[k].dependents.no_duplicates(),
    ensures
        is_table(released(tasks, running[k].dependents)),
        released(tasks, running[k].dependents).len() == tasks.len(),
        balanced(released(tasks, running[k].dependents), running.remove(k)),
{
    let ds = running[k].dependents;
    lemma_releasable(tasks, running, k);
    lemma_released(tasks, ds);
    let next = released(tasks, ds);
    let rest = running.remove(k);
    reveal(balanced);
    reveal(eases);
    lemma_others(running, k);
    assert forall|id: TaskIdV| #[trigger] pointers(rest, id) == pointers(running, id) - points(
        running[k],
        id,
    ) by {
        lemma_pointers_remove(running, k, id);
    }
    assert forall|i: int| 0 <= i < next.len() implies has_origin(tasks, #[trigger] next[i], ds) by {
        assert(next.contains(next[i]));
        let origin = choose|origin: TaskRowV| #[trigger]
            tasks.contains(origin) && next[i] == eased(origin, ds);
        let a = choose|a: int| 0 <= a < tasks.len() && tasks[a] == origin;
        assert(next[i] == eased(tasks[a], ds));
    }
    assert forall|i: int| 0 <= i < next.len() implies (#[trigger] next[i]).blockers == pointers(
        next,
        next[i].task,
    ) + pointers(rest, next[i].task) by {
        assert(has_origin(tasks, next[i], ds));
        let a = choose|a: int| 0 <= a < tasks.len() && next[i] == eased(#[trigger] tasks[a], ds);
        assert(pointers(next, next[i].task) == pointers(tasks, tasks[a].task));
    }
    assert forall|i: int| 0 <= i < rest.len() implies pointers(next, (#[trigger] rest[i]).task)
        + pointers(rest, rest[i].task) == 0 by {
        let a = if i < k { i } else { i + 1 };
        assert(rest[i] == running[a]);
        lemma_pointers(tasks, running[a].task);
        lemma_pointers(rest, running[a].task);
        lemma_pointers(running, running[a].task);
    }
    assert forall|a: int, b: int|
        0 <= a < next.len() && 0 <= b < rest.len() implies (#[trigger] next[a]).task != (
    #[trigger] rest[b]).task by {
        assert(has_origin(tasks, next[a], ds));
        let x = choose|x: int| 0 <= x < tasks.len() && next[a] == eased(#[trigger] tasks[x], ds);
        let y = if b < k { b } else { b + 1 };
        assert(rest[b] == running[y]);
        assert(tasks[x].task != running[y].task);
    }
    assert forall|a: int, d: int|
        #![trigger next[a].dependents[d]]
        0 <= a < next.len() && 0 <= d < next[a].dependents.len() implies holds_task(
        next,
        next[a].dependents[d],
    ) by {
        assert(has_origin(tasks, next[a], ds));
        let x = choose|x: int| 0 <= x < tasks.len() && next[a] == eased(#[trigger] tasks[x], ds);
        assert(holds_task(tasks, tasks[x].dependents[d]));
        lemma_held(tasks, next, ds, tasks[x].dependents[d]);
    }
    assert forall|a: int, d: int|
        #![trigger rest[a].dependents[d]]
        0 <= a < rest.len() && 0 <= d < rest[a].dependents.len() implies holds_task(
        next,
        rest[a].dependents[d],
    ) by {
        let y = if a < k { a } else { a + 1 };
        assert(rest[a] == running[y]);
        assert(holds_task(tasks, running[y].dependents[d]));
        lemma_held(tasks, next, ds, running[y].dependents[d]);
    }
}

/// The rows of a list.
pub open spec fn row_views(v: Seq<TaskRow>) -> Seq<TaskRowV> {
    v.map_values(|x: TaskRow| x@)
}

/// The number of rows of a kind that a test holds of.
pub open spec fn checkouts(rows: Seq<TaskRowV>) -> int
    decreases rows.len(),
{
    if rows.len() == 0 {
        0
    } else {
        checkouts(rows.drop_last()) + if rows.last().task.kind == TaskKind::Checkout {
            1int
        } else {
            0
        }
    }
}

/// The number of rows whose tasks run R.
pub open spec fn r_runs(rows: Seq<TaskRowV>) -> int
    decreases rows.len(),
{
    if rows.len() == 0 {
        0
    } else {
        r_runs(rows.drop_last()) + if runs_r(rows.last().task.kind) {
            1int
        } else {
            0
        }
    }
}

/// The pool counts exactly the tasks that run.
pub open spec fn tallies(pool: ResourcePool, running: Seq<TaskRowV>) -> bool {
    &&& pool.shared == running.len()
    &&& pool.checkout == checkouts(running)
    &&& pool.r == r_runs(running)
}

proof fn lemma_tally(running: Seq<TaskRowV>, k: int)
    requires
        0 <= k < running.len(),
    ensures
        checkouts(running.remove(k)) == checkouts(running) - (if running[k].task.kind
            == TaskKind::Checkout {
            1int
        } else {
            0
        }),
        r_runs(running.remove(k)) == r_runs(running) - (if runs_r(running[k].task.kind) {
            1int
        } else {
            0
        }),
        checkouts(running) >= 0,
        r_runs(running) >= 0,
        checkouts(running.remove(k)) >= 0,
        r_runs(running.remove(k)) >= 0,
    decreases running.len(),
{
    let rest = running.remove(k);
    lemma_tally_positive(running);
    lemma_tally_positive(rest);
    if k == running.len() - 1 {
        assert(rest =~= running.drop_last());
    } else {
        assert(rest.drop_last() =~= running.drop_last().remove(k));
        lemma_tally(running.drop_last(), k);
    }
}

proof fn lemma_tally_positive(rows: Seq<TaskRowV>)
    ensures
        checkouts(rows) >= 0,
        r_runs(rows) >= 0,
    decreases rows.len(),
{
    if rows.len() > 0 {
        lemma_tally_positive(rows.drop_last());
    }
}

/// The packages of the installations among rows.
pub open spec fn installation_packages(rows: Seq<TaskRowV>) -> Seq<Seq<char>>
    decreases rows.len(),
{
    if rows.len() == 0 {
        Seq::empty()
    } else if rows.last().task.kind == TaskKind::Install {
        installation_packages(rows.drop_last()).push(rows.last().task.package)
    } else {
        installation_packages(rows.drop_last())
    }
}

/// Whether there is anything left to wait for.
#[derive(Debug)]
pub enum Progress {
    /// All tasks are done.
    Finished,
    /// Tasks are running.
    Running,
    /// Nothing runs and nothing can be started: these packages wait for each other.
    Cycle(Vec<String>),
}

/// The tasks that run, those that are yet to be started, and the places that are taken.
#[derive(Debug)]
pub struct Schedule {
    pub tasks: SortedSet<TaskRow>,
    pub running: Vec<TaskRow>,
    pub resources: ResourcePool,
}

impl Schedule {
    /// The tables are in order and balanced, and no limit is exceeded.
    pub open spec fn wf(&self) -> bool {
        &&& self.tasks.wf()
        &&& is_table(self.tasks@)
        &&& forall|i: int| 0 <= i < self.running@.len() ==> (#[trigger] self.running@[i]).wf()
        &&& balanced(self.tasks@, row_views(self.running@))
        &&& tallies(self.resources, row_views(self.running@))
        &&& self.resources.within_limits()
    }

    /// The schedule of tasks none of which runs.
    pub fn new(tasks: SortedSet<TaskRow>) -> (r: Schedule)
        requires
            tasks.wf(),
            is_table(tasks@),
            balanced(tasks@, Seq::empty()),
        ensures
            r.wf(),
            r.tasks == tasks,
            r.running@.len() == 0,
    {
        let running: Vec<TaskRow> = Vec::new();
        assert(row_views(running@) =~= Seq::<TaskRowV>::empty());
        Schedule { tasks, running, resources: ResourcePool::new() }
    }

    /// Starts the first task that can be started. It waits for nothing: all tasks that it
    /// waited for are done.
    pub fn start(&mut self) -> (r: Option<TaskRow>)
        requires
            old(self).wf(),
        ensures
            final(self).wf(),
            match r {
                Some(row) => {
                    &&& row.wf()
                    &&& exists|i: int| #[trigger]
                        is_startable(old(self).tasks@, old(self).resources, i) && row@ == old(
                            self,
                        ).tasks@[i] && final(self).tasks@ == old(self).tasks@.remove(i)
                    &&& row_views(final(self).running@) == row_views(old(self).running@).push(row@)
                    &&& waits_for_nothing(
                        final(self).tasks@,
                        row_views(final(self).running@),
                        row@.task,
                    )
                },
                None => {
                    &&& none_startable(old(self).tasks@, old(self).resources)
                    &&& final(self).tasks@ == old(self).tasks@
                    &&& final(self).running@ == old(self).running@
                },
            },
    {
        let ghost before = self.tasks@;
        let ghost active = row_views(self.running@);
        let row = match pop_startable(&mut self.tasks, &self.resources) {
            Some(row) => row,
            None => {
                return None;
            },
        };
        let ghost i = choose|i: int| #[trigger]
            is_startable(before, self.resources, i) && row@ == before[i] && self.tasks@
                == before.remove(i);
        proof {
            assert(unique_tasks(before) && increasing(before)) by {
                reveal(is_table);
            }
            lemma_started(before, active, i);
            assert(is_table(self.tasks@)) by {
                reveal(is_table);
                lemma_removed(before, i);
                lemma_others(before, i);
            }
        }
        let given = row.copy();
        self.resources.reserve(row.task.1);
        self.running.push(row);
        proof {
            assert(row_views(self.running@) =~= active.push(given@));
            assert(active.push(given@).drop_last() =~= active);
            let rest = self.tasks@;
            let more = active.push(given@);
            assert(waits_for_nothing(rest, more, given@.task)) by {
                assert forall|k: int| 0 <= k < rest.len() implies !(
                #[trigger] rest[k]).dependents.contains(given@.task) by {
                    let a = if k < i { k } else { k + 1 };
                    assert(rest[k] == before[a]);
                }
                assert forall|k: int| 0 <= k < more.len() implies !(
                #[trigger] more[k]).dependents.contains(given@.task) by {
                    if k < active.len() {
                        assert(more[k] == active[k]);
                    } else {
                        assert(more[k] == before[i]);
                    }
                }
            }
        }
        Some(given)
    }

    /// Takes note that a running task is done; tells whether it was running. One task less
    /// is then left, and the tasks that waited for it wait for one task less.
    pub fn finish(&mut self, task: &TaskId) -> (r: bool)
        requires
            old(self).wf(),
        ensures
            final(self).wf(),
            r == holds_task(row_views(old(self).running@), id_of(*task)),
            r ==> exists|k: int|
                0 <= k < old(self).running@.len() && (#[trigger] row_views(
                    old(self).running@,
                )[k]).task == id_of(*task) && final(self).tasks@ == released(
                    old(self).tasks@,
                    row_views(old(self).running@)[k].dependents,
                ) && row_views(final(self).running@) == row_views(old(self).running@).remove(k),
            r ==> final(self).tasks@.len() + final(self).running@.len() == old(self).tasks@.len()
                + old(self).running@.len() - 1,
            !r ==> *final(self) == *old(self),
    {
        let ghost active = row_views(self.running@);
        let ghost before = self.tasks@;
        let mut k: usize = 0;
        while k < self.running.len()
            invariant
                k <= self.running@.len(),
                active == row_views(self.running@),
                before == self.tasks@,
                *self == *old(self),
                self.wf(),
                forall|j: int| 0 <= j < k ==> (#[trigger] active[j]).task != id_of(*task),
            decreases self.running@.len() - k,
        {
            assert(active[k as int] == self.running@[k as int]@);
            if text::same(self.running[k].task.0.as_str(), task.0.as_str())
                && self.running[k].task.1 == task.1 {
                assert(active[k as int].task == id_of(*task));
                proof {
                    lemma_no_duplicates(active[k as int].dependents);
                    lemma_releasable(before, active, k as int);
                    lemma_finished(before, active, k as int);
                    lemma_tally(active, k as int);
                    assert(unique_tasks(before)) by {
                        reveal(is_table);
                    }
                }
                let kind = self.running[k].task.1;
                let row = self.running.remove(k);
                proof {
                    assert(row_views(self.running@) =~= active.remove(k as int));
                    assert forall|j: int| 0 <= j < self.running@.len() implies (
                    #[trigger] self.running@[j]).wf() by {
                        let a = if j < k { j } else { j + 1 };
                        assert(self.running@[j] == old(self).running@[a]);
                    }
                }
                self.resources.release(kind);
                complete_task(&mut self.tasks, row);
                return true;
            }
            k = k + 1;
        }
        false
    }

    /// What there is to wait for, once no task can be started.
    pub fn progress(&self) -> (r: Progress)
        requires
            self.wf(),
        ensures
            match r {
                Progress::Running => self.running@.len() > 0,
                Progress::Finished => self.running@.len() == 0 && self.tasks@.len() == 0,
                Progress::Cycle(packages) => self.running@.len() == 0 && self.tasks@.len() > 0
                    && text::texts(packages@) == installation_packages(self.tasks@),
            },
    {
        if self.running.len() > 0 {
            return Progress::Running;
        }
        if self.tasks.items.len() == 0 {
            return Progress::Finished;
        }
        let ghost rows = self.tasks@;
        let mut packages: Vec<String> = Vec::new();
        let mut i: usize = 0;
        assert(text::texts(packages@) =~= installation_packages(rows.take(0)));
        while i < self.tasks.items.len()
            invariant
                i <= self.tasks.items@.len(),
                rows == self.tasks@,
                text::texts(packages@) == installation_packages(rows.take(i as int)),
            decreases self.tasks.items@.len() - i,
        {
            assert(rows.take(i + 1).drop_last() =~= rows.take(i as int));
            assert(rows[i as int] == self.tasks.items@[i as int]@);
            if self.tasks.items[i].task.1 == TaskKind::Install {
                let ghost listed = packages@;
                packages.push(self.tasks.items[i].task.0.clone());
                assert(text::texts(packages@) =~= text::texts(listed).push(
                    rows[i as int].task.package,
                ));
            }
            i = i + 1;
        }
        assert(rows.take(i as int) =~= rows);
        Progress::Cycle(packages)
    }
}

/// Where nothing runs and nothing can be started, each task that is left waits for another
/// one that is left: the tasks wait for each other in a circle.
pub proof fn stuck_tasks_wait_for_each_other(tasks: Seq<TaskRowV>, pool: ResourcePool, i: int)
    requires
        balanced(tasks, Seq::empty()),
        tallies(pool, Seq::empty()),
        none_startable(tasks, pool),
        0 <= i < tasks.len(),
    ensures
        exists|j: int| 0 <= j < tasks.len() && (#[trigger] tasks[j]).dependents.contains(
            tasks[i].task,
        ),
{
    reveal(balanced);
    lemma_pointers(tasks, tasks[i].task);
    assert(pool.has_place(tasks[i].task.kind));
}

/// A task that waits for another one, running or yet to be started, is not itself started.
pub proof fn waiting_tasks_are_not_startable(
    tasks: Seq<TaskRowV>,
    running: Seq<TaskRowV>,
    pool: ResourcePool,
    i: int,
    j: int,
)
    requires
        balanced(tasks, running),
        0 <= i < tasks.len(),
        0 <= j < tasks.len() + running.len(),
        (tasks + running)[j].dependents.contains(tasks[i].task),
    ensures
        !is_startable(tasks, pool, i),
{
    reveal(balanced);
    lemma_pointers(tasks, tasks[i].task);
    lemma_pointers(running, tasks[i].task);
}

/// Once a task is done, every other task is as it was, but that those which waited for it wait
/// for one task less.
pub proof fn finishing_a_task_eases_those_that_wait(
    rows: Seq<TaskRowV>,
    tasks: Seq<TaskIdV>,
    row: TaskRowV,
)
    requires
        is_table(rows),
        tasks.no_duplicates(),
        forall|k: int| 0 <= k < tasks.len() ==> holds_task(rows, #[trigger] tasks[k]),
        rows.contains(row),
    ensures
        exists|after: TaskRowV| #[trigger]
            released(rows, tasks).contains(after) && after.task == row.task && after.version
                == row.version && after.dependencies == row.dependencies && after.dependents
                == row.dependents && after.blockers == row.blockers - (if tasks.contains(row.task) {
                1int
            } else {
                0
            }),
        released(rows, tasks).len() == rows.len(),
{
    lemma_released(rows, tasks);
    reveal(eases);
    assert(released(rows, tasks).contains(eased(row, tasks)));
}

/// A task that can be started waits for nothing, and there is a place for it; where none can
/// be started, each waits for a task or finds no place.
pub proof fn startable_tasks_wait_for_nothing(rows: Seq<TaskRowV>, pool: ResourcePool, i: int)
    requires
        0 <= i < rows.len(),
    ensures
        is_startable(rows, pool, i) ==> rows[i].blockers == 0 && pool.has_place(rows[i].task.kind),
        none_startable(rows, pool) && rows[i].blockers == 0 ==> !pool.has_place(rows[i].task.kind),
{
}

/// There is a place for one more task exactly if no limit is exceeded with it: one for all
/// tasks, one for checkouts, and one for builds and installations together. A pool in which
/// nothing runs has a place for every task.
pub proof fn places_are_left_up_to_the_limits(pool: ResourcePool)
    requires
        pool.within_limits(),
        pool.shared < usize::MAX,
    ensures
        pool.has_place(TaskKind::Download) <==> pool.shared + 1 <= SYNC_SHARED_WORKERS,
        pool.has_place(TaskKind::Remove) <==> pool.shared + 1 <= SYNC_SHARED_WORKERS,
        pool.has_place(TaskKind::Checkout) <==> pool.shared + 1 <= SYNC_SHARED_WORKERS
            && pool.checkout + 1 <= SYNC_CHECKOUT_WORKERS,
        pool.has_place(TaskKind::Build) <==> pool.shared + 1 <= SYNC_SHARED_WORKERS && pool.r + 1
            <= SYNC_R_WORKERS,
        pool.has_place(TaskKind::Install) <==> pool.has_place(TaskKind::Build),
        pool.shared == 0 && pool.checkout == 0 && pool.r == 0 ==> forall|kind: TaskKind| #[trigger]
            pool.has_place(kind),
{
}

/// The packages that are still to be installed are those of the installations in the table,
/// and as many as there are.
pub proof fn installations_are_counted(rows: Seq<TaskRowV>)
    ensures
        installations(rows) == installation_packages(rows).len(),
        forall|i: int|
            0 <= i < rows.len() && (#[trigger] rows[i]).task.kind == TaskKind::Install
                ==> installation_packages(rows).contains(rows[i].task.package),
        forall|package: Seq<char>| #[trigger]
            installation_packages(rows).contains(package) ==> exists|i: int|
                0 <= i < rows.len() && (#[trigger] rows[i]).task.kind == TaskKind::Install
                    && rows[i].task.package == package,
    decreases rows.len(),
{
    let all = installation_packages(rows);
    if rows.len() > 0 {
        let t = rows.drop_last();
        let n = rows.len() - 1;
        let rest = installation_packages(t);
        assert(rows[n] == rows.last());
        installations_are_counted(t);
        assert forall|package: Seq<char>| rest.contains(package) implies #[trigger] all.contains(
            package,
        ) by {
            let k = choose|k: int| 0 <= k < rest.len() && rest[k] == package;
            assert(all[k] == package);
        }
        assert forall|i: int|
            0 <= i < rows.len() && (#[trigger] rows[i]).task.kind
                == TaskKind::Install implies all.contains(rows[i].task.package) by {
            if i < n {
                assert(t[i] == rows[i]);
                assert(rest.contains(t[i].task.package));
            } else {
                assert(all[all.len() - 1] == rows[i].task.package);
            }
        }
        assert forall|package: Seq<char>| #[trigger] all.contains(package) implies exists|i: int|
            0 <= i < rows.len() && (#[trigger] rows[i]).task.kind == TaskKind::Install
                && rows[i].task.package == package by {
            let k = choose|k: int| 0 <= k < all.len() && all[k] == package;
            if k < rest.len() {
                assert(rest[k] == package);
                assert(rest.contains(package));
                let i = choose|i: int|
                    0 <= i < t.len() && (#[trigger] t[i]).task.kind == TaskKind::Install
                        && t[i].task.package == package;
                assert(rows[i] == t[i]);
            } else {
                assert(rows[n].task.package == package);
            }
        }
    }
}

/// Tasks that wait for less come first in the table; of those that wait for as much, the names
/// of their packages decide.
pub proof fn tasks_that_wait_for_less_come_first(a: TaskRowV, b: TaskRowV)
    ensures
        a.blockers < b.blockers ==> a.order(b) == Order::Less,
        a.blockers == b.blockers && text_order(a.task.package, b.task.package) == Order::Less
            ==> a.order(b) == Order::Less,
        a.order(b) == Order::Equal ==> a.blockers == b.blockers && a.task == b.task,
{
    text_order_equal(a.task.package, b.task.package);
}

} // verus!
