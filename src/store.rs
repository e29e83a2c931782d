//! An in-memory store of projects, tasks and checklist items. Every ordered
//! scope (all projects; the tasks of one project; the active links of one
//! task) is held in its order, so a member's sequence number is its 1-based
//! rank and each scope is dense by construction.

use vstd::prelude::*;
use crate::model::{Project, StoreError, Task, TaskItem, TaskItemStatus, TaskItemWithSequence};
use crate::sequence::{
    copy_order, dense, drop_member, first_at, lemma_dense, lemma_drop_member,
    lemma_move_no_duplicates, lemma_moved_from, lemma_remove_no_duplicates, move_entry, move_member,
    moved, position_of, without_member,
};

verus! {

/// A task with its checklist links: `items` holds the linked item ids in
/// their order, `detached` those whose link has no sequence.
pub struct TaskEntry {
    pub id: i64,
    pub title: String,
    pub description: Option<String>,
    pub items: Vec<i64>,
    pub detached: Vec<i64>,
}

/// A project with its tasks in their order.
pub struct ProjectEntry {
    pub id: i64,
    pub title: String,
    pub description: Option<String>,
    pub tasks: Vec<TaskEntry>,
}

/// The whole store: projects in their order, and the checklist items.
pub struct Store {
    pub next_id: i64,
    pub projects: Vec<ProjectEntry>,
    pub items: Vec<TaskItem>,
}

pub open spec fn project_ids(ps: Seq<ProjectEntry>) -> Seq<i64> {
    ps.map_values(|p: ProjectEntry| p.id)
}

pub open spec fn task_ids(ts: Seq<TaskEntry>) -> Seq<i64> {
    ts.map_values(|t: TaskEntry| t.id)
}

pub open spec fn item_ids(its: Seq<TaskItem>) -> Seq<i64> {
    its.map_values(|t: TaskItem| t.id)
}

/// The links of one task are well formed: no item twice, and no item both
/// ordered and detached.
pub open spec fn links_wf(t: TaskEntry, next_id: int) -> bool {
    &&& t.id < next_id
    &&& t.items@.len() + t.detached@.len() < i64::MAX
    &&& t.items@.no_duplicates()
    &&& t.detached@.no_duplicates()
    &&& forall|x: i64| t.items@.contains(x) ==> !t.detached@.contains(x)
}

pub open spec fn project_wf(p: ProjectEntry, next_id: int) -> bool {
    &&& p.id < next_id
    &&& p.tasks@.len() < next_id
    &&& task_ids(p.tasks@).no_duplicates()
    &&& forall|j: int| 0 <= j < p.tasks@.len() ==> links_wf(#[trigger] p.tasks@[j], next_id)
}

/// Every item that task `t` links, ordered or detached, is among `known`.
pub open spec fn links_known(t: TaskEntry, known: Seq<i64>) -> bool {
    &&& forall|x: i64| t.items@.contains(x) ==> known.contains(x)
    &&& forall|x: i64| t.detached@.contains(x) ==> known.contains(x)
}

/// Some task of project `p` links item `x`.
pub open spec fn task_links_hold(p: ProjectEntry, x: i64) -> bool {
    exists|j: int|
        0 <= j < p.tasks@.len() && (#[trigger] p.tasks@[j].items@.contains(x)
            || p.tasks@[j].detached@.contains(x))
}

pub open spec fn project_links_known(p: ProjectEntry, known: Seq<i64>) -> bool {
    forall|k: int| 0 <= k < p.tasks@.len() ==> links_known(#[trigger] p.tasks@[k], known)
}

/// `(pi, ti)` is where the first task with id `id` stands, projects taken in
/// order.
pub open spec fn task_first_at(ps: Seq<ProjectEntry>, id: i64, pi: int, ti: int) -> bool {
    &&& 0 <= pi < ps.len()
    &&& first_at(task_ids(ps[pi].tasks@), id, ti)
    &&& forall|j: int| 0 <= j < pi ==> !task_ids(#[trigger] ps[j].tasks@).contains(id)
}

pub open spec fn has_task(ps: Seq<ProjectEntry>, id: i64) -> bool {
    exists|j: int| 0 <= j < ps.len() && task_ids(#[trigger] ps[j].tasks@).contains(id)
}

/// A copy of an optional text.
fn copy_text(s: &Option<String>) -> (r: Option<String>)
    ensures
        r == *s,
{
    match s {
        Some(t) => Some(t.clone()),
        None => None,
    }
}

impl Store {
    /// Ids stay unique within every scope, and below the next id to hand out.
    pub open spec fn wf(&self) -> bool {
        &&& 1 <= self.next_id
        &&& self.projects@.len() < self.next_id
        &&& project_ids(self.projects@).no_duplicates()
        &&& forall|i: int|
            0 <= i < self.projects@.len() ==> project_wf(#[trigger] self.projects@[i], self.next_id as int)
        &&& item_ids(self.items@).no_duplicates()
        &&& forall|i: int| 0 <= i < self.items@.len() ==> #[trigger] self.items@[i].id < self.next_id
        &&& forall|i: int|
            0 <= i < self.projects@.len() ==> project_links_known(
                #[trigger] self.projects@[i],
                item_ids(self.items@),
            )
    }

    pub fn new() -> (r: Store)
        ensures
            r.wf(),
            r.next_id == 1,
            r.projects@.len() == 0,
            r.items@.len() == 0,
    {
        let r = Store { next_id: 1, projects: Vec::new(), items: Vec::new() };
        assert(project_ids(r.projects@) =~= Seq::empty());
        assert(item_ids(r.items@) =~= Seq::empty());
        r
    }

    /// Hands out a fresh id, or fails once ids are exhausted.
    fn take_id(&mut self) -> (r: Result<i64, StoreError>)
        ensures
            old(self).next_id < i64::MAX ==> r == Ok::<i64, StoreError>(old(self).next_id)
                && final(self).next_id == old(self).next_id + 1,
            old(self).next_id == i64::MAX ==> r == Err::<i64, StoreError>(
                StoreError::StorageUnavailable,
            ) && final(self).next_id == old(self).next_id,
            final(self).projects == old(self).projects,
            final(self).items == old(self).items,
    {
        if self.next_id == i64::MAX {
            Err(StoreError::StorageUnavailable)
        } else {
            let id = self.next_id;
            self.next_id = id + 1;
            Ok(id)
        }
    }

    /// Index of the first project with id `id`.
    pub fn find_project(&self, id: i64) -> (r: Option<usize>)
        ensures
            r is Some ==> first_at(project_ids(self.projects@), id, r->Some_0 as int),
            r is None <==> !project_ids(self.projects@).contains(id),
    {
        let mut i: usize = 0;
        while i < self.projects.len()
            invariant
                i <= self.projects@.len(),
                forall|j: int| 0 <= j < i ==> project_ids(self.projects@)[j] != id,
            decreases self.projects@.len() - i,
        {
            if self.projects[i].id == id {
                assert(project_ids(self.projects@)[i as int] == id);
                return Some(i);
            }
            i = i + 1;
        }
        None
    }

    /// Appends a project at the end of the project ordering and returns its id.
    pub fn create_project(&mut self, title: String, description: Option<String>) -> (r: Result<
        i64,
        StoreError,
    >)
        requires
            old(self).wf(),
        ensures
            r is Ok ==> final(self).next_id == old(self).next_id + 1,
            final(self).wf(),
            old(self).next_id < i64::MAX <==> r is Ok,
            r is Err ==> r->Err_0 == StoreError::StorageUnavailable && *final(self) == *old(self),
            r is Ok ==> {
                &&& r->Ok_0 == old(self).next_id
                &&& final(self).projects@.len() == old(self).projects@.len() + 1
                &&& final(self).projects@.drop_last() == old(self).projects@
                &&& final(self).projects@.last().id == r->Ok_0
                &&& final(self).projects@.last().title == title
                &&& final(self).projects@.last().description == description
                &&& final(self).projects@.last().tasks@.len() == 0
                &&& final(self).items == old(self).items
            },
    {
        let id = match self.take_id() {
            Ok(id) => id,
            Err(e) => return Err(e),
        };
        let ghost before = self.projects@;
        self.projects.push(ProjectEntry { id, title, description, tasks: Vec::new() });
        proof {
            assert(self.projects@.drop_last() =~= before);
            assert(project_ids(self.projects@) =~= project_ids(before).push(id));
            assert(task_ids(self.projects@.last().tasks@) =~= Seq::empty());
            assert forall|i: int| 0 <= i < self.projects@.len() implies project_wf(
                #[trigger] self.projects@[i],
                self.next_id as int,
            ) by {
                if i < before.len() {
                    assert(self.projects@[i] == before[i]);
                    assert(project_wf(before[i], self.next_id - 1));
                }
            }
        }
        Ok(id)
    }

    /// All projects in their order, each with its 1-based rank as sequence.
    pub fn get_all_projects(&self) -> (r: Vec<Project>)
        requires
            self.wf(),
        ensures
            r@.len() == self.projects@.len(),
            forall|i: int|
                0 <= i < r@.len() ==> {
                    &&& (#[trigger] r@[i]).id == self.projects@[i].id
                    &&& r@[i].title == self.projects@[i].title
                    &&& r@[i].description == self.projects@[i].description
                    &&& r@[i].sequence == i + 1
                },
    {
        let mut r: Vec<Project> = Vec::new();
        let mut i: usize = 0;
        while i < self.projects.len()
            invariant
                i <= self.projects@.len(),
                self.wf(),
                r@.len() == i,
                forall|j: int|
                    0 <= j < i ==> {
                        &&& (#[trigger] r@[j]).id == self.projects@[j].id
                        &&& r@[j].title == self.projects@[j].title
                        &&& r@[j].description == self.projects@[j].description
                        &&& r@[j].sequence == j + 1
                    },
            decreases self.projects@.len() - i,
        {
            let p = &self.projects[i];
            r.push(
                Project {
                    id: p.id,
                    title: p.title.clone(),
                    description: copy_text(&p.description),
                    sequence: (i + 1) as i64,
                },
            );
            i = i + 1;
        }
        r
    }
}

proof fn lemma_project_ids_moved(ps: Seq<ProjectEntry>, from: int, to: int)
    requires
        0 <= from < ps.len(),
        0 <= to < ps.len(),
    ensures
        project_ids(moved(ps, from, to)) == moved(project_ids(ps), from, to),
{
    assert(project_ids(moved(ps, from, to)) =~= moved(project_ids(ps), from, to));
}

proof fn lemma_project_ids_removed(ps: Seq<ProjectEntry>, i: int)
    requires
        0 <= i < ps.len(),
    ensures
        project_ids(ps.remove(i)) == project_ids(ps).remove(i),
{
    assert(project_ids(ps.remove(i)) =~= project_ids(ps).remove(i));
}

impl Store {
    /// Moves project `project_id` to the 1-based position `new_sequence`,
    /// shifting the projects in between; the others keep their relative order.
    pub fn update_project_sequence(&mut self, project_id: i64, new_sequence: i64) -> (r: Result<
        (),
        StoreError,
    >)
        requires
            old(self).wf(),
        ensures
            final(self).wf(),
            r is Err ==> *final(self) == *old(self),
            !project_ids(old(self).projects@).contains(project_id) ==> r == Err::<(), StoreError>(
                StoreError::NotFound,
            ),
            project_ids(old(self).projects@).contains(project_id) && !(1 <= new_sequence
                <= old(self).projects@.len()) ==> r == Err::<(), StoreError>(
                StoreError::InvalidPosition,
            ),
            project_ids(old(self).projects@).contains(project_id) && 1 <= new_sequence
                <= old(self).projects@.len() ==> r is Ok && final(self).next_id == old(self).next_id
                && final(self).items == old(self).items && exists|i: int|
                first_at(project_ids(old(self).projects@), project_id, i)
                    && final(self).projects@ == moved(old(self).projects@, i, new_sequence - 1),
    {
        let i = match self.find_project(project_id) {
            Some(i) => i,
            None => return Err(StoreError::NotFound),
        };
        if new_sequence < 1 || new_sequence as u64 > self.projects.len() as u64 {
            return Err(StoreError::InvalidPosition);
        }
        let ghost before = self.projects@;
        let to = (new_sequence - 1) as usize;
        move_entry(&mut self.projects, i, to);
        proof {
            lemma_project_ids_moved(before, i as int, to as int);
            lemma_move_no_duplicates(project_ids(before), i as int, to as int);
            assert forall|a: int| 0 <= a < self.projects@.len() implies project_wf(
                #[trigger] self.projects@[a],
                self.next_id as int,
            ) by {
                let k = lemma_moved_from(before, i as int, to as int, a);
            }
        }
        Ok(())
    }

    /// Deletes project `id` with its tasks; the projects after it move up one
    /// position, so the ordering stays gap-free.
    pub fn delete_project(&mut self, id: i64) -> (r: Result<(), StoreError>)
        requires
            old(self).wf(),
        ensures
            project_ids(old(self).projects@).contains(id) ==> r is Ok,
            final(self).wf(),
            r is Err ==> *final(self) == *old(self),
            !project_ids(old(self).projects@).contains(id) <==> r == Err::<(), StoreError>(
                StoreError::NotFound,
            ),
            r is Ok ==> final(self).next_id == old(self).next_id && final(self).items == old(self).items && exists|i: int|
                first_at(project_ids(old(self).projects@), id, i) && final(self).projects@ == old(self).projects@.remove(i),
    {
        let i = match self.find_project(id) {
            Some(i) => i,
            None => return Err(StoreError::NotFound),
        };
        let ghost before = self.projects@;
        self.projects.remove(i);
        proof {
            lemma_project_ids_removed(before, i as int);
            lemma_remove_no_duplicates(project_ids(before), i as int);
            assert forall|a: int| 0 <= a < self.projects@.len() implies project_wf(
                #[trigger] self.projects@[a],
                self.next_id as int,
            ) by {
                if a >= i {
                    assert(self.projects@[a] == before[a + 1]);
                }
            }
        }
        Ok(())
    }

    /// Project `id` with its position as sequence.
    pub fn get_project(&self, id: i64) -> (r: Result<Project, StoreError>)
        requires
            self.wf(),
        ensures
            project_ids(self.projects@).contains(id) ==> r is Ok,
            !project_ids(self.projects@).contains(id) <==> r == Err::<Project, StoreError>(
                StoreError::NotFound,
            ),
            r is Ok ==> exists|i: int|
                first_at(project_ids(self.projects@), id, i) && r->Ok_0.id == id
                    && r->Ok_0.title == self.projects@[i].title && r->Ok_0.description
                    == self.projects@[i].description && r->Ok_0.sequence == i + 1,
    {
        match self.find_project(id) {
            None => Err(StoreError::NotFound),
            Some(i) => {
                assert(i < self.projects@.len());
                let p = &self.projects[i];
                Ok(
                    Project {
                        id: p.id,
                        title: p.title.clone(),
                        description: copy_text(&p.description),
                        sequence: i as i64 + 1,
                    },
                )
            },
        }
    }

    /// Replaces the title and description of project `id`; its position and
    /// tasks stay as they are.
    pub fn update_project_content(&mut self, id: i64, title: String, description: Option<String>) -> (r:
        Result<(), StoreError>)
        requires
            old(self).wf(),
        ensures
            project_ids(old(self).projects@).contains(id) ==> r is Ok,
            final(self).wf(),
            r is Err ==> *final(self) == *old(self),
            !project_ids(old(self).projects@).contains(id) <==> r == Err::<(), StoreError>(
                StoreError::NotFound,
            ),
            r is Ok ==> final(self).next_id == old(self).next_id && final(self).items == old(self).items && final(self).projects@.len() == old(self).projects@.len() && exists|i: int|
                first_at(project_ids(old(self).projects@), id, i) && (forall|j: int|
                    0 <= j < old(self).projects@.len() && j != i ==> final(self).projects@[j] == old(self).projects@[j]) && final(self).projects@[i].id == id && final(self).projects@[i].title == title && final(self).projects@[i].description
                    == description && final(self).projects@[i].tasks == old(self).projects@[i].tasks,
    {
        let i = match self.find_project(id) {
            Some(i) => i,
            None => return Err(StoreError::NotFound),
        };
        let ghost before = self.projects@;
        let mut p = self.projects.remove(i);
        p.title = title;
        p.description = description;
        self.projects.insert(i, p);
        proof {
            assert(project_ids(self.projects@) =~= project_ids(before));
            assert forall|a: int| 0 <= a < self.projects@.len() implies project_wf(
                #[trigger] self.projects@[a],
                self.next_id as int,
            ) by {
                if a != i {
                    assert(self.projects@[a] == before[a]);
                } else {
                    assert(project_wf(before[a], self.next_id as int));
                }
            }
        }
        Ok(())
    }
}

proof fn lemma_task_ids_moved(ts: Seq<TaskEntry>, from: int, to: int)
    requires
        0 <= from < ts.len(),
        0 <= to < ts.len(),
    ensures
        task_ids(moved(ts, from, to)) == moved(task_ids(ts), from, to),
{
    assert(task_ids(moved(ts, from, to)) =~= moved(task_ids(ts), from, to));
}

proof fn lemma_task_ids_removed(ts: Seq<TaskEntry>, i: int)
    requires
        0 <= i < ts.len(),
    ensures
        task_ids(ts.remove(i)) == task_ids(ts).remove(i),
{
    assert(task_ids(ts.remove(i)) =~= task_ids(ts).remove(i));
}

/// `new` differs from `old` at most in the tasks of the project at `pi`.
pub open spec fn same_except(old: Seq<ProjectEntry>, new: Seq<ProjectEntry>, pi: int) -> bool {
    &&& 0 <= pi < old.len()
    &&& new.len() == old.len()
    &&& forall|j: int| 0 <= j < old.len() && j != pi ==> new[j] == old[j]
    &&& new[pi].id == old[pi].id
    &&& new[pi].title == old[pi].title
    &&& new[pi].description == old[pi].description
}

proof fn lemma_wf_after_project_change(old: Store, new: Store, pi: int)
    requires
        old.wf(),
        same_except(old.projects@, new.projects@, pi),
        project_wf(new.projects@[pi], new.next_id as int),
        project_links_known(new.projects@[pi], item_ids(new.items@)),
        new.items == old.items,
        old.next_id <= new.next_id,
    ensures
        new.wf(),
{
    assert forall|j: int| 0 <= j < new.projects@.len() implies project_links_known(
        #[trigger] new.projects@[j],
        item_ids(new.items@),
    ) by {
        if j != pi {
            assert(new.projects@[j] == old.projects@[j]);
        }
    }
    assert(project_ids(new.projects@) =~= project_ids(old.projects@));
    assert forall|j: int| 0 <= j < new.projects@.len() implies project_wf(
        #[trigger] new.projects@[j],
        new.next_id as int,
    ) by {
        if j != pi {
            let p = old.projects@[j];
            assert(project_wf(p, old.next_id as int));
            assert forall|k: int| 0 <= k < p.tasks@.len() implies links_wf(
                #[trigger] p.tasks@[k],
                new.next_id as int,
            ) by {
                assert(links_wf(p.tasks@[k], old.next_id as int));
            }
        }
    }
}

impl Store {
    /// Where the first task with id `id` stands: project index, task index.
    pub fn find_task(&self, id: i64) -> (r: Option<(usize, usize)>)
        ensures
            r is Some ==> task_first_at(self.projects@, id, r->Some_0.0 as int, r->Some_0.1 as int),
            r is None <==> !has_task(self.projects@, id),
    {
        let mut i: usize = 0;
        while i < self.projects.len()
            invariant
                i <= self.projects@.len(),
                forall|j: int| 0 <= j < i ==> !task_ids(#[trigger] self.projects@[j].tasks@).contains(id),
            decreases self.projects@.len() - i,
        {
            let p = &self.projects[i];
            let mut k: usize = 0;
            while k < p.tasks.len()
                invariant
                    i < self.projects@.len(),
                    *p == self.projects@[i as int],
                    forall|j: int| 0 <= j < i ==> !task_ids(#[trigger] self.projects@[j].tasks@).contains(id),
                    k <= p.tasks@.len(),
                    forall|j: int| 0 <= j < k ==> task_ids(p.tasks@)[j] != id,
                decreases p.tasks@.len() - k,
            {
                if p.tasks[k].id == id {
                    assert(task_ids(p.tasks@)[k as int] == id);
                    return Some((i, k));
                }
                k = k + 1;
            }
            assert(!task_ids(p.tasks@).contains(id));
            i = i + 1;
        }
        None
    }

    /// Appends a task at the end of project `project_id`'s task ordering and
    /// returns its id.
    pub fn create_task(&mut self, project_id: i64, title: String, description: Option<String>) -> (r:
        Result<i64, StoreError>)
        requires
            old(self).wf(),
        ensures
            r is Ok ==> final(self).next_id == old(self).next_id + 1,
            final(self).wf(),
            r is Err ==> *final(self) == *old(self),
            !project_ids(old(self).projects@).contains(project_id) ==> r == Err::<i64, StoreError>(
                StoreError::NotFound,
            ),
            project_ids(old(self).projects@).contains(project_id) ==> (r is Ok <==> old(self).next_id < i64::MAX),
            r is Err ==> r->Err_0 == StoreError::NotFound || r->Err_0
                == StoreError::StorageUnavailable,
            r is Ok ==> r->Ok_0 == old(self).next_id && final(self).items == old(self).items
                && exists|pi: int|
                first_at(project_ids(old(self).projects@), project_id, pi) && same_except(
                    old(self).projects@,
                    final(self).projects@,
                    pi,
                ) && final(self).projects@[pi].tasks@.drop_last() == old(self).projects@[pi].tasks@
                    && final(self).projects@[pi].tasks@.len() == old(self).projects@[pi].tasks@.len()
                    + 1 && final(self).projects@[pi].tasks@.last().id == r->Ok_0 && final(self).projects@[pi].tasks@.last().title == title && final(self).projects@[pi].tasks@.last().description == description && final(self).projects@[pi].tasks@.last().items@.len() == 0 && final(self).projects@[pi].tasks@.last().detached@.len() == 0,
    {
        let pi = match self.find_project(project_id) {
            Some(pi) => pi,
            None => return Err(StoreError::NotFound),
        };
        let ghost old_store = *self;
        let id = match self.take_id() {
            Ok(id) => id,
            Err(e) => return Err(e),
        };
        let mut p = self.projects.remove(pi);
        let ghost old_tasks = p.tasks@;
        proof {
            assert(project_wf(old_store.projects@[pi as int], old_store.next_id as int));
        }
        p.tasks.push(
            TaskEntry { id, title, description, items: Vec::new(), detached: Vec::new() },
        );
        self.projects.insert(pi, p);
        proof {
            let np = self.projects@[pi as int];
            assert(np.tasks@.drop_last() =~= old_tasks);
            assert(task_ids(np.tasks@) =~= task_ids(old_tasks).push(id));
            assert forall|k: int| 0 <= k < old_tasks.len() implies task_ids(old_tasks)[k] != id by {
                assert(links_wf(old_tasks[k], old_store.next_id as int));
            }
            assert forall|k: int| 0 <= k < np.tasks@.len() implies links_wf(
                #[trigger] np.tasks@[k],
                self.next_id as int,
            ) by {
                if k < old_tasks.len() {
                    assert(np.tasks@[k] == old_tasks[k]);
                    assert(links_wf(old_tasks[k], old_store.next_id as int));
                } else {
                    assert(np.tasks@[k].items@ =~= Seq::<i64>::empty());
                    assert(np.tasks@[k].detached@ =~= Seq::<i64>::empty());
                }
            }
            lemma_wf_after_project_change(old_store, *self, pi as int);
        }
        Ok(id)
    }

    /// Moves task `task_id` to the 1-based position `new_sequence` within its
    /// own project; the project is taken from where the task stands, and no
    /// other project changes.
    pub fn update_task_sequence(&mut self, task_id: i64, new_sequence: i64) -> (r: Result<
        (),
        StoreError,
    >)
        requires
            old(self).wf(),
        ensures
            final(self).wf(),
            r is Err ==> *final(self) == *old(self),
            !has_task(old(self).projects@, task_id) ==> r == Err::<(), StoreError>(
                StoreError::NotFound,
            ),
            forall|pi: int, ti: int|
                task_first_at(old(self).projects@, task_id, pi, ti) ==> {
                    &&& !(1 <= new_sequence <= old(self).projects@[pi].tasks@.len()) ==> r == Err::<
                        (),
                        StoreError,
                    >(StoreError::InvalidPosition)
                    &&& 1 <= new_sequence <= old(self).projects@[pi].tasks@.len() ==> {
                        &&& r is Ok
                        &&& final(self).next_id == old(self).next_id
                        &&& final(self).items == old(self).items
                        &&& same_except(old(self).projects@, final(self).projects@, pi)
                        &&& final(self).projects@[pi].tasks@ == moved(
                            old(self).projects@[pi].tasks@,
                            ti,
                            new_sequence - 1,
                        )
                    }
                },
    {
        let (pi, ti) = match self.find_task(task_id) {
            Some(loc) => loc,
            None => return Err(StoreError::NotFound),
        };
        proof {
            assert forall|pj: int, tj: int| task_first_at(self.projects@, task_id, pj, tj) implies pj
                == pi && tj == ti by {
                if pj < pi {
                    assert(task_ids(self.projects@[pj].tasks@).contains(task_id));
                }
                if pi < pj {
                    assert(task_ids(self.projects@[pi as int].tasks@).contains(task_id));
                }
            }
        }
        if new_sequence < 1 || new_sequence as u64 > self.projects[pi].tasks.len() as u64 {
            return Err(StoreError::InvalidPosition);
        }
        let ghost old_store = *self;
        let mut p = self.projects.remove(pi);
        let ghost old_tasks = p.tasks@;
        let to = (new_sequence - 1) as usize;
        move_entry(&mut p.tasks, ti, to);
        self.projects.insert(pi, p);
        proof {
            let np = self.projects@[pi as int];
            assert(project_wf(old_store.projects@[pi as int], old_store.next_id as int));
            lemma_task_ids_moved(old_tasks, ti as int, to as int);
            lemma_move_no_duplicates(task_ids(old_tasks), ti as int, to as int);
            assert forall|a: int| 0 <= a < np.tasks@.len() implies links_wf(
                #[trigger] np.tasks@[a],
                self.next_id as int,
            ) by {
                let k = lemma_moved_from(old_tasks, ti as int, to as int, a);
                assert(links_wf(old_tasks[k], old_store.next_id as int));
            }
            lemma_wf_after_project_change(old_store, *self, pi as int);
        }
        Ok(())
    }

    /// Deletes task `id` with its links; the tasks after it in its project
    /// move up one position.
    pub fn delete_task(&mut self, id: i64) -> (r: Result<(), StoreError>)
        requires
            old(self).wf(),
        ensures
            has_task(old(self).projects@, id) ==> r is Ok,
            final(self).wf(),
            r is Err ==> *final(self) == *old(self),
            !has_task(old(self).projects@, id) <==> r == Err::<(), StoreError>(StoreError::NotFound),
            r is Ok ==> final(self).next_id == old(self).next_id && final(self).items == old(self).items && exists|pi: int, ti: int|
                task_first_at(old(self).projects@, id, pi, ti) && same_except(
                    old(self).projects@,
                    final(self).projects@,
                    pi,
                ) && final(self).projects@[pi].tasks@ == old(self).projects@[pi].tasks@.remove(ti),
    {
        let (pi, ti) = match self.find_task(id) {
            Some(loc) => loc,
            None => return Err(StoreError::NotFound),
        };
        let ghost old_store = *self;
        let mut p = self.projects.remove(pi);
        let ghost old_tasks = p.tasks@;
        p.tasks.remove(ti);
        self.projects.insert(pi, p);
        proof {
            let np = self.projects@[pi as int];
            assert(project_wf(old_store.projects@[pi as int], old_store.next_id as int));
            lemma_task_ids_removed(old_tasks, ti as int);
            lemma_remove_no_duplicates(task_ids(old_tasks), ti as int);
            assert forall|a: int| 0 <= a < np.tasks@.len() implies links_wf(
                #[trigger] np.tasks@[a],
                self.next_id as int,
            ) by {
                if a >= ti {
                    assert(np.tasks@[a] == old_tasks[a + 1]);
                }
            }
            lemma_wf_after_project_change(old_store, *self, pi as int);
        }
        Ok(())
    }
}

/// `e` lists the item with id `id`, found in `items`, at position `seq`.
pub open spec fn lists_item(items: Seq<TaskItem>, id: i64, e: TaskItemWithSequence, seq: Option<
    i64,
>) -> bool {
    exists|k: int|
        first_at(item_ids(items), id, k) && e.id == id && e.content == items[k].content && e.status
            == items[k].status && e.sequence == seq
}

/// Every id of `ids` names an item of `items`.
pub open spec fn all_known(items: Seq<TaskItem>, ids: Seq<i64>) -> bool {
    forall|j: int| 0 <= j < ids.len() ==> item_ids(items).contains(#[trigger] ids[j])
}

impl Store {
    /// Index of the item with id `id`.
    pub fn find_item(&self, id: i64) -> (r: Option<usize>)
        ensures
            r is Some ==> first_at(item_ids(self.items@), id, r->Some_0 as int),
            r is None <==> !item_ids(self.items@).contains(id),
    {
        let mut i: usize = 0;
        while i < self.items.len()
            invariant
                i <= self.items@.len(),
                forall|j: int| 0 <= j < i ==> item_ids(self.items@)[j] != id,
            decreases self.items@.len() - i,
        {
            if self.items[i].id == id {
                assert(item_ids(self.items@)[i as int] == id);
                return Some(i);
            }
            i = i + 1;
        }
        None
    }

    /// The tasks of project `project_id` in their order, each with its
    /// 1-based rank within the project as sequence; empty for an unknown
    /// project.
    pub fn get_tasks(&self, project_id: i64) -> (r: Vec<Task>)
        requires
            self.wf(),
        ensures
            !project_ids(self.projects@).contains(project_id) ==> r@.len() == 0,
            forall|pi: int|
                first_at(project_ids(self.projects@), project_id, pi) ==> {
                    &&& r@.len() == self.projects@[pi].tasks@.len()
                    &&& forall|i: int|
                        0 <= i < r@.len() ==> {
                            &&& (#[trigger] r@[i]).id == self.projects@[pi].tasks@[i].id
                            &&& r@[i].project_id == project_id
                            &&& r@[i].title == self.projects@[pi].tasks@[i].title
                            &&& r@[i].description == self.projects@[pi].tasks@[i].description
                            &&& r@[i].sequence == i + 1
                        }
                },
    {
        let mut r: Vec<Task> = Vec::new();
        let pi = match self.find_project(project_id) {
            Some(pi) => pi,
            None => return r,
        };
        proof {
            assert forall|pj: int| first_at(project_ids(self.projects@), project_id, pj) implies pj
                == pi by {
                if pj < pi {
                    assert(project_ids(self.projects@)[pj] == project_id);
                }
                if pi < pj {
                    assert(project_ids(self.projects@)[pi as int] == project_id);
                }
            }
            assert(project_wf(self.projects@[pi as int], self.next_id as int));
        }
        let p = &self.projects[pi];
        let mut i: usize = 0;
        while i < p.tasks.len()
            invariant
                *p == self.projects@[pi as int],
                p.tasks@.len() < self.next_id,
                i <= p.tasks@.len(),
                r@.len() == i,
                forall|j: int|
                    0 <= j < i ==> {
                        &&& (#[trigger] r@[j]).id == p.tasks@[j].id
                        &&& r@[j].project_id == project_id
                        &&& r@[j].title == p.tasks@[j].title
                        &&& r@[j].description == p.tasks@[j].description
                        &&& r@[j].sequence == j + 1
                    },
            decreases p.tasks@.len() - i,
        {
            let t = &p.tasks[i];
            r.push(
                Task {
                    id: t.id,
                    project_id,
                    title: t.title.clone(),
                    description: copy_text(&t.description),
                    sequence: i as i64 + 1,
                },
            );
            i = i + 1;
        }
        r
    }

    /// Task `id` with its project and its position there as sequence.
    pub fn get_task(&self, id: i64) -> (r: Result<Task, StoreError>)
        requires
            self.wf(),
        ensures
            has_task(self.projects@, id) ==> r is Ok,
            !has_task(self.projects@, id) <==> r == Err::<Task, StoreError>(StoreError::NotFound),
            r is Ok ==> exists|pi: int, ti: int|
                task_first_at(self.projects@, id, pi, ti) && r->Ok_0.id == id && r->Ok_0.project_id
                    == self.projects@[pi].id && r->Ok_0.title == self.projects@[pi].tasks@[ti].title
                    && r->Ok_0.description == self.projects@[pi].tasks@[ti].description
                    && r->Ok_0.sequence == ti + 1,
    {
        match self.find_task(id) {
            None => Err(StoreError::NotFound),
            Some((pi, ti)) => {
                let p = &self.projects[pi];
                proof {
                    assert(project_wf(*p, self.next_id as int));
                }
                let t = &p.tasks[ti];
                Ok(
                    Task {
                        id: t.id,
                        project_id: p.id,
                        title: t.title.clone(),
                        description: copy_text(&t.description),
                        sequence: ti as i64 + 1,
                    },
                )
            },
        }
    }

    /// Replaces the title and description of task `id`; its position and
    /// links stay as they are.
    pub fn update_task_content(&mut self, id: i64, title: String, description: Option<String>) -> (r:
        Result<(), StoreError>)
        requires
            old(self).wf(),
        ensures
            has_task(old(self).projects@, id) ==> r is Ok,
            final(self).wf(),
            r is Err ==> *final(self) == *old(self),
            !has_task(old(self).projects@, id) <==> r == Err::<(), StoreError>(StoreError::NotFound),
            r is Ok ==> final(self).next_id == old(self).next_id && final(self).items == old(self).items
                && exists|pi: int, ti: int|
                task_first_at(old(self).projects@, id, pi, ti) && same_except(
                    old(self).projects@,
                    final(self).projects@,
                    pi,
                ) && final(self).projects@[pi].tasks@.len() == old(self).projects@[pi].tasks@.len()
                    && (forall|k: int|
                    0 <= k < old(self).projects@[pi].tasks@.len() && k != ti ==> final(self).projects@[pi].tasks@[k] == old(self).projects@[pi].tasks@[k])
                    && final(self).projects@[pi].tasks@[ti].id == id && final(self).projects@[pi].tasks@[ti].title == title && final(self).projects@[pi].tasks@[ti].description == description && final(self).projects@[pi].tasks@[ti].items == old(self).projects@[pi].tasks@[ti].items
                    && final(self).projects@[pi].tasks@[ti].detached == old(self).projects@[pi].tasks@[ti].detached,
    {
        let (pi, ti) = match self.find_task(id) {
            Some(loc) => loc,
            None => return Err(StoreError::NotFound),
        };
        let ghost old_store = *self;
        let mut p = self.projects.remove(pi);
        let ghost old_tasks = p.tasks@;
        let mut t = p.tasks.remove(ti);
        t.title = title;
        t.description = description;
        p.tasks.insert(ti, t);
        self.projects.insert(pi, p);
        proof {
            let np = self.projects@[pi as int];
            assert(project_wf(old_store.projects@[pi as int], old_store.next_id as int));
            assert(task_ids(np.tasks@) =~= task_ids(old_tasks));
            assert forall|a: int| 0 <= a < np.tasks@.len() implies links_wf(
                #[trigger] np.tasks@[a],
                self.next_id as int,
            ) by {
                assert(links_wf(old_tasks[a], old_store.next_id as int));
            }
            lemma_wf_after_project_change(old_store, *self, pi as int);
        }
        Ok(())
    }

    /// Adds a checklist item, linked to no task, and returns its id.
    pub fn create_task_item(&mut self, content: String) -> (r: Result<i64, StoreError>)
        requires
            old(self).wf(),
        ensures
            r is Ok ==> final(self).next_id == old(self).next_id + 1,
            final(self).wf(),
            old(self).next_id < i64::MAX <==> r is Ok,
            r is Err ==> r->Err_0 == StoreError::StorageUnavailable && *final(self) == *old(self),
            r is Ok ==> {
                &&& r->Ok_0 == old(self).next_id
                &&& final(self).projects == old(self).projects
                &&& final(self).items@.drop_last() == old(self).items@
                &&& final(self).items@.len() == old(self).items@.len() + 1
                &&& final(self).items@.last().id == r->Ok_0
                &&& final(self).items@.last().content == content
                &&& final(self).items@.last().status == TaskItemStatus::Pending
            },
    {
        let ghost old_store = *self;
        let id = match self.take_id() {
            Ok(id) => id,
            Err(e) => return Err(e),
        };
        self.items.push(TaskItem { id, content, status: TaskItemStatus::Pending });
        proof {
            assert(self.items@.drop_last() =~= old_store.items@);
            assert(item_ids(self.items@) =~= item_ids(old_store.items@).push(id));
            assert forall|k: int| 0 <= k < old_store.items@.len() implies item_ids(
                old_store.items@,
            )[k] != id by {
                assert(old_store.items@[k].id < old_store.next_id);
            }
            assert forall|i: int| 0 <= i < self.projects@.len() implies project_wf(
                #[trigger] self.projects@[i],
                self.next_id as int,
            ) by {
                let p = self.projects@[i];
                assert(project_wf(p, old_store.next_id as int));
                assert forall|k: int| 0 <= k < p.tasks@.len() implies links_wf(
                    #[trigger] p.tasks@[k],
                    self.next_id as int,
                ) by {
                    assert(links_wf(p.tasks@[k], old_store.next_id as int));
                }
            }
            assert forall|i: int| 0 <= i < self.projects@.len() implies project_links_known(
                #[trigger] self.projects@[i],
                item_ids(self.items@),
            ) by {
                let p = self.projects@[i];
                assert(project_links_known(p, item_ids(old_store.items@)));
                assert forall|k: int| 0 <= k < p.tasks@.len() implies links_known(
                    #[trigger] p.tasks@[k],
                    item_ids(self.items@),
                ) by {
                    let t = p.tasks@[k];
                    let known = item_ids(old_store.items@);
                    assert(links_known(t, known));
                    assert forall|x: i64| t.items@.contains(x) || t.detached@.contains(x) implies item_ids(
                        self.items@,
                    ).contains(x) by {
                        assert(known.contains(x));
                        let a = choose|a: int| 0 <= a < known.len() && known[a] == x;
                        assert(item_ids(self.items@)[a] == x);
                    }
                }
            }
        }
        Ok(id)
    }

    /// Appends one listed entry for each id of `ids`: with `None` as sequence
    /// where `ranked` is false, else with the 1-based rank. Returns false,
    /// leaving `out` partly filled, when an id names no item.
    fn list_links(&self, ids: &Vec<i64>, ranked: bool, out: &mut Vec<TaskItemWithSequence>) -> (ok:
        bool)
        requires
            ids@.len() < i64::MAX,
        ensures
            ok == all_known(self.items@, ids@),
            ok ==> final(out)@.len() == old(out)@.len() + ids@.len(),
            ok ==> final(out)@.subrange(0, old(out)@.len() as int) == old(out)@,
            ok ==> forall|j: int|
                0 <= j < ids@.len() ==> lists_item(
                    self.items@,
                    ids@[j],
                    #[trigger] final(out)@[old(out)@.len() + j],
                    if ranked {
                        Some((j + 1) as i64)
                    } else {
                        None
                    },
                ),
    {
        let ghost start = out@;
        let mut j: usize = 0;
        while j < ids.len()
            invariant
                ids@.len() < i64::MAX,
                j <= ids@.len(),
                out@.len() == start.len() + j,
                out@.subrange(0, start.len() as int) == start,
                all_known(self.items@, ids@.subrange(0, j as int)),
                forall|m: int|
                    0 <= m < j ==> lists_item(
                        self.items@,
                        ids@[m],
                        #[trigger] out@[start.len() + m],
                        if ranked {
                            Some((m + 1) as i64)
                        } else {
                            None
                        },
                    ),
            decreases ids@.len() - j,
        {
            let id = ids[j];
            match self.find_item(id) {
                None => {
                    assert(!all_known(self.items@, ids@)) by {
                        assert(!item_ids(self.items@).contains(ids@[j as int]));
                    }
                    return false;
                },
                Some(k) => {
                    let it = &self.items[k];
                    let seq = if ranked {
                        Some(j as i64 + 1)
                    } else {
                        None
                    };
                    let ghost before = out@;
                    out.push(
                        TaskItemWithSequence {
                            id,
                            content: it.content.clone(),
                            status: it.status,
                            sequence: seq,
                        },
                    );
                    proof {
                        assert(out@.subrange(0, start.len() as int) =~= before.subrange(
                            0,
                            start.len() as int,
                        ));
                        assert(lists_item(self.items@, ids@[j as int], out@[start.len() + j], seq));
                        assert forall|m: int| 0 <= m <= j implies lists_item(
                            self.items@,
                            ids@[m],
                            #[trigger] out@[start.len() + m],
                            if ranked {
                                Some((m + 1) as i64)
                            } else {
                                None
                            },
                        ) by {
                            if m < j {
                                assert(out@[start.len() + m] == before[start.len() + m]);
                            }
                        }
                        assert forall|m: int| 0 <= m < j + 1 implies item_ids(self.items@).contains(
                            #[trigger] ids@.subrange(0, j as int + 1)[m],
                        ) by {
                            if m < j {
                                assert(ids@.subrange(0, j as int + 1)[m] == ids@.subrange(
                                    0,
                                    j as int,
                                )[m]);
                            }
                        }
                    }
                },
            }
            j = j + 1;
        }
        assert(ids@.subrange(0, ids@.len() as int) =~= ids@);
        true
    }

    /// The items linked into task `task_id`: first the detached ones, with no
    /// sequence, then the ordered ones, each with its 1-based rank. Fails with
    /// `NotFound` exactly for an unknown task.
    pub fn get_task_items(&self, task_id: i64) -> (r: Result<
        Vec<TaskItemWithSequence>,
        StoreError,
    >)
        requires
            self.wf(),
        ensures
            !has_task(self.projects@, task_id) ==> r == Err::<
                Vec<TaskItemWithSequence>,
                StoreError,
            >(StoreError::NotFound),
            forall|pi: int, ti: int|
                task_first_at(self.projects@, task_id, pi, ti) ==> {
                    let t = self.projects@[pi].tasks@[ti];
                    let d = t.detached@.len();
                    &&& r is Ok
                    &&& r is Ok ==> {
                        &&& r->Ok_0@.len() == d + t.items@.len()
                        &&& forall|j: int|
                            0 <= j < d ==> lists_item(
                                self.items@,
                                t.detached@[j],
                                #[trigger] r->Ok_0@[j],
                                None,
                            )
                        &&& forall|j: int|
                            0 <= j < t.items@.len() ==> lists_item(
                                self.items@,
                                t.items@[j],
                                #[trigger] r->Ok_0@[d + j],
                                Some((j + 1) as i64),
                            )
                    }
                },
    {
        let (pi, ti) = match self.find_task(task_id) {
            Some(loc) => loc,
            None => return Err(StoreError::NotFound),
        };
        proof {
            assert forall|pj: int, tj: int| task_first_at(self.projects@, task_id, pj, tj) implies pj
                == pi && tj == ti by {
                if pj < pi {
                    assert(task_ids(self.projects@[pj].tasks@).contains(task_id));
                }
                if pi < pj {
                    assert(task_ids(self.projects@[pi as int].tasks@).contains(task_id));
                }
            }
            assert(project_wf(self.projects@[pi as int], self.next_id as int));
            assert(links_wf(self.projects@[pi as int].tasks@[ti as int], self.next_id as int));
        }
        let t = &self.projects[pi].tasks[ti];
        proof {
            assert(project_links_known(self.projects@[pi as int], item_ids(self.items@)));
            assert(links_known(*t, item_ids(self.items@)));
            assert forall|j: int| 0 <= j < t.detached@.len() implies item_ids(self.items@).contains(
                #[trigger] t.detached@[j],
            ) by {
                assert(t.detached@.contains(t.detached@[j]));
            }
            assert forall|j: int| 0 <= j < t.items@.len() implies item_ids(self.items@).contains(
                #[trigger] t.items@[j],
            ) by {
                assert(t.items@.contains(t.items@[j]));
            }
        }
        let mut out: Vec<TaskItemWithSequence> = Vec::new();
        if !self.list_links(&t.detached, false, &mut out) {
            return Err(StoreError::NotFound);
        }
        let ghost mid = out@;
        if !self.list_links(&t.items, true, &mut out) {
            return Err(StoreError::NotFound);
        }
        proof {
            let d = t.detached@.len();
            assert forall|j: int| 0 <= j < d implies lists_item(
                self.items@,
                t.detached@[j],
                #[trigger] out@[j],
                None,
            ) by {
                assert(out@[j] == out@.subrange(0, d as int)[j]);
                assert(mid[0 + j] == mid[j]);
            }
        }
        Ok(out)
    }
}

/// `new` differs from `old` at most in the links of the task at `(pi, ti)`.
pub open spec fn same_task_except(
    old: Seq<ProjectEntry>,
    new: Seq<ProjectEntry>,
    pi: int,
    ti: int,
) -> bool {
    &&& same_except(old, new, pi)
    &&& 0 <= ti < old[pi].tasks@.len()
    &&& new[pi].tasks@.len() == old[pi].tasks@.len()
    &&& forall|k: int|
        0 <= k < old[pi].tasks@.len() && k != ti ==> new[pi].tasks@[k] == old[pi].tasks@[k]
    &&& new[pi].tasks@[ti].id == old[pi].tasks@[ti].id
    &&& new[pi].tasks@[ti].title == old[pi].tasks@[ti].title
    &&& new[pi].tasks@[ti].description == old[pi].tasks@[ti].description
}

impl Store {
    /// Replaces the link lists of the task at `(pi, ti)`.
    fn set_links(&mut self, pi: usize, ti: usize, items: Vec<i64>, detached: Vec<i64>)
        requires
            old(self).wf(),
            pi < old(self).projects@.len(),
            ti < old(self).projects@[pi as int].tasks@.len(),
            items@.no_duplicates(),
            detached@.no_duplicates(),
            items@.len() + detached@.len() < i64::MAX,
            forall|x: i64| items@.contains(x) ==> !detached@.contains(x),
            forall|x: i64| items@.contains(x) ==> item_ids(old(self).items@).contains(x),
            forall|x: i64| detached@.contains(x) ==> item_ids(old(self).items@).contains(x),
        ensures
            final(self).wf(),
            final(self).next_id == old(self).next_id,
            final(self).items == old(self).items,
            same_task_except(old(self).projects@, final(self).projects@, pi as int, ti as int),
            final(self).projects@[pi as int].tasks@[ti as int].items@ == items@,
            final(self).projects@[pi as int].tasks@[ti as int].detached@ == detached@,
    {
        let ghost old_store = *self;
        let mut p = self.projects.remove(pi);
        let ghost old_tasks = p.tasks@;
        let mut t = p.tasks.remove(ti);
        t.items = items;
        t.detached = detached;
        p.tasks.insert(ti, t);
        self.projects.insert(pi, p);
        proof {
            let np = self.projects@[pi as int];
            assert(project_wf(old_store.projects@[pi as int], old_store.next_id as int));
            assert(task_ids(np.tasks@) =~= task_ids(old_tasks));
            assert forall|a: int| 0 <= a < np.tasks@.len() implies links_wf(
                #[trigger] np.tasks@[a],
                self.next_id as int,
            ) by {
                assert(links_wf(old_tasks[a], old_store.next_id as int));
            }
            lemma_wf_after_project_change(old_store, *self, pi as int);
        }
    }

    /// Links item `item_id` into task `task_id` at the end of the task's
    /// ordering and returns the sequence it gets there. An existing link of
    /// the pair is moved to the end (and re-activated if detached) rather than
    /// duplicated.
    pub fn link_task_item(&mut self, task_id: i64, item_id: i64) -> (r: Result<i64, StoreError>)
        requires
            old(self).wf(),
        ensures
            final(self).wf(),
            r is Err ==> *final(self) == *old(self),
            !has_task(old(self).projects@, task_id) || !item_ids(old(self).items@).contains(item_id)
                ==> r == Err::<i64, StoreError>(StoreError::NotFound),
            forall|pi: int, ti: int|
                task_first_at(old(self).projects@, task_id, pi, ti) && item_ids(
                    old(self).items@,
                ).contains(item_id) ==> {
                    let t = old(self).projects@[pi].tasks@[ti];
                    let kept = drop_member(t.items@, item_id);
                    let rest = drop_member(t.detached@, item_id);
                    &&& kept.len() + rest.len() + 1 < i64::MAX ==> {
                        &&& r is Ok
                        &&& r->Ok_0 == kept.len() + 1
                        &&& final(self).next_id == old(self).next_id
                        &&& final(self).items == old(self).items
                        &&& same_task_except(old(self).projects@, final(self).projects@, pi, ti)
                        &&& final(self).projects@[pi].tasks@[ti].items@ == kept.push(item_id)
                        &&& final(self).projects@[pi].tasks@[ti].detached@ == rest
                    }
                    &&& kept.len() + rest.len() + 1 >= i64::MAX ==> r == Err::<i64, StoreError>(
                        StoreError::StorageUnavailable,
                    )
                },
    {
        let (pi, ti) = match self.find_task(task_id) {
            Some(loc) => loc,
            None => return Err(StoreError::NotFound),
        };
        if self.find_item(item_id).is_none() {
            return Err(StoreError::NotFound);
        }
        proof {
            assert forall|pj: int, tj: int| task_first_at(self.projects@, task_id, pj, tj) implies pj
                == pi && tj == ti by {
                if pj < pi {
                    assert(task_ids(self.projects@[pj].tasks@).contains(task_id));
                }
                if pi < pj {
                    assert(task_ids(self.projects@[pi as int].tasks@).contains(task_id));
                }
            }
            assert(project_wf(self.projects@[pi as int], self.next_id as int));
            assert(links_wf(self.projects@[pi as int].tasks@[ti as int], self.next_id as int));
        }
        let t = &self.projects[pi].tasks[ti];
        let mut items = without_member(&t.items, item_id);
        let detached = without_member(&t.detached, item_id);
        proof {
            lemma_drop_member(t.items@, item_id);
            lemma_drop_member(t.detached@, item_id);
        }
        if items.len() as u64 + detached.len() as u64 + 1 >= i64::MAX as u64 {
            return Err(StoreError::StorageUnavailable);
        }
        let ghost kept = items@;
        items.push(item_id);
        let seq = items.len() as i64;
        proof {
            assert(items@ == kept.push(item_id));
            assert forall|a: int, b: int| 0 <= a < items@.len() && 0 <= b < items@.len() && a != b
                implies items@[a] != items@[b] by {
                if a < kept.len() && b < kept.len() {
                    assert(kept[a] != kept[b]);
                } else if a < kept.len() {
                    assert(kept.contains(kept[a]));
                } else if b < kept.len() {
                    assert(kept.contains(kept[b]));
                }
            }
            assert forall|x: i64| items@.contains(x) implies !detached@.contains(x) by {
                if x != item_id {
                    let a = choose|a: int| 0 <= a < items@.len() && items@[a] == x;
                    assert(kept[a] == x);
                    assert(kept.contains(x));
                }
            }
        }
        self.set_links(pi, ti, items, detached);
        Ok(seq)
    }

    /// Moves item `item_id` to the 1-based position `new_sequence` within the
    /// ordered links of task `task_id`.
    pub fn update_task_item_sequence(&mut self, task_id: i64, item_id: i64, new_sequence: i64) -> (r:
        Result<(), StoreError>)
        requires
            old(self).wf(),
        ensures
            final(self).wf(),
            r is Err ==> *final(self) == *old(self),
            !has_task(old(self).projects@, task_id) ==> r == Err::<(), StoreError>(
                StoreError::NotFound,
            ),
            forall|pi: int, ti: int|
                task_first_at(old(self).projects@, task_id, pi, ti) ==> {
                    let t = old(self).projects@[pi].tasks@[ti];
                    &&& !t.items@.contains(item_id) ==> r == Err::<(), StoreError>(
                        StoreError::NotFound,
                    )
                    &&& t.items@.contains(item_id) && !(1 <= new_sequence <= t.items@.len()) ==> r
                        == Err::<(), StoreError>(StoreError::InvalidPosition)
                    &&& t.items@.contains(item_id) && 1 <= new_sequence <= t.items@.len() ==> {
                        &&& r is Ok
                        &&& final(self).next_id == old(self).next_id
                        &&& final(self).items == old(self).items
                        &&& same_task_except(old(self).projects@, final(self).projects@, pi, ti)
                        &&& final(self).projects@[pi].tasks@[ti].detached@ == t.detached@
                        &&& exists|i: int|
                            first_at(t.items@, item_id, i) && final(self).projects@[pi].tasks@[ti].items@ == moved(
                                t.items@,
                                i,
                                new_sequence - 1,
                            )
                    }
                },
    {
        let (pi, ti) = match self.find_task(task_id) {
            Some(loc) => loc,
            None => return Err(StoreError::NotFound),
        };
        proof {
            assert forall|pj: int, tj: int| task_first_at(self.projects@, task_id, pj, tj) implies pj
                == pi && tj == ti by {
                if pj < pi {
                    assert(task_ids(self.projects@[pj].tasks@).contains(task_id));
                }
                if pi < pj {
                    assert(task_ids(self.projects@[pi as int].tasks@).contains(task_id));
                }
            }
            assert(project_wf(self.projects@[pi as int], self.next_id as int));
            assert(links_wf(self.projects@[pi as int].tasks@[ti as int], self.next_id as int));
        }
        let t = &self.projects[pi].tasks[ti];
        let ghost old_links = t.items@;
        let items = match move_member(&t.items, item_id, new_sequence) {
            Ok(v) => v,
            Err(e) => return Err(e),
        };
        let detached = copy_order(&t.detached);
        let ghost i = choose|i: int|
            first_at(t.items@, item_id, i) && items@ == moved(t.items@, i, new_sequence - 1);
        proof {
            let i = choose|i: int|
                first_at(t.items@, item_id, i) && items@ == moved(t.items@, i, new_sequence - 1);
            lemma_move_no_duplicates(t.items@, i, new_sequence - 1);
            assert forall|x: i64| items@.contains(x) implies !detached@.contains(x) by {
                assert(items@.to_set().contains(x));
            }
        }
        self.set_links(pi, ti, items, detached);
        assert(first_at(old_links, item_id, i));
        Ok(())
    }
}

/// The links of task `n` are those of task `o` once item `x` has left the
/// ordering: kept as a detached link where `keep` holds, else dropped.
pub open spec fn links_after(o: TaskEntry, n: TaskEntry, x: i64, keep: bool) -> bool {
    &&& n.id == o.id
    &&& n.title == o.title
    &&& n.description == o.description
    &&& n.items@ == drop_member(o.items@, x)
    &&& n.detached@ == if !keep {
        drop_member(o.detached@, x)
    } else if o.items@.contains(x) {
        o.detached@.push(x)
    } else {
        o.detached@
    }
}

/// Project `n` is project `o` with the tasks before `upto` passed through
/// `links_after` and the others unchanged.
pub open spec fn project_links_after(
    o: ProjectEntry,
    n: ProjectEntry,
    x: i64,
    keep: bool,
    upto: int,
) -> bool {
    &&& n.id == o.id
    &&& n.title == o.title
    &&& n.description == o.description
    &&& n.tasks@.len() == o.tasks@.len()
    &&& forall|k: int| 0 <= k < upto ==> links_after(o.tasks@[k], #[trigger] n.tasks@[k], x, keep)
    &&& forall|k: int| upto <= k < o.tasks@.len() ==> #[trigger] n.tasks@[k] == o.tasks@[k]
}

/// Every task of `new` is the task of `old` once item `x` has left it.
pub open spec fn all_links_after(
    old: Seq<ProjectEntry>,
    new: Seq<ProjectEntry>,
    x: i64,
    keep: bool,
) -> bool {
    &&& new.len() == old.len()
    &&& forall|j: int|
        0 <= j < old.len() ==> project_links_after(
            old[j],
            #[trigger] new[j],
            x,
            keep,
            old[j].tasks@.len() as int,
        )
}

proof fn lemma_item_ids_removed(its: Seq<TaskItem>, i: int)
    requires
        0 <= i < its.len(),
    ensures
        item_ids(its.remove(i)) == item_ids(its).remove(i),
{
    assert(item_ids(its.remove(i)) =~= item_ids(its).remove(i));
}

impl Store {
    /// Takes item `x` out of every task's ordering, closing the gaps; keeps
    /// each such link as detached where `keep` holds, else drops every link
    /// of `x`.
    fn strip_item(&mut self, x: i64, keep: bool)
        requires
            old(self).wf(),
        ensures
            final(self).wf(),
            final(self).next_id == old(self).next_id,
            final(self).items == old(self).items,
            all_links_after(old(self).projects@, final(self).projects@, x, keep),
    {
        let ghost start = self.projects@;
        let mut pi: usize = 0;
        while pi < self.projects.len()
            invariant
                self.wf(),
                self.next_id == old(self).next_id,
                self.items == old(self).items,
                start == old(self).projects@,
                self.projects@.len() == start.len(),
                pi <= start.len(),
                forall|j: int|
                    0 <= j < pi ==> project_links_after(
                        start[j],
                        #[trigger] self.projects@[j],
                        x,
                        keep,
                        start[j].tasks@.len() as int,
                    ),
                forall|j: int| pi <= j < start.len() ==> #[trigger] self.projects@[j] == start[j],
            decreases start.len() - pi,
        {
            let mut ti: usize = 0;
            while ti < self.projects[pi].tasks.len()
                invariant
                    self.wf(),
                    self.next_id == old(self).next_id,
                    self.items == old(self).items,
                    self.projects@.len() == start.len(),
                    pi < start.len(),
                    ti <= start[pi as int].tasks@.len(),
                    forall|j: int|
                        0 <= j < pi ==> project_links_after(
                            start[j],
                            #[trigger] self.projects@[j],
                            x,
                            keep,
                            start[j].tasks@.len() as int,
                        ),
                    forall|j: int| pi < j < start.len() ==> #[trigger] self.projects@[j] == start[j],
                    project_links_after(
                        start[pi as int],
                        self.projects@[pi as int],
                        x,
                        keep,
                        ti as int,
                    ),
                decreases start[pi as int].tasks@.len() - ti,
            {
                let ghost before = self.projects@;
                let ghost ot = start[pi as int].tasks@[ti as int];
                proof {
                    assert(self.projects@[pi as int].tasks@[ti as int] == ot);
                    assert(project_wf(self.projects@[pi as int], self.next_id as int));
                    assert(links_wf(ot, self.next_id as int));
                    lemma_drop_member(ot.items@, x);
                    lemma_drop_member(ot.detached@, x);
                }
                let t = &self.projects[pi].tasks[ti];
                let items = without_member(&t.items, x);
                let detached = if !keep {
                    without_member(&t.detached, x)
                } else {
                    let mut d = copy_order(&t.detached);
                    if position_of(&t.items, x).is_some() {
                        d.push(x);
                    }
                    d
                };
                proof {
                    if keep && ot.items@.contains(x) {
                        assert(!ot.detached@.contains(x));
                        assert(detached@ == ot.detached@.push(x));
                        assert forall|a: int, b: int|
                            0 <= a < detached@.len() && 0 <= b < detached@.len() && a != b implies detached@[a]
                            != detached@[b] by {
                            if a < ot.detached@.len() && b < ot.detached@.len() {
                            } else if a < ot.detached@.len() {
                                assert(ot.detached@.contains(detached@[a]));
                            } else if b < ot.detached@.len() {
                                assert(ot.detached@.contains(detached@[b]));
                            }
                        }
                    }
                    assert forall|y: i64| items@.contains(y) implies !detached@.contains(y) by {
                        assert(ot.items@.contains(y));
                        if keep && ot.items@.contains(x) && y != x {
                            if detached@.contains(y) {
                                let a = choose|a: int| 0 <= a < detached@.len() && detached@[a] == y;
                                if a < ot.detached@.len() {
                                    assert(ot.detached@[a] == y);
                                }
                            }
                        }
                    }
                }
                self.set_links(pi, ti, items, detached);
                proof {
                    assert forall|j: int| 0 <= j < pi implies project_links_after(
                        start[j],
                        #[trigger] self.projects@[j],
                        x,
                        keep,
                        start[j].tasks@.len() as int,
                    ) by {
                        assert(self.projects@[j] == before[j]);
                    }
                    assert forall|j: int| pi < j < start.len() implies #[trigger] self.projects@[j]
                        == start[j] by {
                        assert(self.projects@[j] == before[j]);
                    }
                    let np = self.projects@[pi as int];
                    assert forall|k: int| 0 <= k < ti + 1 implies links_after(
                        start[pi as int].tasks@[k],
                        #[trigger] np.tasks@[k],
                        x,
                        keep,
                    ) by {
                        if k < ti {
                            assert(np.tasks@[k] == before[pi as int].tasks@[k]);
                        }
                    }
                    assert forall|k: int| ti + 1 <= k < start[pi as int].tasks@.len() implies #[trigger] np.tasks@[k]
                        == start[pi as int].tasks@[k] by {
                        assert(np.tasks@[k] == before[pi as int].tasks@[k]);
                    }
                }
                ti = ti + 1;
            }
            pi = pi + 1;
        }
    }

    /// Replaces the content and status of item `item_id`. A status other than
    /// `Pending` takes the item out of every task's ordering (the later items
    /// move up one position) while its links stay, detached.
    pub fn update_task_item_content(
        &mut self,
        item_id: i64,
        content: String,
        status: TaskItemStatus,
    ) -> (r: Result<(), StoreError>)
        requires
            old(self).wf(),
        ensures
            item_ids(old(self).items@).contains(item_id) ==> r is Ok,
            final(self).wf(),
            r is Err ==> *final(self) == *old(self),
            !item_ids(old(self).items@).contains(item_id) <==> r == Err::<(), StoreError>(
                StoreError::NotFound,
            ),
            r is Ok ==> {
                &&& final(self).next_id == old(self).next_id
                &&& final(self).items@.len() == old(self).items@.len()
                &&& exists|k: int|
                    first_at(item_ids(old(self).items@), item_id, k) && (forall|j: int|
                        0 <= j < old(self).items@.len() && j != k ==> final(self).items@[j] == old(self).items@[j]) && final(self).items@[k].id == item_id && final(self).items@[k].content == content && final(self).items@[k].status == status
                &&& status == TaskItemStatus::Pending ==> final(self).projects == old(self).projects
                &&& status != TaskItemStatus::Pending ==> all_links_after(
                    old(self).projects@,
                    final(self).projects@,
                    item_id,
                    true,
                )
            },
    {
        let k = match self.find_item(item_id) {
            Some(k) => k,
            None => return Err(StoreError::NotFound),
        };
        let ghost old_items = self.items@;
        let mut it = self.items.remove(k);
        it.content = content;
        it.status = status;
        self.items.insert(k, it);
        proof {
            assert(item_ids(self.items@) =~= item_ids(old_items));
            assert forall|i: int| 0 <= i < self.items@.len() implies #[trigger] self.items@[i].id
                < self.next_id by {
                assert(old_items[i].id < self.next_id);
            }
        }
        if !status.is_pending() {
            self.strip_item(item_id, true);
        }
        Ok(())
    }

    /// Deletes item `id` together with every link to it; in each task that
    /// ordered it, the later items move up one position.
    pub fn delete_task_item(&mut self, id: i64) -> (r: Result<(), StoreError>)
        requires
            old(self).wf(),
        ensures
            item_ids(old(self).items@).contains(id) ==> r is Ok,
            final(self).wf(),
            r is Err ==> *final(self) == *old(self),
            !item_ids(old(self).items@).contains(id) <==> r == Err::<(), StoreError>(
                StoreError::NotFound,
            ),
            r is Ok ==> {
                &&& final(self).next_id == old(self).next_id
                &&& exists|k: int|
                    first_at(item_ids(old(self).items@), id, k) && final(self).items@ == old(self).items@.remove(k)
                &&& all_links_after(old(self).projects@, final(self).projects@, id, false)
            },
    {
        let k = match self.find_item(id) {
            Some(k) => k,
            None => return Err(StoreError::NotFound),
        };
        self.strip_item(id, false);
        let ghost old_items = self.items@;
        proof {
            assert(item_ids(old_items)[k as int] == id);
            assert forall|i: int| 0 <= i < self.projects@.len() implies !task_links_hold(
                #[trigger] self.projects@[i],
                id,
            ) by {
                let p = self.projects@[i];
                let o = old(self).projects@[i];
                assert(project_links_after(o, p, id, false, o.tasks@.len() as int));
                assert(project_wf(o, self.next_id as int));
                assert forall|j: int| 0 <= j < p.tasks@.len() implies !(#[trigger] p.tasks@[j].items@.contains(id)
                    || p.tasks@[j].detached@.contains(id)) by {
                    assert(links_after(o.tasks@[j], p.tasks@[j], id, false));
                    assert(links_wf(o.tasks@[j], self.next_id as int));
                    lemma_drop_member(o.tasks@[j].items@, id);
                    lemma_drop_member(o.tasks@[j].detached@, id);
                }
            }
        }
        self.items.remove(k);
        proof {
            lemma_item_ids_removed(old_items, k as int);
            lemma_remove_no_duplicates(item_ids(old_items), k as int);
            assert forall|i: int| 0 <= i < self.items@.len() implies #[trigger] self.items@[i].id
                < self.next_id by {
                if i >= k {
                    assert(self.items@[i] == old_items[i + 1]);
                }
            }
            assert forall|i: int| 0 <= i < self.projects@.len() implies project_links_known(
                #[trigger] self.projects@[i],
                item_ids(self.items@),
            ) by {
                let p = self.projects@[i];
                assert(project_links_known(p, item_ids(old_items)));
                assert(!task_links_hold(p, id));
                assert forall|j: int| 0 <= j < p.tasks@.len() implies links_known(
                    #[trigger] p.tasks@[j],
                    item_ids(self.items@),
                ) by {
                    let t = p.tasks@[j];
                    assert(links_known(t, item_ids(old_items)));
                    assert(!(t.items@.contains(id) || t.detached@.contains(id)));
                    assert forall|x: i64| t.items@.contains(x) || t.detached@.contains(x) implies item_ids(
                        self.items@,
                    ).contains(x) by {
                        assert(item_ids(old_items).contains(x));
                        assert(x != item_ids(old_items)[k as int]);
                        assert(item_ids(old_items).remove(k as int).contains(x));
                    }
                }
            }
        }
        Ok(())
    }
}

/// Density in every scope of a well-formed store: the projects, the tasks of
/// each project, and the ordered links of each task are numbered `1..=N`.
/// Every operation keeps the store well formed, so this holds after any
/// sequence of them.
pub proof fn lemma_store_dense(s: Store)
    requires
        s.wf(),
    ensures
        dense(project_ids(s.projects@)),
        forall|pi: int| 0 <= pi < s.projects@.len() ==> dense(task_ids(#[trigger] s.projects@[pi].tasks@)),
        forall|pi: int, ti: int|
            0 <= pi < s.projects@.len() && 0 <= ti < s.projects@[pi].tasks@.len() ==> dense(
                #[trigger] s.projects@[pi].tasks@[ti].items@,
            ),
{
    lemma_dense(project_ids(s.projects@));
    assert forall|pi: int| 0 <= pi < s.projects@.len() implies dense(
        task_ids(#[trigger] s.projects@[pi].tasks@),
    ) by {
        assert(project_wf(s.projects@[pi], s.next_id as int));
        lemma_dense(task_ids(s.projects@[pi].tasks@));
    }
    assert forall|pi: int, ti: int|
        0 <= pi < s.projects@.len() && 0 <= ti < s.projects@[pi].tasks@.len() implies dense(
        #[trigger] s.projects@[pi].tasks@[ti].items@,
    ) by {
        assert(project_wf(s.projects@[pi], s.next_id as int));
        assert(links_wf(s.projects@[pi].tasks@[ti], s.next_id as int));
        lemma_dense(s.projects@[pi].tasks@[ti].items@);
    }
}

} // verus!
