//! The task ledger: per-task status, priority and creation time, with
//! counters over all tasks.

use vstd::prelude::*;
use vstd::string::*;

verus! {

/// Engine-wide status.
#[derive(Clone, Debug, PartialEq, Eq)]
pub enum ExecutionStatus {
    Idle,
    Running,
    Paused,
    Error(String),
}

/// Status of one task.
#[derive(Clone, Debug, PartialEq, Eq)]
pub enum TaskStatus {
    Pending,
    Running,
    Completed,
    Failed(String),
}

/// One ledger entry.
#[derive(Clone, Debug)]
pub struct TaskMetadata {
    pub task_id: String,
    pub description: String,
    pub created_at: String,
    pub status: TaskStatus,
    pub priority: u32,
}

/// Counters over all tasks.
#[derive(Clone, Copy, Debug)]
pub struct ExecutionMetrics {
    pub total_tasks: u64,
    pub completed_tasks: u64,
    pub failed_tasks: u64,
    pub total_latency_ms: u64,
}

/// The ledger: tasks in the order first seen, at most one entry per id.
#[derive(Clone, Debug)]
pub struct EngineState {
    pub status: ExecutionStatus,
    pub tasks: Vec<TaskMetadata>,
    pub metrics: ExecutionMetrics,
}

/// An engine with its identity, version, ledger and advertised capabilities.
#[derive(Clone, Debug)]
pub struct ApeXEngine {
    pub id: String,
    pub version: String,
    pub state: EngineState,
    pub capabilities: Vec<String>,
}

/// The ids of a sequence of ledger entries.
pub open spec fn task_ids(tasks: Seq<TaskMetadata>) -> Seq<Seq<char>> {
    tasks.map_values(|t: TaskMetadata| t.task_id@)
}

/// The message reported when task `id` completes.
pub open spec fn completion_message(id: Seq<char>) -> Seq<char> {
    "Task "@ + id + " completed successfully"@
}

fn copy_string(s: &String) -> (r: String)
    ensures
        r == *s,
{
    s.clone()
}

fn copy_execution_status(s: &ExecutionStatus) -> (r: ExecutionStatus)
    ensures
        r == *s,
{
    match s {
        ExecutionStatus::Idle => ExecutionStatus::Idle,
        ExecutionStatus::Running => ExecutionStatus::Running,
        ExecutionStatus::Paused => ExecutionStatus::Paused,
        ExecutionStatus::Error(m) => ExecutionStatus::Error(copy_string(m)),
    }
}

fn copy_task_status(s: &TaskStatus) -> (r: TaskStatus)
    ensures
        r == *s,
{
    match s {
        TaskStatus::Pending => TaskStatus::Pending,
        TaskStatus::Running => TaskStatus::Running,
        TaskStatus::Completed => TaskStatus::Completed,
        TaskStatus::Failed(m) => TaskStatus::Failed(copy_string(m)),
    }
}

fn copy_task(t: &TaskMetadata) -> (r: TaskMetadata)
    ensures
        r == *t,
{
    TaskMetadata {
        task_id: copy_string(&t.task_id),
        description: copy_string(&t.description),
        created_at: copy_string(&t.created_at),
        status: copy_task_status(&t.status),
        priority: t.priority,
    }
}

impl EngineState {
    /// At most one entry per task id.
    pub open spec fn wf(&self) -> bool {
        task_ids(self.tasks@).no_duplicates()
    }

    /// The position of the entry for `id`.
    pub fn find_task(&self, id: &String) -> (r: Option<usize>)
        ensures
            match r {
                Some(i) => i < self.tasks@.len() && self.tasks@[i as int].task_id@ == id@,
                None => !task_ids(self.tasks@).contains(id@),
            },
    {
        let mut i: usize = 0;
        while i < self.tasks.len()
            invariant
                i <= self.tasks@.len(),
                forall|j: int| 0 <= j < i ==> self.tasks@[j].task_id@ != id@,
            decreases self.tasks@.len() - i,
        {
            if self.tasks[i].task_id == *id {
                return Some(i);
            }
            i = i + 1;
        }
        proof {
            if task_ids(self.tasks@).contains(id@) {
                let j = choose|j: int| 0 <= j < self.tasks@.len() && task_ids(self.tasks@)[j] == id@;
                assert(self.tasks@[j].task_id@ == id@);
            }
        }
        None
    }

    /// A copy of the ledger.
    pub fn snapshot(&self) -> (r: EngineState)
        ensures
            r.status == self.status,
            r.tasks@ == self.tasks@,
            r.metrics == self.metrics,
    {
        let mut tasks: Vec<TaskMetadata> = Vec::new();
        let mut i: usize = 0;
        while i < self.tasks.len()
            invariant
                i <= self.tasks@.len(),
                tasks@ == self.tasks@.subrange(0, i as int),
            decreases self.tasks@.len() - i,
        {
            tasks.push(copy_task(&self.tasks[i]));
            i = i + 1;
            proof {
                assert(tasks@ =~= self.tasks@.subrange(0, i as int));
            }
        }
        proof {
            assert(tasks@ =~= self.tasks@);
        }
        EngineState { status: copy_execution_status(&self.status), tasks, metrics: self.metrics }
    }
}

impl ApeXEngine {
    /// A fresh engine: idle, no tasks, zero counters, version `0.1.0-alpha`,
    /// and four capabilities.
    pub fn new(id: String) -> (r: Self)
        ensures
            r.id == id,
            r.version@ == "0.1.0-alpha"@,
            r.state.status == ExecutionStatus::Idle,
            r.state.tasks@.len() == 0,
            r.state.metrics == (ExecutionMetrics {
                total_tasks: 0,
                completed_tasks: 0,
                failed_tasks: 0,
                total_latency_ms: 0,
            }),
            r.capabilities@.len() == 4,
            r.capabilities@[0]@ == "task_execution"@,
            r.capabilities@[1]@ == "reasoning"@,
            r.capabilities@[2]@ == "planning"@,
            r.capabilities@[3]@ == "optimization"@,
            r.state.wf(),
    {
        let mut capabilities: Vec<String> = Vec::new();
        capabilities.push(String::from_str("task_execution"));
        capabilities.push(String::from_str("reasoning"));
        capabilities.push(String::from_str("planning"));
        capabilities.push(String::from_str("optimization"));
        ApeXEngine {
            id,
            version: String::from_str("0.1.0-alpha"),
            state: EngineState {
                status: ExecutionStatus::Idle,
                tasks: Vec::new(),
                metrics: ExecutionMetrics {
                    total_tasks: 0,
                    completed_tasks: 0,
                    failed_tasks: 0,
                    total_latency_ms: 0,
                },
            },
            capabilities,
        }
    }

    /// A copy of the current ledger.
    pub fn get_state(&self) -> (r: EngineState)
        ensures
            r.status == self.state.status,
            r.tasks@ == self.state.tasks@,
            r.metrics == self.state.metrics,
    {
        self.state.snapshot()
    }

    /// Back to idle with an empty task list; the counters are kept.
    pub fn reset(&mut self)
        ensures
            final(self).state.status == ExecutionStatus::Idle,
            final(self).state.tasks@.len() == 0,
            final(self).state.metrics == old(self).state.metrics,
            final(self).id == old(self).id,
            final(self).version == old(self).version,
            final(self).capabilities@ == old(self).capabilities@,
            final(self).state.wf(),
    {
        self.state.status = ExecutionStatus::Idle;
        self.state.tasks = Vec::new();
    }

    /// Records that task `task_id` started at `created_at`: its entry (new,
    /// or replacing the one with that id) is running with priority 1, the
    /// engine is running, and one more task is counted.
    pub fn begin_task(&mut self, task_id: String, description: String, created_at: String)
        requires
            old(self).state.metrics.total_tasks < u64::MAX,
        ensures
            ({
                let entry = TaskMetadata {
                    task_id,
                    description,
                    created_at,
                    status: TaskStatus::Running,
                    priority: 1,
                };
                let before = old(self).state.tasks@;
                if task_ids(before).contains(task_id@) {
                    exists|i: int|
                        0 <= i < before.len() && before[i].task_id@ == task_id@
                            && final(self).state.tasks@ == before.update(i, entry)
                } else {
                    final(self).state.tasks@ == before.push(entry)
                }
            }),
            final(self).state.status == ExecutionStatus::Running,
            final(self).state.metrics == (ExecutionMetrics {
                total_tasks: (old(self).state.metrics.total_tasks + 1) as u64,
                ..old(self).state.metrics
            }),
            final(self).id == old(self).id,
            final(self).version == old(self).version,
            final(self).capabilities@ == old(self).capabilities@,
            old(self).state.wf() ==> final(self).state.wf(),
    {
        let ghost id = task_id@;
        let ghost before = self.state.tasks@;
        let entry = TaskMetadata {
            task_id,
            description,
            created_at,
            status: TaskStatus::Running,
            priority: 1,
        };
        let ghost e = entry;
        match self.state.find_task(&entry.task_id) {
            Some(i) => {
                self.state.tasks.set(i, entry);
                proof {
                    assert(self.state.tasks@ == before.update(i as int, e));
                    assert(task_ids(before).contains(id)) by {
                        assert(task_ids(before)[i as int] == id);
                    }
                    assert(task_ids(self.state.tasks@) =~= task_ids(before));
                }
            },
            None => {
                self.state.tasks.push(entry);
                proof {
                    assert(task_ids(self.state.tasks@) =~= task_ids(before).push(id));
                }
            },
        }
        self.state.status = ExecutionStatus::Running;
        self.state.metrics.total_tasks = self.state.metrics.total_tasks + 1;
    }

    /// Records that task `task_id` completed: its entry, if any, is marked
    /// completed, one more completion is counted, and the engine is idle.
    /// Returns the completion message.
    pub fn finish_task(&mut self, task_id: &String) -> (r: String)
        requires
            old(self).state.metrics.completed_tasks < u64::MAX,
        ensures
            r@ == completion_message(task_id@),
            final(self).state.tasks@.len() == old(self).state.tasks@.len(),
            forall|i: int|
                0 <= i < old(self).state.tasks@.len() ==> {
                    let t = old(self).state.tasks@[i];
                    #[trigger] final(self).state.tasks@[i] == if t.task_id@ == task_id@ {
                        TaskMetadata { status: TaskStatus::Completed, ..t }
                    } else {
                        t
                    }
                },
            final(self).state.status == ExecutionStatus::Idle,
            final(self).state.metrics == (ExecutionMetrics {
                completed_tasks: (old(self).state.metrics.completed_tasks + 1) as u64,
                ..old(self).state.metrics
            }),
            final(self).id == old(self).id,
            final(self).version == old(self).version,
            final(self).capabilities@ == old(self).capabilities@,
            old(self).state.wf() ==> final(self).state.wf(),
    {
        let ghost before = self.state.tasks@;
        let mut i: usize = 0;
        while i < self.state.tasks.len()
            invariant
                i <= self.state.tasks@.len(),
                self.state.tasks@.len() == before.len(),
                self.state.metrics == old(self).state.metrics,
                self.state.status == old(self).state.status,
                self.id == old(self).id,
                self.version == old(self).version,
                self.capabilities == old(self).capabilities,
                forall|j: int|
                    0 <= j < before.len() ==> #[trigger] self.state.tasks@[j] == if j < i && before[j].task_id@ == task_id@ {
                        TaskMetadata { status: TaskStatus::Completed, ..before[j] }
                    } else {
                        before[j]
                    },
            decreases self.state.tasks@.len() - i,
        {
            if self.state.tasks[i].task_id == *task_id {
                let t = copy_task(&self.state.tasks[i]);
                self.state.tasks.set(i, TaskMetadata { status: TaskStatus::Completed, ..t });
            }
            i = i + 1;
        }
        proof {
            assert(task_ids(self.state.tasks@) =~= task_ids(before));
        }
        self.state.metrics.completed_tasks = self.state.metrics.completed_tasks + 1;
        self.state.status = ExecutionStatus::Idle;
        let message = String::from_str("Task ");
        let message = message.concat(task_id.as_str());
        message.concat(" completed successfully")
    }

}

} // verus!
