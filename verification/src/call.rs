//! Task bookkeeping for dispatched plugin callbacks: per-event-kind lists
//! of in-flight task handles, with spawn bookkeeping, pruning of finished
//! handles, and cancellation. Waiting for handles is asynchronous and
//! happens outside the library, on handles taken out through `take_all`.

use vstd::prelude::*;

use crate::storage::{PyPluginStorage, enabled_subset, pairs_u64_v};

verus! {

#[verifier::external_type_specification]
#[verifier::external_body]
#[verifier::reject_recursive_types(T)]
pub struct ExJoinHandle<T>(tokio::task::JoinHandle<T>);

#[verifier::external_type_specification]
#[verifier::external_body]
pub struct ExJoinError(tokio::task::JoinError);

/// Relies on `tokio::task::JoinHandle::is_finished`: whether the task has
/// completed. Nothing is promised of the answer; a pending task may finish
/// right after it is asked.
pub assume_specification<T>[ tokio::task::JoinHandle::<T>::is_finished ](
    h: &tokio::task::JoinHandle<T>,
) -> bool
;

/// Relies on `tokio::task::JoinHandle::abort`: asks the runtime to cancel
/// the task.
pub assume_specification<T>[ tokio::task::JoinHandle::<T>::abort ](
    h: &tokio::task::JoinHandle<T>,
)
;

/// The event kinds a plugin may subscribe to, one callback name each.
#[derive(Debug, Clone, Copy, PartialEq, Eq, Structural)]
pub enum TaskType {
    IcaNewMessage,
    IcaSystemMessage,
    IcaDeleteMessage,
    IcaJoinRequest,
    IcaLeaveMessage,
    TailchatNewMessage,
}

impl TaskType {
    /// The name of the callback a plugin defines for this event kind.
    pub fn py_func_str(&self) -> (r: &'static str)
        ensures
            r@ == self.func_name(),
    {
        proof {
            reveal_strlit("on_ica_message");
            reveal_strlit("on_ica_system_message");
            reveal_strlit("on_ica_delete_message");
            reveal_strlit("on_ica_join_request");
            reveal_strlit("on_ica_leave_message");
            reveal_strlit("on_tailchat_message");
        }
        match self {
            TaskType::IcaNewMessage => "on_ica_message",
            TaskType::IcaSystemMessage => "on_ica_system_message",
            TaskType::IcaDeleteMessage => "on_ica_delete_message",
            TaskType::IcaJoinRequest => "on_ica_join_request",
            TaskType::IcaLeaveMessage => "on_ica_leave_message",
            TaskType::TailchatNewMessage => "on_tailchat_message",
        }
    }

    /// The callback name of each event kind, as a sequence of characters.
    pub open spec fn func_name(self) -> Seq<char> {
        match self {
            TaskType::IcaNewMessage => "on_ica_message"@,
            TaskType::IcaSystemMessage => "on_ica_system_message"@,
            TaskType::IcaDeleteMessage => "on_ica_delete_message"@,
            TaskType::IcaJoinRequest => "on_ica_join_request"@,
            TaskType::IcaLeaveMessage => "on_ica_leave_message"@,
            TaskType::TailchatNewMessage => "on_tailchat_message"@,
        }
    }
}

/// The in-flight task handles of one event kind.
pub struct PyTaskList {
    /// The tracked handles.
    pub lst: Vec<tokio::task::JoinHandle<()>>,
}

impl PyTaskList {
    /// An empty list.
    pub fn new() -> (r: Self)
        ensures
            r.lst@.len() == 0,
    {
        Self { lst: Vec::new() }
    }

    /// Track one handle, and prune any finished ones while here.
    pub fn push(&mut self, handle: tokio::task::JoinHandle<()>)
        ensures
            final(self).lst@.len() <= old(self).lst@.len() + 1,
    {
        self.lst.push(handle);
        self.clean_finished();
    }

    /// Drop every handle whose task has finished.
    pub fn clean_finished(&mut self)
        ensures
            final(self).lst@.len() <= old(self).lst@.len(),
    {
        let mut kept: Vec<tokio::task::JoinHandle<()>> = Vec::new();
        loop
            invariant
                kept@.len() + self.lst@.len() <= old(self).lst@.len(),
            ensures
                kept@.len() <= old(self).lst@.len(),
            decreases self.lst@.len(),
        {
            match self.lst.pop() {
                None => {
                    break ;
                },
                Some(handle) => {
                    if !handle.is_finished() {
                        kept.push(handle);
                    }
                },
            }
        }
        self.lst = kept;
    }

    /// How many handles are tracked.
    pub fn len(&self) -> (r: usize)
        ensures
            r == self.lst@.len(),
    {
        self.lst.len()
    }

    /// Whether no handle is tracked.
    pub fn is_empty(&self) -> (r: bool)
        ensures
            r == (self.lst@.len() == 0),
    {
        self.lst.len() == 0
    }

    /// Ask the runtime to cancel every tracked task, and drop the handles.
    pub fn cancel_all(&mut self)
        ensures
            final(self).lst@.len() == 0,
    {
        loop
            invariant
                true,
            ensures
                self.lst@.len() == 0,
            decreases self.lst@.len(),
        {
            match self.lst.pop() {
                None => {
                    break ;
                },
                Some(handle) => {
                    handle.abort();
                },
            }
        }
    }

    /// Hand every tracked handle out, leaving the list empty; the caller
    /// awaits them.
    pub fn take_all(&mut self) -> (r: Vec<tokio::task::JoinHandle<()>>)
        ensures
            final(self).lst@.len() == 0,
            r@.len() == old(self).lst@.len(),
    {
        let mut out: Vec<tokio::task::JoinHandle<()>> = Vec::new();
        loop
            invariant
                out@.len() + self.lst@.len() == old(self).lst@.len(),
            ensures
                self.lst@.len() == 0,
                out@.len() == old(self).lst@.len(),
            decreases self.lst@.len(),
        {
            match self.lst.pop() {
                None => {
                    break ;
                },
                Some(handle) => {
                    out.push(handle);
                },
            }
        }
        out
    }

    /// Drop every handle without cancelling or awaiting.
    pub fn clear(&mut self)
        ensures
            final(self).lst@.len() == 0,
    {
        self.lst.clear();
    }
}

/// The tracked tasks of every event kind.
pub struct PyTasks {
    /// One list per event kind seen so far, kinds distinct.
    pub tasks: Vec<(TaskType, PyTaskList)>,
}

/// The total handle count over all kinds.
pub open spec fn total_of(s: Seq<(TaskType, PyTaskList)>) -> nat
    decreases s.len(),
{
    if s.len() == 0 {
        0
    } else {
        total_of(s.drop_last()) + s.last().1.lst@.len()
    }
}

/// The handle count of one kind, first match first.
pub open spec fn kind_len(s: Seq<(TaskType, PyTaskList)>, t: TaskType) -> nat
    decreases s.len(),
{
    if s.len() == 0 {
        0
    } else if s[0].0 == t {
        s[0].1.lst@.len()
    } else {
        kind_len(s.subrange(1, s.len() as int), t)
    }
}

impl PyTasks {
    /// An empty tracker.
    pub fn new() -> (r: Self)
        ensures
            total_of(r.tasks@) == 0,
            r.tasks@.len() == 0,
    {
        Self { tasks: Vec::new() }
    }

    /// Track one spawned handle under its event kind, pruning that kind's
    /// finished handles while here.
    pub fn push(&mut self, task_type: TaskType, handle: tokio::task::JoinHandle<()>)
        ensures
            final(self).tasks@.len() <= old(self).tasks@.len() + 1,
    {
        let mut i: usize = 0;
        while i < self.tasks.len()
            invariant
                i <= self.tasks@.len(),
                self.tasks@.len() == old(self).tasks@.len(),
            decreases self.tasks@.len() - i,
        {
            let hit = {
                let (t, _) = &self.tasks[i];
                *t == task_type
            };
            if hit {
                let (t, mut lst) = self.tasks.remove(i);
                lst.push(handle);
                self.tasks.insert(i, (t, lst));
                return ;
            }
            i = i + 1;
        }
        let mut lst = PyTaskList::new();
        lst.push(handle);
        self.tasks.push((task_type, lst));
    }

    /// How many handles of one kind are tracked.
    pub fn len(&self, task_type: TaskType) -> (r: usize)
        ensures
            r == kind_len(self.tasks@, task_type),
    {
        proof {
            assert(self.tasks@.subrange(0, self.tasks@.len() as int) =~= self.tasks@);
        }
        let mut i: usize = 0;
        while i < self.tasks.len()
            invariant
                i <= self.tasks@.len(),
                kind_len(self.tasks@, task_type) == kind_len(
                    self.tasks@.subrange(i as int, self.tasks@.len() as int),
                    task_type,
                ),
            decreases self.tasks@.len() - i,
        {
            let ghost suffix = self.tasks@.subrange(i as int, self.tasks@.len() as int);
            proof {
                assert(suffix[0] == self.tasks@[i as int]);
                assert(suffix.subrange(1, suffix.len() as int) =~= self.tasks@.subrange(
                    i + 1,
                    self.tasks@.len() as int,
                ));
            }
            let (t, lst) = &self.tasks[i];
            if *t == task_type {
                return lst.len();
            }
            i = i + 1;
        }
        proof {
            assert(self.tasks@.subrange(
                self.tasks@.len() as int,
                self.tasks@.len() as int,
            ) =~= Seq::<(TaskType, PyTaskList)>::empty());
        }
        0
    }

    /// Prune every kind's finished handles.
    pub fn clean_finished(&mut self)
        ensures
            final(self).tasks@.len() == old(self).tasks@.len(),
    {
        let mut i: usize = 0;
        while i < self.tasks.len()
            invariant
                i <= self.tasks@.len(),
                self.tasks@.len() == old(self).tasks@.len(),
            decreases self.tasks@.len() - i,
        {
            let (t, mut lst) = self.tasks.remove(i);
            lst.clean_finished();
            self.tasks.insert(i, (t, lst));
            i = i + 1;
        }
    }

    /// The total handle count over all kinds, capped at the machine word.
    pub fn total_len(&self) -> (r: usize)
        ensures
            total_of(self.tasks@) <= usize::MAX ==> r == total_of(self.tasks@),
            total_of(self.tasks@) > usize::MAX ==> r == usize::MAX,
    {
        let mut sum: usize = 0;
        let mut i: usize = 0;
        while i < self.tasks.len()
            invariant
                i <= self.tasks@.len(),
                total_of(self.tasks@.subrange(0, i as int)) <= usize::MAX ==> sum == total_of(
                    self.tasks@.subrange(0, i as int),
                ),
                total_of(self.tasks@.subrange(0, i as int)) > usize::MAX ==> sum == usize::MAX,
            decreases self.tasks@.len() - i,
        {
            let ghost pre = self.tasks@.subrange(0, i as int);
            let ghost cur = self.tasks@.subrange(0, i + 1 as int);
            proof {
                assert(cur.drop_last() =~= pre);
                assert(cur.last() == self.tasks@[i as int]);
            }
            let (_, lst) = &self.tasks[i];
            let l = lst.len();
            sum = if l > usize::MAX - sum {
                usize::MAX
            } else {
                sum + l
            };
            i = i + 1;
        }
        proof {
            assert(self.tasks@.subrange(0, self.tasks@.len() as int) =~= self.tasks@);
        }
        sum
    }

    /// Whether no handle at all is tracked.
    pub fn is_empty(&self) -> (r: bool)
        ensures
            r == (total_of(self.tasks@) == 0),
    {
        self.total_len() == 0
    }

    /// Ask the runtime to cancel everything, dropping all bookkeeping:
    /// forced shutdown.
    pub fn cancel_all(&mut self)
        ensures
            total_of(final(self).tasks@) == 0,
            final(self).tasks@.len() == 0,
    {
        loop
            invariant
                true,
            ensures
                self.tasks@.len() == 0,
            decreases self.tasks@.len(),
        {
            match self.tasks.pop() {
                None => {
                    break ;
                },
                Some((_, mut lst)) => {
                    lst.cancel_all();
                },
            }
        }
        proof {
            assert(total_of(self.tasks@) == 0);
        }
    }

    /// Hand every tracked handle out, leaving the tracker empty; the
    /// caller awaits them kind by kind: graceful shutdown.
    pub fn take_all(&mut self) -> (r: Vec<tokio::task::JoinHandle<()>>)
        ensures
            total_of(final(self).tasks@) == 0,
            final(self).tasks@.len() == 0,
            r@.len() == total_of(old(self).tasks@),
    {
        let ghost orig = self.tasks@;
        let mut out: Vec<tokio::task::JoinHandle<()>> = Vec::new();
        loop
            invariant
                out@.len() + total_of(self.tasks@) == total_of(orig),
                orig == old(self).tasks@,
            ensures
                self.tasks@.len() == 0,
                out@.len() == total_of(orig),
            decreases self.tasks@.len(),
        {
            let ghost pre = self.tasks@;
            match self.tasks.pop() {
                None => {
                    proof {
                        assert(total_of(self.tasks@) == 0);
                    }
                    break ;
                },
                Some((_, mut lst)) => {
                    proof {
                        assert(pre.drop_last().push(pre.last()) =~= pre);
                        assert(total_of(pre) == total_of(pre.drop_last())
                            + pre.last().1.lst@.len());
                    }
                    let mut handles = lst.take_all();
                    out.append(&mut handles);
                },
            }
        }
        out
    }
}

/// The per-event call list: the id and module token of every enabled
/// plugin, with the callback name the event kind asks for. Every enabled
/// plugin is on the list, whatever any other plugin's callback later does.
pub fn dispatch_targets(storage: &PyPluginStorage, task_type: TaskType) -> (r: (
    Vec<(String, crate::plugin::ModuleHandle)>,
    &'static str,
))
    ensures
        pairs_u64_v(r.0@) == enabled_subset(storage@),
        r.1@ == task_type.func_name(),
{
    (storage.get_enabled_plugins(), task_type.py_func_str())
}

/// How many of a dispatch round's callback outcomes raised: the host logs
/// each raised one against its plugin and reports nothing upward, so one
/// plugin's failure never touches the rest of the round.
pub fn failed_count(outcomes: &Vec<Option<String>>) -> (r: usize)
    ensures
        r == raised_of(outcomes@),
{
    proof {
        lemma_raised_prefix(outcomes@);
    }
    let mut count: usize = 0;
    let mut i: usize = 0;
    while i < outcomes.len()
        invariant
            i <= outcomes@.len(),
            count == raised_of(outcomes@.subrange(0, i as int)),
            forall|n: int|
                0 <= n <= outcomes@.len() ==> raised_of(
                    #[trigger] outcomes@.subrange(0, n),
                ) <= outcomes@.len(),
        decreases outcomes@.len() - i,
    {
        let ghost pre = outcomes@.subrange(0, i as int);
        let ghost cur = outcomes@.subrange(0, i + 1 as int);
        proof {
            assert(cur.drop_last() =~= pre);
            assert(cur.last() == outcomes@[i as int]);
        }
        match &outcomes[i] {
            Some(_) => {
                count = count + 1;
            },
            None => {},
        }
        i = i + 1;
    }
    proof {
        assert(outcomes@.subrange(0, outcomes@.len() as int) =~= outcomes@);
    }
    count
}

/// How many outcomes of a dispatch round carried a traceback.
pub open spec fn raised_of(s: Seq<Option<String>>) -> nat
    decreases s.len(),
{
    if s.len() == 0 {
        0
    } else {
        raised_of(s.drop_last()) + if s.last() is Some {
            1nat
        } else {
            0nat
        }
    }
}

proof fn lemma_raised_prefix(s: Seq<Option<String>>)
    ensures
        forall|n: int| 0 <= n <= s.len() ==> raised_of(#[trigger] s.subrange(0, n)) <= s.len(),
{
    assert forall|n: int| 0 <= n <= s.len() implies raised_of(#[trigger] s.subrange(0, n))
        <= s.len() by {
        lemma_raised_bound(s.subrange(0, n));
    }
}

proof fn lemma_raised_bound(s: Seq<Option<String>>)
    ensures
        raised_of(s) <= s.len(),
    decreases s.len(),
{
    if s.len() > 0 {
        lemma_raised_bound(s.drop_last());
    }
}

} // verus!
