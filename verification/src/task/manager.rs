//! The ready queue and the stride table.
//!
//! Every task that the scheduler has seen has a row in the stride table:
//! its stride, which grows by its pass each time it has run, and its pass.
//! The task to run next is the first in the ready queue whose stride is
//! the least of the table.

use crate::config::DEFAULT_PASS;
use crate::task::task::TaskControlBlock;
use std::collections::BTreeMap;
use std::collections::VecDeque;
use vstd::prelude::*;
use vstd::std_specs::btree::spec_btree_map_iter;
use vstd::std_specs::iter::IteratorSpec;

verus! {

/// A stride table: for each task number the stride and the pass.
pub type StrideTable = Map<usize, (usize, usize)>;

/// The task numbers of a queue, in its order.
pub open spec fn pids_of(queue: Seq<TaskControlBlock>) -> Seq<usize> {
    queue.map_values(|t: TaskControlBlock| t.pid)
}

/// The table with a row of stride 0 and the default pass for each of the
/// given tasks that had none.
pub open spec fn backfilled(table: StrideTable, pids: Seq<usize>) -> StrideTable {
    Map::new(
        |p: usize| table.contains_key(p) || pids.contains(p),
        |p: usize|
            if table.contains_key(p) {
                table[p]
            } else {
                (0usize, DEFAULT_PASS)
            },
    )
}

/// The table from which the next task is chosen: the table itself, or,
/// where it is empty, the table with a fresh row for each queued task.
pub open spec fn selection_table(table: StrideTable, pids: Seq<usize>) -> StrideTable {
    if table.is_empty() {
        backfilled(table, pids)
    } else {
        table
    }
}

/// `m` is the least stride of the table.
pub open spec fn is_min_stride(table: StrideTable, m: usize) -> bool {
    &&& exists|k: usize| table.contains_key(k) && (#[trigger] table[k]).0 == m
    &&& forall|k: usize| table.contains_key(k) ==> (#[trigger] table[k]).0 >= m
}

/// The least stride of a table that is not empty.
pub open spec fn min_stride_of(table: StrideTable) -> usize {
    choose|m: usize| is_min_stride(table, m)
}

/// The task has a row and its stride is `m`.
pub open spec fn has_stride(table: StrideTable, pid: usize, m: usize) -> bool {
    table.contains_key(pid) && table[pid].0 == m
}

/// Position of the first task from `from` on whose stride is `m`, or the
/// length of the queue where there is none.
pub open spec fn first_with_stride(table: StrideTable, m: usize, pids: Seq<usize>, from: int) -> int
    decreases pids.len() - from,
{
    if from < 0 || from >= pids.len() {
        pids.len() as int
    } else if has_stride(table, pids[from], m) {
        from
    } else {
        first_with_stride(table, m, pids, from + 1)
    }
}

/// Position in the queue of the task that runs next: the first whose
/// stride is the least of the table. It is the length of the queue where
/// the table is empty or no queued task has the least stride.
pub open spec fn next_position(table: StrideTable, pids: Seq<usize>) -> int {
    if table.is_empty() {
        pids.len() as int
    } else {
        first_with_stride(table, min_stride_of(table), pids, 0)
    }
}

/// The position of the next task lies in the queue or is its length, and
/// a task at that position has the least stride.
pub proof fn lemma_next_position(table: StrideTable, pids: Seq<usize>)
    ensures
        0 <= next_position(table, pids) <= pids.len(),
        next_position(table, pids) < pids.len() ==> !table.is_empty() && has_stride(
            table,
            pids[next_position(table, pids)],
            min_stride_of(table),
        ),
{
    if !table.is_empty() {
        lemma_first_with_stride(table, min_stride_of(table), pids, 0);
    }
}

/// The first position with a stride lies at or after the start of the
/// search, and no position between has that stride.
pub proof fn lemma_first_with_stride(table: StrideTable, m: usize, pids: Seq<usize>, from: int)
    requires
        0 <= from <= pids.len(),
    ensures
        from <= first_with_stride(table, m, pids, from) <= pids.len(),
        first_with_stride(table, m, pids, from) < pids.len() ==> has_stride(
            table,
            pids[first_with_stride(table, m, pids, from)],
            m,
        ),
        forall|i: int|
            from <= i < first_with_stride(table, m, pids, from) ==> !has_stride(
                table,
                #[trigger] pids[i],
                m,
            ),
    decreases pids.len() - from,
{
    if from < pids.len() && !has_stride(table, pids[from], m) {
        lemma_first_with_stride(table, m, pids, from + 1);
    }
}

/// The row of a task after it has run for one turn: the stride grows by
/// the pass, and stops at the largest number.
pub open spec fn advanced(row: (usize, usize)) -> (usize, usize) {
    if row.0 + row.1 > usize::MAX {
        (usize::MAX, row.1)
    } else {
        ((row.0 + row.1) as usize, row.1)
    }
}

/// Every row of `before` is still in `after`, and no stride is less.
pub open spec fn strides_kept(before: StrideTable, after: StrideTable) -> bool {
    forall|p: usize| #[trigger]
        before.contains_key(p) ==> after.contains_key(p) && after[p].0 >= before[p].0
}

/// A table has at most one least stride.
pub proof fn lemma_min_stride_unique(table: StrideTable, m: usize)
    requires
        is_min_stride(table, m),
    ensures
        min_stride_of(table) == m,
{
    let c = min_stride_of(table);
    assert(is_min_stride(table, c));
    let k1 = choose|k: usize| table.contains_key(k) && (#[trigger] table[k]).0 == m;
    let k2 = choose|k: usize| table.contains_key(k) && (#[trigger] table[k]).0 == c;
    assert(table[k1].0 >= c);
    assert(table[k2].0 >= m);
}

/// The task numbers `pids`, in this order, after `k` tasks were taken
/// from a queue that held them when the stride table was empty.
pub open spec fn remaining_after(pids: Seq<usize>, k: int) -> Seq<usize> {
    pids.subrange(k, pids.len() as int)
}

/// The stride table after `k` tasks were taken from a queue that held the
/// tasks `pids` when the table was empty, and no stride was advanced.
pub open spec fn table_after(pids: Seq<usize>, k: int) -> StrideTable {
    if k == 0 {
        Map::<usize, (usize, usize)>::empty()
    } else {
        backfilled(Map::<usize, (usize, usize)>::empty(), pids)
    }
}

/// Tasks that go into the ready queue while the stride table is empty
/// come out in the order in which they went in, each once: whatever number
/// of them was taken, the next one taken is the first that is left, and the
/// table is afterwards the one with a fresh row for each of them.
pub proof fn lemma_first_in_first_out(pids: Seq<usize>, k: int)
    requires
        0 <= k < pids.len(),
    ensures
        ({
            let queue = remaining_after(pids, k);
            let table = selection_table(table_after(pids, k), queue);
            &&& table == table_after(pids, k + 1)
            &&& next_position(table, queue) == 0
            &&& queue[0] == pids[k]
            &&& queue.remove(0) == remaining_after(pids, k + 1)
        }),
{
    let queue = remaining_after(pids, k);
    let empty = Map::<usize, (usize, usize)>::empty();
    let full = backfilled(empty, pids);
    let table = selection_table(table_after(pids, k), queue);
    assert(pids.contains(pids[k]));
    assert(full.contains_key(pids[k]));
    if k == 0 {
        assert(queue =~= pids);
        assert(empty.is_empty());
    } else {
        assert(full.dom().contains(pids[k]));
        assert(!full.is_empty());
    }
    assert(table == full);
    assert(full[pids[k]].0 == 0);
    assert(is_min_stride(full, 0));
    lemma_min_stride_unique(full, 0);
    assert(full.dom().contains(pids[k]));
    assert(!full.is_empty());
    assert(queue[0] == pids[k]);
    assert(has_stride(full, queue[0], 0));
    assert(queue.remove(0) =~= remaining_after(pids, k + 1));
}

/// The stride table and the queue of task numbers after one turn: the
/// next task is taken from the queue, runs, has its stride advanced by
/// its pass and goes back to the end of the queue.
pub open spec fn after_turn(table: StrideTable, pids: Seq<usize>) -> (StrideTable, Seq<usize>) {
    let t = selection_table(table, pids);
    let pos = next_position(t, pids);
    if 0 <= pos < pids.len() {
        (t.insert(pids[pos], advanced(t[pids[pos]])), pids.remove(pos).push(pids[pos]))
    } else {
        (t, pids)
    }
}

/// The stride table and the queue of task numbers after `n` turns.
pub open spec fn after_turns(table: StrideTable, pids: Seq<usize>, n: nat) -> (
    StrideTable,
    Seq<usize>,
)
    decreases n,
{
    if n == 0 {
        (table, pids)
    } else {
        let before = after_turns(table, pids, (n - 1) as nat);
        after_turn(before.0, before.1)
    }
}

/// How many of the first `n` turns the task `pid` got.
pub open spec fn turns_of(table: StrideTable, pids: Seq<usize>, n: nat, pid: usize) -> nat
    decreases n,
{
    if n == 0 {
        0
    } else {
        let before = after_turns(table, pids, (n - 1) as nat);
        let t = selection_table(before.0, before.1);
        let pos = next_position(t, before.1);
        turns_of(table, pids, (n - 1) as nat, pid) + if 0 <= pos < before.1.len()
            && before.1[pos] == pid {
            1nat
        } else {
            0nat
        }
    }
}

/// Two tasks that start with stride 0 share the processor in inverse
/// proportion to their passes: after any number of turns every turn went
/// to one of them, the stride of each is its pass times its turns, and
/// neither stride is ahead of the other by more than its own pass. With
/// the passes 10 and 20 the first task has had at least twice the turns
/// of the second, less two.
#[verifier::rlimit(50)]
pub proof fn lemma_two_task_fairness(a: usize, b: usize, pass_a: usize, pass_b: usize, n: nat)
    requires
        a != b,
        pass_a > 0,
        pass_b > 0,
        n * pass_a <= usize::MAX,
        n * pass_b <= usize::MAX,
    ensures
        ({
            let table = Map::<usize, (usize, usize)>::empty().insert(a, (0usize, pass_a)).insert(
                b,
                (0usize, pass_b),
            );
            let queue = seq![a, b];
            let after = after_turns(table, queue, n);
            let na = turns_of(table, queue, n, a);
            let nb = turns_of(table, queue, n, b);
            &&& na + nb == n
            &&& after.0.dom() == set![a, b]
            &&& after.0[a] == ((pass_a * na) as usize, pass_a)
            &&& after.0[b] == ((pass_b * nb) as usize, pass_b)
            &&& pass_a * na <= pass_b * nb + pass_a
            &&& pass_b * nb <= pass_a * na + pass_b
            &&& after.1 == seq![a, b] || after.1 == seq![b, a]
            &&& pass_a == 10 && pass_b == 20 ==> na + 2 >= 2 * nb
        }),
    decreases n,
{
    let table = Map::<usize, (usize, usize)>::empty().insert(a, (0usize, pass_a)).insert(
        b,
        (0usize, pass_b),
    );
    let queue = seq![a, b];
    if n == 0 {
        assert(table.dom() =~= set![a, b]);
        assert(pass_a * 0 == 0) by (nonlinear_arith);
        assert(pass_b * 0 == 0) by (nonlinear_arith);
    } else {
        let m = (n - 1) as nat;
        assert(m * pass_a <= n * pass_a && m * pass_b <= n * pass_b) by (nonlinear_arith)
            requires
                m + 1 == n,
                pass_a > 0,
                pass_b > 0,
        ;
        lemma_two_task_fairness(a, b, pass_a, pass_b, m);
        let before = after_turns(table, queue, m);
        let t = before.0;
        let q = before.1;
        let na = turns_of(table, queue, m, a);
        let nb = turns_of(table, queue, m, b);
        let sa = (pass_a * na) as usize;
        let sb = (pass_b * nb) as usize;
        assert(pass_a * (na + 1) == pass_a * na + pass_a && pass_a * (na + 1) <= n * pass_a)
            by (nonlinear_arith)
            requires
                na + nb + 1 == n,
                pass_a > 0,
        ;
        assert(pass_b * (nb + 1) == pass_b * nb + pass_b && pass_b * (nb + 1) <= n * pass_b)
            by (nonlinear_arith)
            requires
                na + nb + 1 == n,
                pass_b > 0,
        ;
        assert(t.dom().contains(a));
        assert(!t.is_empty());
        assert(selection_table(t, q) == t);
        let least: usize = if sa <= sb {
            sa
        } else {
            sb
        };
        assert(is_min_stride(t, least)) by {
            assert(t.contains_key(a) && t.contains_key(b));
            assert forall|k: usize| t.contains_key(k) implies (#[trigger] t[k]).0 >= least by {
                assert(t.dom().contains(k));
                assert(k == a || k == b);
            }
            if sa <= sb {
                assert(t[a].0 == least);
            } else {
                assert(t[b].0 == least);
            }
        }
        lemma_min_stride_unique(t, least);
        lemma_first_with_stride(t, least, q, 0);
        lemma_first_with_stride(t, least, q, 1);
        let pos = next_position(t, q);
        assert(q.len() == 2);
        assert(q[0] == a && q[1] == b || q[0] == b && q[1] == a);
        assert(0 <= pos < 2) by {
            if has_stride(t, q[0], least) {
            } else {
                assert(has_stride(t, q[1], least));
            }
        }
        let p = q[pos];
        assert(has_stride(t, p, least));
        let after = after_turn(t, q);
        assert(after == after_turns(table, queue, n));
        assert(after.0.dom() =~= set![a, b]);
        assert(after.1 =~= seq![a, b] || after.1 =~= seq![b, a]) by {
            assert(q.remove(pos).push(p).len() == 2);
            if pos == 0 {
                assert(q.remove(pos).push(p) =~= seq![q[1], q[0]]);
            } else {
                assert(q.remove(pos).push(p) =~= seq![q[0], q[1]]);
            }
        }
    }
}
/// The ready queue and the stride table.
pub struct TaskManager {
    /// The tasks that are ready, the one that waits longest first.
    pub task_vec: VecDeque<TaskControlBlock>,
    /// For each task number the stride and the pass.
    pub stride_map: BTreeMap<usize, (usize, usize)>,
}
impl TaskManager {
    /// The ready queue.
    pub open spec fn queue(&self) -> Seq<TaskControlBlock> {
        self.task_vec@
    }
    /// The stride table.
    pub open spec fn table(&self) -> StrideTable {
        self.stride_map@
    }
    /// A scheduler with no task and no row.
    pub fn new() -> (m: TaskManager)
        ensures
            m.queue() == Seq::<TaskControlBlock>::empty(),
            m.table() == Map::<usize, (usize, usize)>::empty(),
    {
        TaskManager { task_vec: VecDeque::new(), stride_map: BTreeMap::new() }
    }
    /// Puts a task at the end of the ready queue.
    pub fn add(&mut self, task: TaskControlBlock)
        ensures
            final(self).queue() == old(self).queue().push(task),
            final(self).table() == old(self).table(),
    {
        self.task_vec.push_back(task);
    }
    /// Gives the task a row of stride 0 and the default pass, unless it
    /// has a row.
    pub fn check_map_manager(&mut self, pid: usize)
        ensures
            final(self).queue() == old(self).queue(),
            final(self).table() == if old(self).table().contains_key(pid) {
                old(self).table()
            } else {
                old(self).table().insert(pid, (0usize, DEFAULT_PASS))
            },
            strides_kept(old(self).table(), final(self).table()),
    {
        let contains_key = self.stride_map.contains_key(&pid);
        if !contains_key {
            self.stride_map.insert(pid, (0, DEFAULT_PASS));
        }
    }
    /// Adds its pass to the stride of a task that has run for one turn; a
    /// stride that would pass the largest number stays there. A task
    /// without a row changes nothing.
    pub fn advance_stride(&mut self, pid: usize)
        ensures
            final(self).queue() == old(self).queue(),
            final(self).table() == if old(self).table().contains_key(pid) {
                old(self).table().insert(pid, advanced(old(self).table()[pid]))
            } else {
                old(self).table()
            },
            strides_kept(old(self).table(), final(self).table()),
    {
        let row: Option<(usize, usize)> = match self.stride_map.get(&pid) {
            Some(r) => Some((r.0, r.1)),
            None => None,
        };
        match row {
            None => {},
            Some((stride, pass)) => {
                let next: usize = if stride > usize::MAX - pass {
                    usize::MAX
                } else {
                    stride + pass
                };
                self.stride_map.insert(pid, (next, pass));
            },
        }
    }
    /// Takes the row of a task out of the table.
    pub fn forget(&mut self, pid: usize)
        ensures
            final(self).queue() == old(self).queue(),
            final(self).table() == old(self).table().remove(pid),
    {
        self.stride_map.remove(&pid);
    }
    /// The least stride of the table, or nothing where it is empty.
    #[verifier::rlimit(50)]
    pub fn min_stride(&self) -> (r: Option<usize>)
        ensures
            match r {
                None => self.table().is_empty(),
                Some(m) => !self.table().is_empty() && m == min_stride_of(self.table()),
            },
    {
        let mut best: Option<usize> = None;
        for kv in it: self.stride_map.iter()
            invariant
                it.seq() == spec_btree_map_iter(&self.stride_map).remaining(),
                match best {
                    None => it.index() == 0,
                    Some(m) => {
                        &&& exists|j: int| 0 <= j < it.index() && (#[trigger] it.seq()[j]).1.0 == m
                        &&& forall|j: int| 0 <= j < it.index() ==> (#[trigger] it.seq()[j]).1.0 >= m
                    },
                },
        {
            let s: usize = kv.1.0;
            match best {
                None => {
                    best = Some(s);
                },
                Some(m) => {
                    if s < m {
                        best = Some(s);
                    }
                },
            }
        }
        proof {
            let table = self.stride_map@;
            let v = spec_btree_map_iter(&self.stride_map).remaining();
            assert(v.len() == table.dom().len());
            match best {
                Some(m) => {
                    let j = choose|j: int| 0 <= j < v.len() && (#[trigger] v[j]).1.0 == m;
                    assert(table.contains_key(*v[j].0) && table[*v[j].0] == *v[j].1);
                    assert forall|k: usize| table.contains_key(k) implies (#[trigger] table[k]).0
                        >= m by {
                        assert(v.contains((&k, &table[k])));
                        let i = choose|i: int| 0 <= i < v.len() && v[i] == (&k, &table[k]);
                        assert(v[i].1.0 >= m);
                    }
                    assert(is_min_stride(table, m));
                    lemma_min_stride_unique(table, m);
                    assert(!table.is_empty());
                },
                None => {
                    assert(table.dom().len() == 0);
                    assert(table.is_empty());
                },
            }
        }
        best
    }

    /// Takes the task that runs next out of the ready queue: the first in
    /// the queue whose stride is the least of the table. Where the table is
    /// empty, each queued task first gets a row of stride 0. The result is
    /// nothing where the queue is empty or no queued task has the least
    /// stride; the queue is then as it was.
    #[verifier::loop_isolation(false)]
    #[verifier::rlimit(50)]
    pub fn fetch_min(&mut self) -> (r: Option<TaskControlBlock>)
        ensures
            final(self).table() == selection_table(old(self).table(), pids_of(old(self).queue())),
            strides_kept(old(self).table(), final(self).table()),
            ({
                let pos = next_position(final(self).table(), pids_of(old(self).queue()));
                if pos < old(self).queue().len() {
                    &&& r == Some(old(self).queue()[pos])
                    &&& final(self).queue() == old(self).queue().remove(pos)
                } else {
                    &&& r is None
                    &&& final(self).queue() == old(self).queue()
                }
            }),
    {
        let ghost queue = self.task_vec@;
        let ghost pids = pids_of(queue);
        if self.stride_map.is_empty() {
            let n: usize = self.task_vec.len();
            let mut i: usize = 0;
            proof {
                assert(self.stride_map@ =~= backfilled(
                    Map::<usize, (usize, usize)>::empty(),
                    pids.subrange(0, 0),
                ));
            }
            while i < n
                invariant
                    i <= n,
                    n == queue.len(),
                    self.task_vec@ == queue,
                    pids == pids_of(queue),
                    self.stride_map@ == backfilled(
                        Map::<usize, (usize, usize)>::empty(),
                        pids.subrange(0, i as int),
                    ),
                decreases n - i,
            {
                let pid: usize = self.task_vec[i].pid;
                let ghost before = self.stride_map@;
                self.check_map_manager(pid);
                proof {
                    let a = pids.subrange(0, i as int);
                    let b = pids.subrange(0, i + 1);
                    assert(pids[i as int] == pid);
                    assert(b[i as int] == pid);
                    assert forall|p: usize| b.contains(p) <==> (a.contains(p) || p == pid) by {
                        if a.contains(p) {
                            let j = choose|j: int| 0 <= j < a.len() && a[j] == p;
                            assert(b[j] == p);
                        }
                        if b.contains(p) {
                            let j = choose|j: int| 0 <= j < b.len() && b[j] == p;
                            if j < i {
                                assert(a[j] == p);
                            }
                        }
                    }
                    assert(self.stride_map@ =~= backfilled(
                        Map::<usize, (usize, usize)>::empty(),
                        b,
                    ));
                }
                i = i + 1;
            }
            proof {
                assert(pids.subrange(0, n as int) =~= pids);
                assert(backfilled(Map::<usize, (usize, usize)>::empty(), pids) =~= backfilled(
                    old(self).table(),
                    pids,
                ));
            }
        }
        let ghost table = self.stride_map@;
        match self.min_stride() {
            None => None,
            Some(m) => {
                let n: usize = self.task_vec.len();
                let mut i: usize = 0;
                while i < n
                    invariant
                        i <= n,
                        n == queue.len(),
                        self.task_vec@ == queue,
                        self.stride_map@ == table,
                        pids == pids_of(queue),
                        first_with_stride(table, m, pids, 0) == first_with_stride(
                            table,
                            m,
                            pids,
                            i as int,
                        ),
                    decreases n - i,
                {
                    let pid: usize = self.task_vec[i].pid;
                    proof {
                        assert(pids[i as int] == pid);
                    }
                    let hit: bool = match self.stride_map.get(&pid) {
                        Some(row) => row.0 == m,
                        None => false,
                    };
                    if hit {
                        return self.task_vec.remove(i);
                    }
                    i = i + 1;
                }
                None
            },
        }
    }
}

/// Makes a task ready: it gets a row in the stride table, unless it has
/// one, and goes to the end of the ready queue.
pub fn add_task(manager: &mut TaskManager, task: TaskControlBlock)
    ensures
        final(manager).queue() == old(manager).queue().push(task),
        final(manager).table() == if old(manager).table().contains_key(task.pid) {
            old(manager).table()
        } else {
            old(manager).table().insert(task.pid, (0usize, DEFAULT_PASS))
        },
        strides_kept(old(manager).table(), final(manager).table()),
{
    manager.check_map_manager(task.getpid());
    manager.add(task);
}

/// Takes the task that runs next out of the ready queue.
pub fn fetch_task(manager: &mut TaskManager) -> (r: Option<TaskControlBlock>)
    ensures
        final(manager).table() == selection_table(
            old(manager).table(),
            pids_of(old(manager).queue()),
        ),
        strides_kept(old(manager).table(), final(manager).table()),
        ({
            let pos = next_position(final(manager).table(), pids_of(old(manager).queue()));
            if pos < old(manager).queue().len() {
                &&& r == Some(old(manager).queue()[pos])
                &&& final(manager).queue() == old(manager).queue().remove(pos)
            } else {
                &&& r is None
                &&& final(manager).queue() == old(manager).queue()
            }
        }),
{
    manager.fetch_min()
}

} // verus!
