use vstd::prelude::*;
use std::collections::HashSet;

verus! {

broadcast use vstd::std_specs::hash::group_hash_axioms;

/// A slot of the pool: a command, or an empty slot, belonging to a task.
pub struct CommandHolder<C> {
    pub cmd: Option<C>,
    pub task_id: u64,
}

/// Reusable command handles, kept per task so that a task gets back the handle it returned.
///
/// Only the first kind of command (`E`, the metadata tool) is pooled; the other two kinds are
/// never kept.
pub struct CommandPool<E, M, F> {
    pub exiftool: Vec<CommandHolder<E>>,
    pub magick: Vec<CommandHolder<M>>,
    pub ffmpeg: Vec<CommandHolder<F>>,
}

/// Index of the first slot of task `id` that holds a command.
pub open spec fn first_filled<C>(hs: Seq<CommandHolder<C>>, id: u64, i: int) -> Option<int>
    decreases hs.len() - i,
{
    if i < 0 || i >= hs.len() {
        None
    } else if hs[i].task_id == id && hs[i].cmd is Some {
        Some(i)
    } else {
        first_filled(hs, id, i + 1)
    }
}

/// Index of the first empty slot of task `id`.
pub open spec fn first_empty<C>(hs: Seq<CommandHolder<C>>, id: u64, i: int) -> Option<int>
    decreases hs.len() - i,
{
    if i < 0 || i >= hs.len() {
        None
    } else if hs[i].task_id == id && hs[i].cmd is None {
        Some(i)
    } else {
        first_empty(hs, id, i + 1)
    }
}

/// The slots that belong to one of the live tasks, in order.
pub open spec fn live_slots<C>(hs: Seq<CommandHolder<C>>, ids: Set<u64>) -> Seq<CommandHolder<C>>
    decreases hs.len(),
{
    if hs.len() == 0 {
        seq![]
    } else if ids.contains(hs.last().task_id) {
        live_slots(hs.drop_last(), ids).push(hs.last())
    } else {
        live_slots(hs.drop_last(), ids)
    }
}

/// The slots after task `id` asks for a command: the first filled slot of the task is emptied
/// and its command handed out; without one, the task gets an empty slot.
pub open spec fn slots_after_get<C>(hs: Seq<CommandHolder<C>>, id: u64) -> Seq<CommandHolder<C>> {
    match first_filled(hs, id, 0) {
        Some(i) => hs.update(i, CommandHolder { cmd: None, task_id: id }),
        None => hs.push(CommandHolder { cmd: None, task_id: id }),
    }
}

/// What task `id` is handed when it asks for a command.
pub open spec fn command_for<C>(hs: Seq<CommandHolder<C>>, id: u64) -> Option<C> {
    match first_filled(hs, id, 0) {
        Some(i) => hs[i].cmd,
        None => None,
    }
}

/// The slots after task `id` returns command `c`: it fills the first empty slot of the task,
/// or a new slot.
pub open spec fn slots_after_return<C>(hs: Seq<CommandHolder<C>>, id: u64, c: C) -> Seq<CommandHolder<C>> {
    match first_empty(hs, id, 0) {
        Some(i) => hs.update(i, CommandHolder { cmd: Some(c), task_id: id }),
        None => hs.push(CommandHolder { cmd: Some(c), task_id: id }),
    }
}

proof fn lemma_first_filled<C>(hs: Seq<CommandHolder<C>>, id: u64, i: int)
    requires
        0 <= i,
    ensures
        first_filled(hs, id, i) matches Some(k) ==> i <= k < hs.len() && hs[k].task_id == id && hs[k].cmd is Some,
    decreases hs.len() - i,
{
    if i < hs.len() && !(hs[i].task_id == id && hs[i].cmd is Some) {
        lemma_first_filled(hs, id, i + 1);
    }
}

proof fn lemma_first_empty<C>(hs: Seq<CommandHolder<C>>, id: u64, i: int)
    requires
        0 <= i,
    ensures
        first_empty(hs, id, i) matches Some(k) ==> i <= k < hs.len() && hs[k].task_id == id && hs[k].cmd is None,
    decreases hs.len() - i,
{
    if i < hs.len() && !(hs[i].task_id == id && hs[i].cmd is None) {
        lemma_first_empty(hs, id, i + 1);
    }
}

impl<E, M, F> CommandPool<E, M, F> {
    /// An empty pool.
    pub fn new() -> (p: Self)
        ensures
            p.exiftool@.len() == 0,
            p.magick@.len() == 0,
            p.ffmpeg@.len() == 0,
    {
        CommandPool { exiftool: Vec::new(), magick: Vec::new(), ffmpeg: Vec::new() }
    }

    /// Drops the slots of tasks that are no longer live.
    pub fn prune_commands(&mut self, task_ids: &HashSet<u64>)
        ensures
            final(self).exiftool@ == live_slots(old(self).exiftool@, task_ids@),
            final(self).magick@ == old(self).magick@,
            final(self).ffmpeg@ == old(self).ffmpeg@,
    {
        let mut old_slots: Vec<CommandHolder<E>> = Vec::new();
        std::mem::swap(&mut old_slots, &mut self.exiftool);
        let ghost orig = old_slots@;
        let n = old_slots.len();
        let mut kept: Vec<CommandHolder<E>> = Vec::new();
        let mut i: usize = 0;
        while i < n
            invariant
                n == orig.len(),
                i <= n,
                old_slots@ == orig.skip(i as int),
                kept@ == live_slots(orig.take(i as int), task_ids@),
            decreases n - i,
        {
            let h = old_slots.remove(0);
            assert(orig.take(i as int + 1).drop_last() =~= orig.take(i as int));
            assert(h == orig[i as int]);
            if task_ids.contains(&h.task_id) {
                kept.push(h);
            }
            i += 1;
            assert(old_slots@ =~= orig.skip(i as int));
        }
        assert(orig.take(n as int) =~= orig);
        self.exiftool = kept;
    }

    /// Hands task `task_id` a command from its slots, if one is there (see
    /// [`slots_after_get`] and [`command_for`]).
    pub fn get_exif_command(&mut self, task_id: u64) -> (r: Option<E>)
        ensures
            r == command_for(old(self).exiftool@, task_id),
            final(self).exiftool@ == slots_after_get(old(self).exiftool@, task_id),
            final(self).magick@ == old(self).magick@,
            final(self).ffmpeg@ == old(self).ffmpeg@,
    {
        let mut i: usize = 0;
        while i < self.exiftool.len()
            invariant
                i <= self.exiftool@.len(),
                self.exiftool@ == old(self).exiftool@,
                self.magick@ == old(self).magick@,
                self.ffmpeg@ == old(self).ffmpeg@,
                first_filled(self.exiftool@, task_id, 0) == first_filled(self.exiftool@, task_id, i as int),
            decreases self.exiftool@.len() - i,
        {
            if self.exiftool[i].task_id == task_id && self.exiftool[i].cmd.is_some() {
                let h = self.exiftool.remove(i);
                self.exiftool.insert(i, CommandHolder { cmd: None, task_id });
                assert(self.exiftool@ =~= slots_after_get(old(self).exiftool@, task_id));
                return h.cmd;
            }
            i += 1;
        }
        self.exiftool.push(CommandHolder { cmd: None, task_id });
        None
    }

    /// Magick commands are not pooled: none is ever handed out.
    pub fn get_magick_command(&mut self, _task_id: u64) -> (r: Option<M>)
        ensures
            r is None,
            *final(self) == *old(self),
    {
        None
    }

    /// FFmpeg commands are not pooled: none is ever handed out.
    pub fn get_ffmpeg_command(&mut self, _task_id: u64) -> (r: Option<F>)
        ensures
            r is None,
            *final(self) == *old(self),
    {
        None
    }

    /// Takes a command back from task `task_id` (see [`slots_after_return`]).
    pub fn return_exif_command(&mut self, task_id: u64, tool: E)
        ensures
            final(self).exiftool@ == slots_after_return(old(self).exiftool@, task_id, tool),
            final(self).magick@ == old(self).magick@,
            final(self).ffmpeg@ == old(self).ffmpeg@,
    {
        let mut i: usize = 0;
        while i < self.exiftool.len()
            invariant
                i <= self.exiftool@.len(),
                self.exiftool@ == old(self).exiftool@,
                self.magick@ == old(self).magick@,
                self.ffmpeg@ == old(self).ffmpeg@,
                first_empty(self.exiftool@, task_id, 0) == first_empty(self.exiftool@, task_id, i as int),
            decreases self.exiftool@.len() - i,
        {
            if self.exiftool[i].task_id == task_id && self.exiftool[i].cmd.is_none() {
                self.exiftool.remove(i);
                self.exiftool.insert(i, CommandHolder { cmd: Some(tool), task_id });
                assert(self.exiftool@ =~= slots_after_return(old(self).exiftool@, task_id, tool));
                return;
            }
            i += 1;
        }
        self.exiftool.push(CommandHolder { cmd: Some(tool), task_id });
    }

    /// Magick commands are not pooled: a returned one is dropped.
    pub fn return_magick_command(&mut self, _task_id: u64, tool: M)
        ensures
            *final(self) == *old(self),
    {
        let _ = tool;
    }

    /// FFmpeg commands are not pooled: a returned one is dropped.
    pub fn return_ffmpeg_command(&mut self, _task_id: u64, tool: F)
        ensures
            *final(self) == *old(self),
    {
        let _ = tool;
    }
}

proof fn lemma_first_filled_of_first<C>(hs: Seq<CommandHolder<C>>, id: u64, i: int, k: int)
    requires
        0 <= i <= k < hs.len(),
        hs[k].task_id == id && hs[k].cmd is Some,
        forall|j: int| i <= j < k ==> !(#[trigger] hs[j].task_id == id && hs[j].cmd is Some),
    ensures
        first_filled(hs, id, i) == Some(k),
    decreases k - i,
{
    if i < k {
        lemma_first_filled_of_first(hs, id, i + 1, k);
    }
}

proof fn lemma_first_filled_found<C>(hs: Seq<CommandHolder<C>>, id: u64, i: int, k: int)
    requires
        0 <= i <= k < hs.len(),
        hs[k].task_id == id && hs[k].cmd is Some,
    ensures
        first_filled(hs, id, i) is Some,
    decreases k - i,
{
    if i < k && !(hs[i].task_id == id && hs[i].cmd is Some) {
        lemma_first_filled_found(hs, id, i + 1, k);
    }
}

proof fn lemma_first_filled_push<C>(hs: Seq<CommandHolder<C>>, x: CommandHolder<C>, id: u64, i: int)
    requires
        0 <= i <= hs.len(),
    ensures
        first_filled(hs.push(x), id, i) == if first_filled(hs, id, i) is Some {
            first_filled(hs, id, i)
        } else if x.task_id == id && x.cmd is Some {
            Some(hs.len() as int)
        } else {
            None
        },
    decreases hs.len() - i,
{
    if i < hs.len() {
        assert(hs.push(x)[i] == hs[i]);
        lemma_first_filled_push(hs, x, id, i + 1);
    } else {
        assert(hs.push(x)[i] == x);
        assert(first_filled(hs.push(x), id, i + 1) is None);
        assert(first_filled(hs, id, i) is None);
    }
}

proof fn lemma_command_for_live<C>(hs: Seq<CommandHolder<C>>, ids: Set<u64>, id: u64)
    requires
        ids.contains(id),
    ensures
        command_for(live_slots(hs, ids), id) == command_for(hs, id),
        first_filled(live_slots(hs, ids), id, 0) is Some <==> first_filled(hs, id, 0) is Some,
    decreases hs.len(),
{
    if hs.len() > 0 {
        let init = hs.drop_last();
        let x = hs.last();
        lemma_command_for_live(init, ids, id);
        assert(init.push(x) =~= hs);
        lemma_first_filled_push(init, x, id, 0);
        lemma_first_filled(init, id, 0);
        if ids.contains(x.task_id) {
            let li = live_slots(init, ids);
            lemma_first_filled_push(li, x, id, 0);
            lemma_first_filled(li, id, 0);
            if first_filled(li, id, 0) is Some {
                assert(li.push(x)[first_filled(li, id, 0)->0] == li[first_filled(li, id, 0)->0]);
            }
            if first_filled(init, id, 0) is Some {
                assert(init.push(x)[first_filled(init, id, 0)->0] == init[first_filled(init, id, 0)->0]);
            }
        } else {
            if first_filled(init, id, 0) is Some {
                assert(init.push(x)[first_filled(init, id, 0)->0] == init[first_filled(init, id, 0)->0]);
            }
        }
    }
}

/// Pruning does not touch a live task: it is handed what it would have been handed before.
pub proof fn law_prune_keeps_live_commands<C>(hs: Seq<CommandHolder<C>>, task_ids: Set<u64>, task_id: u64)
    requires
        task_ids.contains(task_id),
    ensures
        command_for(live_slots(hs, task_ids), task_id) == command_for(hs, task_id),
{
    lemma_command_for_live(hs, task_ids, task_id);
}

/// Pruning leaves only slots of live tasks.
pub proof fn law_prune_leaves_live_slots<C>(hs: Seq<CommandHolder<C>>, task_ids: Set<u64>)
    ensures
        forall|i: int| 0 <= i < live_slots(hs, task_ids).len() ==> task_ids.contains(#[trigger] live_slots(hs, task_ids)[i].task_id),
    decreases hs.len(),
{
    if hs.len() > 0 {
        law_prune_leaves_live_slots(hs.drop_last(), task_ids);
    }
}

/// A task that returns a command is handed a command when it next asks: the one it returned
/// when it had no other command waiting.
pub proof fn law_return_then_get<C>(hs: Seq<CommandHolder<C>>, task_id: u64, c: C)
    ensures
        command_for(slots_after_return(hs, task_id, c), task_id) is Some,
        first_filled(hs, task_id, 0) is None ==> command_for(slots_after_return(hs, task_id, c), task_id) == Some(c),
{
    let r = slots_after_return(hs, task_id, c);
    lemma_first_empty(hs, task_id, 0);
    let k = match first_empty(hs, task_id, 0) {
        Some(i) => i,
        None => hs.len() as int,
    };
    assert(r[k] == CommandHolder { cmd: Some(c), task_id });
    lemma_first_filled_found(r, task_id, 0, k);
    lemma_first_filled(r, task_id, 0);
    if first_filled(hs, task_id, 0) is None {
        assert forall|j: int| 0 <= j < k implies !(#[trigger] r[j].task_id == task_id && r[j].cmd is Some) by {
            assert(r[j] == hs[j]);
            if hs[j].task_id == task_id && hs[j].cmd is Some {
                lemma_first_filled_found(hs, task_id, 0, j);
            }
        }
        lemma_first_filled_of_first(r, task_id, 0, k);
    }
}

/// A task that takes a command and hands it back leaves the pool as it was, unless it had an
/// empty slot before the one it took from (the command then fills that one).
pub proof fn law_get_then_return<C>(hs: Seq<CommandHolder<C>>, task_id: u64, k: int)
    requires
        first_filled(hs, task_id, 0) == Some(k),
        first_empty(hs, task_id, 0) matches Some(j) ==> j > k,
    ensures
        slots_after_return(slots_after_get(hs, task_id), task_id, command_for(hs, task_id)->0) == hs,
{
    lemma_first_filled(hs, task_id, 0);
    let g = slots_after_get(hs, task_id);
    let c = command_for(hs, task_id)->0;
    assert(g[k] == CommandHolder::<C> { cmd: None, task_id });
    assert forall|j: int| 0 <= j < k implies !(#[trigger] g[j].task_id == task_id && g[j].cmd is None) by {
        assert(g[j] == hs[j]);
        if hs[j].task_id == task_id && hs[j].cmd is None {
            lemma_first_empty_found(hs, task_id, 0, j);
            lemma_first_empty(hs, task_id, 0);
        }
    }
    lemma_first_empty_of_first(g, task_id, 0, k);
    assert(hs[k] == CommandHolder { cmd: Some(c), task_id });
    assert(g.update(k, CommandHolder { cmd: Some(c), task_id }) =~= hs);
}

proof fn lemma_first_empty_of_first<C>(hs: Seq<CommandHolder<C>>, id: u64, i: int, k: int)
    requires
        0 <= i <= k < hs.len(),
        hs[k].task_id == id && hs[k].cmd is None,
        forall|j: int| i <= j < k ==> !(#[trigger] hs[j].task_id == id && hs[j].cmd is None),
    ensures
        first_empty(hs, id, i) == Some(k),
    decreases k - i,
{
    if i < k {
        lemma_first_empty_of_first(hs, id, i + 1, k);
    }
}

proof fn lemma_first_empty_found<C>(hs: Seq<CommandHolder<C>>, id: u64, i: int, k: int)
    requires
        0 <= i <= k < hs.len(),
        hs[k].task_id == id && hs[k].cmd is None,
    ensures
        first_empty(hs, id, i) is Some,
        first_empty(hs, id, i) matches Some(m) ==> m <= k,
    decreases k - i,
{
    if i < k && !(hs[i].task_id == id && hs[i].cmd is None) {
        lemma_first_empty_found(hs, id, i + 1, k);
    }
}

/// The tasks that own the first `n` slots, in the order of their first slot.
pub open spec fn slot_tasks<C>(hs: Seq<CommandHolder<C>>, n: int) -> Seq<u64>
    decreases n,
{
    if n <= 0 {
        seq![]
    } else if slot_tasks(hs, n - 1).contains(hs[n - 1].task_id) {
        slot_tasks(hs, n - 1)
    } else {
        slot_tasks(hs, n - 1).push(hs[n - 1].task_id)
    }
}

/// How many of the first `n` slots of task `id` hold a command (the command waits, idle).
pub open spec fn idle_count<C>(hs: Seq<CommandHolder<C>>, id: u64, n: int) -> nat
    decreases n,
{
    if n <= 0 {
        0
    } else {
        idle_count(hs, id, n - 1) + if hs[n - 1].task_id == id && hs[n - 1].cmd is Some {
            1nat
        } else {
            0nat
        }
    }
}

/// How many of the first `n` slots of task `id` are empty (their command is out, busy).
pub open spec fn busy_count<C>(hs: Seq<CommandHolder<C>>, id: u64, n: int) -> nat
    decreases n,
{
    if n <= 0 {
        0
    } else {
        busy_count(hs, id, n - 1) + if hs[n - 1].task_id == id && hs[n - 1].cmd is None {
            1nat
        } else {
            0nat
        }
    }
}

/// For each task that owns some of the first `n` slots, in the order of its first slot: the
/// task, its idle commands and its busy commands.
pub open spec fn spec_slot_counts<C>(hs: Seq<CommandHolder<C>>, n: int) -> Seq<(u64, u64, u64)> {
    slot_tasks(hs, n).map_values(|id: u64| (id, idle_count(hs, id, n) as u64, busy_count(hs, id, n) as u64))
}

proof fn lemma_slot_tasks_distinct<C>(hs: Seq<CommandHolder<C>>, n: int)
    ensures
        slot_tasks(hs, n).no_duplicates(),
        slot_tasks(hs, n).len() <= if n < 0 { 0 } else { n },
    decreases n,
{
    if n > 0 {
        lemma_slot_tasks_distinct(hs, n - 1);
    }
}

proof fn lemma_counts_bounded<C>(hs: Seq<CommandHolder<C>>, id: u64, n: int)
    requires
        n >= 0,
    ensures
        idle_count(hs, id, n) <= n,
        busy_count(hs, id, n) <= n,
    decreases n,
{
    if n > 0 {
        lemma_counts_bounded(hs, id, n - 1);
    }
}

/// Per task, in the order of its first slot: how many of its commands wait in the pool (idle)
/// and how many it has out (busy) (see [`spec_slot_counts`]).
pub fn slot_counts<C>(hs: &Vec<CommandHolder<C>>) -> (r: Vec<(u64, u64, u64)>)
    ensures
        r@ == spec_slot_counts(hs@, hs@.len() as int),
{
    let mut r: Vec<(u64, u64, u64)> = Vec::new();
    let mut i: usize = 0;
    while i < hs.len()
        invariant
            i <= hs@.len(),
            r@ == spec_slot_counts(hs@, i as int),
        decreases hs@.len() - i,
    {
        let id = hs[i].task_id;
        let held = hs[i].cmd.is_some();
        proof {
            lemma_slot_tasks_distinct(hs@, i as int);
            lemma_counts_bounded(hs@, id, i as int);
        }
        let ghost ts = slot_tasks(hs@, i as int);
        let mut k: usize = 0;
        while k < r.len()
            invariant
                k <= r@.len(),
                r@ == spec_slot_counts(hs@, i as int),
                ts == slot_tasks(hs@, i as int),
                r@.len() == ts.len(),
                forall|j: int| 0 <= j < k ==> ts[j] != id,
            ensures
                k <= r@.len(),
                r@ == spec_slot_counts(hs@, i as int),
                ts == slot_tasks(hs@, i as int),
                r@.len() == ts.len(),
                forall|j: int| 0 <= j < k ==> ts[j] != id,
                k < r@.len() ==> r@[k as int].0 == id,
            decreases r@.len() - k,
        {
            if r[k].0 == id {
                break;
            }
            k += 1;
        }
        let ghost next = spec_slot_counts(hs@, i + 1);
        if k < r.len() {
            assert(ts[k as int] == id);
            assert(ts.contains(id));
            assert(slot_tasks(hs@, i + 1) == ts);
            let (t, a, b) = r[k];
            let e = if held { (t, a + 1, b) } else { (t, a, b + 1) };
            r.set(k, e);
            assert forall|j: int| 0 <= j < r@.len() implies r@[j] == #[trigger] next[j] by {
                if j != k {
                    assert(ts[j] != id);
                }
            }
            assert(r@ =~= next);
        } else {
            assert(!ts.contains(id)) by {
                if ts.contains(id) {
                    let j = choose|j: int| 0 <= j < ts.len() && #[trigger] ts[j] == id;
                }
            }
            assert(slot_tasks(hs@, i + 1) == ts.push(id));
            assert(idle_count(hs@, id, i as int) == 0 && busy_count(hs@, id, i as int) == 0) by {
                lemma_absent_counts(hs@, id, i as int);
            }
            r.push((id, if held { 1 } else { 0 }, if held { 0 } else { 1 }));
            assert forall|j: int| 0 <= j < r@.len() implies r@[j] == #[trigger] next[j] by {
                if j < ts.len() {
                    assert(ts[j] != id);
                }
            }
            assert(r@ =~= next);
        }
        i += 1;
    }
    r
}

/// A task that owns none of the first `n` slots has no command among them.
proof fn lemma_absent_counts<C>(hs: Seq<CommandHolder<C>>, id: u64, n: int)
    requires
        !slot_tasks(hs, n).contains(id),
    ensures
        idle_count(hs, id, n) == 0,
        busy_count(hs, id, n) == 0,
    decreases n,
{
    if n > 0 {
        if slot_tasks(hs, n - 1).contains(id) {
            let j = choose|j: int| 0 <= j < slot_tasks(hs, n - 1).len() && #[trigger] slot_tasks(hs, n - 1)[j] == id;
            if !slot_tasks(hs, n - 1).contains(hs[n - 1].task_id) {
                assert(slot_tasks(hs, n)[j] == id);
            }
        }
        if !slot_tasks(hs, n - 1).contains(hs[n - 1].task_id) {
            assert(slot_tasks(hs, n).last() == hs[n - 1].task_id);
        }
        lemma_absent_counts(hs, id, n - 1);
    }
}

} // verus!
