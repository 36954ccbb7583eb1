//! The download registry shared by the handlers, and the cached results of
//! the periodic container and service polls.
use vstd::prelude::*;
use crate::text::{dec, push_dec, push_str, views};

verus! {

/// One download, started by `download_handler` and run by an external
/// downloader process.
pub struct DownloadTask {
    pub id: u32,
    pub url: String,
    pub is_running: bool,
    pub logs: Vec<String>,
    pub child_pid: Option<u32>,
    pub target_dir: Option<String>,
}

/// All downloads known to the server, in the order they were started.
pub struct DownloadState {
    pub tasks: Vec<DownloadTask>,
    pub next_id: u32,
}

/// The last `docker ps` / `docker stats` sample of one container.
pub struct CachedContainerInfo {
    pub name: String,
    pub is_running: bool,
    pub cpu: String,
    pub memory: String,
    pub net_io: String,
}

/// The last sample of the monitored services.
pub struct CachedServiceStatus {
    pub declin_web: bool,
    pub declin_discord: bool,
    pub trading: bool,
    pub samba: bool,
    pub minidlna: bool,
}

/// One step of the live log stream of a task: the new lines, the offset to
/// resume from, and whether the task has ended (or is unknown).
pub struct LogBatch {
    pub lines: Vec<String>,
    pub offset: usize,
    pub done: bool,
}

/// What stopping a task needs: the process to kill and the directory that
/// may hold its partial files.
pub struct StopTarget {
    pub pid: u32,
    pub target_dir: Option<String>,
}

/// How a downloader process ended, as `Child::wait` reported it (the text is
/// the `Display` rendering of the exit status or of the error).
pub enum WaitOutcome {
    Exited(String),
    Failed(String),
}

/// Task ids increase strictly along the list and all lie below `next_id`, so
/// no two tasks share an id.
pub open spec fn ids_well_formed(tasks: Seq<DownloadTask>, next_id: u32) -> bool {
    &&& forall|i: int, j: int| 0 <= i < j < tasks.len() ==> tasks[i].id < tasks[j].id
    &&& forall|i: int| 0 <= i < tasks.len() ==> tasks[i].id < next_id
}

/// `i` is the first position of a task with id `id`.
pub open spec fn first_with_id(tasks: Seq<DownloadTask>, id: u32, i: int) -> bool {
    &&& 0 <= i < tasks.len()
    &&& tasks[i].id == id
    &&& forall|k: int| 0 <= k < i ==> tasks[k].id != id
}

/// The position of the first task with id `id`, or `-1` when there is none
/// (what `tasks.iter().find(|t| t.id == id)` finds).
pub open spec fn task_position(tasks: Seq<DownloadTask>, id: u32) -> int {
    if exists|i: int| first_with_id(tasks, id, i) {
        choose|i: int| first_with_id(tasks, id, i)
    } else {
        -1
    }
}

pub proof fn lemma_task_position(tasks: Seq<DownloadTask>, id: u32)
    ensures
        task_position(tasks, id) >= 0 ==> first_with_id(tasks, id, task_position(tasks, id)),
        task_position(tasks, id) < 0 ==> forall|k: int|
            0 <= k < tasks.len() ==> #[trigger] tasks[k].id != id,
        task_position(tasks, id) >= -1,
{
    if !(exists|i: int| first_with_id(tasks, id, i)) {
        assert forall|k: int| 0 <= k < tasks.len() implies #[trigger] tasks[k].id != id by {
            if tasks[k].id == id {
                // the first task with this id exists: take the least index
                assert(exists|m: int| 0 <= m <= k && tasks[m].id == id);
                lemma_least_index(tasks, id, k);
            }
        }
    }
}

proof fn lemma_least_index(tasks: Seq<DownloadTask>, id: u32, k: int)
    requires
        0 <= k < tasks.len(),
        tasks[k].id == id,
    ensures
        exists|i: int| first_with_id(tasks, id, i),
    decreases k,
{
    if forall|m: int| 0 <= m < k ==> tasks[m].id != id {
        assert(first_with_id(tasks, id, k));
    } else {
        let m = choose|m: int| 0 <= m < k && tasks[m].id == id;
        lemma_least_index(tasks, id, m);
    }
}

/// The log lines of the task with id `id` from position `offset` on (an
/// offset past the end counts as the end); none when no task has that id.
pub open spec fn logs_after(tasks: Seq<DownloadTask>, id: u32, offset: nat) -> Seq<Seq<char>> {
    let p = task_position(tasks, id);
    if p >= 0 {
        let l = views(tasks[p].logs@);
        if offset <= l.len() {
            l.skip(offset as int)
        } else {
            Seq::empty()
        }
    } else {
        Seq::empty()
    }
}

/// Two tasks agree on everything but their logs.
pub open spec fn same_but_logs(a: DownloadTask, b: DownloadTask) -> bool {
    &&& a.id == b.id
    &&& a.url == b.url
    &&& a.is_running == b.is_running
    &&& a.child_pid == b.child_pid
    &&& a.target_dir == b.target_dir
}

/// The line logged when a downloader process starts.
pub open spec fn spawned_line(pid: u32) -> Seq<char> {
    "Processus lancé (PID: "@ + dec(pid as nat) + ")"@
}

/// The line logged when a downloader process ends.
pub open spec fn finished_line(outcome: WaitOutcome) -> Seq<char> {
    match outcome {
        WaitOutcome::Exited(s) => "Terminé avec le code : "@ + s@,
        WaitOutcome::Failed(e) => "Erreur : "@ + e@,
    }
}

/// The line logged when a downloader process cannot be started.
pub open spec fn launch_failed_line(error: Seq<char>) -> Seq<char> {
    "Erreur au lancement : "@ + error
}

/// The line logged for each leftover partial file removed on stop.
pub open spec fn removed_line(file_debug: Seq<char>) -> Seq<char> {
    "Fichier résiduel supprimé : "@ + file_debug
}


/// The tasks still running, in order.
pub open spec fn running_tasks(s: Seq<DownloadTask>) -> Seq<DownloadTask> {
    s.filter(|t: DownloadTask| t.is_running)
}

/// The tasks that have ended, in order.
pub open spec fn finished_tasks(s: Seq<DownloadTask>) -> Seq<DownloadTask> {
    s.filter(|t: DownloadTask| !t.is_running)
}

/// Every task kept by the running filter is one of the original tasks.
pub proof fn lemma_running_filter_members(s: Seq<DownloadTask>)
    ensures
        forall|a: int|
            0 <= a < running_tasks(s).len() ==> exists|b: int|
                0 <= b < s.len() && #[trigger] running_tasks(s)[a]
                    == s[b],
    decreases s.len(),
{
    if s.len() > 0 {
        let d = s.drop_last();
        lemma_running_filter_members(d);
        let fd = running_tasks(d);
        let fs = running_tasks(s);
        reveal(Seq::filter);
        assert(fs == (if s.last().is_running {
            fd.push(s.last())
        } else {
            fd
        }));
        assert forall|a: int| 0 <= a < fs.len() implies exists|b: int|
            0 <= b < s.len() && #[trigger] fs[a] == s[b] by {
            if a < fd.len() {
                let b = choose|b: int| 0 <= b < d.len() && #[trigger] fd[a] == d[b];
                assert(fs[a] == s[b]);
            } else {
                assert(fs[a] == s[s.len() - 1]);
            }
        }
    }
}

/// Keeping only the running tasks keeps ids increasing and below `next_id`.
pub proof fn lemma_running_filter_ids(s: Seq<DownloadTask>, next_id: u32)
    requires
        ids_well_formed(s, next_id),
    ensures
        ids_well_formed(running_tasks(s), next_id),
    decreases s.len(),
{
    if s.len() > 0 {
        let d = s.drop_last();
        lemma_running_filter_ids(d, next_id);
        lemma_running_filter_members(d);
        lemma_running_filter_members(s);
        let fd = running_tasks(d);
        let fs = running_tasks(s);
        reveal(Seq::filter);
        assert(fs == (if s.last().is_running {
            fd.push(s.last())
        } else {
            fd
        }));
        assert forall|a: int, c: int| 0 <= a < c < fs.len() implies fs[a].id < fs[c].id by {
            if c < fd.len() {
                assert(fs[a] == fd[a] && fs[c] == fd[c]);
            } else {
                let b = choose|b: int| 0 <= b < d.len() && #[trigger] fd[a] == d[b];
                assert(fs[a] == s[b]);
                assert(fs[c] == s[s.len() - 1]);
            }
        }
        assert forall|a: int| 0 <= a < fs.len() implies fs[a].id < next_id by {
            let b = choose|b: int| 0 <= b < s.len() && #[trigger] fs[a] == s[b];
        }
    }
}


/// A task just added with a fresh id is the one that a lookup by that id
/// finds: when ids were well formed and the new task takes `next_id`, the
/// first task with that id is the new one.
pub proof fn law_added_task_is_found(before: Seq<DownloadTask>, next_id: u32, task: DownloadTask)
    requires
        ids_well_formed(before, next_id),
        task.id == next_id,
    ensures
        task_position(before.push(task), next_id) == before.len(),
{
    let after = before.push(task);
    assert(first_with_id(after, next_id, before.len() as int));
    lemma_task_position(after, next_id);
    let p = task_position(after, next_id);
    if p != before.len() {
        assert(after[p] == before[p]);
    }
}

/// Clearing completed downloads leaves no finished task, and clearing again
/// changes nothing.
pub proof fn law_clear_completed_leaves_only_running(tasks: Seq<DownloadTask>)
    ensures
        finished_tasks(running_tasks(tasks)).len() == 0,
        running_tasks(running_tasks(tasks)) == running_tasks(tasks),
    decreases tasks.len(),
{
    reveal(Seq::filter);
    if tasks.len() > 0 {
        law_clear_completed_leaves_only_running(tasks.drop_last());
        let r = running_tasks(tasks.drop_last());
        if tasks.last().is_running {
            assert(running_tasks(tasks) == r.push(tasks.last()));
            assert(r.push(tasks.last()).drop_last() =~= r);
        }
    }
}

impl DownloadState {
    /// An empty registry whose first task will get id 0.
    pub fn new() -> (s: Self)
        ensures
            s.tasks@.len() == 0,
            s.next_id == 0,
            ids_well_formed(s.tasks@, s.next_id),
    {
        DownloadState { tasks: Vec::new(), next_id: 0 }
    }

    /// Registers a running download of `url` into `target_dir` and returns its
    /// id, the previous `next_id`; `next_id` then advances by one (wrapping at
    /// `u32::MAX`, as the release build does).
    pub fn add_task(&mut self, url: String, target_dir: String) -> (id: u32)
        ensures
            id == old(self).next_id,
            final(self).next_id == vstd::wrapping::u32_specs::wrapping_add(old(self).next_id, 1),
            final(self).tasks@.len() == old(self).tasks@.len() + 1,
            final(self).tasks@.drop_last() == old(self).tasks@,
            final(self).tasks@.last().id == id,
            final(self).tasks@.last().url == url,
            final(self).tasks@.last().is_running,
            final(self).tasks@.last().logs@.len() == 0,
            final(self).tasks@.last().child_pid == None::<u32>,
            final(self).tasks@.last().target_dir == Some(target_dir),
            ids_well_formed(old(self).tasks@, old(self).next_id) && old(self).next_id < u32::MAX
                ==> ids_well_formed(final(self).tasks@, final(self).next_id),
    {
        let id = self.next_id;
        self.next_id = self.next_id.wrapping_add(1);
        self.tasks.push(
            DownloadTask {
                id,
                url,
                is_running: true,
                logs: Vec::new(),
                child_pid: None,
                target_dir: Some(target_dir),
            },
        );
        assert(final(self).tasks@.drop_last() =~= old(self).tasks@);
        id
    }

    /// The position of the first task with id `id`.
    pub fn find_task(&self, id: u32) -> (r: Option<usize>)
        ensures
            match r {
                Some(i) => i == task_position(self.tasks@, id) && first_with_id(self.tasks@, id, i as int),
                None => task_position(self.tasks@, id) < 0,
            },
    {
        proof {
            lemma_task_position(self.tasks@, id);
        }
        let mut i: usize = 0;
        while i < self.tasks.len()
            invariant
                i <= self.tasks@.len(),
                forall|k: int| 0 <= k < i ==> #[trigger] self.tasks@[k].id != id,
            decreases self.tasks@.len() - i,
        {
            if self.tasks[i].id == id {
                assert(first_with_id(self.tasks@, id, i as int));
                assert(task_position(self.tasks@, id) == i) by {
                    let p = task_position(self.tasks@, id);
                    if p < i {
                        assert(self.tasks@[p].id != id);
                    }
                    if p > i {
                        assert(self.tasks@[i as int].id != id);
                    }
                }
                return Some(i);
            }
            i = i + 1;
        }
        proof {
            if task_position(self.tasks@, id) >= 0 {
                let p = task_position(self.tasks@, id);
                assert(self.tasks@[p].id != id);
            }
        }
        None
    }

    /// Appends `line` to the logs of the first task with id `id`, if any
    /// (a line that a downloader process printed).
    pub fn append_log(&mut self, id: u32, line: String)
        ensures
            ({
                let p = task_position(old(self).tasks@, id);
                if p >= 0 {
                    &&& final(self).tasks@.len() == old(self).tasks@.len()
                    &&& forall|k: int|
                        0 <= k < old(self).tasks@.len() && k != p ==> final(self).tasks@[k]
                            == old(self).tasks@[k]
                    &&& same_but_logs(final(self).tasks@[p], old(self).tasks@[p])
                    &&& final(self).tasks@[p].logs@ == old(self).tasks@[p].logs@.push(line)
                } else {
                    final(self).tasks@ == old(self).tasks@
                }
            }),
            final(self).next_id == old(self).next_id,
            ids_well_formed(old(self).tasks@, old(self).next_id) ==> ids_well_formed(
                final(self).tasks@,
                final(self).next_id,
            ),
    {
        match self.find_task(id) {
            Some(i) => {
                self.tasks[i].logs.push(line);
            },
            None => {},
        }
    }

    /// Records that the downloader of task `id` started as process `pid`.
    pub fn record_spawned(&mut self, id: u32, pid: u32)
        ensures
            ({
                let p = task_position(old(self).tasks@, id);
                if p >= 0 {
                    &&& final(self).tasks@.len() == old(self).tasks@.len()
                    &&& forall|k: int|
                        0 <= k < old(self).tasks@.len() && k != p ==> final(self).tasks@[k]
                            == old(self).tasks@[k]
                    &&& final(self).tasks@[p].id == old(self).tasks@[p].id
                    &&& final(self).tasks@[p].url == old(self).tasks@[p].url
                    &&& final(self).tasks@[p].is_running == old(self).tasks@[p].is_running
                    &&& final(self).tasks@[p].target_dir == old(self).tasks@[p].target_dir
                    &&& final(self).tasks@[p].child_pid == Some(pid)
                    &&& views(final(self).tasks@[p].logs@) == views(
                        old(self).tasks@[p].logs@,
                    ).push(spawned_line(pid))
                } else {
                    final(self).tasks@ == old(self).tasks@
                }
            }),
            final(self).next_id == old(self).next_id,
            ids_well_formed(old(self).tasks@, old(self).next_id) ==> ids_well_formed(
                final(self).tasks@,
                final(self).next_id,
            ),
    {
        match self.find_task(id) {
            Some(i) => {
                let mut line = String::new();
                push_str(&mut line, "Processus lancé (PID: ");
                push_dec(&mut line, pid as u64);
                push_str(&mut line, ")");
                let ghost old_logs = self.tasks@[i as int].logs@;
                self.tasks[i].child_pid = Some(pid);
                self.tasks[i].logs.push(line);
                assert(views(self.tasks@[i as int].logs@) =~= views(old_logs).push(
                    spawned_line(pid),
                ));
            },
            None => {},
        }
    }

    /// Records that the downloader of task `id` ended: the task stops running,
    /// forgets its process and logs how it ended.
    pub fn record_finished(&mut self, id: u32, outcome: WaitOutcome)
        ensures
            ({
                let p = task_position(old(self).tasks@, id);
                if p >= 0 {
                    &&& final(self).tasks@.len() == old(self).tasks@.len()
                    &&& forall|k: int|
                        0 <= k < old(self).tasks@.len() && k != p ==> final(self).tasks@[k]
                            == old(self).tasks@[k]
                    &&& final(self).tasks@[p].id == old(self).tasks@[p].id
                    &&& final(self).tasks@[p].url == old(self).tasks@[p].url
                    &&& !final(self).tasks@[p].is_running
                    &&& final(self).tasks@[p].target_dir == old(self).tasks@[p].target_dir
                    &&& final(self).tasks@[p].child_pid == None::<u32>
                    &&& views(final(self).tasks@[p].logs@) == views(
                        old(self).tasks@[p].logs@,
                    ).push(finished_line(outcome))
                } else {
                    final(self).tasks@ == old(self).tasks@
                }
            }),
            final(self).next_id == old(self).next_id,
            ids_well_formed(old(self).tasks@, old(self).next_id) ==> ids_well_formed(
                final(self).tasks@,
                final(self).next_id,
            ),
    {
        match self.find_task(id) {
            Some(i) => {
                let mut line = String::new();
                match &outcome {
                    WaitOutcome::Exited(s) => {
                        push_str(&mut line, "Terminé avec le code : ");
                        push_str(&mut line, s.as_str());
                    },
                    WaitOutcome::Failed(e) => {
                        push_str(&mut line, "Erreur : ");
                        push_str(&mut line, e.as_str());
                    },
                }
                let ghost old_logs = self.tasks@[i as int].logs@;
                self.tasks[i].is_running = false;
                self.tasks[i].child_pid = None;
                self.tasks[i].logs.push(line);
                assert(views(self.tasks@[i as int].logs@) =~= views(old_logs).push(
                    finished_line(outcome),
                ));
            },
            None => {},
        }
    }

    /// Records that the downloader of task `id` could not be started: the task
    /// stops running and logs the error.
    pub fn record_launch_failure(&mut self, id: u32, error: &str)
        ensures
            ({
                let p = task_position(old(self).tasks@, id);
                if p >= 0 {
                    &&& final(self).tasks@.len() == old(self).tasks@.len()
                    &&& forall|k: int|
                        0 <= k < old(self).tasks@.len() && k != p ==> final(self).tasks@[k]
                            == old(self).tasks@[k]
                    &&& final(self).tasks@[p].id == old(self).tasks@[p].id
                    &&& final(self).tasks@[p].url == old(self).tasks@[p].url
                    &&& !final(self).tasks@[p].is_running
                    &&& final(self).tasks@[p].target_dir == old(self).tasks@[p].target_dir
                    &&& final(self).tasks@[p].child_pid == old(self).tasks@[p].child_pid
                    &&& views(final(self).tasks@[p].logs@) == views(
                        old(self).tasks@[p].logs@,
                    ).push(launch_failed_line(error@))
                } else {
                    final(self).tasks@ == old(self).tasks@
                }
            }),
            final(self).next_id == old(self).next_id,
            ids_well_formed(old(self).tasks@, old(self).next_id) ==> ids_well_formed(
                final(self).tasks@,
                final(self).next_id,
            ),
    {
        match self.find_task(id) {
            Some(i) => {
                let mut line = String::new();
                push_str(&mut line, "Erreur au lancement : ");
                push_str(&mut line, error);
                let ghost old_logs = self.tasks@[i as int].logs@;
                self.tasks[i].is_running = false;
                self.tasks[i].logs.push(line);
                assert(views(self.tasks@[i as int].logs@) =~= views(old_logs).push(
                    launch_failed_line(error@),
                ));
            },
            None => {},
        }
    }

    /// Drops every finished download, keeping the running ones in order
    /// (`tasks.retain(|t| t.is_running)`).
    pub fn clear_completed(&mut self)
        ensures
            final(self).tasks@ == running_tasks(old(self).tasks@),
            final(self).next_id == old(self).next_id,
            ids_well_formed(old(self).tasks@, old(self).next_id) ==> ids_well_formed(
                final(self).tasks@,
                final(self).next_id,
            ),
    {
        let ghost orig = self.tasks@;
        let mut rest: Vec<DownloadTask> = Vec::new();
        std::mem::swap(&mut rest, &mut self.tasks);
        let mut kept: Vec<DownloadTask> = Vec::new();
        let ghost mut i: int = 0;
        while rest.len() > 0
            invariant
                0 <= i <= orig.len(),
                rest@ == orig.skip(i),
                kept@ == running_tasks(orig.take(i)),
            decreases rest@.len(),
        {
            let t = rest.remove(0);
            proof {
                reveal(Seq::filter);
                assert(orig.take(i + 1).drop_last() =~= orig.take(i));
                assert(orig.skip(i).drop_first() =~= orig.skip(i + 1));
                assert(orig.take(i + 1).last() == orig[i]);
                assert(t == orig[i]);
                assert(running_tasks(orig.take(i + 1)) == (if orig[i].is_running {
                    running_tasks(orig.take(i)).push(orig[i])
                } else {
                    running_tasks(orig.take(i))
                }));
            }
            if t.is_running {
                kept.push(t);
            }
            proof {
                i = i + 1;
            }
        }
        assert(orig.take(i) =~= orig);
        self.tasks = kept;
        proof {
            if ids_well_formed(orig, self.next_id) {
                lemma_running_filter_ids(orig, self.next_id);
            }
        }
    }

    /// Number of downloads still running.
    pub fn running_count(&self) -> (n: usize)
        ensures
            n == running_tasks(self.tasks@).len(),
    {
        let mut n: usize = 0;
        let mut i: usize = 0;
        while i < self.tasks.len()
            invariant
                i <= self.tasks@.len(),
                n == running_tasks(self.tasks@.take(i as int)).len(),
                n <= i,
            decreases self.tasks@.len() - i,
        {
            assert(self.tasks@.take(i + 1).drop_last() =~= self.tasks@.take(i as int));
            assert(self.tasks@.take(i + 1).last() == self.tasks@[i as int]);
            proof {
                reveal(Seq::filter);
            }
            if self.tasks[i].is_running {
                n = n + 1;
            }
            i = i + 1;
        }
        assert(self.tasks@.take(i as int) =~= self.tasks@);
        n
    }

    /// Number of downloads that have ended.
    pub fn finished_count(&self) -> (n: usize)
        ensures
            n == finished_tasks(self.tasks@).len(),
    {
        let mut n: usize = 0;
        let mut i: usize = 0;
        while i < self.tasks.len()
            invariant
                i <= self.tasks@.len(),
                n == finished_tasks(self.tasks@.take(i as int)).len(),
                n <= i,
            decreases self.tasks@.len() - i,
        {
            assert(self.tasks@.take(i + 1).drop_last() =~= self.tasks@.take(i as int));
            assert(self.tasks@.take(i + 1).last() == self.tasks@[i as int]);
            proof {
                reveal(Seq::filter);
            }
            if !self.tasks[i].is_running {
                n = n + 1;
            }
            i = i + 1;
        }
        assert(self.tasks@.take(i as int) =~= self.tasks@);
        n
    }

    /// The log lines of task `id` from `offset` on.
    pub fn logs_from(&self, id: u32, offset: usize) -> (r: Vec<String>)
        ensures
            views(r@) == logs_after(self.tasks@, id, offset as nat),
    {
        match self.find_task(id) {
            Some(i) => {
                let logs = &self.tasks[i].logs;
                let start = if offset < logs.len() {
                    offset
                } else {
                    logs.len()
                };
                let mut out: Vec<String> = Vec::new();
                let mut k = start;
                while k < logs.len()
                    invariant
                        start <= k <= logs@.len(),
                        views(out@) == views(logs@).subrange(start as int, k as int),
                    decreases logs@.len() - k,
                {
                    let ghost old_out = out@;
                    out.push(logs[k].clone());
                    assert(views(out@) =~= views(old_out).push(logs@[k as int]@));
                    k = k + 1;
                    assert(views(out@) =~= views(logs@).subrange(start as int, k as int));
                }
                assert(views(out@) =~= logs_after(self.tasks@, id, offset as nat));
                out
            },
            None => {
                let out: Vec<String> = Vec::new();
                assert(views(out@) =~= logs_after(self.tasks@, id, offset as nat));
                out
            },
        }
    }

    /// One poll of the live log stream of task `id`, resuming at `offset`.
    pub fn poll_logs(&self, id: u32, offset: usize) -> (b: LogBatch)
        ensures
            views(b.lines@) == logs_after(self.tasks@, id, offset as nat),
            ({
                let p = task_position(self.tasks@, id);
                if p >= 0 {
                    &&& b.offset == self.tasks@[p].logs@.len()
                    &&& b.done == !self.tasks@[p].is_running
                } else {
                    &&& b.offset == offset
                    &&& b.done
                }
            }),
    {
        let lines = self.logs_from(id, offset);
        match self.find_task(id) {
            Some(i) => {
                let len = self.tasks[i].logs.len();
                LogBatch { lines, offset: len, done: !self.tasks[i].is_running }
            },
            None => LogBatch { lines, offset, done: true },
        }
    }

    /// The last log line of task `id`, or an empty string.
    pub fn last_log(&self, id: u32) -> (r: String)
        ensures
            ({
                let p = task_position(self.tasks@, id);
                if p >= 0 && self.tasks@[p].logs@.len() > 0 {
                    r@ == self.tasks@[p].logs@.last()@
                } else {
                    r@ == Seq::<char>::empty()
                }
            }),
    {
        match self.find_task(id) {
            Some(i) => {
                let n = self.tasks[i].logs.len();
                if n > 0 {
                    self.tasks[i].logs[n - 1].clone()
                } else {
                    String::new()
                }
            },
            None => String::new(),
        }
    }

    /// The process and directory of task `id`, when the task has a running
    /// downloader process.
    pub fn stop_target(&self, id: u32) -> (r: Option<StopTarget>)
        ensures
            ({
                let p = task_position(self.tasks@, id);
                match r {
                    Some(t) => p >= 0 && self.tasks@[p].child_pid == Some(t.pid)
                        && t.target_dir == self.tasks@[p].target_dir,
                    None => p < 0 || self.tasks@[p].child_pid is None,
                }
            }),
    {
        match self.find_task(id) {
            Some(i) => match self.tasks[i].child_pid {
                Some(pid) => {
                    let target_dir = match &self.tasks[i].target_dir {
                        Some(d) => Some(d.clone()),
                        None => None,
                    };
                    Some(StopTarget { pid, target_dir })
                },
                None => None,
            },
            None => None,
        }
    }

    /// Logs that a leftover partial file (`file_debug`, the `Debug` rendering
    /// of its name) was removed from the directory of task `id`.
    pub fn record_removed_file(&mut self, id: u32, file_debug: &str)
        ensures
            ({
                let p = task_position(old(self).tasks@, id);
                if p >= 0 {
                    &&& final(self).tasks@.len() == old(self).tasks@.len()
                    &&& forall|k: int|
                        0 <= k < old(self).tasks@.len() && k != p ==> final(self).tasks@[k]
                            == old(self).tasks@[k]
                    &&& same_but_logs(final(self).tasks@[p], old(self).tasks@[p])
                    &&& views(final(self).tasks@[p].logs@) == views(
                        old(self).tasks@[p].logs@,
                    ).push(removed_line(file_debug@))
                } else {
                    final(self).tasks@ == old(self).tasks@
                }
            }),
            final(self).next_id == old(self).next_id,
            ids_well_formed(old(self).tasks@, old(self).next_id) ==> ids_well_formed(
                final(self).tasks@,
                final(self).next_id,
            ),
    {
        let mut line = String::new();
        push_str(&mut line, "Fichier résiduel supprimé : ");
        push_str(&mut line, file_debug);
        let ghost old_tasks = self.tasks@;
        self.append_log(id, line);
        proof {
            let p = task_position(old_tasks, id);
            if p >= 0 {
                assert(views(self.tasks@[p].logs@) =~= views(old_tasks[p].logs@).push(
                    removed_line(file_debug@),
                ));
            }
        }
    }
}

} // verus!
