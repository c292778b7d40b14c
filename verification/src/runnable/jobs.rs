use vstd::prelude::*;
use crate::structures::dll::{DoublyLinkedList, HasId};
use crate::utils::text::{decimal, decimal_string, join, joined, strings_view};

verus! {

/// A background job: its number and the command line it runs.
pub struct JobInfo {
    pub job_id: usize,
    pub command: String,
}

impl HasId for JobInfo {
    open spec fn spec_id(&self) -> usize {
        self.job_id
    }

    fn id(&self) -> (r: usize) {
        self.job_id
    }
}

/// The background jobs, oldest first.
pub type JobList = DoublyLinkedList<JobInfo>;

/// The `jobs` builtin.
pub struct Jobs;

/// What waiting on a job's process without blocking found.
#[derive(Debug, Clone, Copy, PartialEq, Eq, Structural)]
pub enum JobStatus {
    /// It has exited.
    Done,
    /// It is still running.
    Running,
    /// The wait failed.
    Error,
}

/// The word shown for a status.
pub open spec fn status_text(s: JobStatus) -> Seq<char> {
    match s {
        JobStatus::Done => "Done"@,
        JobStatus::Running => "Running"@,
        JobStatus::Error => "Error"@,
    }
}

/// `n` spaces.
pub open spec fn spaces(n: nat) -> Seq<char> {
    Seq::new(n, |k: int| ' ')
}

/// `s` padded with spaces on the right to at least `w` characters.
pub open spec fn pad_right(s: Seq<char>, w: nat) -> Seq<char> {
    if s.len() < w {
        s + spaces((w - s.len()) as nat)
    } else {
        s
    }
}

/// The mark after a job's number: `+` for the latest job, `-` for the one before it
/// (considered only when there is a latest job), nothing otherwise.
pub open spec fn job_mark(id: usize, latest: Option<usize>, second: Option<usize>) -> Seq<char> {
    match latest {
        None => Seq::empty(),
        Some(l) => if second == Some(id) {
            seq!['-']
        } else if l == id {
            seq!['+']
        } else {
            Seq::empty()
        },
    }
}

/// The line `jobs` shows for a job.
pub open spec fn job_line(
    id: usize,
    command: Seq<char>,
    latest: Option<usize>,
    second: Option<usize>,
    status: JobStatus,
) -> Seq<char> {
    seq!['['] + decimal(id as nat) + seq![']'] + job_mark(id, latest, second) + seq![' ', ' ']
        + pad_right(status_text(status), 24) + command + (if status == JobStatus::Running {
        seq![' ', '&']
    } else {
        Seq::<char>::empty()
    })
}

/// The number of the most recently started job of a list.
pub open spec fn latest_of(ids: Seq<usize>, values: Map<usize, JobInfo>) -> Option<usize> {
    if ids.len() > 0 {
        Some(values[ids.last()].job_id)
    } else {
        None
    }
}

/// The number of the job started before the most recent one.
pub open spec fn second_latest_of(ids: Seq<usize>, values: Map<usize, JobInfo>) -> Option<usize> {
    if ids.len() > 1 {
        Some(values[ids[ids.len() - 2]].job_id)
    } else {
        None
    }
}

/// The command line of a background job: the command, a space, and the arguments separated
/// by spaces.
pub open spec fn job_command(cmd: Seq<char>, args: Seq<Seq<char>>) -> Seq<char> {
    cmd + seq![' '] + joined(args, seq![' '])
}

/// The lines of the jobs at positions `k` on of `ids` that are done, in order.
pub open spec fn reaped_lines(
    ids: Seq<usize>,
    values: Map<usize, JobInfo>,
    st: Seq<JobStatus>,
    latest: Option<usize>,
    second: Option<usize>,
    k: int,
) -> Seq<Seq<char>>
    decreases ids.len() - k,
{
    if k < 0 || k >= ids.len() {
        Seq::empty()
    } else {
        let rest = reaped_lines(ids, values, st, latest, second, k + 1);
        if st[k] == JobStatus::Done {
            seq![job_line(values[ids[k]].job_id, values[ids[k]].command@, latest, second, JobStatus::Done)]
                + rest
        } else {
            rest
        }
    }
}

/// The identifiers at positions `k` on of `ids` whose job is not done, in order.
pub open spec fn kept_ids(ids: Seq<usize>, st: Seq<JobStatus>, k: int) -> Seq<usize>
    decreases ids.len() - k,
{
    if k < 0 || k >= ids.len() {
        Seq::empty()
    } else if st[k] == JobStatus::Done {
        kept_ids(ids, st, k + 1)
    } else {
        seq![ids[k]] + kept_ids(ids, st, k + 1)
    }
}

/// A sequence without duplicates that holds every number from 1 to `m` has at least `m`
/// elements.
proof fn lemma_holds_range(s: Seq<usize>, m: int)
    requires
        s.no_duplicates(),
        0 <= m <= usize::MAX,
        forall|k: usize| 1 <= k <= m ==> s.contains(k),
    ensures
        m <= s.len(),
    decreases m,
{
    if m > 0 {
        let top = m as usize;
        assert(s.contains(top));
        let j = s.index_of(top);
        let t = s.remove(j);
        assert forall|k: usize| 1 <= k <= m - 1 implies t.contains(k) by {
            assert(s.contains(k));
            let i = s.index_of(k);
            assert(s[i] == k && s[j] == top);
            if i < j {
                assert(t[i] == k);
            } else {
                assert(i != j);
                assert(t[i - 1] == k);
            }
        }
        assert(t.no_duplicates()) by {
            assert forall|a: int, b: int| 0 <= a < b < t.len() implies t[a] != t[b] by {
                let a2 = if a < j { a } else { a + 1 };
                let b2 = if b < j { b } else { b + 1 };
                assert(t[a] == s[a2] && t[b] == s[b2]);
            }
        }
        lemma_holds_range(t, m - 1);
    }
}

impl Jobs {
    /// The smallest job number from 1 on that is not in use.
    pub fn get_new_id(job_list: &JobList) -> (r: usize)
        requires
            job_list.wf(),
            job_list.seq().len() < usize::MAX,
        ensures
            r >= 1,
            !job_list.nodes@.contains_key(r),
            forall|k: usize| 1 <= k < r ==> job_list.nodes@.contains_key(k),
    {
        let mut id: usize = 1;
        while job_list.get_node(&id).is_some()
            invariant
                job_list.wf(),
                job_list.seq().len() < usize::MAX,
                1 <= id,
                forall|k: usize| 1 <= k < id ==> job_list.nodes@.contains_key(k),
            decreases job_list.seq().len() + 1 - id,
        {
            proof {
                assert forall|k: usize| 1 <= k <= id implies job_list.seq().contains(k) by {
                    assert(job_list.nodes@.contains_key(k));
                }
                lemma_holds_range(job_list.seq(), id as int);
            }
            id = id + 1;
        }
        id
    }

    /// The number of the most recently started job still listed.
    pub fn get_latest_job_id(job_list: &JobList) -> (r: Option<usize>)
        requires
            job_list.wf(),
        ensures
            r == latest_of(job_list.seq(), job_list.values()),
    {
        match job_list.tail {
            Some(idx) => match job_list.get_node(&idx) {
                Some(node) => Some(node.value.job_id),
                None => None,
            },
            None => None,
        }
    }

    /// The number of the job started before the most recent one.
    pub fn get_second_latest_job_id(job_list: &JobList) -> (r: Option<usize>)
        requires
            job_list.wf(),
        ensures
            r == second_latest_of(job_list.seq(), job_list.values()),
    {
        let ghost s = job_list.seq();
        match job_list.tail {
            Some(idx) => match job_list.get_node(&idx) {
                Some(node) => {
                    assert(s[s.len() - 1] == idx);
                    match node.prev {
                        Some(prev_idx) => match job_list.get_node(&prev_idx) {
                            Some(prev) => Some(prev.value.job_id),
                            None => None,
                        },
                        None => None,
                    }
                },
                None => None,
            },
            None => None,
        }
    }

    /// The line shown for `job`: its number and mark, its status padded to 24 columns, its
    /// command, and ` &` while it runs.
    pub fn get_job_display(
        job: &JobInfo,
        latest_job_id: Option<usize>,
        second_latest_job_id: Option<usize>,
        status: JobStatus,
    ) -> (r: String)
        ensures
            r@ == job_line(job.job_id, job.command@, latest_job_id, second_latest_job_id, status),
    {
        let status_str: &str = match status {
            JobStatus::Done => "Done",
            JobStatus::Running => "Running",
            JobStatus::Error => "Error",
        };
        let mut latest: &str = "";
        match latest_job_id {
            Some(l) => {
                if l == job.job_id {
                    latest = "+";
                }
                match second_latest_job_id {
                    Some(s) => {
                        if s == job.job_id {
                            latest = "-";
                        }
                    },
                    None => {},
                }
            },
            None => {},
        }
        let mut r = String::new();
        r.append("[");
        let number = decimal_string(job.job_id);
        r.append(number.as_str());
        r.append("]");
        r.append(latest);
        r.append("  ");
        r.append(status_str);
        let ghost before_pad = r@;
        let mut width: usize = match status {
            JobStatus::Done => 4,
            JobStatus::Running => 7,
            JobStatus::Error => 5,
        };
        proof {
            reveal_strlit("Done");
            reveal_strlit("Running");
            reveal_strlit("Error");
            reveal_strlit("");
            reveal_strlit("+");
            reveal_strlit("-");
            reveal_strlit("[");
            reveal_strlit("]");
            reveal_strlit("  ");
        }
        assert(width == status_text(status).len());
        while width < 24
            invariant
                status_text(status).len() <= width <= 24,
                r@ == before_pad + spaces((width - status_text(status).len()) as nat),
            decreases 24 - width,
        {
            r.append(" ");
            proof {
                reveal_strlit(" ");
            }
            assert(spaces((width + 1 - status_text(status).len()) as nat) =~= spaces(
                (width - status_text(status).len()) as nat,
            ) + seq![' ']);
            width = width + 1;
        }
        r.append(job.command.as_str());
        if status == JobStatus::Running {
            r.append(" &");
            proof {
                reveal_strlit(" &");
            }
        }
        assert(r@ =~= job_line(
            job.job_id,
            job.command@,
            latest_job_id,
            second_latest_job_id,
            status,
        ));
        r
    }

    /// The line shown for each job, oldest first, given the status of each.
    pub fn job_lines(job_list: &JobList, statuses: &Vec<JobStatus>) -> (r: Vec<String>)
        requires
            job_list.wf(),
            statuses@.len() == job_list.seq().len(),
        ensures
            ({
                let ids = job_list.seq();
                let values = job_list.values();
                strings_view(r@) == Seq::new(
                    ids.len(),
                    |k: int|
                        job_line(
                            values[ids[k]].job_id,
                            values[ids[k]].command@,
                            latest_of(ids, values),
                            second_latest_of(ids, values),
                            statuses@[k],
                        ),
                )
            }),
    {
        let ghost ids = job_list.seq();
        let ghost values = job_list.values();
        let latest = Self::get_latest_job_id(job_list);
        let second = Self::get_second_latest_job_id(job_list);
        let idx = job_list.ids();
        let mut lines: Vec<String> = Vec::new();
        let mut k: usize = 0;
        while k < idx.len()
            invariant
                job_list.wf(),
                ids == job_list.seq(),
                values == job_list.values(),
                idx@ == ids,
                statuses@.len() == ids.len(),
                latest == latest_of(ids, values),
                second == second_latest_of(ids, values),
                k <= ids.len(),
                strings_view(lines@) =~= Seq::new(
                    k as nat,
                    |j: int|
                        job_line(
                            values[ids[j]].job_id,
                            values[ids[j]].command@,
                            latest,
                            second,
                            statuses@[j],
                        ),
                ),
            decreases ids.len() - k,
        {
            let id = idx[k];
            assert(ids.contains(id)) by {
                assert(ids[k as int] == id);
            }
            match job_list.get_node(&id) {
                Some(node) => {
                    let line = Self::get_job_display(&node.value, latest, second, statuses[k]);
                    let ghost prev = strings_view(lines@);
                    lines.push(line);
                    assert(strings_view(lines@) =~= prev.push(line@));
                },
                None => {},
            }
            k = k + 1;
        }
        lines
    }

    /// Removes the jobs that are done (each with its status given, oldest first) and returns
    /// the lines shown for them, with the marks the list had before.
    pub fn reap_jobs(job_list: &mut JobList, statuses: &Vec<JobStatus>) -> (r: Vec<String>)
        requires
            old(job_list).wf(),
            statuses@.len() == old(job_list).seq().len(),
        ensures
            final(job_list).wf(),
            ({
                let ids = old(job_list).seq();
                let values = old(job_list).values();
                &&& strings_view(r@) == reaped_lines(
                    ids,
                    values,
                    statuses@,
                    latest_of(ids, values),
                    second_latest_of(ids, values),
                    0,
                )
                &&& final(job_list).seq() == kept_ids(ids, statuses@, 0)
                &&& forall|x: usize|
                    #[trigger] final(job_list).values().contains_key(x) ==> values.contains_key(x)
                        && final(job_list).values()[x] == values[x]
            }),
    {
        let ghost ids = job_list.seq();
        let ghost values = job_list.values();
        let ghost st = statuses@;
        let latest = Self::get_latest_job_id(job_list);
        let second = Self::get_second_latest_job_id(job_list);
        let idx = job_list.ids();
        let mut removed: Vec<String> = Vec::new();
        let ghost mut kept: Seq<usize> = Seq::empty();
        let mut k: usize = 0;
        assert(ids.skip(0) =~= ids);
        while k < idx.len()
            invariant
                job_list.wf(),
                idx@ == ids,
                ids.no_duplicates(),
                st == statuses@,
                st.len() == ids.len(),
                latest == latest_of(ids, values),
                second == second_latest_of(ids, values),
                k <= ids.len(),
                job_list.seq() == kept + ids.skip(k as int),
                kept + kept_ids(ids, st, k as int) == kept_ids(ids, st, 0),
                strings_view(removed@) + reaped_lines(ids, values, st, latest, second, k as int)
                    == reaped_lines(ids, values, st, latest, second, 0),
                forall|x: usize|
                    #[trigger] job_list.values().contains_key(x) ==> values.contains_key(x)
                        && job_list.values()[x] == values[x],
                forall|j: int| k <= j < ids.len() ==> job_list.values().contains_key(#[trigger] ids[j]),
            decreases ids.len() - k,
        {
            let id = idx[k];
            let ghost cur = job_list.seq();
            assert(cur[kept.len() as int] == id);
            if statuses[k] == JobStatus::Done {
                let ghost before = strings_view(removed@);
                match job_list.get_node(&id) {
                    Some(node) => {
                        let line = Self::get_job_display(&node.value, latest, second, JobStatus::Done);
                        removed.push(line);
                        assert(strings_view(removed@) =~= before.push(line@));
                    },
                    None => {},
                }
                proof {
                    assert(job_list.values().contains_key(id));
                    assert(cur.index_of(id) == kept.len()) by {
                        assert(cur.no_duplicates());
                        assert(cur.contains(id));
                        let q = cur.index_of(id);
                        assert(cur[q] == id);
                    }
                }
                job_list.remove(&id);
                proof {
                    assert(cur.remove(kept.len() as int) =~= kept + ids.skip(k + 1));
                    assert(before.push(job_line(values[id].job_id, values[id].command@, latest, second, JobStatus::Done))
                        + reaped_lines(ids, values, st, latest, second, k + 1) =~= before + reaped_lines(
                        ids,
                        values,
                        st,
                        latest,
                        second,
                        k as int,
                    ));
                    assert forall|j: int| k + 1 <= j < ids.len() implies job_list.values().contains_key(
                        #[trigger] ids[j],
                    ) by {
                        assert(ids[j] != id);
                    }
                }
            } else {
                proof {
                    assert(kept.push(id) + kept_ids(ids, st, k + 1) =~= kept + kept_ids(ids, st, k as int));
                    assert(cur =~= kept.push(id) + ids.skip(k + 1));
                    kept = kept.push(id);
                }
            }
            k = k + 1;
        }
        proof {
            assert(ids.skip(k as int) =~= Seq::<usize>::empty());
            assert(kept =~= kept + ids.skip(k as int));
            assert(strings_view(removed@) =~= strings_view(removed@) + reaped_lines(ids, values, st, latest, second, k as int));
            assert(kept + kept_ids(ids, st, k as int) =~= kept);
        }
        removed
    }

    /// Registers a background job running `cmd` with `args` under the smallest free number,
    /// and returns the number.
    pub fn start_job(job_list: &mut JobList, cmd: &str, args: &Vec<String>) -> (id: usize)
        requires
            old(job_list).wf(),
            old(job_list).seq().len() < usize::MAX,
        ensures
            id >= 1,
            !old(job_list).nodes@.contains_key(id),
            forall|k: usize| 1 <= k < id ==> old(job_list).nodes@.contains_key(k),
            final(job_list).wf(),
            final(job_list).seq() == old(job_list).seq().push(id),
            final(job_list).values().contains_key(id),
            final(job_list).values()[id].job_id == id,
            final(job_list).values()[id].command@ == job_command(cmd@, strings_view(args@)),
            forall|k: usize| k != id ==> final(job_list).values().contains_key(k) == old(job_list).values().contains_key(k),
            forall|k: usize| #[trigger] old(job_list).values().contains_key(k) ==> final(job_list).values()[k] == old(job_list).values()[k],
    {
        let job_id = Self::get_new_id(job_list);
        proof {
            reveal_strlit(" ");
        }
        assert(" "@ == seq![' ']);
        let mut command = String::new();
        command.append(cmd);
        command.append(" ");
        let rest = join(args.as_slice(), " ");
        command.append(rest.as_str());
        assert(command@ =~= job_command(cmd@, strings_view(args@)));
        job_list.push_back(JobInfo { job_id, command });
        job_id
    }

    /// The line printed when a background job starts: its number in brackets and the
    /// process id.
    pub fn started_message(job_id: usize, pid: u32) -> (r: String)
        ensures
            r@ == seq!['['] + decimal(job_id as nat) + seq![']', ' '] + decimal(pid as nat),
    {
        let mut r = String::new();
        r.append("[");
        let a = decimal_string(job_id);
        r.append(a.as_str());
        r.append("] ");
        let b = decimal_string(pid as usize);
        r.append(b.as_str());
        proof {
            reveal_strlit("[");
            reveal_strlit("] ");
        }
        assert(r@ =~= seq!['['] + decimal(job_id as nat) + seq![']', ' '] + decimal(pid as nat));
        r
    }
}

} // verus!

verus! {

/// The job started last is the latest one; the one that was latest before becomes the one
/// before it.
pub proof fn lemma_started_job_is_latest(ids: Seq<usize>, values: Map<usize, JobInfo>, job: JobInfo)
    ensures
        latest_of(ids.push(job.job_id), values.insert(job.job_id, job)) == Some(job.job_id),
        ids.len() > 0 && ids.last() != job.job_id ==> second_latest_of(
            ids.push(job.job_id),
            values.insert(job.job_id, job),
        ) == latest_of(ids, values),
{
    let t = ids.push(job.job_id);
    if ids.len() > 0 {
        assert(t[t.len() - 2] == ids.last());
    }
}

} // verus!
