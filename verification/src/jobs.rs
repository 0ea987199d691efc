//! Background jobs: their numbering, the `jobs` listing, and forgetting the ones
//! that have finished.
use vstd::prelude::*;
use crate::commands::{job_line, spec_job_line};

verus! {

/// The jobs not marked done, in order.
pub open spec fn keep_running(jobs: Seq<(nat, Seq<char>)>, done: Seq<bool>) -> Seq<(nat, Seq<char>)>
    decreases jobs.len(),
{
    if jobs.len() == 0 {
        seq![]
    } else if done[jobs.len() - 1] {
        keep_running(jobs.drop_last(), done)
    } else {
        keep_running(jobs.drop_last(), done).push(jobs.last())
    }
}

/// The background jobs the shell knows of: the number the last one got, and each
/// job's number and command text, oldest first.
pub struct JobTable {
    last_number: usize,
    jobs: Vec<(usize, String)>,
}

impl JobTable {
    /// The number the most recently started job got (0 before any).
    pub closed spec fn last_number(&self) -> nat {
        self.last_number as nat
    }

    /// Each job's number and command text, oldest first.
    pub closed spec fn jobs(&self) -> Seq<(nat, Seq<char>)> {
        self.jobs@.map_values(|j: (usize, String)| (j.0 as nat, j.1@))
    }

    /// No jobs yet.
    pub fn new() -> (t: Self)
        ensures
            t.last_number() == 0,
            t.jobs() == Seq::<(nat, Seq<char>)>::empty(),
    {
        let t = JobTable { last_number: 0, jobs: Vec::new() };
        assert(t.jobs() == Seq::<(nat, Seq<char>)>::empty());
        t
    }

    /// How many jobs are known.
    pub fn len(&self) -> (n: usize)
        ensures
            n == self.jobs().len(),
    {
        self.jobs.len()
    }

    /// Whether another job can be numbered (numbers are `usize`).
    pub fn can_start(&self) -> (ok: bool)
        ensures
            ok == (self.last_number() < usize::MAX),
    {
        self.last_number < usize::MAX
    }

    /// Records a job started in the background with the given command text; it
    /// gets the next number, which is returned.
    pub fn start(&mut self, command: String) -> (n: usize)
        requires
            old(self).last_number() < usize::MAX,
        ensures
            n == old(self).last_number() + 1,
            final(self).last_number() == n,
            final(self).jobs() == old(self).jobs().push((n as nat, command@)),
    {
        let n = self.last_number + 1;
        self.last_number = n;
        let ghost old_jobs = self.jobs();
        self.jobs.push((n, command));
        assert(self.jobs() == old_jobs.push((n as nat, command@)));
        n
    }

    /// The `jobs` listing, given which jobs have finished (one flag per job, in
    /// order); the finished jobs are then forgotten.
    pub fn report(&mut self, done: &[bool]) -> (lines: Vec<String>)
        requires
            done@.len() == old(self).jobs().len(),
        ensures
            lines@.len() == old(self).jobs().len(),
            forall|i: int| 0 <= i < lines@.len() ==> (#[trigger] lines@[i])@ == spec_job_line(
                old(self).jobs()[i].0,
                i as nat,
                old(self).jobs().len(),
                done@[i],
                old(self).jobs()[i].1,
            ),
            final(self).jobs() == keep_running(old(self).jobs(), done@),
            final(self).last_number() == old(self).last_number(),
    {
        let ghost js = self.jobs();
        let total = self.jobs.len();
        let mut lines: Vec<String> = Vec::new();
        let mut kept: Vec<(usize, String)> = Vec::new();
        let mut i: usize = 0;
        assert(js.take(0) == Seq::<(nat, Seq<char>)>::empty());
        assert(kept@.map_values(|j: (usize, String)| (j.0 as nat, j.1@)) == Seq::<(nat, Seq<char>)>::empty());
        while i < total
            invariant
                js == self.jobs(),
                total == js.len(),
                done@.len() == total,
                i <= total,
                lines@.len() == i,
                forall|k: int| 0 <= k < i ==> (#[trigger] lines@[k])@ == spec_job_line(
                    js[k].0,
                    k as nat,
                    total as nat,
                    done@[k],
                    js[k].1,
                ),
                kept@.map_values(|j: (usize, String)| (j.0 as nat, j.1@)) == keep_running(js.take(i as int), done@),
            decreases total - i,
        {
            assert(js[i as int] == (self.jobs@[i as int].0 as nat, self.jobs@[i as int].1@));
            let line = job_line(self.jobs[i].0, i, total, done[i], self.jobs[i].1.as_str());
            lines.push(line);
            assert(js.take(i + 1).drop_last() == js.take(i as int));
            assert(js.take(i + 1).last() == js[i as int]);
            if !done[i] {
                let ghost old_kept = kept@.map_values(|j: (usize, String)| (j.0 as nat, j.1@));
                kept.push((self.jobs[i].0, self.jobs[i].1.clone()));
                assert(kept@.map_values(|j: (usize, String)| (j.0 as nat, j.1@)) == old_kept.push(js[i as int]));
            }
            i = i + 1;
        }
        assert(js.take(total as int) == js);
        self.jobs = kept;
        lines
    }
}

/// The first index whose candidate passed, if any.
pub fn first_accepted(ok: &[bool]) -> (r: Option<usize>)
    ensures
        match r {
            Some(i) => i < ok@.len() && ok@[i as int] && forall|j: int| 0 <= j < i ==> !ok@[j],
            None => forall|j: int| 0 <= j < ok@.len() ==> !ok@[j],
        },
{
    let mut i: usize = 0;
    while i < ok.len()
        invariant
            i <= ok@.len(),
            forall|j: int| 0 <= j < i ==> !ok@[j],
        decreases ok@.len() - i,
    {
        if ok[i] {
            return Some(i);
        }
        i = i + 1;
    }
    None
}

} // verus!
