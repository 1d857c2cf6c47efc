use vstd::prelude::*;

verus! {

/// Where a started build came from.
#[derive(Debug, Clone, Copy, PartialEq, Eq, Structural)]
pub enum Lane {
    /// An independent configuration; these run concurrently.
    Independent,
    /// A member of the dependent group with this position; a group's
    /// members run one at a time, in order.
    Group(usize),
}

/// A build the scheduler has started: the configuration's index and its lane.
#[derive(Debug, Clone, Copy, PartialEq, Eq, Structural)]
pub struct Ticket {
    pub config: usize,
    pub lane: Lane,
}

/// Number of `true` entries.
pub open spec fn count_true(s: Seq<bool>) -> nat
    decreases s.len(),
{
    if s.len() == 0 {
        0
    } else {
        count_true(s.drop_last()) + if s.last() {
            1nat
        } else {
            0nat
        }
    }
}

proof fn lemma_count_true_set(s: Seq<bool>, i: int, v: bool)
    requires
        0 <= i < s.len(),
    ensures
        count_true(s.update(i, v)) + (if s[i] { 1nat } else { 0nat }) == count_true(s) + (if v {
            1nat
        } else {
            0nat
        }),
    decreases s.len(),
{
    if i < s.len() - 1 {
        lemma_count_true_set(s.drop_last(), i, v);
        assert(s.update(i, v).drop_last() =~= s.drop_last().update(i, v));
    } else {
        assert(s.update(i, v).drop_last() =~= s.drop_last());
    }
}

proof fn lemma_count_true_bound(s: Seq<bool>)
    ensures
        count_true(s) <= s.len(),
    decreases s.len(),
{
    if s.len() > 0 {
        lemma_count_true_bound(s.drop_last());
    }
}

/// Decides, for one build invocation, which configuration starts next:
/// independent configurations first, in order, then the members of each
/// dependent group one after another, never more than `limit` at a time.
pub struct Scheduler {
    limit: usize,
    independent: Vec<usize>,
    started_independent: usize,
    running_independent: usize,
    groups: Vec<Vec<usize>>,
    group_next: Vec<usize>,
    group_busy: Vec<bool>,
    succeeded: usize,
    failed: usize,
}

impl Scheduler {
    pub closed spec fn spec_limit(&self) -> nat {
        self.limit as nat
    }

    pub closed spec fn spec_independent(&self) -> Seq<usize> {
        self.independent@
    }

    /// How many independent configurations have been started.
    pub closed spec fn spec_started_independent(&self) -> nat {
        self.started_independent as nat
    }

    pub closed spec fn spec_groups(&self) -> Seq<Seq<usize>> {
        self.groups@.map_values(|g: Vec<usize>| g@)
    }

    /// For each group, how many of its members have finished.
    pub closed spec fn spec_group_next(&self) -> Seq<usize> {
        self.group_next@
    }

    /// For each group, whether a member is running.
    pub closed spec fn spec_group_busy(&self) -> Seq<bool> {
        self.group_busy@
    }

    pub closed spec fn spec_running_independent(&self) -> nat {
        self.running_independent as nat
    }

    /// Builds running now.
    pub open spec fn running(&self) -> nat {
        self.spec_running_independent() + count_true(self.spec_group_busy())
    }

    pub closed spec fn spec_succeeded(&self) -> nat {
        self.succeeded as nat
    }

    pub closed spec fn spec_failed(&self) -> nat {
        self.failed as nat
    }

    pub open spec fn wf(&self) -> bool {
        &&& self.spec_limit() >= 1
        &&& self.spec_started_independent() <= self.spec_independent().len()
        &&& self.spec_running_independent() <= self.spec_started_independent()
        &&& self.spec_group_next().len() == self.spec_groups().len()
        &&& self.spec_group_busy().len() == self.spec_groups().len()
        &&& forall|g: int|
            0 <= g < self.spec_groups().len() ==> self.spec_group_next()[g] <= self.spec_groups()[g].len()
        &&& forall|g: int|
            0 <= g < self.spec_groups().len() && #[trigger] self.spec_group_busy()[g]
                ==> self.spec_group_next()[g] < self.spec_groups()[g].len()
        &&& self.running() <= self.spec_limit()
    }

    /// Every configuration has been started and has finished.
    pub open spec fn all_done(&self) -> bool {
        &&& self.spec_started_independent() == self.spec_independent().len()
        &&& self.running() == 0
        &&& forall|g: int|
            0 <= g < self.spec_groups().len() ==> self.spec_group_next()[g] == self.spec_groups()[g].len()
    }

    /// Nothing is running or started yet.
    pub fn new(limit: usize, independent: Vec<usize>, groups: Vec<Vec<usize>>) -> (r: Scheduler)
        requires
            limit >= 1,
        ensures
            r.wf(),
            r.spec_limit() == limit,
            r.spec_independent() == independent@,
            r.spec_groups() == groups@.map_values(|g: Vec<usize>| g@),
            r.spec_started_independent() == 0,
            r.running() == 0,
            forall|g: int| 0 <= g < groups@.len() ==> r.spec_group_next()[g] == 0,
            r.spec_succeeded() == 0,
            r.spec_failed() == 0,
    {
        let mut group_next: Vec<usize> = Vec::new();
        let mut group_busy: Vec<bool> = Vec::new();
        let mut i: usize = 0;
        while i < groups.len()
            invariant
                i <= groups@.len(),
                group_next@.len() == i,
                group_busy@.len() == i,
                forall|g: int| 0 <= g < i ==> group_next@[g] == 0,
                forall|g: int| 0 <= g < i ==> !group_busy@[g],
                count_true(group_busy@) == 0,
            decreases groups@.len() - i,
        {
            group_next.push(0);
            let ghost before = group_busy@;
            group_busy.push(false);
            proof {
                assert(group_busy@.drop_last() =~= before);
            }
            i = i + 1;
        }
        Scheduler {
            limit,
            independent,
            started_independent: 0,
            running_independent: 0,
            groups,
            group_next,
            group_busy,
            succeeded: 0,
            failed: 0,
        }
    }

    /// The next build to start, if one may start now: the next independent
    /// configuration while any remains, else the next member of a group
    /// none of whose members is running. Nothing starts at the limit.
    pub fn next_start(&mut self) -> (r: Option<Ticket>)
        requires
            old(self).wf(),
        ensures
            final(self).wf(),
            final(self).spec_limit() == old(self).spec_limit(),
            final(self).spec_independent() == old(self).spec_independent(),
            final(self).spec_groups() == old(self).spec_groups(),
            final(self).spec_group_next() == old(self).spec_group_next(),
            final(self).spec_succeeded() == old(self).spec_succeeded(),
            final(self).spec_failed() == old(self).spec_failed(),
            match r {
                None => *final(self) == *old(self) && (old(self).running() >= old(self).spec_limit() || (
                old(self).spec_started_independent() == old(self).spec_independent().len() && forall|g: int|
                    0 <= g < old(self).spec_groups().len() ==> old(self).spec_group_busy()[g]
                        || old(self).spec_group_next()[g] == old(self).spec_groups()[g].len())),
                Some(t) => old(self).running() < old(self).spec_limit() && final(self).running() == old(
                    self,
                ).running() + 1 && match t.lane {
                    Lane::Independent => old(self).spec_started_independent() < old(
                        self,
                    ).spec_independent().len() && t.config == old(self).spec_independent()[old(
                        self,
                    ).spec_started_independent() as int] && final(self).spec_started_independent() == old(
                        self,
                    ).spec_started_independent() + 1 && final(self).spec_group_busy() == old(
                        self,
                    ).spec_group_busy(),
                    Lane::Group(g) => old(self).spec_started_independent() == old(
                        self,
                    ).spec_independent().len() && g < old(self).spec_groups().len() && !old(
                        self,
                    ).spec_group_busy()[g as int] && t.config == old(self).spec_groups()[g as int][old(
                        self,
                    ).spec_group_next()[g as int] as int] && final(self).spec_group_busy() == old(
                        self,
                    ).spec_group_busy().update(g as int, true) && final(self).spec_started_independent()
                        == old(self).spec_started_independent(),
                },
            },
    {
        proof {
            lemma_count_true_bound(self.group_busy@);
        }
        if self.running_independent + count_busy(&self.group_busy) >= self.limit {
            return None;
        }
        if self.started_independent < self.independent.len() {
            let config = self.independent[self.started_independent];
            self.started_independent = self.started_independent + 1;
            self.running_independent = self.running_independent + 1;
            return Some(Ticket { config, lane: Lane::Independent });
        }
        let mut g: usize = 0;
        while g < self.groups.len()
            invariant
                self.wf(),
                self.running() < self.spec_limit(),
                self.spec_started_independent() == self.spec_independent().len(),
                self == old(self),
                g <= self.groups@.len(),
                forall|h: int| 0 <= h < g ==> self.group_busy@[h] || self.group_next@[h] == self.groups@[h]@.len(),
            decreases self.groups@.len() - g,
        {
            proof {
                assert(self.spec_groups()[g as int] == self.groups@[g as int]@);
            }
            if !self.group_busy[g] && self.group_next[g] < self.groups[g].len() {
                let config = self.groups[g][self.group_next[g]];
                let ghost before = self.group_busy@;
                self.group_busy.set(g, true);
                proof {
                    lemma_count_true_set(before, g as int, true);
                    assert forall|h: int|
                        0 <= h < self.spec_groups().len() && #[trigger] self.spec_group_busy()[h] implies self.spec_group_next()[h]
                            < self.spec_groups()[h].len() by {
                        if h != g {
                            assert(before[h]);
                        }
                    }
                }
                return Some(Ticket { config, lane: Lane::Group(g) });
            }
            proof {
                assert(self.spec_group_next()[g as int] <= self.spec_groups()[g as int].len());
            }
            g = g + 1;
        }
        proof {
            assert forall|h: int| 0 <= h < self.spec_groups().len() implies self.spec_group_busy()[h]
                || self.spec_group_next()[h] == self.spec_groups()[h].len() by {
                assert(self.spec_groups()[h] == self.groups@[h]@);
            }
        }
        None
    }

    /// Records that the build of `ticket` finished; a group moves on to its
    /// next member.
    pub fn complete(&mut self, ticket: Ticket, success: bool)
        requires
            old(self).wf(),
            match ticket.lane {
                Lane::Independent => old(self).spec_running_independent() > 0,
                Lane::Group(g) => g < old(self).spec_groups().len() && old(self).spec_group_busy()[g as int],
            },
            old(self).spec_succeeded() + old(self).spec_failed() < usize::MAX,
        ensures
            final(self).wf(),
            final(self).running() + 1 == old(self).running(),
            final(self).spec_limit() == old(self).spec_limit(),
            final(self).spec_independent() == old(self).spec_independent(),
            final(self).spec_groups() == old(self).spec_groups(),
            final(self).spec_started_independent() == old(self).spec_started_independent(),
            final(self).spec_succeeded() == old(self).spec_succeeded() + (if success { 1nat } else { 0nat }),
            final(self).spec_failed() == old(self).spec_failed() + (if success { 0nat } else { 1nat }),
            match ticket.lane {
                Lane::Independent => final(self).spec_group_next() == old(self).spec_group_next()
                    && final(self).spec_group_busy() == old(self).spec_group_busy(),
                Lane::Group(g) => final(self).spec_group_next() == old(self).spec_group_next().update(
                    g as int,
                    (old(self).spec_group_next()[g as int] + 1) as usize,
                ) && final(self).spec_group_busy() == old(self).spec_group_busy().update(g as int, false),
            },
    {
        if success {
            self.succeeded = self.succeeded + 1;
        } else {
            self.failed = self.failed + 1;
        }
        match ticket.lane {
            Lane::Independent => {
                self.running_independent = self.running_independent - 1;
            },
            Lane::Group(g) => {
                let ghost before = self.group_busy@;
                let ghost next_before = self.group_next@;
                proof {
                    assert(self.spec_group_busy()[g as int]);
                    assert(self.spec_groups()[g as int] == self.groups@[g as int]@);
                    assert(next_before[g as int] < self.groups@[g as int]@.len());
                }
                self.group_busy.set(g, false);
                let n = self.group_next[g];
                let len_g = self.groups[g].len();
                proof {
                    assert(n < len_g);
                }
                self.group_next.set(g, n + 1);
                proof {
                    lemma_count_true_set(before, g as int, false);
                    assert forall|h: int| 0 <= h < self.spec_groups().len() implies self.spec_group_next()[h]
                        <= self.spec_groups()[h].len() by {
                        if h != g {
                            assert(self.group_next@[h] == next_before[h]);
                        }
                    }
                    assert forall|h: int|
                        0 <= h < self.spec_groups().len() && #[trigger] self.spec_group_busy()[h] implies self.spec_group_next()[h]
                            < self.spec_groups()[h].len() by {
                        assert(h != g);
                        assert(before[h]);
                        assert(self.group_next@[h] == next_before[h]);
                    }
                }
            },
        }
    }

    /// Whether every configuration has been started and has finished.
    pub fn is_done(&self) -> (r: bool)
        requires
            self.wf(),
        ensures
            r == self.all_done(),
    {
        if self.started_independent < self.independent.len() || self.running_independent > 0 {
            proof {
                lemma_count_true_bound(self.group_busy@);
            }
            return false;
        }
        if count_busy(&self.group_busy) > 0 {
            return false;
        }
        let mut g: usize = 0;
        while g < self.groups.len()
            invariant
                self.wf(),
                g <= self.groups@.len(),
                forall|h: int| 0 <= h < g ==> self.group_next@[h] == self.groups@[h]@.len(),
            decreases self.groups@.len() - g,
        {
            proof {
                assert(self.spec_groups()[g as int] == self.groups@[g as int]@);
            }
            if self.group_next[g] < self.groups[g].len() {
                return false;
            }
            g = g + 1;
        }
        proof {
            assert forall|h: int| 0 <= h < self.spec_groups().len() implies self.spec_group_next()[h]
                == self.spec_groups()[h].len() by {
                assert(self.spec_groups()[h] == self.groups@[h]@);
            }
        }
        true
    }

    /// Numbers of builds that succeeded and that failed.
    pub fn summary(&self) -> (r: (usize, usize))
        ensures
            r.0 == self.spec_succeeded(),
            r.1 == self.spec_failed(),
    {
        (self.succeeded, self.failed)
    }
}

fn count_busy(flags: &Vec<bool>) -> (r: usize)
    ensures
        r == count_true(flags@),
{
    let mut n: usize = 0;
    let mut i: usize = 0;
    while i < flags.len()
        invariant
            i <= flags@.len(),
            n == count_true(flags@.take(i as int)),
            n <= i,
        decreases flags@.len() - i,
    {
        proof {
            assert(flags@.take(i as int + 1).drop_last() =~= flags@.take(i as int));
        }
        if flags[i] {
            n = n + 1;
        }
        i = i + 1;
    }
    proof {
        assert(flags@.take(flags@.len() as int) =~= flags@);
    }
    n
}

} // verus!
