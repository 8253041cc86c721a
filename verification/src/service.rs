//! The service table: which services are running, which are finished, and
//! the restart decisions applied when a tracked process exits.
//!
//! The manager owns no OS resources. The front end that actually spawns,
//! polls and terminates processes reports plain events (a spawn succeeded,
//! a process exited with or without success) and carries out the
//! dispositions decided here.

use vstd::prelude::*;

use crate::config::{RestartPolicy, ServiceConfig, ServiceType};

verus! {

/// State of a service as derived from the table: never started, currently
/// tracked as running, or exited/stopped for good.
#[derive(Clone, Copy, Debug, PartialEq, Eq, Structural)]
pub enum ServiceState {
    Stopped,
    Running,
    Finished,
}

/// How many times a service may be respawned before it is given up on.
pub const MAX_RESTART_COUNT: u32 = 5;

/// What became of a service whose process exit was reported.
#[derive(Clone, Copy, Debug, PartialEq, Eq, Structural)]
pub enum ExitDisposition {
    /// The name was not in the running table; nothing changed.
    NotTracked,
    /// Policy asks for a restart and the cap is not reached: the entry
    /// stays running with its restart count incremented, and the caller
    /// must respawn the process.
    Respawned,
    /// The entry moved to the finished table. `restarts_exhausted` is true
    /// when policy alone would have asked for a restart but the cap was
    /// reached.
    Finished { restarts_exhausted: bool },
}

/// A process exit observed by the front end: which service, and whether
/// the process exited successfully (status zero).
pub struct ExitEvent {
    pub name: String,
    pub success: bool,
}

/// The restart decision table: a Oneshot service is never restarted; a
/// Simple service is restarted according to its policy.
pub open spec fn spec_should_restart(
    policy: RestartPolicy,
    service_type: ServiceType,
    exit_success: bool,
) -> bool {
    match service_type {
        ServiceType::Oneshot => false,
        ServiceType::Simple => match policy {
            RestartPolicy::Always => true,
            RestartPolicy::OnFailure => !exit_success,
            RestartPolicy::Never => false,
        },
    }
}

/// Decide whether a service should be restarted after an exit.
pub fn should_restart(policy: RestartPolicy, service_type: ServiceType, exit_success: bool) -> (r:
    bool)
    ensures
        r == spec_should_restart(policy, service_type, exit_success),
{
    match service_type {
        ServiceType::Oneshot => false,
        ServiceType::Simple => match policy {
            RestartPolicy::Always => true,
            RestartPolicy::OnFailure => !exit_success,
            RestartPolicy::Never => false,
        },
    }
}

/// The complete disposition of an exit, policy and restart cap combined.
pub open spec fn spec_exit_disposition(
    policy: RestartPolicy,
    service_type: ServiceType,
    exit_success: bool,
    restart_count: u32,
) -> ExitDisposition {
    if spec_should_restart(policy, service_type, exit_success) {
        if restart_count < MAX_RESTART_COUNT {
            ExitDisposition::Respawned
        } else {
            ExitDisposition::Finished { restarts_exhausted: true }
        }
    } else {
        ExitDisposition::Finished { restarts_exhausted: false }
    }
}

/// A Oneshot service is finished after its single run, whatever its
/// restart policy and restart count.
pub proof fn lemma_oneshot_never_respawned(
    policy: RestartPolicy,
    exit_success: bool,
    restart_count: u32,
)
    ensures
        spec_exit_disposition(policy, ServiceType::Oneshot, exit_success, restart_count)
            == (ExitDisposition::Finished { restarts_exhausted: false }),
{
}

/// A Simple on-failure service that exits successfully is finished and
/// never respawned; one that keeps failing is respawned exactly while its
/// restart count is below the cap, and finished once the cap is reached.
pub proof fn lemma_on_failure_restarts_until_cap(restart_count: u32)
    ensures
        spec_exit_disposition(RestartPolicy::OnFailure, ServiceType::Simple, true, restart_count)
            == (ExitDisposition::Finished { restarts_exhausted: false }),
        restart_count < MAX_RESTART_COUNT ==> spec_exit_disposition(
            RestartPolicy::OnFailure,
            ServiceType::Simple,
            false,
            restart_count,
        ) == ExitDisposition::Respawned,
        restart_count >= MAX_RESTART_COUNT ==> spec_exit_disposition(
            RestartPolicy::OnFailure,
            ServiceType::Simple,
            false,
            restart_count,
        ) == (ExitDisposition::Finished { restarts_exhausted: true }),
{
}

/// The names of a batch of exit events, in event order.
pub open spec fn exit_name_views(es: Seq<ExitEvent>) -> Seq<Seq<char>> {
    es.map_values(|e: ExitEvent| e.name@)
}

/// What one exit event does to the table: a tracked service either stays
/// running with its count incremented or moves to finished, exactly as the
/// decision table says; an untracked name changes nothing.
pub open spec fn exit_applied(m0: ServiceManager, m1: ServiceManager, e: ExitEvent) -> bool {
    if m0.is_running(e.name@) {
        let c = m0.running_config(e.name@);
        let rc = m0.spec_restart_count(e.name@);
        if spec_exit_disposition(c.restart, c.service_type, e.success, rc)
            == ExitDisposition::Respawned {
            &&& m1.is_running(e.name@)
            &&& m1.running_config(e.name@) == c
            &&& m1.spec_restart_count(e.name@) == rc + 1
            &&& !m1.is_finished(e.name@)
        } else {
            &&& !m1.is_running(e.name@)
            &&& m1.is_finished(e.name@)
        }
    } else {
        &&& m1.is_running(e.name@) == m0.is_running(e.name@)
        &&& m1.is_finished(e.name@) == m0.is_finished(e.name@)
    }
}

/// The service named `n` is held exactly as before: same lifecycle state
/// and, if running, the same definition and restart count.
pub open spec fn untouched(m0: ServiceManager, m1: ServiceManager, n: Seq<char>) -> bool {
    &&& m1.is_running(n) == m0.is_running(n)
    &&& m1.is_finished(n) == m0.is_finished(n)
    &&& (m0.is_running(n) ==> m1.running_config(n) == m0.running_config(n)
        && m1.spec_restart_count(n) == m0.spec_restart_count(n))
}

struct RunningEntry {
    config: ServiceConfig,
    restart_count: u32,
}

spec fn entry_names(s: Seq<RunningEntry>) -> Seq<Seq<char>> {
    s.map_values(|e: RunningEntry| e.config.name@)
}

spec fn config_name_views(s: Seq<ServiceConfig>) -> Seq<Seq<char>> {
    s.map_values(|c: ServiceConfig| c.name@)
}

spec fn names_distinct(s: Seq<Seq<char>>) -> bool {
    forall|i: int, j: int| 0 <= i < j < s.len() ==> s[i] != s[j]
}

/// Owner of the service table.
pub struct ServiceManager {
    running: Vec<RunningEntry>,
    finished: Vec<ServiceConfig>,
}

impl ServiceManager {
    /// The names of the running services, in table order.
    pub closed spec fn running_names(self) -> Seq<Seq<char>> {
        entry_names(self.running@)
    }

    /// The names of the finished services, in the order they finished.
    pub closed spec fn finished_names(self) -> Seq<Seq<char>> {
        config_name_views(self.finished@)
    }

    /// A service named `n` is currently tracked as running.
    pub open spec fn is_running(self, n: Seq<char>) -> bool {
        self.running_names().contains(n)
    }

    /// A service named `n` is finished: it exited and will not be retried,
    /// or was explicitly stopped.
    pub open spec fn is_finished(self, n: Seq<char>) -> bool {
        self.finished_names().contains(n)
    }

    /// Position of the running entry named `n` (meaningful when running).
    pub closed spec fn running_position(self, n: Seq<char>) -> int {
        choose|i: int| 0 <= i < self.running_names().len() && self.running_names()[i] == n
    }

    /// The definition the running service named `n` was started from.
    pub closed spec fn running_config(self, n: Seq<char>) -> ServiceConfig {
        self.running@[self.running_position(n)].config
    }

    /// How often the running service named `n` has been respawned.
    pub closed spec fn spec_restart_count(self, n: Seq<char>) -> u32 {
        self.running@[self.running_position(n)].restart_count
    }

    /// The derived lifecycle state of the name `n`.
    pub open spec fn spec_state(self, n: Seq<char>) -> ServiceState {
        if self.is_running(n) {
            ServiceState::Running
        } else if self.is_finished(n) {
            ServiceState::Finished
        } else {
            ServiceState::Stopped
        }
    }

    /// Table invariant: names are unique within each table, no name is in
    /// both tables at once, and no restart count exceeds the cap.
    pub closed spec fn wf(self) -> bool {
        &&& names_distinct(self.running_names())
        &&& names_distinct(self.finished_names())
        &&& forall|n: Seq<char>| self.is_running(n) ==> !self.is_finished(n)
        &&& forall|i: int|
            0 <= i < self.running@.len() ==> self.running@[i].restart_count <= MAX_RESTART_COUNT
    }

    proof fn lemma_running_position_is(self, n: Seq<char>, i: int)
        requires
            names_distinct(self.running_names()),
            0 <= i < self.running_names().len(),
            self.running_names()[i] == n,
        ensures
            self.running_position(n) == i,
            self.is_running(n),
    {
        assert(self.running_names().contains(n));
        let p = self.running_position(n);
        assert(0 <= p < self.running_names().len() && self.running_names()[p] == n);
        if p != i {
            if p < i {
                assert(self.running_names()[p] == self.running_names()[i]);
            } else {
                assert(self.running_names()[i] == self.running_names()[p]);
            }
        }
    }

    /// An empty table: nothing running, nothing finished.
    pub fn new() -> (m: Self)
        ensures
            m.wf(),
            m.running_names() == Seq::<Seq<char>>::empty(),
            m.finished_names() == Seq::<Seq<char>>::empty(),
            forall|n: Seq<char>| !(#[trigger] m.is_running(n)),
            forall|n: Seq<char>| !(#[trigger] m.is_finished(n)),
    {
        let m = ServiceManager { running: Vec::new(), finished: Vec::new() };
        proof {
            assert(m.running_names() =~= Seq::<Seq<char>>::empty());
            assert(m.finished_names() =~= Seq::<Seq<char>>::empty());
        }
        m
    }

    fn find_running(&self, name: &String) -> (r: Option<usize>)
        ensures
            match r {
                Some(i) => i < self.running_names().len() && self.running_names()[i as int]
                    == name@,
                None => !self.is_running(name@),
            },
    {
        let n = self.running.len();
        let mut i: usize = 0;
        while i < n
            invariant
                n == self.running@.len(),
                i <= n,
                forall|k: int| 0 <= k < i ==> self.running_names()[k] != name@,
            decreases n - i,
        {
            if self.running[i].config.name == *name {
                return Some(i);
            }
            i = i + 1;
        }
        None
    }

    fn find_finished(&self, name: &String) -> (r: Option<usize>)
        ensures
            match r {
                Some(i) => i < self.finished_names().len() && self.finished_names()[i as int]
                    == name@,
                None => !self.is_finished(name@),
            },
    {
        let n = self.finished.len();
        let mut i: usize = 0;
        while i < n
            invariant
                n == self.finished@.len(),
                i <= n,
                forall|k: int| 0 <= k < i ==> self.finished_names()[k] != name@,
            decreases n - i,
        {
            if self.finished[i].name == *name {
                return Some(i);
            }
            i = i + 1;
        }
        None
    }

    /// Record a service whose process was just spawned: it enters the
    /// running table with a restart count of zero.
    pub fn start_service(&mut self, config: ServiceConfig)
        requires
            old(self).wf(),
            !old(self).is_running(config.name@),
            !old(self).is_finished(config.name@),
        ensures
            final(self).wf(),
            final(self).running_names() == old(self).running_names().push(config.name@),
            final(self).finished_names() == old(self).finished_names(),
            final(self).is_running(config.name@),
            final(self).running_config(config.name@) == config,
            final(self).spec_restart_count(config.name@) == 0,
            forall|n: Seq<char>|
                n != config.name@ ==> #[trigger] final(self).is_running(n) == old(self).is_running(
                    n,
                ),
            forall|n: Seq<char>| #[trigger]
                final(self).is_finished(n) == old(self).is_finished(n),
            forall|n: Seq<char>|
                n != config.name@ && old(self).is_running(n) ==> #[trigger] final(self)
                    .running_config(n) == old(self).running_config(n),
            forall|n: Seq<char>|
                n != config.name@ && old(self).is_running(n) ==> #[trigger] final(self)
                    .spec_restart_count(n) == old(self).spec_restart_count(n),
    {
        let ghost name_view = config.name@;
        let ghost old_m = *self;
        self.running.push(RunningEntry { config, restart_count: 0 });
        proof {
            assert(self.running_names() =~= old_m.running_names().push(name_view));
            let len = old_m.running_names().len() as int;
            self.lemma_running_position_is(name_view, len);
            assert forall|n: Seq<char>| n != name_view implies #[trigger] self.is_running(n)
                == old_m.is_running(n) by {
                if old_m.is_running(n) {
                    let j = choose|j: int|
                        0 <= j < old_m.running_names().len() && old_m.running_names()[j] == n;
                    assert(self.running_names()[j] == n);
                }
                if self.is_running(n) {
                    let j = choose|j: int|
                        0 <= j < self.running_names().len() && self.running_names()[j] == n;
                    assert(j < len);
                    assert(old_m.running_names()[j] == n);
                }
            }
            assert forall|n: Seq<char>|
                n != name_view && old_m.is_running(n) implies #[trigger] self.running_config(n)
                == old_m.running_config(n) by {
                let j = choose|j: int|
                    0 <= j < old_m.running_names().len() && old_m.running_names()[j] == n;
                old_m.lemma_running_position_is(n, j);
                self.lemma_running_position_is(n, j);
            }
            assert forall|n: Seq<char>|
                n != name_view && old_m.is_running(n) implies #[trigger] self.spec_restart_count(n)
                == old_m.spec_restart_count(n) by {
                let j = choose|j: int|
                    0 <= j < old_m.running_names().len() && old_m.running_names()[j] == n;
                old_m.lemma_running_position_is(n, j);
                self.lemma_running_position_is(n, j);
            }
        }
    }

    /// Apply the restart decision table to one observed exit. The service,
    /// if tracked, either stays running with its count incremented (the
    /// caller must respawn its process) or moves to the finished table.
    pub fn handle_exit(&mut self, name: &String, exit_success: bool) -> (d: ExitDisposition)
        requires
            old(self).wf(),
        ensures
            final(self).wf(),
            !old(self).is_running(name@) ==> d == ExitDisposition::NotTracked && *final(self)
                == *old(self),
            old(self).is_running(name@) ==> {
                let c = old(self).running_config(name@);
                let k = old(self).spec_restart_count(name@);
                &&& d == spec_exit_disposition(c.restart, c.service_type, exit_success, k)
                &&& (d == ExitDisposition::Respawned ==> {
                    &&& final(self).running_names() == old(self).running_names()
                    &&& final(self).finished_names() == old(self).finished_names()
                    &&& final(self).is_running(name@)
                    &&& final(self).running_config(name@) == c
                    &&& final(self).spec_restart_count(name@) == k + 1
                })
                &&& (d != ExitDisposition::Respawned ==> {
                    &&& final(self).running_names() == old(self).running_names().remove(
                        old(self).running_position(name@),
                    )
                    &&& final(self).finished_names() == old(self).finished_names().push(name@)
                    &&& !final(self).is_running(name@)
                    &&& final(self).is_finished(name@)
                })
            },
            forall|n: Seq<char>|
                n != name@ ==> #[trigger] final(self).is_running(n) == old(self).is_running(n),
            forall|n: Seq<char>|
                n != name@ ==> #[trigger] final(self).is_finished(n) == old(self).is_finished(n),
            forall|n: Seq<char>|
                n != name@ && old(self).is_running(n) ==> #[trigger] final(self).running_config(n)
                    == old(self).running_config(n),
            forall|n: Seq<char>|
                n != name@ && old(self).is_running(n) ==> #[trigger] final(self).spec_restart_count(
                    n,
                ) == old(self).spec_restart_count(n),
    {
        let found = self.find_running(name);
        match found {
            None => {
                proof {
                    assert(!old(self).is_running(name@));
                    assert(*self == *old(self));
                }
                ExitDisposition::NotTracked
            },
            Some(i) => {
                let ghost old_m = *self;
                proof {
                    old_m.lemma_running_position_is(name@, i as int);
                }
                let policy = self.running[i].config.restart;
                let service_type = self.running[i].config.service_type;
                let count = self.running[i].restart_count;
                let restart = should_restart(policy, service_type, exit_success);
                if restart && count < MAX_RESTART_COUNT {
                    let entry = self.running.remove(i);
                    let new_entry = RunningEntry {
                        config: entry.config,
                        restart_count: count + 1,
                    };
                    self.running.insert(i, new_entry);
                    proof {
                        assert(self.running_names() =~= old_m.running_names());
                        assert(self.finished@ == old_m.finished@);
                        assert forall|j: int|
                            0 <= j < self.running@.len() implies self.running@[j].restart_count
                            <= MAX_RESTART_COUNT by {
                            if j != i {
                                assert(self.running@[j] == old_m.running@[j]);
                            }
                        }
                        assert(self.running_names() == old_m.running_names());
                        assert(self.finished_names() == old_m.finished_names());
                        assert(names_distinct(self.running_names()));
                        assert(names_distinct(self.finished_names()));
                        assert forall|n: Seq<char>| self.is_running(n) implies !self.is_finished(
                            n,
                        ) by {
                            assert(old_m.is_running(n));
                        }
                        assert(self.wf());
                        self.lemma_running_position_is(name@, i as int);
                        assert forall|n: Seq<char>|
                            n != name@ && old_m.is_running(n) implies #[trigger] self
                            .running_config(n) == old_m.running_config(n) && self
                            .spec_restart_count(n) == old_m.spec_restart_count(n) by {
                            let j = choose|j: int|
                                0 <= j < old_m.running_names().len() && old_m.running_names()[j]
                                    == n;
                            old_m.lemma_running_position_is(n, j);
                            self.lemma_running_position_is(n, j);
                            assert(self.running@[j] == old_m.running@[j]);
                        }
                    }
                    ExitDisposition::Respawned
                } else {
                    let entry = self.running.remove(i);
                    self.finished.push(entry.config);
                    proof {
                        self.lemma_after_retire(old_m, name@, i as int);
                    }
                    ExitDisposition::Finished { restarts_exhausted: restart }
                }
            },
        }
    }

    /// After removing running entry `i`, every other running entry keeps
    /// its definition and restart count.
    proof fn lemma_retire_entry_frame(self, prev: Self, n: Seq<char>, i: int, m: Seq<char>)
        requires
            prev.wf(),
            0 <= i < prev.running@.len(),
            prev.running_names()[i] == n,
            self.running@ == prev.running@.remove(i),
            m != n,
            prev.is_running(m),
        ensures
            self.running_config(m) == prev.running_config(m),
            self.spec_restart_count(m) == prev.spec_restart_count(m),
    {
        assert(self.running_names() =~= prev.running_names().remove(i));
        assert(names_distinct(self.running_names())) by {
            assert forall|a: int, b: int|
                0 <= a < b < self.running_names().len() implies self.running_names()[a]
                != self.running_names()[b] by {
                let pa = if a < i { a } else { a + 1 };
                let pb = if b < i { b } else { b + 1 };
                assert(self.running_names()[a] == prev.running_names()[pa]);
                assert(self.running_names()[b] == prev.running_names()[pb]);
            }
        }
        let j = choose|j: int|
            0 <= j < prev.running_names().len() && prev.running_names()[j] == m;
        prev.lemma_running_position_is(m, j);
        if j < i {
            assert(self.running_names()[j] == m);
            self.lemma_running_position_is(m, j);
            assert(self.running@[j] == prev.running@[j]);
        } else {
            assert(self.running_names()[j - 1] == m);
            self.lemma_running_position_is(m, j - 1);
            assert(self.running@[j - 1] == prev.running@[j]);
        }
    }

    /// Common proof for moving running entry `i` (named `n`) to finished.
    proof fn lemma_after_retire(self, prev: Self, n: Seq<char>, i: int)
        requires
            prev.wf(),
            0 <= i < prev.running@.len(),
            prev.running_names()[i] == n,
            self.running@ == prev.running@.remove(i),
            self.finished@ == prev.finished@.push(prev.running@[i].config),
        ensures
            self.wf(),
            self.running_names() == prev.running_names().remove(i),
            self.finished_names() == prev.finished_names().push(n),
            !self.is_running(n),
            self.is_finished(n),
            forall|m: Seq<char>|
                m != n ==> #[trigger] self.is_running(m) == prev.is_running(m),
            forall|m: Seq<char>|
                m != n ==> #[trigger] self.is_finished(m) == prev.is_finished(m),
            forall|m: Seq<char>|
                m != n && prev.is_running(m) ==> #[trigger] self.running_config(m)
                    == prev.running_config(m),
            forall|m: Seq<char>|
                m != n && prev.is_running(m) ==> #[trigger] self.spec_restart_count(m)
                    == prev.spec_restart_count(m),
    {
        prev.lemma_running_position_is(n, i);
        assert(self.running_names() =~= prev.running_names().remove(i));
        assert(self.finished_names() =~= prev.finished_names().push(n));
        // n left the running table
        assert(!self.is_running(n)) by {
            if self.is_running(n) {
                let j = choose|j: int|
                    0 <= j < self.running_names().len() && self.running_names()[j] == n;
                if j < i {
                    assert(prev.running_names()[j] == n);
                } else {
                    assert(prev.running_names()[j + 1] == n);
                }
            }
        }
        assert(self.finished_names()[self.finished_names().len() - 1] == n);
        assert(self.is_finished(n));
        // frames
        assert forall|m: Seq<char>| m != n implies #[trigger] self.is_running(m)
            == prev.is_running(m) by {
            if prev.is_running(m) {
                let j = choose|j: int|
                    0 <= j < prev.running_names().len() && prev.running_names()[j] == m;
                if j < i {
                    assert(self.running_names()[j] == m);
                } else {
                    assert(self.running_names()[j - 1] == m);
                }
            }
            if self.is_running(m) {
                let j = choose|j: int|
                    0 <= j < self.running_names().len() && self.running_names()[j] == m;
                if j < i {
                    assert(prev.running_names()[j] == m);
                } else {
                    assert(prev.running_names()[j + 1] == m);
                }
            }
        }
        assert forall|m: Seq<char>| m != n implies #[trigger] self.is_finished(m)
            == prev.is_finished(m) by {
            if prev.is_finished(m) {
                let j = choose|j: int|
                    0 <= j < prev.finished_names().len() && prev.finished_names()[j] == m;
                assert(self.finished_names()[j] == m);
            }
            if self.is_finished(m) {
                let j = choose|j: int|
                    0 <= j < self.finished_names().len() && self.finished_names()[j] == m;
                assert(j < prev.finished_names().len());
                assert(prev.finished_names()[j] == m);
            }
        }
        assert forall|m: Seq<char>|
            m != n && prev.is_running(m) implies #[trigger] self.running_config(m)
            == prev.running_config(m) by {
            self.lemma_retire_entry_frame(prev, n, i, m);
        }
        assert forall|m: Seq<char>|
            m != n && prev.is_running(m) implies #[trigger] self.spec_restart_count(m)
            == prev.spec_restart_count(m) by {
            self.lemma_retire_entry_frame(prev, n, i, m);
        }
        // wf
        assert(names_distinct(self.running_names())) by {
            assert forall|a: int, b: int|
                0 <= a < b < self.running_names().len() implies self.running_names()[a]
                != self.running_names()[b] by {
                let pa = if a < i { a } else { a + 1 };
                let pb = if b < i { b } else { b + 1 };
                assert(self.running_names()[a] == prev.running_names()[pa]);
                assert(self.running_names()[b] == prev.running_names()[pb]);
            }
        }
        assert(names_distinct(self.finished_names())) by {
            assert forall|a: int, b: int|
                0 <= a < b < self.finished_names().len() implies self.finished_names()[a]
                != self.finished_names()[b] by {
                if b < prev.finished_names().len() {
                } else {
                    assert(self.finished_names()[b] == n);
                    assert(prev.finished_names()[a] == self.finished_names()[a]);
                    if self.finished_names()[a] == n {
                        assert(prev.is_finished(n));
                        assert(prev.is_running(n));
                    }
                }
            }
        }
        assert forall|m: Seq<char>| #[trigger] self.is_running(m) implies !self.is_finished(
            m,
        ) by {
            assert(m != n);
            assert(prev.is_running(m));
        }
    }

    /// If the service is running, request its termination: it moves to the
    /// finished table whatever its restart policy. Returns whether it was
    /// running (the caller must then terminate and await the process).
    pub fn stop_service(&mut self, name: &String) -> (was_running: bool)
        requires
            old(self).wf(),
        ensures
            final(self).wf(),
            was_running == old(self).is_running(name@),
            !final(self).is_running(name@),
            old(self).is_running(name@) ==> {
                &&& final(self).running_names() == old(self).running_names().remove(
                    old(self).running_position(name@),
                )
                &&& final(self).finished_names() == old(self).finished_names().push(name@)
                &&& final(self).is_finished(name@)
            },
            !old(self).is_running(name@) ==> *final(self) == *old(self),
            forall|n: Seq<char>|
                n != name@ ==> #[trigger] final(self).is_running(n) == old(self).is_running(n),
            forall|n: Seq<char>|
                n != name@ ==> #[trigger] final(self).is_finished(n) == old(self).is_finished(n),
            forall|n: Seq<char>|
                n != name@ && old(self).is_running(n) ==> #[trigger] final(self).running_config(n)
                    == old(self).running_config(n),
            forall|n: Seq<char>|
                n != name@ && old(self).is_running(n) ==> #[trigger] final(self).spec_restart_count(
                    n,
                ) == old(self).spec_restart_count(n),
    {
        let found = self.find_running(name);
        match found {
            None => false,
            Some(i) => {
                let ghost old_m = *self;
                proof {
                    old_m.lemma_running_position_is(name@, i as int);
                }
                let entry = self.running.remove(i);
                self.finished.push(entry.config);
                proof {
                    self.lemma_after_retire(old_m, name@, i as int);
                }
                true
            },
        }
    }

    /// Apply a batch of observed exits, one service each, and return the
    /// names that were tracked as running, in event order. A respawned
    /// service is still running afterwards (with its count incremented);
    /// every other tracked exit moved the service to finished.
    #[verifier::loop_isolation(false)]
    pub fn reap(&mut self, exits: &Vec<ExitEvent>) -> (exited: Vec<String>)
        requires
            old(self).wf(),
            forall|a: int, b: int|
                0 <= a < b < exits@.len() ==> exits@[a].name@ != exits@[b].name@,
        ensures
            final(self).wf(),
            exited@.map_values(|s: String| s@) == exits@.filter(
                |e: ExitEvent| old(self).is_running(e.name@),
            ).map_values(|e: ExitEvent| e.name@),
            forall|k: int|
                0 <= k < exits@.len() ==> exit_applied(*old(self), *final(self), #[trigger] exits@[k]),
            forall|n: Seq<char>|
                !exit_name_views(exits@).contains(n) ==> untouched(*old(self), *final(self), n),
    {
        let ghost m0 = *self;
        let ghost pred = |e: ExitEvent| m0.is_running(e.name@);
        let n = exits.len();
        let mut exited: Vec<String> = Vec::new();
        let mut i: usize = 0;
        while i < n
            invariant
                i <= n,
                self.wf(),
                forall|k: int| 0 <= k < i ==> exit_applied(m0, *self, #[trigger] exits@[k]),
                forall|n2: Seq<char>|
                    !exit_name_views(exits@.subrange(0, i as int)).contains(n2) ==> untouched(
                        m0,
                        *self,
                        n2,
                    ),
                exited@.map_values(|s: String| s@) == exits@.subrange(0, i as int).filter(
                    pred,
                ).map_values(|e: ExitEvent| e.name@),
            decreases n - i,
        {
            let ghost pre = *self;
            let ghost e = exits@[i as int];
            proof {
                assert(!exit_name_views(exits@.subrange(0, i as int)).contains(e.name@)) by {
                    if exit_name_views(exits@.subrange(0, i as int)).contains(e.name@) {
                        let k = choose|k: int|
                            0 <= k < i && exit_name_views(exits@.subrange(0, i as int))[k]
                                == e.name@;
                        assert(exits@[k].name@ == exits@[i as int].name@);
                    }
                }
                assert(untouched(m0, pre, e.name@));
            }
            let success = exits[i].success;
            let d = self.handle_exit(&exits[i].name, success);
            let ghost ex_pre = exited@;
            match d {
                ExitDisposition::NotTracked => (),
                _ => {
                    exited.push(exits[i].name.clone());
                },
            }
            proof {
                let f = |s: String| s@;
                let g = |e2: ExitEvent| e2.name@;
                let prefix = exits@.subrange(0, i as int);
                let prefix1 = exits@.subrange(0, i as int + 1);
                assert(exit_applied(m0, *self, e));
                assert forall|k: int| 0 <= k < i + 1 implies exit_applied(
                    m0,
                    *self,
                    #[trigger] exits@[k],
                ) by {
                    if k < i {
                        assert(exits@[k].name@ != e.name@);
                        assert(exit_applied(m0, pre, exits@[k]));
                    }
                }
                assert forall|n2: Seq<char>|
                    !exit_name_views(prefix1).contains(n2) implies untouched(m0, *self, n2) by {
                    assert(exit_name_views(prefix1)[i as int] == e.name@);
                    assert(n2 != e.name@);
                    assert(!exit_name_views(prefix).contains(n2)) by {
                        if exit_name_views(prefix).contains(n2) {
                            let k = choose|k: int|
                                0 <= k < i && exit_name_views(prefix)[k] == n2;
                            assert(exit_name_views(prefix1)[k] == n2);
                        }
                    }
                    assert(untouched(m0, pre, n2));
                    assert(self.is_running(n2) == pre.is_running(n2));
                    assert(self.is_finished(n2) == pre.is_finished(n2));
                    if m0.is_running(n2) {
                        assert(self.running_config(n2) == pre.running_config(n2));
                        assert(self.spec_restart_count(n2) == pre.spec_restart_count(n2));
                    }
                }
                // the reported names follow the filtered prefix
                assert(prefix1 =~= prefix.push(e));
                reveal(Seq::filter);
                assert(prefix.push(e).drop_last() =~= prefix);
                assert(prefix1.filter(pred) == prefix.push(e).filter(pred));
                if pre.is_running(e.name@) {
                    assert(pred(e));
                    assert(prefix1.filter(pred) == prefix.filter(pred).push(e));
                    assert(exited@ == ex_pre.push(exits@[i as int].name));
                    assert(exited@.map_values(f) =~= ex_pre.map_values(f).push(e.name@));
                    assert(prefix.filter(pred).push(e).map_values(g) =~= prefix.filter(
                        pred,
                    ).map_values(g).push(g(e)));
                } else {
                    assert(!pred(e));
                    assert(prefix1.filter(pred) == prefix.filter(pred));
                    assert(d == ExitDisposition::NotTracked);
                    assert(exited@ == ex_pre);
                }
                assert(exited@.map_values(f) == prefix1.filter(pred).map_values(g));
            }
            i = i + 1;
        }
        proof {
            assert(exits@.subrange(0, n as int) =~= exits@);
            assert forall|n2: Seq<char>|
                !exit_name_views(exits@).contains(n2) implies untouched(m0, *self, n2) by {}
        }
        exited
    }

    /// Move every running service to finished, in table order, and return
    /// the stopped names. The caller must terminate the processes.
    #[verifier::loop_isolation(false)]
    pub fn stop_all(&mut self) -> (stopped: Vec<String>)
        requires
            old(self).wf(),
        ensures
            final(self).wf(),
            final(self).running_names().len() == 0,
            forall|n: Seq<char>| !(#[trigger] final(self).is_running(n)),
            stopped@.map_values(|s: String| s@) == old(self).running_names(),
            final(self).finished_names() == old(self).finished_names() + old(
                self,
            ).running_names(),
            forall|n: Seq<char>| #[trigger]
                final(self).is_finished(n) == (old(self).is_finished(n) || old(self).is_running(
                    n,
                )),
    {
        let ghost m0 = *self;
        let mut stopped: Vec<String> = Vec::new();
        while self.running.len() > 0
            invariant
                self.wf(),
                stopped@.len() <= m0.running_names().len(),
                self.running_names() == m0.running_names().subrange(
                    stopped@.len() as int,
                    m0.running_names().len() as int,
                ),
                self.finished_names() == m0.finished_names() + m0.running_names().subrange(
                    0,
                    stopped@.len() as int,
                ),
                stopped@.map_values(|s: String| s@) == m0.running_names().subrange(
                    0,
                    stopped@.len() as int,
                ),
            decreases self.running@.len(),
        {
            let ghost pre = *self;
            let ghost k = stopped@.len() as int;
            let name = self.running[0].config.name.clone();
            proof {
                pre.lemma_running_position_is(name@, 0);
            }
            let _stopped = self.stop_service(&name);
            stopped.push(name);
            proof {
                assert(self.running_names() =~= m0.running_names().subrange(
                    k + 1,
                    m0.running_names().len() as int,
                ));
                assert(self.finished_names() =~= m0.finished_names() + m0.running_names()
                    .subrange(0, k + 1));
                assert(stopped@.map_values(|s: String| s@) =~= m0.running_names().subrange(
                    0,
                    k + 1,
                ));
            }
        }
        proof {
            assert(self.running_names() =~= Seq::<Seq<char>>::empty());
            assert(stopped@.map_values(|s: String| s@) =~= m0.running_names());
            assert(self.finished_names() =~= m0.finished_names() + m0.running_names());
            assert forall|n: Seq<char>| #[trigger]
                self.is_finished(n) == (m0.is_finished(n) || m0.is_running(n)) by {
                let flen = m0.finished_names().len() as int;
                let rlen = m0.running_names().len() as int;
                if self.is_finished(n) {
                    let j = choose|j: int|
                        0 <= j < self.finished_names().len() && self.finished_names()[j] == n;
                    if j < flen {
                        assert(m0.finished_names()[j] == n);
                    } else {
                        assert(m0.running_names()[j - flen] == n);
                    }
                }
                if m0.is_finished(n) {
                    let j = choose|j: int|
                        0 <= j < m0.finished_names().len() && m0.finished_names()[j] == n;
                    assert(self.finished_names()[j] == n);
                }
                if m0.is_running(n) {
                    let j = choose|j: int|
                        0 <= j < m0.running_names().len() && m0.running_names()[j] == n;
                    assert(self.finished_names()[flen + j] == n);
                }
            }
        }
        stopped
    }

    /// The derived lifecycle state of a name.
    pub fn state(&self, name: &String) -> (s: ServiceState)
        ensures
            s == self.spec_state(name@),
    {
        if self.find_running(name).is_some() {
            ServiceState::Running
        } else if self.find_finished(name).is_some() {
            ServiceState::Finished
        } else {
            ServiceState::Stopped
        }
    }

    /// How often the running service named `name` has been respawned, or
    /// nothing if no such service is running.
    pub fn tracked_restart_count(&self, name: &String) -> (r: Option<u32>)
        requires
            self.wf(),
        ensures
            match r {
                Some(c) => self.is_running(name@) && c == self.spec_restart_count(name@),
                None => !self.is_running(name@),
            },
    {
        match self.find_running(name) {
            Some(i) => {
                proof {
                    self.lemma_running_position_is(name@, i as int);
                }
                Some(self.running[i].restart_count)
            },
            None => None,
        }
    }

    /// How many services are currently tracked as running.
    pub fn running_count(&self) -> (r: usize)
        ensures
            r == self.running_names().len(),
    {
        self.running.len()
    }

    /// The names of the running services, in table order.
    pub fn running_service_names(&self) -> (r: Vec<String>)
        ensures
            r@.len() == self.running_names().len(),
            forall|i: int| 0 <= i < r@.len() ==> r@[i]@ == self.running_names()[i],
    {
        let n = self.running.len();
        let mut r: Vec<String> = Vec::new();
        let mut i: usize = 0;
        while i < n
            invariant
                n == self.running@.len(),
                i <= n,
                r@.len() == i,
                forall|k: int| 0 <= k < i ==> r@[k]@ == self.running_names()[k],
            decreases n - i,
        {
            r.push(self.running[i].config.name.clone());
            i = i + 1;
        }
        r
    }
}

} // verus!
