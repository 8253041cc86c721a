//! Service definitions: what to run, how to restart it, and what it depends on.

use vstd::prelude::*;

verus! {

/// Rule governing whether a service's process is relaunched after it exits.
#[derive(Clone, Copy, Debug, PartialEq, Eq, Structural)]
pub enum RestartPolicy {
    Always,
    OnFailure,
    Never,
}

impl Default for RestartPolicy {
    /// A service that does not choose a policy is restarted on failure.
    fn default() -> (r: Self)
        ensures
            r == RestartPolicy::OnFailure,
    {
        RestartPolicy::OnFailure
    }
}

/// Whether a service is long-running or runs once to completion.
#[derive(Clone, Copy, Debug, PartialEq, Eq, Structural)]
pub enum ServiceType {
    Simple,
    Oneshot,
}

impl Default for ServiceType {
    fn default() -> (r: Self)
        ensures
            r == ServiceType::Simple,
    {
        ServiceType::Simple
    }
}

/// One service definition, as produced by the configuration loader.
///
/// `name` is the unique key of the service; every entry of `depends_on`
/// must name another service of the same configuration set. `environment`
/// is a list of key/value pairs with unique keys.
#[derive(Debug, Clone)]
pub struct ServiceConfig {
    pub name: String,
    pub exec_path: String,
    pub args: Vec<String>,
    pub depends_on: Vec<String>,
    pub restart: RestartPolicy,
    pub service_type: ServiceType,
    pub environment: Vec<(String, String)>,
}

impl ServiceConfig {
    /// The dependency names of this service, as sequences of characters.
    pub open spec fn dep_views(self) -> Seq<Seq<char>> {
        self.depends_on@.map_values(|d: String| d@)
    }

    /// The environment keys of this service, as sequences of characters.
    pub open spec fn env_keys(self) -> Seq<Seq<char>> {
        self.environment@.map_values(|p: (String, String)| p.0@)
    }

    /// A well-formed definition: the name is non-empty, the dependency
    /// names are pairwise distinct, and the environment keys are unique.
    pub open spec fn wf(self) -> bool {
        &&& self.name@.len() > 0
        &&& forall|i: int, j: int|
            0 <= i < j < self.dep_views().len() ==> self.dep_views()[i] != self.dep_views()[j]
        &&& forall|i: int, j: int|
            0 <= i < j < self.env_keys().len() ==> self.env_keys()[i] != self.env_keys()[j]
    }
}

/// The names of a configuration set, in definition order.
pub open spec fn config_names(ss: Seq<ServiceConfig>) -> Seq<Seq<char>> {
    ss.map_values(|s: ServiceConfig| s.name@)
}

/// Service names are pairwise distinct across the whole configuration set.
pub open spec fn distinct_names(ss: Seq<ServiceConfig>) -> bool {
    forall|i: int, j: int| 0 <= i < j < ss.len() ==> ss[i].name@ != ss[j].name@
}

/// Some service of the set is named `n`.
pub open spec fn knows_name(ss: Seq<ServiceConfig>, n: Seq<char>) -> bool {
    exists|i: int| 0 <= i < ss.len() && ss[i].name@ == n
}

} // verus!
