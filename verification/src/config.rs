//! Desired-state configuration: sandbox and container configurations, the
//! per-pod grouping, and the target (the desired set of pods).

use crate::strmap::StrMap;
use vstd::prelude::*;

verus! {

/// Optional resource limits attached to a pod sandbox. The core never reads
/// them; they ride along to the runtime adapter.
#[derive(Clone, Copy, Debug, PartialEq, Eq, Structural)]
pub struct ResourceLimits {
    pub cpu_period: i64,
    pub cpu_quota: i64,
    pub cpu_shares: i64,
    pub memory_limit_bytes: i64,
    pub oom_score_adj: i64,
}

/// Configuration of a pod sandbox.
pub struct SandBoxConfig {
    pub name: String,
    pub uid: String,
    pub resources: Option<ResourceLimits>,
    pub namespace: String,
}

#[verifier::ext_equal]
pub struct SandBoxConfigV {
    pub name: Seq<char>,
    pub uid: Seq<char>,
    pub resources: Option<ResourceLimits>,
    pub namespace: Seq<char>,
}

impl View for SandBoxConfig {
    type V = SandBoxConfigV;

    open spec fn view(&self) -> SandBoxConfigV {
        SandBoxConfigV {
            name: self.name@,
            uid: self.uid@,
            resources: self.resources,
            namespace: self.namespace@,
        }
    }
}

impl Clone for SandBoxConfig {
    fn clone(&self) -> (r: Self)
        ensures
            r@ == self@,
    {
        SandBoxConfig {
            name: self.name.clone(),
            uid: self.uid.clone(),
            resources: self.resources,
            namespace: self.namespace.clone(),
        }
    }
}

/// Configuration of a single container within a pod.
pub struct ContainerConfig {
    pub name: String,
    pub image: String,
    pub command: String,
    pub args: Vec<String>,
    pub working_dir: String,
    pub envs: Vec<(String, String)>,
    pub privileged: bool,
}

#[verifier::ext_equal]
pub struct ContainerConfigV {
    pub name: Seq<char>,
    pub image: Seq<char>,
    pub command: Seq<char>,
    pub args: Seq<Seq<char>>,
    pub working_dir: Seq<char>,
    pub envs: Seq<(Seq<char>, Seq<char>)>,
    pub privileged: bool,
}

impl View for ContainerConfig {
    type V = ContainerConfigV;

    open spec fn view(&self) -> ContainerConfigV {
        ContainerConfigV {
            name: self.name@,
            image: self.image@,
            command: self.command@,
            args: self.args.deep_view(),
            working_dir: self.working_dir@,
            envs: self.envs.deep_view(),
            privileged: self.privileged,
        }
    }
}

fn clone_strings(v: &Vec<String>) -> (r: Vec<String>)
    ensures
        r.deep_view() == v.deep_view(),
{
    let n = v.len();
    let mut r: Vec<String> = Vec::new();
    let mut i: usize = 0;
    while i < n
        invariant
            i <= n,
            n == v@.len(),
            r.deep_view() =~= v.deep_view().take(i as int),
        decreases n - i,
    {
        let ghost prev = r.deep_view();
        let x = v[i].clone();
        r.push(x);
        proof {
            assert(forall|j: int| 0 <= j < prev.len() ==> r.deep_view()[j] == prev[j]);
            assert(r.deep_view()[prev.len() as int] == v.deep_view()[i as int]);
        }
        i = i + 1;
    }
    proof {
        assert(v.deep_view().take(n as int) =~= v.deep_view());
    }
    r
}

fn clone_pairs(v: &Vec<(String, String)>) -> (r: Vec<(String, String)>)
    ensures
        r.deep_view() == v.deep_view(),
{
    let n = v.len();
    let mut r: Vec<(String, String)> = Vec::new();
    let mut i: usize = 0;
    while i < n
        invariant
            i <= n,
            n == v@.len(),
            r.deep_view() =~= v.deep_view().take(i as int),
        decreases n - i,
    {
        let ghost prev = r.deep_view();
        let p = &v[i];
        let x = (p.0.clone(), p.1.clone());
        r.push(x);
        proof {
            assert(forall|j: int| 0 <= j < prev.len() ==> r.deep_view()[j] == prev[j]);
            assert(r.deep_view()[prev.len() as int] == v.deep_view()[i as int]);
        }
        i = i + 1;
    }
    proof {
        assert(v.deep_view().take(n as int) =~= v.deep_view());
    }
    r
}

impl Clone for ContainerConfig {
    fn clone(&self) -> (r: Self)
        ensures
            r@ == self@,
    {
        ContainerConfig {
            name: self.name.clone(),
            image: self.image.clone(),
            command: self.command.clone(),
            args: clone_strings(&self.args),
            working_dir: self.working_dir.clone(),
            envs: clone_pairs(&self.envs),
            privileged: self.privileged,
        }
    }
}

/// Desired shape of one pod: its sandbox configuration and its containers,
/// keyed by container name.
pub struct PodConfig {
    pub config: SandBoxConfig,
    pub containers: StrMap<ContainerConfig>,
}

#[verifier::ext_equal]
pub struct PodConfigV {
    pub config: SandBoxConfigV,
    pub containers: Map<Seq<char>, ContainerConfigV>,
}

impl View for PodConfig {
    type V = PodConfigV;

    open spec fn view(&self) -> PodConfigV {
        PodConfigV { config: self.config@, containers: self.containers@ }
    }
}

/// The intended state of the node: desired pods keyed by UID.
pub struct Target {
    pub pods: StrMap<PodConfig>,
}

impl View for Target {
    type V = Map<Seq<char>, PodConfigV>;

    open spec fn view(&self) -> Map<Seq<char>, PodConfigV> {
        self.pods@
    }
}

impl Target {
    pub fn new() -> (r: Target)
        ensures
            r@ == Map::<Seq<char>, PodConfigV>::empty(),
    {
        Target { pods: StrMap::new() }
    }
}

} // verus!
