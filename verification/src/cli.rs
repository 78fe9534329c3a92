use vstd::prelude::*;

verus! {

/// The command line: which target to build, how many jobs at once, which build file,
/// whether to only show commands, whether to show their output.
#[derive(Debug)]
pub struct Args {
    /// Target to build (`all` when absent).
    pub target: Option<String>,
    /// Number of parallel jobs (the number of CPUs when absent).
    pub jobs: Option<usize>,
    /// Path of the build file.
    pub file: String,
    /// Print commands without executing them.
    pub dry_run: bool,
    /// Show command output.
    pub verbose: bool,
}

/// `num_cpus::get`: the number of logical CPUs this process may use. Its documentation
/// promises at least one; the count itself depends on the machine and is not stated.
#[verifier::external_body]
fn cpu_count() -> (n: usize)
    ensures
        n >= 1,
{
    num_cpus::get()
}

impl Args {
    /// The number of jobs to run at once on this machine: the one asked for, else the
    /// number of CPUs; at least one.
    pub fn jobs_to_run(&self) -> (j: usize)
        ensures
            j >= 1,
            self.jobs matches Some(n) ==> j == if n > 1 { n } else { 1 },
    {
        let cpus = cpu_count();
        self.effective_jobs(cpus)
    }

    /// The number of jobs to run at once: the one asked for, else `cpus`; at least one.
    pub fn effective_jobs(&self, cpus: usize) -> (j: usize)
        ensures
            j == (match self.jobs {
                Some(n) => if n > 1 { n } else { 1 },
                None => if cpus > 1 { cpus } else { 1 },
            }),
    {
        let n = match self.jobs {
            Some(n) => n,
            None => cpus,
        };
        if n > 1 { n } else { 1 }
    }

    /// The target to build: the one asked for, else `all`.
    pub fn target_name(&self) -> (t: String)
        ensures
            t@ == (match self.target {
                Some(name) => name@,
                None => "all"@,
            }),
    {
        match &self.target {
            Some(name) => name.clone(),
            None => String::from_str("all"),
        }
    }
}

} // verus!
