use vstd::prelude::*;
use std::collections::VecDeque;

use crate::cache::{Cache, TargetState};
use crate::collections::{StrMap, StrSet, lemma_dom_len};
use crate::expand::push_str;
use crate::fingerprint::FingerprintResult;
use crate::model::{
    Project,
    Target,
    acyclic,
    clean,
    dep_closed,
    deps_of,
    lemma_closed_path,
    lemma_edge,
    lemma_path_single,
    lemma_reaches_plus_step,
    lemma_reaches_trans,
    on_cycle,
    reach_set,
    reaches,
    reaches_plus,
};
use crate::progress::Progress;

verus! {

/// Why a build could not go on.
#[derive(Debug, PartialEq, Eq)]
pub enum BuildError {
    /// A name that no rule defines.
    UnknownTarget { name: String },
    /// The dependencies of a target lead back to it.
    DependencyCycle { name: String },
    /// Nothing is running and nothing can start, yet targets remain.
    Deadlock,
}

/// How a build error is reported.
pub open spec fn build_error_text(e: BuildError) -> Seq<char> {
    match e {
        BuildError::UnknownTarget { name } => "unknown target '"@ + name@ + "'"@,
        BuildError::DependencyCycle { name } => "dependency cycle detected at target '"@ + name@ + "'"@,
        BuildError::Deadlock => "build scheduler reached a deadlock"@,
    }
}

impl BuildError {
    /// The message this error is reported with.
    pub fn message(&self) -> (m: String)
        ensures
            m@ == build_error_text(*self),
    {
        let mut m = String::new();
        match self {
            BuildError::UnknownTarget { name } => {
                push_str(&mut m, "unknown target '");
                push_str(&mut m, name.as_str());
                push_str(&mut m, "'");
            },
            BuildError::DependencyCycle { name } => {
                push_str(&mut m, "dependency cycle detected at target '");
                push_str(&mut m, name.as_str());
                push_str(&mut m, "'");
            },
            BuildError::Deadlock => {
                push_str(&mut m, "build scheduler reached a deadlock");
            },
        }
        assert(m@ =~= build_error_text(*self));
        m
    }
}

/// Runs the targets of a project in dependency order.
pub struct Executor {
    project: Project,
    root: String,
    jobs: usize,
    dry_run: bool,
    verbose: bool,
    total_commands: usize,
    finished_commands: usize,
    cache: Cache,
    fingerprints: StrMap<String>,
    progress: Option<Progress>,
}

impl Executor {
    pub closed spec fn graph(&self) -> Map<Seq<char>, Target> {
        self.project.targets@
    }

    /// Depth-first collection of `name` and everything it depends on; `visiting` holds
    /// the names on the way to it.
    fn collect_target_recursive(&self, name: &String, targets: &mut StrSet, visiting: &mut StrSet) -> (r: Result<(), BuildError>)
        requires
            self.project.targets.wf(),
            old(targets).wf(),
            old(visiting).wf(),
            old(visiting)@.subset_of(self.graph().dom()),
            forall|v: Seq<char>| #[trigger] old(visiting)@.contains(v) ==> reaches_plus(self.graph(), v, name@),
            dep_closed(self.graph(), old(targets)@),
            forall|t: Seq<char>| #[trigger] old(targets)@.contains(t) ==> clean(self.graph(), t),
        ensures
            final(targets).wf(),
            final(visiting).wf(),
            dep_closed(self.graph(), final(targets)@),
            forall|t: Seq<char>| #[trigger] final(targets)@.contains(t) ==> clean(self.graph(), t),
            forall|t: Seq<char>| #[trigger] final(targets)@.contains(t) ==> old(targets)@.contains(t) || reaches(self.graph(), name@, t),
            match r {
                Ok(_) => {
                    &&& final(visiting)@ == old(visiting)@
                    &&& old(targets)@.subset_of(final(targets)@)
                    &&& final(targets)@.contains(name@)
                    &&& final(targets)@ == old(targets)@.union(reach_set(self.graph(), name@))
                },
                Err(BuildError::UnknownTarget { name: n }) => reaches(self.graph(), name@, n@) && !self.graph().contains_key(n@),
                Err(BuildError::DependencyCycle { name: n }) => reaches(self.graph(), name@, n@) && on_cycle(self.graph(), n@),
                Err(BuildError::Deadlock) => false,
            },
        decreases self.project.targets.entries().len() - old(visiting)@.len(),
    {
        let ghost g = self.graph();
        proof {
            lemma_dom_len(self.project.targets.entries());
            vstd::set_lib::lemma_len_subset(old(visiting)@, g.dom());
            lemma_path_single(g, name@);
        }
        if targets.contains(name) {
            proof {
                assert forall|n: Seq<char>| reach_set(g, name@).contains(n) implies #[trigger] targets@.contains(n) by {
                    let p = choose|p: Seq<Seq<char>>| #[trigger] crate::model::is_path(g, p) && p[0] == name@ && p.last() == n;
                    lemma_closed_path(g, targets@, p);
                }
                assert(targets@ =~= old(targets)@.union(reach_set(g, name@)));
            }
            return Ok(());
        }
        if !visiting.insert(name.clone()) {
            return Err(BuildError::DependencyCycle { name: name.clone() });
        }
        let target = match self.project.targets.get(name) {
            Some(t) => t,
            None => {
                return Err(BuildError::UnknownTarget { name: name.clone() });
            },
        };
        proof {
            vstd::set_lib::lemma_len_subset(visiting@, g.dom());
        }
        let mut i: usize = 0;
        while i < target.dependencies.len()
            invariant
                self.project.targets.wf(),
                g == self.graph(),
                g.contains_key(name@),
                *target == g[name@],
                i <= target.dependencies@.len(),
                targets.wf(),
                visiting.wf(),
                visiting@ == old(visiting)@.insert(name@),
                !old(visiting)@.contains(name@),
                visiting@.subset_of(g.dom()),
                visiting@.len() <= self.project.targets.entries().len(),
                visiting@.len() == old(visiting)@.len() + 1,
                forall|v: Seq<char>| #[trigger] old(visiting)@.contains(v) ==> reaches_plus(g, v, name@),
                dep_closed(g, targets@),
                forall|t: Seq<char>| #[trigger] targets@.contains(t) ==> clean(g, t),
                old(targets)@.subset_of(targets@),
                forall|t: Seq<char>| #[trigger] targets@.contains(t) ==> old(targets)@.contains(t) || reaches(g, name@, t),
                forall|j: int| 0 <= j < i ==> targets@.contains(#[trigger] deps_of(g, name@)[j]),
            decreases target.dependencies@.len() - i,
        {
            let dep = &target.dependencies[i];
            let ghost d = dep@;
            assert(deps_of(g, name@)[i as int] == d);
            assert(deps_of(g, name@).contains(d));
            proof {
                lemma_edge(g, name@, d);
            }
            assert forall|v: Seq<char>| #[trigger] visiting@.contains(v) implies reaches_plus(g, v, d) by {
                if v != name@ {
                    lemma_reaches_plus_step(g, v, name@, d);
                }
            }
            let ghost before = targets@;
            match self.collect_target_recursive(dep, targets, visiting) {
                Ok(()) => {},
                Err(e) => {
                    proof {
                        match &e {
                            BuildError::UnknownTarget { name: n } => {
                                lemma_reaches_trans(g, name@, d, n@);
                            },
                            BuildError::DependencyCycle { name: n } => {
                                lemma_reaches_trans(g, name@, d, n@);
                            },
                            BuildError::Deadlock => {},
                        }
                        assert forall|t: Seq<char>| #[trigger] targets@.contains(t) implies old(targets)@.contains(t) || reaches(g, name@, t) by {
                            if !before.contains(t) {
                                lemma_reaches_trans(g, name@, d, t);
                            }
                        }
                    }
                    return Err(e);
                },
            }
            assert forall|t: Seq<char>| #[trigger] targets@.contains(t) implies old(targets)@.contains(t) || reaches(g, name@, t) by {
                if !before.contains(t) {
                    lemma_reaches_trans(g, name@, d, t);
                }
            }
            i = i + 1;
        }
        visiting.remove(name);
        assert(visiting@ =~= old(visiting)@);
        proof {
            assert forall|d: Seq<char>| deps_of(g, name@).contains(d) implies #[trigger] clean(g, d) by {
                let j = choose|j: int| 0 <= j < deps_of(g, name@).len() && deps_of(g, name@)[j] == d;
                assert(targets@.contains(deps_of(g, name@)[j]));
            }
            crate::model::lemma_clean_from_deps(g, name@);
        }
        targets.insert(name.clone());
        assert(dep_closed(g, targets@));
        proof {
            assert forall|n: Seq<char>| reach_set(g, name@).contains(n) implies #[trigger] targets@.contains(n) by {
                let p = choose|p: Seq<Seq<char>>| #[trigger] crate::model::is_path(g, p) && p[0] == name@ && p.last() == n;
                lemma_closed_path(g, targets@, p);
            }
            assert(targets@ =~= old(targets)@.union(reach_set(g, name@)));
        }
        Ok(())
    }

    /// `target` and every target it depends on, directly or not.
    fn collect_targets(&self, target: &String) -> (r: Result<StrSet, BuildError>)
        requires
            self.project.targets.wf(),
        ensures
            match r {
                Ok(s) => {
                    &&& s.wf()
                    &&& s@ == reach_set(self.graph(), target@)
                    &&& dep_closed(self.graph(), s@)
                    &&& self.graph().contains_key(target@)
                    &&& clean(self.graph(), target@)
                },
                Err(BuildError::UnknownTarget { name: n }) => reaches(self.graph(), target@, n@) && !self.graph().contains_key(n@),
                Err(BuildError::DependencyCycle { name: n }) => reaches(self.graph(), target@, n@) && on_cycle(self.graph(), n@),
                Err(BuildError::Deadlock) => false,
            },
    {
        let mut targets = StrSet::new();
        let mut visiting = StrSet::new();
        self.collect_target_recursive(target, &mut targets, &mut visiting)?;
        proof {
            let g = self.graph();
            assert forall|n: Seq<char>| reach_set(g, target@).contains(n) implies #[trigger] targets@.contains(n) by {
                let p = choose|p: Seq<Seq<char>>| #[trigger] crate::model::is_path(g, p) && p[0] == target@ && p.last() == n;
                lemma_closed_path(g, targets@, p);
            }
            assert(targets@ =~= reach_set(g, target@));
        }
        Ok(targets)
    }
}


/// How often `x` occurs in `s`.
pub open spec fn occ(s: Seq<Seq<char>>, x: Seq<char>) -> nat
    decreases s.len(),
{
    if s.len() == 0 {
        0
    } else {
        occ(s.drop_last(), x) + if s.last() == x { 1nat } else { 0nat }
    }
}

/// How many entries of `ds` are in `t` but not (yet) in `c`.
pub open spec fn pending(ds: Seq<Seq<char>>, t: Set<Seq<char>>, c: Set<Seq<char>>) -> nat
    decreases ds.len(),
{
    if ds.len() == 0 {
        0
    } else {
        pending(ds.drop_last(), t, c) + if t.contains(ds.last()) && !c.contains(ds.last()) { 1nat } else { 0nat }
    }
}

/// Every dependency of `n` has completed.
pub open spec fn deps_done(g: Map<Seq<char>, Target>, n: Seq<char>, c: Set<Seq<char>>) -> bool {
    forall|i: int| 0 <= i < deps_of(g, n).len() ==> c.contains(#[trigger] deps_of(g, n)[i])
}

pub proof fn lemma_occ_push(s: Seq<Seq<char>>, x: Seq<char>, n: Seq<char>)
    ensures
        occ(s.push(x), n) == occ(s, n) + if x == n { 1nat } else { 0nat },
{
    assert(s.push(x).drop_last() =~= s);
}

pub proof fn lemma_pending_push(ds: Seq<Seq<char>>, x: Seq<char>, t: Set<Seq<char>>, c: Set<Seq<char>>)
    ensures
        pending(ds.push(x), t, c) == pending(ds, t, c) + if t.contains(x) && !c.contains(x) { 1nat } else { 0nat },
{
    assert(ds.push(x).drop_last() =~= ds);
}

/// Completing `x` settles each of its occurrences.
pub proof fn lemma_pending_complete(ds: Seq<Seq<char>>, x: Seq<char>, t: Set<Seq<char>>, c: Set<Seq<char>>)
    requires
        t.contains(x),
        !c.contains(x),
    ensures
        pending(ds, t, c) == pending(ds, t, c.insert(x)) + occ(ds, x),
    decreases ds.len(),
{
    if ds.len() > 0 {
        lemma_pending_complete(ds.drop_last(), x, t, c);
    }
}

/// Nothing pending means every entry in `t` has completed.
pub proof fn lemma_pending_zero(ds: Seq<Seq<char>>, t: Set<Seq<char>>, c: Set<Seq<char>>)
    requires
        pending(ds, t, c) == 0,
    ensures
        forall|i: int| 0 <= i < ds.len() && t.contains(ds[i]) ==> c.contains(#[trigger] ds[i]),
    decreases ds.len(),
{
    if ds.len() > 0 {
        lemma_pending_zero(ds.drop_last(), t, c);
        assert forall|i: int| 0 <= i < ds.len() && t.contains(ds[i]) implies c.contains(#[trigger] ds[i]) by {
            if i < ds.len() - 1 {
                assert(ds.drop_last()[i] == ds[i]);
            }
        }
    }
}

pub proof fn lemma_occ_le_pending(ds: Seq<Seq<char>>, x: Seq<char>, t: Set<Seq<char>>, c: Set<Seq<char>>)
    requires
        t.contains(x),
        !c.contains(x),
    ensures
        occ(ds, x) <= pending(ds, t, c),
    decreases ds.len(),
{
    if ds.len() > 0 {
        lemma_occ_le_pending(ds.drop_last(), x, t, c);
    }
}

pub proof fn lemma_occ_prefix(s: Seq<Seq<char>>, j: int, n: Seq<char>)
    requires
        0 <= j <= s.len(),
    ensures
        occ(s.subrange(0, j), n) <= occ(s, n),
    decreases s.len() - j,
{
    if j < s.len() {
        lemma_occ_prefix(s, j + 1, n);
        assert(s.subrange(0, j + 1).drop_last() =~= s.subrange(0, j));
    } else {
        assert(s.subrange(0, j) =~= s);
    }
}

/// Targets waiting to be run, in order, as the contracts see them.
pub open spec fn queue_view(q: Seq<String>) -> Seq<Seq<char>> {
    q.map_values(|s: String| s@)
}

/// The state of a build in progress: the targets to build, how many unfinished
/// dependencies each has, who depends on whom, and which targets are ready, running,
/// done.
pub struct Schedule {
    targets: StrSet,
    dependency_count: StrMap<usize>,
    dependents: StrMap<Vec<String>>,
    ready: VecDeque<String>,
    running: StrSet,
    completed: StrSet,
    claimed: Option<String>,
    failed: bool,
    jobs: usize,
    history: Ghost<Seq<Event>>,
}

impl Schedule {
    pub closed spec fn targets(&self) -> Set<Seq<char>> {
        self.targets@
    }

    /// The targets to build, in the order in which they were gathered.
    pub closed spec fn target_order(&self) -> Seq<Seq<char>> {
        self.targets.items()
    }

    pub closed spec fn completed(&self) -> Set<Seq<char>> {
        self.completed@
    }

    pub closed spec fn running(&self) -> Set<Seq<char>> {
        self.running@
    }

    pub closed spec fn ready(&self) -> Seq<Seq<char>> {
        queue_view(self.ready@)
    }

    pub closed spec fn claimed(&self) -> Option<Seq<char>> {
        match self.claimed {
            Some(n) => Some(n@),
            None => None,
        }
    }

    pub closed spec fn failed(&self) -> bool {
        self.failed
    }

    /// How many targets may run at once.
    pub closed spec fn jobs(&self) -> nat {
        self.jobs as nat
    }

    /// What has happened to the targets so far, in order.
    pub closed spec fn history(&self) -> Seq<Event> {
        self.history@
    }

    /// How many unfinished dependencies each target has, as counted.
    pub closed spec fn counts(&self) -> Map<Seq<char>, usize> {
        self.dependency_count@
    }

    /// Who depends on `d`, once per occurrence, as recorded.
    pub closed spec fn dependents_of(&self, d: Seq<char>) -> Seq<Seq<char>> {
        list_of(self.dependents@, d)
    }

    /// The bookkeeping that makes the schedule sound for the target table `g`.
    pub closed spec fn inv(&self, g: Map<Seq<char>, Target>) -> bool {
        self.inv_counting(g, self.completed@)
    }

    /// The bookkeeping, with the counts taken against `cc` rather than the completed set.
    pub closed spec fn inv_counting(&self, g: Map<Seq<char>, Target>, cc: Set<Seq<char>>) -> bool {
        let t = self.targets@;
        let c = self.completed@;
        &&& self.targets.wf()
        &&& self.running.wf()
        &&& self.completed.wf()
        &&& self.dependency_count.wf()
        &&& self.dependents.wf()
        &&& dep_closed(g, t)
        &&& c.subset_of(t)
        &&& self.running@.subset_of(t)
        &&& c.disjoint(self.running@)
        &&& counts_ok(g, t, self.dependency_count@, cc)
        &&& links_ok(g, t, self.dependents@)
        &&& queue_ok(g, t, self.ready(), c)
        &&& progress_ok(g, t, self.running@, c, self.claimed())
        &&& self.running@.len() <= self.jobs
        &&& (self.claimed is Some ==> self.running@.len() < self.jobs)
        &&& ready_complete(t, self.dependency_count@, self.ready(), c, self.running@, self.claimed(), self.failed)
        &&& hist_ok(g, t, c, self.running@, self.claimed(), self.failed, self.history@)
    }
}

/// What happened to a target during a build, in the order it happened.
pub enum Event {
    /// It was taken to be built (run, shown, recorded or skipped).
    Started(Seq<char>),
    /// It completed.
    Completed(Seq<char>),
    /// Its job failed.
    Failed(Seq<char>),
}

/// The event at `i` of the history `h` is sound: a target starts only if it is to be built
/// and each of its dependencies completed earlier; it completes or fails only after it
/// started.
pub open spec fn event_ok(g: Map<Seq<char>, Target>, t: Set<Seq<char>>, h: Seq<Event>, i: int) -> bool {
    match h[i] {
        Event::Started(n) => t.contains(n) && forall|k: int| 0 <= k < deps_of(g, n).len() ==> h.subrange(0, i).contains(Event::Completed(#[trigger] deps_of(g, n)[k])),
        Event::Completed(n) => h.subrange(0, i).contains(Event::Started(n)),
        Event::Failed(n) => h.subrange(0, i).contains(Event::Started(n)),
    }
}

/// The history agrees with the schedule: no event happens twice, each is sound, the
/// completed targets are those with a completion, a started target is completed, running
/// or failed, a running one started and did not fail, a failure marks the build failed,
/// and the target about to start has not started yet.
#[verifier::opaque]
pub open spec fn hist_ok(g: Map<Seq<char>, Target>, t: Set<Seq<char>>, c: Set<Seq<char>>, r: Set<Seq<char>>, claimed: Option<Seq<char>>, failed: bool, h: Seq<Event>) -> bool {
    &&& h.no_duplicates()
    &&& forall|i: int| 0 <= i < h.len() ==> #[trigger] event_ok(g, t, h, i)
    &&& forall|n: Seq<char>| #![trigger c.contains(n)] #![trigger h.contains(Event::Completed(n))] c.contains(n) <==> h.contains(Event::Completed(n))
    &&& forall|n: Seq<char>| #[trigger] h.contains(Event::Started(n)) ==> c.contains(n) || r.contains(n) || h.contains(Event::Failed(n))
    &&& forall|n: Seq<char>| #[trigger] r.contains(n) ==> h.contains(Event::Started(n)) && !h.contains(Event::Failed(n))
    &&& forall|n: Seq<char>| #[trigger] h.contains(Event::Failed(n)) ==> failed && !c.contains(n)
    &&& (claimed matches Some(n) ==> !h.contains(Event::Started(n)))
}

proof fn lemma_push_contains(h: Seq<Event>, e: Event)
    ensures
        forall|x: Event| #[trigger] h.push(e).contains(x) <==> h.contains(x) || x == e,
{
    assert forall|x: Event| #[trigger] h.push(e).contains(x) <==> h.contains(x) || x == e by {
        if h.contains(x) {
            let j = choose|j: int| 0 <= j < h.len() && h[j] == x;
            assert(h.push(e)[j] == x);
        }
        if x == e {
            assert(h.push(e)[h.len() as int] == x);
        }
        if h.push(e).contains(x) && x != e {
            let j = choose|j: int| 0 <= j < h.push(e).len() && h.push(e)[j] == x;
            assert(h[j] == x);
        }
    }
}

/// Appending a sound, new event keeps the history sound and free of repeats.
proof fn lemma_hist_push(g: Map<Seq<char>, Target>, t: Set<Seq<char>>, h: Seq<Event>, e: Event)
    requires
        h.no_duplicates(),
        forall|i: int| 0 <= i < h.len() ==> #[trigger] event_ok(g, t, h, i),
        !h.contains(e),
        event_ok(g, t, h.push(e), h.len() as int),
    ensures
        h.push(e).no_duplicates(),
        forall|i: int| 0 <= i < h.push(e).len() ==> #[trigger] event_ok(g, t, h.push(e), i),
        forall|x: Event| #[trigger] h.push(e).contains(x) <==> h.contains(x) || x == e,
{
    lemma_push_contains(h, e);
    let h2 = h.push(e);
    assert forall|i: int, j: int| 0 <= i < h2.len() && 0 <= j < h2.len() && i != j implies h2[i] != h2[j] by {
        if i < h.len() && j < h.len() {
            assert(h2[i] == h[i] && h2[j] == h[j]);
        } else if i < h.len() {
            assert(h.contains(h2[i]));
        } else {
            assert(h.contains(h2[j]));
        }
    }
    assert forall|i: int| 0 <= i < h2.len() implies #[trigger] event_ok(g, t, h2, i) by {
        if i < h.len() {
            assert(event_ok(g, t, h, i));
            assert(h2.subrange(0, i) =~= h.subrange(0, i));
            assert(h2[i] == h[i]);
        }
    }
}

/// Completing `name` (which was about to start, or running) adds its start if it had not
/// started, then its completion, to a sound history.
proof fn lemma_hist_complete(g: Map<Seq<char>, Target>, t: Set<Seq<char>>, c0: Set<Seq<char>>, r0: Set<Seq<char>>, claimed0: Option<Seq<char>>, failed: bool, h: Seq<Event>, name: Seq<char>)
    requires
        hist_ok(g, t, c0, r0, claimed0, failed, h),
        t.contains(name),
        !c0.contains(name),
        deps_done(g, name, c0),
        claimed0 == Some(name) ==> !r0.contains(name),
        claimed0 != Some(name) ==> r0.contains(name),
    ensures
        hist_ok(g, t, c0.insert(name), r0.remove(name), if claimed0 == Some(name) { None } else { claimed0 }, failed,
            if claimed0 == Some(name) { h.push(Event::Started(name)).push(Event::Completed(name)) } else { h.push(Event::Completed(name)) }),
{
    reveal(hist_ok);
    let c = c0.insert(name);
    let r = r0.remove(name);
    let h1 = if claimed0 == Some(name) { h.push(Event::Started(name)) } else { h };
    if claimed0 == Some(name) {
        assert(h.push(Event::Started(name)).subrange(0, h.len() as int) =~= h);
        assert forall|k: int| 0 <= k < deps_of(g, name).len() implies h.contains(Event::Completed(#[trigger] deps_of(g, name)[k])) by {
            assert(c0.contains(deps_of(g, name)[k]));
        }
        lemma_hist_push(g, t, h, Event::Started(name));
        if h.contains(Event::Failed(name)) {
            let j = choose|j: int| 0 <= j < h.len() && h[j] == Event::Failed(name);
            assert(event_ok(g, t, h, j));
            let k = choose|k: int| 0 <= k < h.subrange(0, j).len() && h.subrange(0, j)[k] == Event::Started(name);
            assert(h[k] == Event::Started(name));
        }
    }
    assert(h1.push(Event::Completed(name)).subrange(0, h1.len() as int) =~= h1);
    assert(h1.contains(Event::Started(name))) by {
        if claimed0 == Some(name) {
            assert(h1[h.len() as int] == Event::Started(name));
        }
    }
    lemma_hist_push(g, t, h1, Event::Completed(name));
    let h2 = h1.push(Event::Completed(name));
    assert forall|x: Event| #[trigger] h2.contains(x) <==> h.contains(x) || x == Event::Completed(name) || (claimed0 == Some(name) && x == Event::Started(name)) by {}
    assert forall|n: Seq<char>| #[trigger] h2.contains(Event::Started(n)) implies c.contains(n) || r.contains(n) || h2.contains(Event::Failed(n)) by {
        if n != name {
            assert(h.contains(Event::Started(n)));
        }
    }
    assert forall|n: Seq<char>| #[trigger] r.contains(n) implies h2.contains(Event::Started(n)) && !h2.contains(Event::Failed(n)) by {
        assert(r0.contains(n));
    }
    assert forall|n: Seq<char>| #[trigger] h2.contains(Event::Failed(n)) implies failed && !c.contains(n) by {
        assert(h.contains(Event::Failed(n)));
        if n == name && claimed0 != Some(name) {
            assert(r0.contains(name));
        }
    }
    assert forall|n: Seq<char>| #![trigger c.contains(n)] #![trigger h2.contains(Event::Completed(n))] c.contains(n) <==> h2.contains(Event::Completed(n)) by {
        if n != name {
            assert(c.contains(n) == c0.contains(n));
        }
    }
}

/// Starting a job for `name`, which was about to start, adds its start to a sound history.
proof fn lemma_hist_spawn(g: Map<Seq<char>, Target>, t: Set<Seq<char>>, c: Set<Seq<char>>, r0: Set<Seq<char>>, failed: bool, h: Seq<Event>, name: Seq<char>)
    requires
        hist_ok(g, t, c, r0, Some(name), failed, h),
        t.contains(name),
        !c.contains(name),
        deps_done(g, name, c),
    ensures
        hist_ok(g, t, c, r0.insert(name), None, failed, h.push(Event::Started(name))),
{
    reveal(hist_ok);
    assert(h.push(Event::Started(name)).subrange(0, h.len() as int) =~= h);
    assert forall|k: int| 0 <= k < deps_of(g, name).len() implies h.contains(Event::Completed(#[trigger] deps_of(g, name)[k])) by {
        assert(c.contains(deps_of(g, name)[k]));
    }
    lemma_hist_push(g, t, h, Event::Started(name));
    let h2 = h.push(Event::Started(name));
    if h.contains(Event::Failed(name)) {
        let j = choose|j: int| 0 <= j < h.len() && h[j] == Event::Failed(name);
        assert(event_ok(g, t, h, j));
        let k = choose|k: int| 0 <= k < h.subrange(0, j).len() && h.subrange(0, j)[k] == Event::Started(name);
        assert(h[k] == Event::Started(name));
    }
    assert forall|n: Seq<char>| #[trigger] h2.contains(Event::Started(n)) implies c.contains(n) || r0.insert(name).contains(n) || h2.contains(Event::Failed(n)) by {
        if n != name {
            assert(h.contains(Event::Started(n)));
        }
    }
    assert forall|n: Seq<char>| #[trigger] r0.insert(name).contains(n) implies h2.contains(Event::Started(n)) && !h2.contains(Event::Failed(n)) by {
        if n != name {
            assert(r0.contains(n));
        }
    }
    assert forall|n: Seq<char>| #[trigger] h2.contains(Event::Failed(n)) implies failed && !c.contains(n) by {
        assert(h.contains(Event::Failed(n)));
    }
    assert forall|n: Seq<char>| #![trigger c.contains(n)] #![trigger h2.contains(Event::Completed(n))] c.contains(n) <==> h2.contains(Event::Completed(n)) by {}
}

/// The failure of the job of `name`, which was running, adds its failure to a sound history.
proof fn lemma_hist_fail(g: Map<Seq<char>, Target>, t: Set<Seq<char>>, c: Set<Seq<char>>, r0: Set<Seq<char>>, claimed: Option<Seq<char>>, failed: bool, h: Seq<Event>, name: Seq<char>)
    requires
        hist_ok(g, t, c, r0, claimed, failed, h),
        r0.contains(name),
        !c.contains(name),
        claimed != Some(name),
    ensures
        hist_ok(g, t, c, r0.remove(name), claimed, true, h.push(Event::Failed(name))),
{
    reveal(hist_ok);
    assert(h.push(Event::Failed(name)).subrange(0, h.len() as int) =~= h);
    lemma_hist_push(g, t, h, Event::Failed(name));
    let h2 = h.push(Event::Failed(name));
    assert forall|n: Seq<char>| #[trigger] h2.contains(Event::Started(n)) implies c.contains(n) || r0.remove(name).contains(n) || h2.contains(Event::Failed(n)) by {
        assert(h.contains(Event::Started(n)));
    }
    assert forall|n: Seq<char>| #[trigger] r0.remove(name).contains(n) implies h2.contains(Event::Started(n)) && !h2.contains(Event::Failed(n)) by {
        assert(r0.contains(n));
    }
    assert forall|n: Seq<char>| #[trigger] h2.contains(Event::Failed(n)) implies true && !c.contains(n) by {
        if n != name {
            assert(h.contains(Event::Failed(n)));
        }
    }
    assert forall|n: Seq<char>| #![trigger c.contains(n)] #![trigger h2.contains(Event::Completed(n))] c.contains(n) <==> h2.contains(Event::Completed(n)) by {}
    match claimed {
        Some(m) => {
            assert(!h.contains(Event::Started(m)));
        },
        None => {},
    }
}

/// Unless something failed, every target that waits on nothing and is neither done,
/// running nor about to start is queued.
#[verifier::opaque]
pub open spec fn ready_complete(t: Set<Seq<char>>, counts: Map<Seq<char>, usize>, q: Seq<Seq<char>>, c: Set<Seq<char>>, r: Set<Seq<char>>, claimed: Option<Seq<char>>, failed: bool) -> bool {
    !failed ==> forall|n: Seq<char>| #[trigger] t.contains(n) && !c.contains(n) && !r.contains(n) && claimed != Some(n) && counts[n] == 0 ==> q.contains(n)
}

/// Each target's count is the number of its dependencies (among `t`) not in `cc`.
#[verifier::opaque]
pub open spec fn counts_ok(g: Map<Seq<char>, Target>, t: Set<Seq<char>>, counts: Map<Seq<char>, usize>, cc: Set<Seq<char>>) -> bool {
    forall|n: Seq<char>| #[trigger] t.contains(n) ==> counts.contains_key(n) && counts[n] == pending(deps_of(g, n), t, cc)
}

/// The dependents recorded for each target are exactly the targets that depend on it,
/// once per occurrence.
#[verifier::opaque]
pub open spec fn links_ok(g: Map<Seq<char>, Target>, t: Set<Seq<char>>, m: Map<Seq<char>, Vec<String>>) -> bool {
    &&& forall|d: Seq<char>, n: Seq<char>| #[trigger] t.contains(d) && #[trigger] t.contains(n) ==> occ(list_of(m, d), n) == occ(deps_of(g, n), d)
    &&& forall|d: Seq<char>, j: int| 0 <= j < list_of(m, d).len() ==> t.contains(#[trigger] list_of(m, d)[j])
}

/// Every queued target is one of `t` whose dependencies have all completed.
#[verifier::opaque]
pub open spec fn queue_ok(g: Map<Seq<char>, Target>, t: Set<Seq<char>>, q: Seq<Seq<char>>, c: Set<Seq<char>>) -> bool {
    forall|j: int| 0 <= j < q.len() ==> t.contains(#[trigger] q[j]) && deps_done(g, q[j], c)
}

/// Targets running, completed or about to start have all their dependencies completed.
#[verifier::opaque]
pub open spec fn progress_ok(g: Map<Seq<char>, Target>, t: Set<Seq<char>>, r: Set<Seq<char>>, c: Set<Seq<char>>, claimed: Option<Seq<char>>) -> bool {
    &&& forall|n: Seq<char>| #[trigger] r.contains(n) ==> deps_done(g, n, c)
    &&& forall|n: Seq<char>| #[trigger] c.contains(n) ==> deps_done(g, n, c)
    &&& (claimed matches Some(n) ==> t.contains(n) && !c.contains(n) && !r.contains(n) && deps_done(g, n, c))
}

/// `n` may start now: it is to be built, has not completed, is not running, and all its
/// dependencies have completed.
pub open spec fn startable(g: Map<Seq<char>, Target>, t: Set<Seq<char>>, c: Set<Seq<char>>, r: Set<Seq<char>>, n: Seq<char>) -> bool {
    t.contains(n) && !c.contains(n) && !r.contains(n) && deps_done(g, n, c)
}

/// The first `k` entries of the queue `q` are completed or running already.
pub open spec fn skipped(q: Seq<Seq<char>>, c: Set<Seq<char>>, r: Set<Seq<char>>, k: int) -> bool {
    forall|j: int| 0 <= j < k ==> c.contains(#[trigger] q[j]) || r.contains(q[j])
}

/// Items `0..i` of `items`.
pub open spec fn seen(items: Seq<Seq<char>>, i: int, n: Seq<char>) -> bool {
    exists|k: int| 0 <= k < i && items[k] == n
}

impl Executor {
    /// Sets up the schedule for `targets`: counts each target's dependencies among them,
    /// notes who depends on whom, and queues the targets that wait on nothing.
    fn schedule(&self, targets: StrSet) -> (s: Schedule)
        requires
            self.project.targets.wf(),
            targets.wf(),
            dep_closed(self.graph(), targets@),
        ensures
            s.inv(self.graph()),
            s.targets() == targets@,
            s.completed() == Set::<Seq<char>>::empty(),
            s.running() == Set::<Seq<char>>::empty(),
            s.claimed() is None,
            !s.failed(),
            s.target_order() == targets.items(),
            s.jobs() == self.jobs(),
            s.history() == Seq::<Event>::empty(),
    {
        let ghost g = self.graph();
        let ghost t = targets@;
        let ghost items = targets.items();
        let ghost empty = Set::<Seq<char>>::empty();
        let mut dependency_count: StrMap<usize> = StrMap::new();
        let mut dependents: StrMap<Vec<String>> = StrMap::new();
        let n = targets.len();
        let mut i: usize = 0;
        while i < n
            invariant
                self.project.targets.wf(),
                g == self.graph(),
                targets.wf(),
                t == targets@,
                items == targets.items(),
                n == items.len(),
                t == items.to_set(),
                dep_closed(g, t),
                empty == Set::<Seq<char>>::empty(),
                i <= n,
                dependency_count.wf(),
                dependents.wf(),
                forall|m: Seq<char>| #[trigger] t.contains(m) ==> (dependency_count@.contains_key(m) <==> seen(items, i as int, m)),
                forall|m: Seq<char>| #[trigger] dependency_count@.contains_key(m) ==> t.contains(m) && dependency_count@[m] == pending(deps_of(g, m), t, empty),
                forall|d: Seq<char>, m: Seq<char>| #[trigger] t.contains(d) && #[trigger] t.contains(m) ==>
                    occ(list_of(dependents@, d), m) == if seen(items, i as int, m) { occ(deps_of(g, m), d) } else { 0 },
                forall|d: Seq<char>, j: int| 0 <= j < list_of(dependents@, d).len() ==> t.contains(#[trigger] list_of(dependents@, d)[j]),
            decreases n - i,
        {
            let name = targets.item_at(i);
            assert(t.contains(name@)) by {
                assert(items[i as int] == name@);
            }
            assert(!seen(items, i as int, name@)) by {
                if seen(items, i as int, name@) {
                    let k = choose|k: int| 0 <= k < i && items[k] == name@;
                    assert(items[k] == items[i as int]);
                }
            }
            let item = self.project.targets.get(name).unwrap();
            let ghost ds = deps_of(g, name@);
            assert(crate::model::strs(item.dependencies@) == ds);
            let mut count: usize = 0;
            let mut j: usize = 0;
            while j < item.dependencies.len()
                invariant
                    g == self.graph(),
                    targets.wf(),
                    t == targets@,
                    items == targets.items(),
                    n == items.len(),
                    i < n,
                    items[i as int] == name@,
                    t.contains(name@),
                    !seen(items, i as int, name@),
                    ds == deps_of(g, name@),
                    ds == crate::model::strs(item.dependencies@),
                    j <= ds.len(),
                    count <= j,
                    empty == Set::<Seq<char>>::empty(),
                    count == pending(ds.subrange(0, j as int), t, empty),
                    dependents.wf(),
                    forall|d: Seq<char>, m: Seq<char>| #[trigger] t.contains(d) && #[trigger] t.contains(m) ==>
                        occ(list_of(dependents@, d), m) == if seen(items, i as int, m) { occ(deps_of(g, m), d) } else if m == name@ { occ(ds.subrange(0, j as int), d) } else { 0 },
                    forall|d: Seq<char>, k: int| 0 <= k < list_of(dependents@, d).len() ==> t.contains(#[trigger] list_of(dependents@, d)[k]),
                decreases ds.len() - j,
            {
                let dep = &item.dependencies[j];
                let ghost d0 = dep@;
                assert(ds[j as int] == d0);
                assert(ds.subrange(0, j + 1) =~= ds.subrange(0, j as int).push(d0));
                proof {
                    lemma_pending_push(ds.subrange(0, j as int), d0, t, empty);
                }
                if targets.contains(dep) {
                    count = count + 1;
                    let ghost before = dependents@;
                    match dependents.find(dep) {
                        Some(k) => {
                            let mut list = crate::model::clone_strings(dependents.value_at(k));
                            proof {
                                dependents.lemma_view(k as int);
                            }
                            let ghost old_list = list_of(before, d0);
                            assert(crate::model::strs(list@) == old_list);
                            let ghost l0 = list@;
                            list.push(name.clone());
                            proof {
                                crate::parser::lemma_strs_push(l0, list@.last());
                            }
                            dependents.set_value_at(k, list);
                        },
                        None => {
                            let mut list: Vec<String> = Vec::new();
                            list.push(name.clone());
                            assert(crate::model::strs(list@) =~= seq![name@]);
                            let key = dep.clone();
                            dependents.insert(key, list);
                            assert(list_of(before, d0) =~= Seq::<Seq<char>>::empty());
                            assert(seq![name@] =~= Seq::<Seq<char>>::empty().push(name@));
                        },
                    }
                    assert(list_of(dependents@, d0) == list_of(before, d0).push(name@));
                    assert forall|d: Seq<char>, m: Seq<char>| #[trigger] t.contains(d) && #[trigger] t.contains(m) implies
                        occ(list_of(dependents@, d), m) == if seen(items, i as int, m) { occ(deps_of(g, m), d) } else if m == name@ { occ(ds.subrange(0, j + 1), d) } else { 0 } by {
                        lemma_occ_push(ds.subrange(0, j as int), d0, d);
                        if d == d0 {
                            lemma_occ_push(list_of(before, d0), name@, m);
                        } else {
                            assert(list_of(dependents@, d) == list_of(before, d));
                        }
                    }
                    assert forall|d: Seq<char>, k: int| 0 <= k < list_of(dependents@, d).len() implies t.contains(#[trigger] list_of(dependents@, d)[k]) by {
                        if d == d0 {
                            if k < list_of(before, d0).len() {
                                assert(list_of(dependents@, d)[k] == list_of(before, d0)[k]);
                            }
                        } else {
                            assert(list_of(dependents@, d) == list_of(before, d));
                        }
                    }
                } else {
                    assert forall|d: Seq<char>, m: Seq<char>| #[trigger] t.contains(d) && #[trigger] t.contains(m) implies
                        occ(list_of(dependents@, d), m) == if seen(items, i as int, m) { occ(deps_of(g, m), d) } else if m == name@ { occ(ds.subrange(0, j + 1), d) } else { 0 } by {
                        lemma_occ_push(ds.subrange(0, j as int), d0, d);
                    }
                }
                j = j + 1;
            }
            assert(ds.subrange(0, ds.len() as int) =~= ds);
            let ghost before_counts = dependency_count@;
            dependency_count.insert(name.clone(), count);
            assert forall|m: Seq<char>| #[trigger] t.contains(m) implies (dependency_count@.contains_key(m) <==> seen(items, i + 1, m)) by {
                if seen(items, i + 1, m) && m != name@ {
                    let k = choose|k: int| 0 <= k < i + 1 && items[k] == m;
                    assert(seen(items, i as int, m));
                }
                if seen(items, i as int, m) {
                    let k = choose|k: int| 0 <= k < i && items[k] == m;
                    assert(seen(items, i + 1, m));
                }
                if m == name@ {
                    assert(items[i as int] == m);
                }
            }
            assert forall|d: Seq<char>, m: Seq<char>| #[trigger] t.contains(d) && #[trigger] t.contains(m) implies
                occ(list_of(dependents@, d), m) == if seen(items, i + 1, m) { occ(deps_of(g, m), d) } else { 0 } by {
                if m == name@ {
                    assert(items[i as int] == m);
                    assert(seen(items, i + 1, m));
                } else if seen(items, i + 1, m) {
                    let k = choose|k: int| 0 <= k < i + 1 && items[k] == m;
                    assert(seen(items, i as int, m));
                } else if seen(items, i as int, m) {
                    let k = choose|k: int| 0 <= k < i && items[k] == m;
                    assert(seen(items, i + 1, m));
                }
            }
            i = i + 1;
        }
        // every target is counted now
        assert forall|m: Seq<char>| #[trigger] t.contains(m) implies dependency_count@.contains_key(m) by {
            assert(items.contains(m));
            let k = choose|k: int| 0 <= k < items.len() && items[k] == m;
            assert(seen(items, n as int, m));
        }
        let mut ready: VecDeque<String> = VecDeque::new();
        let mut k: usize = 0;
        while k < n
            invariant
                self.project.targets.wf(),
                g == self.graph(),
                targets.wf(),
                t == targets@,
                items == targets.items(),
                n == items.len(),
                t == items.to_set(),
                dep_closed(g, t),
                empty == Set::<Seq<char>>::empty(),
                k <= n,
                dependency_count.wf(),
                forall|m: Seq<char>| #[trigger] t.contains(m) ==> dependency_count@.contains_key(m),
                forall|m: Seq<char>| #[trigger] dependency_count@.contains_key(m) ==> t.contains(m) && dependency_count@[m] == pending(deps_of(g, m), t, empty),
                forall|j: int| 0 <= j < queue_view(ready@).len() ==> t.contains(#[trigger] queue_view(ready@)[j]) && deps_done(g, queue_view(ready@)[j], empty),
                forall|m: Seq<char>| #[trigger] seen(items, k as int, m) && dependency_count@[m] == 0 ==> queue_view(ready@).contains(m),
            decreases n - k,
        {
            let name = targets.item_at(k);
            assert(t.contains(name@)) by {
                assert(items[k as int] == name@);
            }
            let c = *dependency_count.get(name).unwrap();
            if c == 0 {
                proof {
                    lemma_pending_zero(deps_of(g, name@), t, empty);
                    assert forall|q: int| 0 <= q < deps_of(g, name@).len() implies empty.contains(#[trigger] deps_of(g, name@)[q]) by {
                        assert(t.contains(deps_of(g, name@)[q]));
                    }
                }
                let ghost q0 = ready@;
                ready.push_back(name.clone());
                assert(queue_view(ready@) =~= queue_view(q0).push(name@));
                assert(queue_view(ready@)[queue_view(q0).len() as int] == name@);
                assert forall|m: Seq<char>| #[trigger] queue_view(q0).contains(m) implies queue_view(ready@).contains(m) by {
                    let j = choose|j: int| 0 <= j < queue_view(q0).len() && queue_view(q0)[j] == m;
                    assert(queue_view(ready@)[j] == m);
                }
            }
            assert forall|m: Seq<char>| #[trigger] seen(items, k + 1, m) && dependency_count@[m] == 0 implies queue_view(ready@).contains(m) by {
                let j = choose|j: int| 0 <= j < k + 1 && items[j] == m;
                if j < k {
                    assert(seen(items, k as int, m));
                } else {
                    assert(m == name@);
                }
            }
            k = k + 1;
        }
        let s = Schedule {
            targets,
            dependency_count,
            dependents,
            ready,
            running: StrSet::new(),
            completed: StrSet::new(),
            claimed: None,
            failed: false,
            jobs: self.jobs,
            history: Ghost(Seq::empty()),
        };
        reveal(hist_ok);
        reveal(counts_ok);
        reveal(ready_complete);
        assert forall|m: Seq<char>| #[trigger] t.contains(m) && s.dependency_count@[m] == 0 implies s.ready().contains(m) by {
            assert(items.contains(m));
            let q = choose|q: int| 0 <= q < items.len() && items[q] == m;
            assert(seen(items, n as int, m));
        }
        reveal(links_ok);
        reveal(queue_ok);
        reveal(progress_ok);
        assert forall|d: Seq<char>, m: Seq<char>| #[trigger] t.contains(d) && #[trigger] t.contains(m) implies occ(s.dependents_of(d), m) == occ(deps_of(g, m), d) by {
            assert(items.contains(m));
            let q = choose|q: int| 0 <= q < items.len() && items[q] == m;
            assert(seen(items, n as int, m));
            assert(s.dependents_of(d) == list_of(s.dependents@, d));
        }
        assert forall|d: Seq<char>, j: int| 0 <= j < s.dependents_of(d).len() implies t.contains(#[trigger] s.dependents_of(d)[j]) by {
            assert(s.dependents_of(d) == list_of(s.dependents@, d));
        }
        s
    }
}

/// The list recorded for `d`, or an empty one.
pub open spec fn list_of(m: Map<Seq<char>, Vec<String>>, d: Seq<char>) -> Seq<Seq<char>> {
    if m.contains_key(d) {
        crate::model::strs(m[d]@)
    } else {
        Seq::empty()
    }
}

fn queue_contains(q: &VecDeque<String>, x: &String) -> (b: bool)
    ensures
        b == queue_view(q@).contains(x@),
{
    let mut i: usize = 0;
    while i < q.len()
        invariant
            i <= q@.len(),
            forall|j: int| 0 <= j < i ==> queue_view(q@)[j] != x@,
        decreases q@.len() - i,
    {
        if q[i] == *x {
            assert(queue_view(q@)[i as int] == x@);
            return true;
        }
        i = i + 1;
    }
    false
}

/// The counts and the queue after counting down the dependents `ds`, in order: each one
/// that has a count loses one (never going below zero), and joins the end of the queue
/// when its count is then zero and it is neither completed, running nor queued already.
pub open spec fn release_spec(ds: Seq<Seq<char>>, counts: Map<Seq<char>, usize>, q: Seq<Seq<char>>, c: Set<Seq<char>>, r: Set<Seq<char>>) -> (Map<Seq<char>, usize>, Seq<Seq<char>>)
    decreases ds.len(),
{
    if ds.len() == 0 {
        (counts, q)
    } else {
        let prev = release_spec(ds.drop_last(), counts, q, c, r);
        let k = prev.0;
        let q1 = prev.1;
        let d = ds.last();
        if !k.contains_key(d) {
            (k, q1)
        } else {
            let n: usize = if k[d] > 0 { (k[d] - 1) as usize } else { 0 };
            (k.insert(d, n), if n == 0 && !c.contains(d) && !r.contains(d) && !q1.contains(d) { q1.push(d) } else { q1 })
        }
    }
}

/// Lowering one count to `counts[m]` keeps every ready target queued, provided `m` is
/// queued (or need not be) once its count is zero, and the queue only grew.
proof fn lemma_ready_grows(t: Set<Seq<char>>, before: Map<Seq<char>, usize>, q0: Seq<Seq<char>>, counts: Map<Seq<char>, usize>, q: Seq<Seq<char>>, c: Set<Seq<char>>, r: Set<Seq<char>>, claimed: Option<Seq<char>>, failed: bool, m: Seq<char>)
    requires
        ready_complete(t, before, q0, c, r, claimed, failed),
        counts == before.insert(m, counts[m]),
        forall|x: Seq<char>| #[trigger] q0.contains(x) ==> q.contains(x),
        counts[m] == 0 && t.contains(m) && !c.contains(m) && !r.contains(m) ==> q.contains(m),
    ensures
        ready_complete(t, counts, q, c, r, claimed, failed),
{
    reveal(ready_complete);
    assert forall|n: Seq<char>| #[trigger] t.contains(n) && !c.contains(n) && !r.contains(n) && claimed != Some(n) && counts[n] == 0 && !failed implies q.contains(n) by {
        if n != m {
            assert(before[n] == counts[n]);
            assert(q0.contains(n));
        }
    }
}

impl Executor {
    /// Counts down the dependents of `name`, in the order they were recorded: each with a
    /// count loses one (never below zero), and joins the end of the queue once it waits on
    /// nothing and is neither completed, running nor queued. When `name` has just completed
    /// in a sound schedule, the schedule stays sound.
    #[verifier::spinoff_prover]
    #[verifier::rlimit(80)]
    fn release_dependents(&self, name: &String, s: &mut Schedule)
        requires
            old(s).dependency_count.wf(),
            old(s).dependents.wf(),
        ensures
            old(s).inv_counting(self.graph(), old(s).completed().remove(name@)) && old(s).completed().contains(name@)
                ==> final(s).inv(self.graph()),
            final(s).dependency_count.wf(),
            final(s).dependents == old(s).dependents,
            final(s).targets() == old(s).targets(),
            final(s).completed() == old(s).completed(),
            final(s).running() == old(s).running(),
            final(s).claimed() == old(s).claimed(),
            final(s).failed() == old(s).failed(),
            final(s).jobs() == old(s).jobs(),
            final(s).history() == old(s).history(),
            (final(s).counts(), final(s).ready()) == release_spec(old(s).dependents_of(name@), old(s).counts(), old(s).ready(), old(s).completed(), old(s).running()),
    {
        let ghost g = self.graph();
        let ghost t = s.targets@;
        let ghost c = s.completed@;
        let ghost c0 = c.remove(name@);
        let ghost counts0 = s.dependency_count@;
        let ghost q0 = s.ready();
        let ghost ok: bool = old(s).inv_counting(g, c0) && c.contains(name@);
        let items = match s.dependents.get(name) {
            None => {
                proof {
                    if ok {
                        assert(t.contains(name@));
                        assert(counts_ok(g, t, s.dependency_count@, c)) by {
                            reveal(counts_ok);
                            reveal(links_ok);
                            assert forall|m: Seq<char>| #[trigger] t.contains(m) implies s.dependency_count@.contains_key(m) && s.dependency_count@[m] == pending(deps_of(g, m), t, c) by {
                                assert(t.contains(name@) && t.contains(m));
                                lemma_pending_complete(deps_of(g, m), name@, t, c0);
                                assert(c0.insert(name@) =~= c);
                                assert(list_of(s.dependents@, name@) == Seq::<Seq<char>>::empty());
                            }
                        }
                    }
                }
                assert(s.dependents_of(name@) == Seq::<Seq<char>>::empty());
                return;
            },
            Some(v) => crate::model::clone_strings(v),
        };
        let ghost iv = crate::model::strs(items@);
        assert(iv == list_of(s.dependents@, name@));
        proof {
            if ok {
                assert(t.contains(name@));
                assert forall|k: int| 0 <= k < iv.len() implies t.contains(#[trigger] iv[k]) by {
                    reveal(links_ok);
                    assert(list_of(s.dependents@, name@)[k] == iv[k]);
                }
                assert forall|m: Seq<char>| #[trigger] t.contains(m) implies s.dependency_count@.contains_key(m)
                    && occ(iv, m) <= pending(deps_of(g, m), t, c0)
                    && pending(deps_of(g, m), t, c0) == pending(deps_of(g, m), t, c) + occ(iv, m)
                    && s.dependency_count@[m] + occ(iv.subrange(0, 0), m) == pending(deps_of(g, m), t, c0) by {
                    reveal(counts_ok);
                    reveal(links_ok);
                    assert(t.contains(name@) && t.contains(m));
                    lemma_occ_le_pending(deps_of(g, m), name@, t, c0);
                    lemma_pending_complete(deps_of(g, m), name@, t, c0);
                    assert(c0.insert(name@) =~= c);
                    assert(iv.subrange(0, 0) =~= Seq::<Seq<char>>::empty());
                }
            }
        }
        let mut j: usize = 0;
        while j < items.len()
            invariant
                g == self.graph(),
                t == s.targets@,
                c == s.completed@,
                c0 == c.remove(name@),
                iv == crate::model::strs(items@),
                j <= iv.len(),
                ok == (old(s).inv_counting(g, c0) && c.contains(name@)),
                s.targets == old(s).targets,
                s.completed == old(s).completed,
                s.running == old(s).running,
                s.dependents == old(s).dependents,
                s.claimed == old(s).claimed,
                s.failed == old(s).failed,
                s.jobs == old(s).jobs,
                s.history == old(s).history,
                s.dependency_count.wf(),
                counts0 == old(s).dependency_count@,
                q0 == old(s).ready(),
                s.dependency_count@ == release_spec(iv.subrange(0, j as int), counts0, q0, c, s.running@).0,
                s.ready() == release_spec(iv.subrange(0, j as int), counts0, q0, c, s.running@).1,
                ok ==> ready_complete(t, s.dependency_count@, s.ready(), c, s.running@, s.claimed(), s.failed),
                ok ==> dep_closed(g, t),
                ok ==> forall|m: Seq<char>| #[trigger] t.contains(m) ==> s.dependency_count@.contains_key(m)
                    && occ(iv, m) <= pending(deps_of(g, m), t, c0)
                    && pending(deps_of(g, m), t, c0) == pending(deps_of(g, m), t, c) + occ(iv, m)
                    && s.dependency_count@[m] + occ(iv.subrange(0, j as int), m) == pending(deps_of(g, m), t, c0),
                ok ==> forall|k: int| 0 <= k < iv.len() ==> t.contains(#[trigger] iv[k]),
                ok ==> queue_ok(g, t, s.ready(), c),
            decreases iv.len() - j,
        {
            let dependent = &items[j];
            let ghost m0 = dependent@;
            assert(iv[j as int] == m0);
            assert(iv.subrange(0, j + 1) =~= iv.subrange(0, j as int).push(m0));
            proof {
                if ok {
                    assert(t.contains(m0));
                    lemma_occ_prefix(iv, j + 1, m0);
                    assert forall|m: Seq<char>| #[trigger] t.contains(m) implies occ(iv.subrange(0, j + 1), m) == occ(iv.subrange(0, j as int), m) + if m0 == m { 1nat } else { 0nat } by {
                        lemma_occ_push(iv.subrange(0, j as int), m0, m);
                    }
                }
            }
            let ghost prev = release_spec(iv.subrange(0, j as int), counts0, q0, c, s.running@);
            assert(iv.subrange(0, j + 1).drop_last() =~= iv.subrange(0, j as int));
            match s.dependency_count.find(dependent) {
                None => {
                    assert(!s.dependency_count@.contains_key(m0));
                },
                Some(k) => {
                    proof {
                        s.dependency_count.lemma_view(k as int);
                    }
                    let mut count = *s.dependency_count.value_at(k);
                    assert(count == s.dependency_count@[m0]);
                    let ghost before = s.dependency_count@;
                    if count > 0 {
                        count = count - 1;
                        s.dependency_count.set_value_at(k, count);
                    }
                    assert(s.dependency_count@ == before.insert(m0, count));
                    let ghost q_before = s.ready();
                    if count == 0 && !s.completed.contains(dependent) && !s.running.contains(dependent) && !queue_contains(&s.ready, dependent) {
                        proof {
                            if ok {
                                assert(t.contains(m0));
                                assert(pending(deps_of(g, m0), t, c) == 0);
                                lemma_pending_zero(deps_of(g, m0), t, c);
                                assert forall|q: int| 0 <= q < deps_of(g, m0).len() implies c.contains(#[trigger] deps_of(g, m0)[q]) by {
                                    assert(t.contains(deps_of(g, m0)[q]));
                                }
                            }
                        }
                        let ghost q0 = s.ready();
                        s.ready.push_back(dependent.clone());
                        assert(s.ready() =~= q0.push(m0));
                        assert(s.ready()[q0.len() as int] == m0);
                        assert forall|x: Seq<char>| #[trigger] q0.contains(x) implies s.ready().contains(x) by {
                            let j = choose|j: int| 0 <= j < q0.len() && q0[j] == x;
                            assert(s.ready()[j] == x);
                        }
                        proof {
                            if ok {
                                assert(queue_ok(g, t, s.ready(), c)) by {
                                    reveal(queue_ok);
                                    assert forall|q: int| 0 <= q < s.ready().len() implies t.contains(#[trigger] s.ready()[q]) && deps_done(g, s.ready()[q], c) by {
                                        if q < q0.len() {
                                            assert(s.ready()[q] == q0[q]);
                                        }
                                    }
                                }
                            }
                        }
                    }
                    proof {
                        if ok {
                            lemma_ready_grows(t, before, q_before, s.dependency_count@, s.ready(), c, s.running@, s.claimed(), s.failed, m0);
                        }
                    }
                },
            }
            j = j + 1;
        }
        assert(iv.subrange(0, iv.len() as int) =~= iv);
        assert(s.dependents_of(name@) == iv);
        proof {
            if ok {
                assert(counts_ok(g, t, s.dependency_count@, c)) by {
                    reveal(counts_ok);
                }
                assert(links_ok(g, t, s.dependents@));
                assert(progress_ok(g, t, s.running@, c, s.claimed()));
            }
        }
    }

    /// Records that `name` has completed (it no longer runs nor waits to start) and
    /// releases its dependents.
    fn mark_completed(&self, s: &mut Schedule, name: &String)
        requires
            old(s).inv(self.graph()),
            old(s).targets().contains(name@),
            !old(s).completed().contains(name@),
            deps_done(self.graph(), name@, old(s).completed()),
            old(s).claimed() == Some(name@) || old(s).running().contains(name@),
        ensures
            final(s).inv(self.graph()),
            final(s).targets() == old(s).targets(),
            final(s).completed() == old(s).completed().insert(name@),
            final(s).running() == old(s).running().remove(name@),
            final(s).claimed() == if old(s).claimed() == Some(name@) { None } else { old(s).claimed() },
            final(s).failed() == old(s).failed(),
            final(s).jobs() == old(s).jobs(),
            final(s).history() == if old(s).claimed() == Some(name@) {
                old(s).history().push(Event::Started(name@)).push(Event::Completed(name@))
            } else {
                old(s).history().push(Event::Completed(name@))
            },
    {
        let ghost g = self.graph();
        let ghost c0 = s.completed@;
        let ghost r0 = s.running@;
        let ghost claimed0 = s.claimed();
        let ghost h0 = s.history@;
        proof {
            reveal(progress_ok);
            lemma_hist_complete(g, s.targets@, c0, r0, claimed0, s.failed, h0, name@);
        }
        s.completed.insert(name.clone());
        s.running.remove(name);
        let clear = match &s.claimed {
            Some(n) => *n == *name,
            None => false,
        };
        if clear {
            s.claimed = None;
        }
        s.history = Ghost(
            if claimed0 == Some(name@) {
                h0.push(Event::Started(name@)).push(Event::Completed(name@))
            } else {
                h0.push(Event::Completed(name@))
            },
        );
        assert(s.completed@.remove(name@) =~= c0);
        proof {
            let c = s.completed@;
            let t = s.targets@;
            reveal(progress_ok);
            reveal(queue_ok);
            reveal(ready_complete);
            assert forall|n: Seq<char>| #[trigger] c.contains(n) implies deps_done(g, n, c) by {
                assert forall|i: int| 0 <= i < deps_of(g, n).len() implies c.contains(#[trigger] deps_of(g, n)[i]) by {
                    if n != name@ {
                        assert(deps_done(g, n, c0));
                    }
                    assert(c0.contains(deps_of(g, n)[i]));
                }
            }
            assert forall|n: Seq<char>| #[trigger] s.running@.contains(n) implies deps_done(g, n, c) by {
                assert(r0.contains(n));
                assert forall|i: int| 0 <= i < deps_of(g, n).len() implies c.contains(#[trigger] deps_of(g, n)[i]) by {
                    assert(deps_done(g, n, c0));
                    assert(c0.contains(deps_of(g, n)[i]));
                }
            }
            assert forall|k: int| 0 <= k < s.ready().len() implies t.contains(#[trigger] s.ready()[k]) && deps_done(g, s.ready()[k], c) by {
                let n = s.ready()[k];
                assert(deps_done(g, n, c0));
                assert forall|i: int| 0 <= i < deps_of(g, n).len() implies c.contains(#[trigger] deps_of(g, n)[i]) by {
                    assert(c0.contains(deps_of(g, n)[i]));
                }
            }
            match s.claimed() {
                Some(m) => {
                    assert(claimed0 == Some(m) && m != name@);
                    assert forall|i: int| 0 <= i < deps_of(g, m).len() implies c.contains(#[trigger] deps_of(g, m)[i]) by {
                        assert(c0.contains(deps_of(g, m)[i]));
                    }
                },
                None => {},
            }
            assert(progress_ok(g, t, s.running@, c, s.claimed()));
            assert(queue_ok(g, t, s.ready(), c));
            assert forall|n: Seq<char>| #[trigger] t.contains(n) && !c.contains(n) && !s.running@.contains(n) && s.claimed() != Some(n) && s.dependency_count@[n] == 0 && !s.failed implies s.ready().contains(n) by {
                assert(n != name@);
                assert(!r0.contains(n));
            }
            assert(ready_complete(t, s.dependency_count@, s.ready(), c, s.running@, s.claimed(), s.failed));
            old(s).running.lemma_finite();
            assert(s.running@.subset_of(r0));
            vstd::set_lib::lemma_len_subset(s.running@, r0);
        }
        self.release_dependents(name, s);
    }
}

/// The number of recipe lines of the named targets, counting each name once per entry.
pub open spec fn recipe_sum(g: Map<Seq<char>, Target>, names: Seq<Seq<char>>) -> nat
    decreases names.len(),
{
    if names.len() == 0 {
        0
    } else {
        recipe_sum(g, names.drop_last()) + if g.contains_key(names.last()) { g[names.last()].recipe@.len() } else { 0 }
    }
}

/// `a + b`, or the largest `usize` if that does not fit.
pub open spec fn capped(n: nat) -> nat {
    if n <= usize::MAX { n } else { usize::MAX as nat }
}

/// The fingerprints already known for the entries of `ds`, in order, skipping the others.
pub open spec fn known_fingerprints(fps: Map<Seq<char>, String>, ds: Seq<Seq<char>>) -> Seq<Seq<char>>
    decreases ds.len(),
{
    if ds.len() == 0 {
        Seq::empty()
    } else {
        known_fingerprints(fps, ds.drop_last()) + if fps.contains_key(ds.last()) { seq![fps[ds.last()]@] } else { Seq::empty() }
    }
}

/// What the scheduler asks for next.
#[derive(Debug, PartialEq, Eq)]
pub enum Next {
    /// Compute the fingerprint of `name` and hand it to `start_target`.
    Start { name: String },
    /// Wait for a job to report.
    Wait,
    /// Nothing runs and nothing more will start: the build is over.
    Finished,
}

/// What became of the target handed to `start_target`.
#[derive(Debug)]
pub enum Started {
    /// Up to date: its fingerprint matches and its outputs exist.
    Skipped { name: String },
    /// Nothing to run: its state is recorded.
    Recorded { name: String },
    /// Its commands are only shown.
    DryRun { name: String },
    /// Its commands must run; report back with `on_job_finished` and this fingerprint.
    Spawn { name: String, fingerprint: FingerprintResult },
    /// No target was waiting to start.
    Idle,
}

impl Executor {
    pub closed spec fn wf(&self) -> bool {
        &&& self.project.targets.wf()
        &&& self.cache.targets.wf()
        &&& self.fingerprints.wf()
        &&& (self.progress matches Some(p) ==> p.finished() <= p.total())
    }

    pub closed spec fn dry_run(&self) -> bool {
        self.dry_run
    }

    pub closed spec fn verbose(&self) -> bool {
        self.verbose
    }

    /// The directory commands run in.
    pub closed spec fn root_dir(&self) -> Seq<char> {
        self.root@
    }

    /// The shell that runs recipes.
    pub closed spec fn shell_path(&self) -> Seq<char> {
        self.project.shell@
    }

    pub closed spec fn jobs(&self) -> nat {
        self.jobs as nat
    }

    pub closed spec fn total_commands(&self) -> nat {
        self.total_commands as nat
    }

    pub closed spec fn finished_commands(&self) -> nat {
        self.finished_commands as nat
    }

    /// The fingerprints recorded during this build, by target.
    pub closed spec fn fingerprints(&self) -> Map<Seq<char>, String> {
        self.fingerprints@
    }

    /// The recorded build state, by target.
    pub closed spec fn cache_targets(&self) -> Map<Seq<char>, TargetState> {
        self.cache.targets@
    }

    pub closed spec fn progress_view(&self) -> Option<Progress> {
        self.progress
    }

    /// An executor for `project`, run from `root` with at most `jobs` jobs at once, with the
    /// state `cache` left by earlier builds.
    pub fn new(project: Project, root: String, jobs: usize, dry_run: bool, verbose: bool, cache: Cache) -> (e: Executor)
        requires
            project.targets.wf(),
            cache.targets.wf(),
        ensures
            e.wf(),
            e.graph() == project.targets@,
            e.jobs() == jobs,
            e.dry_run() == dry_run,
            e.verbose() == verbose,
            e.root_dir() == root@,
            e.shell_path() == project.shell@,
            e.total_commands() == 0,
            e.finished_commands() == 0,
            e.cache_targets() == cache.targets@,
            e.fingerprints() == Map::<Seq<char>, String>::empty(),
            e.progress_view() is None,
    {
        Executor {
            project,
            root,
            jobs,
            dry_run,
            verbose,
            total_commands: 0,
            finished_commands: 0,
            cache,
            fingerprints: StrMap::new(),
            progress: None,
        }
    }

    /// Prepares a build of `target`: gathers it and everything it depends on, counts their
    /// commands for the progress bar, and sets up the schedule.
    pub fn run(&mut self, target: &String, progress_enabled: bool) -> (r: Result<Schedule, BuildError>)
        requires
            old(self).wf(),
        ensures
            final(self).wf(),
            final(self).graph() == old(self).graph(),
            final(self).jobs() == old(self).jobs(),
            final(self).root_dir() == old(self).root_dir(),
            final(self).shell_path() == old(self).shell_path(),
            final(self).verbose() == old(self).verbose(),
            final(self).dry_run() == old(self).dry_run(),
            final(self).cache_targets() == old(self).cache_targets(),
            final(self).fingerprints() == old(self).fingerprints(),
            final(self).finished_commands() == old(self).finished_commands(),
            match r {
                Ok(s) => {
                    &&& s.inv(old(self).graph())
                    &&& s.targets() == reach_set(old(self).graph(), target@)
                    &&& old(self).graph().contains_key(target@)
                    &&& clean(old(self).graph(), target@)
                    &&& s.completed() == Set::<Seq<char>>::empty()
                    &&& s.running() == Set::<Seq<char>>::empty()
                    &&& s.claimed() is None
                    &&& !s.failed()
                    &&& s.jobs() == old(self).jobs()
                    &&& s.history() == Seq::<Event>::empty()
                    &&& final(self).total_commands() == capped(recipe_sum(old(self).graph(), s.target_order()))
                    &&& final(self).progress_view() matches Some(p) && p.total() == final(self).total_commands() && p.finished() == 0 && p.enabled() == progress_enabled
                },
                Err(BuildError::UnknownTarget { name: n }) => *final(self) == *old(self) && reaches(old(self).graph(), target@, n@) && !old(self).graph().contains_key(n@),
                Err(BuildError::DependencyCycle { name: n }) => *final(self) == *old(self) && reaches(old(self).graph(), target@, n@) && on_cycle(old(self).graph(), n@),
                Err(BuildError::Deadlock) => false,
            },
    {
        let targets = self.collect_targets(target)?;
        let ghost g = self.graph();
        let ghost items = targets.items();
        let n = targets.len();
        let mut total: usize = 0;
        let mut i: usize = 0;
        while i < n
            invariant
                g == self.graph(),
                self.project.targets.wf(),
                targets.wf(),
                items == targets.items(),
                n == items.len(),
                i <= n,
                total == capped(recipe_sum(g, items.subrange(0, i as int))),
            decreases n - i,
        {
            let name = targets.item_at(i);
            assert(items.subrange(0, i + 1).drop_last() =~= items.subrange(0, i as int));
            match self.project.targets.get(name) {
                Some(t) => {
                    total = total.saturating_add(t.recipe.len());
                },
                None => {},
            }
            i = i + 1;
        }
        assert(items.subrange(0, n as int) =~= items);
        self.total_commands = total;
        self.progress = Some(Progress::new(total, progress_enabled));
        Ok(self.schedule(targets))
    }

    /// Picks the next target to start, if one may start now; else says whether to wait for
    /// a job or stop. Refuses when nothing runs and nothing can start, yet targets remain,
    /// which cannot happen with at least one job and no dependency cycle.
    pub fn next_ready(&self, s: &mut Schedule) -> (r: Result<Next, BuildError>)
        requires
            old(s).inv(self.graph()),
        ensures
            final(s).inv(self.graph()),
            final(s).targets() == old(s).targets(),
            final(s).completed() == old(s).completed(),
            final(s).running() == old(s).running(),
            final(s).failed() == old(s).failed(),
            final(s).jobs() == old(s).jobs(),
            final(s).history() == old(s).history(),
            final(s).ready().len() <= old(s).ready().len(),
            final(s).ready() == old(s).ready().subrange(old(s).ready().len() - final(s).ready().len(), old(s).ready().len() as int),
            match r {
                Ok(Next::Start { name }) => {
                    &&& final(s).claimed() == Some(name@)
                    &&& old(s).claimed() is None ==> {
                        let d = old(s).ready().len() - final(s).ready().len();
                        &&& !old(s).failed()
                        &&& d >= 1
                        &&& old(s).ready()[d - 1] == name@
                        &&& skipped(old(s).ready(), old(s).completed(), old(s).running(), d - 1)
                    }
                    &&& old(s).claimed() is Some ==> final(s).ready() == old(s).ready()
                    &&& final(s).running().len() < final(s).jobs()
                    &&& final(s).targets().contains(name@)
                    &&& !final(s).completed().contains(name@)
                    &&& !final(s).running().contains(name@)
                    &&& deps_done(self.graph(), name@, final(s).completed())
                },
                Ok(Next::Wait) => {
                    &&& final(s).claimed() is None
                    &&& final(s).running().len() > 0
                    &&& skipped(old(s).ready(), old(s).completed(), old(s).running(), old(s).ready().len() - final(s).ready().len())
                    &&& (final(s).failed() || final(s).running().len() >= final(s).jobs()
                        || forall|n: Seq<char>| !#[trigger] startable(self.graph(), final(s).targets(), final(s).completed(), final(s).running(), n))
                },
                Ok(Next::Finished) => final(s).claimed() is None && final(s).running().len() == 0
                    && (final(s).failed() || final(s).completed() == final(s).targets())
                    && skipped(old(s).ready(), old(s).completed(), old(s).running(), old(s).ready().len() - final(s).ready().len()),
                Err(e) => {
                    &&& e is Deadlock
                    &&& skipped(old(s).ready(), old(s).completed(), old(s).running(), old(s).ready().len() - final(s).ready().len())
                    &&& final(s).claimed() is None
                    &&& final(s).running().len() == 0
                    &&& !final(s).failed()
                    &&& final(s).completed() != final(s).targets()
                    &&& (final(s).jobs() == 0 || !acyclic(self.graph()))
                },
            },
    {
        let ghost g = self.graph();
        match &s.claimed {
            Some(name) => {
                proof {
                    reveal(progress_ok);
                }
                return Ok(Next::Start { name: name.clone() });
            },
            None => {},
        }
        let ghost q = s.ready();
        let ghost mut d: int = 0;
        proof {
            s.targets.items().unique_seq_to_set();
            assert(q.subrange(0, q.len() as int) =~= q);
        }
        if s.completed.len() >= s.targets.len() {
            proof {
                reveal(progress_ok);
                vstd::seq_lib::seq_to_set_is_finite(s.targets.items());
                vstd::seq_lib::seq_to_set_is_finite(s.completed.items());
                vstd::set_lib::lemma_len_subset(s.completed@, s.targets@);
                vstd::set_lib::lemma_subset_equality(s.completed@, s.targets@);
                if s.running@.len() > 0 {
                    let x = s.running@.choose();
                    assert(s.running@.contains(x));
                    assert(s.completed@.contains(x));
                }
            }
            return Ok(Next::Finished);
        }
        loop
            invariant
                g == self.graph(),
                s.inv(g),
                s.targets == old(s).targets,
                s.completed == old(s).completed,
                s.running == old(s).running,
                s.failed == old(s).failed,
                s.jobs == old(s).jobs,
                s.claimed is None,
                q == old(s).ready(),
                old(s).claimed() is None,
                s.history == old(s).history,
                0 <= d <= q.len(),
                s.ready() == q.subrange(d, q.len() as int),
                skipped(q, s.completed@, s.running@, d),
            ensures
                s.failed || s.running@.len() >= s.jobs || s.ready@.len() == 0,
            decreases s.ready@.len(),
        {
            if s.failed || s.running.len() >= s.jobs || s.ready.len() == 0 {
                break;
            }
            let ghost q0 = s.ready();
            let name = s.ready.pop_front().unwrap();
            assert(name@ == q0[0]);
            assert(s.ready() =~= q0.subrange(1, q0.len() as int));
            proof {
                reveal(queue_ok);
                assert forall|j: int| 0 <= j < s.ready().len() implies s.targets@.contains(#[trigger] s.ready()[j]) && deps_done(g, s.ready()[j], s.completed@) by {
                    assert(s.ready()[j] == q0[j + 1]);
                }
                lemma_ready_pop(s.targets@, s.dependency_count@, q0, s.completed@, s.running@, s.failed);
            }
            assert(q[d] == name@);
            assert(s.ready() =~= q.subrange(d + 1, q.len() as int));
            if s.completed.contains(&name) || s.running.contains(&name) {
                proof {
                    d = d + 1;
                }
                continue;
            }
            proof {
                reveal(progress_ok);
                reveal(hist_ok);
                assert(q.len() - s.ready().len() == d + 1);
                assert(!s.history@.contains(Event::Started(name@)));
            }
            s.claimed = Some(name.clone());
            proof {
                reveal(hist_ok);
            }
            return Ok(Next::Start { name });
        }
        if s.running.len() == 0 {
            if s.failed {
                return Ok(Next::Finished);
            }
            if s.completed.len() == s.targets.len() {
                proof {
                    vstd::seq_lib::seq_to_set_is_finite(s.targets.items());
                    vstd::seq_lib::seq_to_set_is_finite(s.completed.items());
                    vstd::set_lib::lemma_subset_equality(s.completed@, s.targets@);
                }
                return Ok(Next::Finished);
            }
            proof {
                if s.jobs > 0 && acyclic(g) {
                    self.lemma_stuck(s);
                }
            }
            return Err(BuildError::Deadlock);
        }
        proof {
            if !s.failed && s.running@.len() < s.jobs {
                self.lemma_none_startable(s);
            }
        }
        Ok(Next::Wait)
    }

    /// With nothing failed, nothing claimed and nothing queued, no target may start.
    proof fn lemma_none_startable(&self, s: &Schedule)
        requires
            s.inv(self.graph()),
            !s.failed,
            s.claimed is None,
            s.ready@.len() == 0,
        ensures
            forall|n: Seq<char>| !#[trigger] startable(self.graph(), s.targets@, s.completed@, s.running@, n),
    {
        let g = self.graph();
        let t = s.targets@;
        let c = s.completed@;
        reveal(counts_ok);
        reveal(ready_complete);
        assert forall|n: Seq<char>| !#[trigger] startable(g, t, c, s.running@, n) by {
            if startable(g, t, c, s.running@, n) {
                lemma_pending_done(deps_of(g, n), t, c);
                assert(s.ready().contains(n));
            }
        }
    }

    /// With nothing running, nothing failed and nothing claimed, in an acyclic table some
    /// target is queued unless all have completed.
    proof fn lemma_stuck(&self, s: &Schedule)
        requires
            s.inv(self.graph()),
            acyclic(self.graph()),
            s.running@.len() == 0,
            !s.failed,
            s.claimed is None,
            s.completed@ != s.targets@,
        ensures
            s.ready@.len() > 0,
    {
        let g = self.graph();
        let t = s.targets@;
        let c = s.completed@;
        if forall|x: Seq<char>| #[trigger] t.contains(x) ==> c.contains(x) {
            reveal(progress_ok);
            assert(t =~= c);
        }
        let start = choose|x: Seq<char>| #[trigger] t.contains(x) && !c.contains(x);
        let u = t.difference(c);
        s.targets.lemma_finite();
        assert(u.contains(start));
        let n = crate::model::lemma_minimal(g, u, start);
        assert forall|i: int| 0 <= i < deps_of(g, n).len() implies c.contains(#[trigger] deps_of(g, n)[i]) by {
            assert(t.contains(deps_of(g, n)[i]));
            assert(!u.contains(deps_of(g, n)[i]));
        }
        if s.ready@.len() == 0 {
            self.lemma_none_startable(s);
            assert(!s.running@.contains(n));
            assert(!startable(g, t, c, s.running@, n));
        }
    }
}

/// Taking the front of the queue keeps every ready target accounted for, whether the
/// front is about to start or was already done or running.
proof fn lemma_ready_pop(t: Set<Seq<char>>, counts: Map<Seq<char>, usize>, q0: Seq<Seq<char>>, c: Set<Seq<char>>, r: Set<Seq<char>>, failed: bool)
    requires
        ready_complete(t, counts, q0, c, r, None, failed),
        q0.len() > 0,
    ensures
        ready_complete(t, counts, q0.subrange(1, q0.len() as int), c, r, Some(q0[0]), failed),
        c.contains(q0[0]) || r.contains(q0[0]) ==> ready_complete(t, counts, q0.subrange(1, q0.len() as int), c, r, None, failed),
{
    reveal(ready_complete);
    let q = q0.subrange(1, q0.len() as int);
    assert forall|n: Seq<char>| #[trigger] q0.contains(n) && n != q0[0] implies q.contains(n) by {
        let j = choose|j: int| 0 <= j < q0.len() && q0[j] == n;
        assert(q[j - 1] == n);
    }
}

/// When every entry of `ds` has completed, nothing is pending.
pub proof fn lemma_pending_done(ds: Seq<Seq<char>>, t: Set<Seq<char>>, c: Set<Seq<char>>)
    requires
        forall|i: int| 0 <= i < ds.len() ==> c.contains(#[trigger] ds[i]),
    ensures
        pending(ds, t, c) == 0,
    decreases ds.len(),
{
    if ds.len() > 0 {
        assert forall|i: int| 0 <= i < ds.drop_last().len() implies c.contains(#[trigger] ds.drop_last()[i]) by {
            assert(ds.drop_last()[i] == ds[i]);
        }
        lemma_pending_done(ds.drop_last(), t, c);
        assert(c.contains(ds[ds.len() - 1]));
    }
}

/// What is done with a target about to start.
pub enum Decision {
    Skip,
    Record,
    DryRun,
    Spawn,
}

/// A target is skipped when it is not marked `@always`, its fingerprint is the recorded
/// one and its outputs exist; else one without commands is only recorded; else in a dry
/// run its commands are only shown; else they run.
pub open spec fn decide(always: bool, fingerprint_matches: bool, outputs_exist: bool, recipe_empty: bool, dry_run: bool) -> Decision {
    if !always && fingerprint_matches && outputs_exist {
        Decision::Skip
    } else if recipe_empty {
        Decision::Record
    } else if dry_run {
        Decision::DryRun
    } else {
        Decision::Spawn
    }
}

impl Executor {
    /// The recorded state after a target succeeds: its fingerprint, and (unless this is a
    /// dry run) its cache entry.
    pub open spec fn recorded(&self, name: Seq<char>, fp: FingerprintResult) -> (Map<Seq<char>, String>, Map<Seq<char>, TargetState>) {
        (
            self.fingerprints().insert(name, fp.fingerprint),
            if self.dry_run() {
                self.cache_targets()
            } else {
                self.cache_targets().insert(name, TargetState { fingerprint: fp.fingerprint, files: fp.files })
            },
        )
    }

    /// Records that `name` succeeded with fingerprint `fingerprint_result`.
    fn record_target_state(&mut self, name: &String, fingerprint_result: FingerprintResult)
        requires
            old(self).wf(),
        ensures
            final(self).wf(),
            final(self).graph() == old(self).graph(),
            final(self).jobs() == old(self).jobs(),
            final(self).root_dir() == old(self).root_dir(),
            final(self).shell_path() == old(self).shell_path(),
            final(self).verbose() == old(self).verbose(),
            final(self).dry_run() == old(self).dry_run(),
            final(self).total_commands() == old(self).total_commands(),
            final(self).finished_commands() == old(self).finished_commands(),
            final(self).progress_view() == old(self).progress_view(),
            (final(self).fingerprints(), final(self).cache_targets()) == old(self).recorded(name@, fingerprint_result),
    {
        self.fingerprints.insert(name.clone(), fingerprint_result.fingerprint.clone());
        if self.dry_run {
            return;
        }
        self.cache.targets.insert(
            name.clone(),
            TargetState { fingerprint: fingerprint_result.fingerprint, files: fingerprint_result.files },
        );
    }

    /// Counts `n` more finished commands (never past the largest `usize`) and updates the bar.
    fn add_finished(&mut self, n: usize)
        requires
            old(self).wf(),
        ensures
            final(self).wf(),
            final(self).graph() == old(self).graph(),
            final(self).jobs() == old(self).jobs(),
            final(self).root_dir() == old(self).root_dir(),
            final(self).shell_path() == old(self).shell_path(),
            final(self).verbose() == old(self).verbose(),
            final(self).dry_run() == old(self).dry_run(),
            final(self).total_commands() == old(self).total_commands(),
            final(self).fingerprints() == old(self).fingerprints(),
            final(self).cache_targets() == old(self).cache_targets(),
            final(self).finished_commands() == capped(old(self).finished_commands() + (n as nat)),
            match old(self).progress_view() {
                Some(p) => final(self).progress_view() matches Some(q) && q.total() == p.total() && q.enabled() == p.enabled()
                    && q.finished() == (if final(self).finished_commands() < p.total() { final(self).finished_commands() } else { p.total() }),
                None => final(self).progress_view() is None,
            },
    {
        self.finished_commands = self.finished_commands.saturating_add(n);
        let finished = self.finished_commands;
        match self.progress.as_mut() {
            Some(p) => {
                p.set_finished(finished);
            },
            None => {},
        }
    }

    /// One command of a running job has finished.
    pub fn on_step_done(&mut self)
        requires
            old(self).wf(),
        ensures
            final(self).wf(),
            final(self).graph() == old(self).graph(),
            final(self).jobs() == old(self).jobs(),
            final(self).root_dir() == old(self).root_dir(),
            final(self).shell_path() == old(self).shell_path(),
            final(self).verbose() == old(self).verbose(),
            final(self).dry_run() == old(self).dry_run(),
            final(self).total_commands() == old(self).total_commands(),
            final(self).fingerprints() == old(self).fingerprints(),
            final(self).cache_targets() == old(self).cache_targets(),
            final(self).finished_commands() == capped(old(self).finished_commands() + 1nat),
            match old(self).progress_view() {
                Some(p) => final(self).progress_view() matches Some(q) && q.total() == p.total() && q.enabled() == p.enabled()
                    && q.finished() == (if final(self).finished_commands() < p.total() { final(self).finished_commands() } else { p.total() }),
                None => final(self).progress_view() is None,
            },
    {
        self.add_finished(1);
    }

    /// Starts the target that `next_ready` picked, given its fingerprint and whether all
    /// its outputs exist.
    pub fn start_target(&mut self, s: &mut Schedule, fingerprint_result: FingerprintResult, outputs_exist: bool) -> (r: Started)
        requires
            old(self).wf(),
            old(s).inv(old(self).graph()),
        ensures
            final(self).wf(),
            final(self).graph() == old(self).graph(),
            final(self).jobs() == old(self).jobs(),
            final(self).root_dir() == old(self).root_dir(),
            final(self).shell_path() == old(self).shell_path(),
            final(self).verbose() == old(self).verbose(),
            final(self).dry_run() == old(self).dry_run(),
            final(self).total_commands() == old(self).total_commands(),
            final(s).inv(old(self).graph()),
            final(s).targets() == old(s).targets(),
            final(s).failed() == old(s).failed(),
            final(s).jobs() == old(s).jobs(),
            final(s).claimed() is None,
            old(s).claimed() matches Some(n) && old(self).graph()[n].always ==> !(r is Skipped),
            match old(s).claimed() {
                None => {
                    &&& r is Idle
                    &&& final(s).history() == old(s).history()
                    &&& final(s).completed() == old(s).completed()
                    &&& final(s).running() == old(s).running()
                    &&& final(self).fingerprints() == old(self).fingerprints()
                    &&& final(self).cache_targets() == old(self).cache_targets()
                    &&& final(self).finished_commands() == old(self).finished_commands()
                },
                Some(name) => {
                    let t = old(self).graph()[name];
                    let matches = old(self).cache_targets().contains_key(name)
                        && old(self).cache_targets()[name].fingerprint@ == fingerprint_result.fingerprint@;
                    match decide(t.always, matches, outputs_exist, t.recipe@.len() == 0, old(self).dry_run()) {
                        Decision::Skip => {
                            &&& r matches Started::Skipped { name: n } && n@ == name
                            &&& final(s).history() == old(s).history().push(Event::Started(name)).push(Event::Completed(name))
                            &&& final(s).completed() == old(s).completed().insert(name)
                            &&& final(s).running() == old(s).running()
                            &&& final(self).fingerprints() == old(self).fingerprints().insert(name, fingerprint_result.fingerprint)
                            &&& final(self).cache_targets() == old(self).cache_targets()
                            &&& final(self).finished_commands() == capped(old(self).finished_commands() + t.recipe@.len())
                        },
                        Decision::Record => {
                            &&& r matches Started::Recorded { name: n } && n@ == name
                            &&& final(s).history() == old(s).history().push(Event::Started(name)).push(Event::Completed(name))
                            &&& final(s).completed() == old(s).completed().insert(name)
                            &&& final(s).running() == old(s).running()
                            &&& (final(self).fingerprints(), final(self).cache_targets()) == old(self).recorded(name, fingerprint_result)
                            &&& final(self).finished_commands() == old(self).finished_commands()
                        },
                        Decision::DryRun => {
                            &&& r matches Started::DryRun { name: n } && n@ == name
                            &&& final(s).history() == old(s).history().push(Event::Started(name)).push(Event::Completed(name))
                            &&& final(s).completed() == old(s).completed().insert(name)
                            &&& final(s).running() == old(s).running()
                            &&& final(self).fingerprints() == old(self).fingerprints().insert(name, fingerprint_result.fingerprint)
                            &&& final(self).cache_targets() == old(self).cache_targets()
                            &&& final(self).finished_commands() == capped(old(self).finished_commands() + t.recipe@.len())
                        },
                        Decision::Spawn => {
                            &&& r matches Started::Spawn { name: n, fingerprint } && n@ == name && fingerprint == fingerprint_result
                            &&& final(s).history() == old(s).history().push(Event::Started(name))
                            &&& final(s).completed() == old(s).completed()
                            &&& final(s).running() == old(s).running().insert(name)
                            &&& final(self).fingerprints() == old(self).fingerprints()
                            &&& final(self).cache_targets() == old(self).cache_targets()
                            &&& final(self).finished_commands() == old(self).finished_commands()
                        },
                    }
                },
            },
    {
        let ghost g = self.graph();
        let name = match &s.claimed {
            None => {
                return Started::Idle;
            },
            Some(n) => n.clone(),
        };
        proof {
            reveal(progress_ok);
            assert(old(s).claimed() == Some(name@));
            assert(dep_closed(g, s.targets@));
            assert(s.running@.remove(name@) =~= s.running@);
        }
        let target = self.project.targets.get(&name).unwrap();
        let always = target.always;
        let count = target.recipe.len();
        let fingerprint_matches = match self.cache.targets.get(&name) {
            Some(state) => state.fingerprint == fingerprint_result.fingerprint,
            None => false,
        };
        if !always && fingerprint_matches && outputs_exist {
            self.fingerprints.insert(name.clone(), fingerprint_result.fingerprint.clone());
            self.add_finished(count);
            self.mark_completed(s, &name);
            return Started::Skipped { name };
        }
        if count == 0 {
            self.record_target_state(&name, fingerprint_result);
            self.mark_completed(s, &name);
            return Started::Recorded { name };
        }
        if self.dry_run {
            self.fingerprints.insert(name.clone(), fingerprint_result.fingerprint.clone());
            self.add_finished(count);
            self.mark_completed(s, &name);
            return Started::DryRun { name };
        }
        let ghost r0 = s.running@;
        let ghost h0 = s.history@;
        proof {
            reveal(progress_ok);
            lemma_hist_spawn(g, s.targets@, s.completed@, r0, s.failed, h0, name@);
        }
        s.running.insert(name.clone());
        s.claimed = None;
        s.history = Ghost(h0.push(Event::Started(name@)));
        proof {
            let c = s.completed@;
            let t = s.targets@;
            reveal(progress_ok);
            reveal(ready_complete);
            assert forall|n: Seq<char>| #[trigger] s.running@.contains(n) implies deps_done(g, n, c) by {
                if n != name@ {
                    assert(old(s).running@.contains(n));
                }
            }
            assert forall|n: Seq<char>| #[trigger] t.contains(n) && !c.contains(n) && !s.running@.contains(n) && s.claimed() != Some(n) && s.dependency_count@[n] == 0 && !s.failed implies s.ready().contains(n) by {
                assert(n != name@);
                assert(!r0.contains(n));
                assert(old(s).claimed() != Some(n));
            }
            old(s).running.lemma_finite();
            assert(s.running@.len() == r0.len() + 1);
        }
        Started::Spawn { name, fingerprint: fingerprint_result }
    }

    /// A job has ended: on success its target completes and its dependents may start; on
    /// failure no further target starts. A name that is not running is ignored.
    pub fn on_job_finished(&mut self, s: &mut Schedule, name: &String, fingerprint_result: FingerprintResult, ok: bool)
        requires
            old(self).wf(),
            old(s).inv(old(self).graph()),
        ensures
            final(self).wf(),
            final(self).graph() == old(self).graph(),
            final(self).jobs() == old(self).jobs(),
            final(self).root_dir() == old(self).root_dir(),
            final(self).shell_path() == old(self).shell_path(),
            final(self).verbose() == old(self).verbose(),
            final(self).dry_run() == old(self).dry_run(),
            final(self).total_commands() == old(self).total_commands(),
            final(self).finished_commands() == old(self).finished_commands(),
            final(s).inv(old(self).graph()),
            final(s).targets() == old(s).targets(),
            final(s).claimed() == old(s).claimed(),
            final(s).jobs() == old(s).jobs(),
            !old(s).running().contains(name@) ==> {
                &&& final(s).completed() == old(s).completed()
                &&& final(s).running() == old(s).running()
                &&& final(s).failed() == old(s).failed()
                &&& final(s).history() == old(s).history()
                &&& final(self).fingerprints() == old(self).fingerprints()
                &&& final(self).cache_targets() == old(self).cache_targets()
            },
            old(s).running().contains(name@) ==> {
                &&& final(s).running() == old(s).running().remove(name@)
                &&& final(s).history() == old(s).history().push(if ok { Event::Completed(name@) } else { Event::Failed(name@) })
                &&& ok ==> final(s).completed() == old(s).completed().insert(name@) && final(s).failed() == old(s).failed()
                    && (final(self).fingerprints(), final(self).cache_targets()) == old(self).recorded(name@, fingerprint_result)
                &&& !ok ==> final(s).completed() == old(s).completed() && final(s).failed()
                    && final(self).fingerprints() == old(self).fingerprints() && final(self).cache_targets() == old(self).cache_targets()
            },
    {
        let ghost g = self.graph();
        if !s.running.contains(name) {
            return;
        }
        proof {
            reveal(progress_ok);
            assert(deps_done(g, name@, s.completed@));
            assert(s.claimed() != Some(name@));
        }
        if ok {
            self.record_target_state(name, fingerprint_result);
            self.mark_completed(s, name);
        } else {
            let ghost r0 = s.running@;
            let ghost h0 = s.history@;
            proof {
                reveal(progress_ok);
                lemma_hist_fail(g, s.targets@, s.completed@, r0, s.claimed(), s.failed, h0, name@);
            }
            s.failed = true;
            s.running.remove(name);
            s.history = Ghost(h0.push(Event::Failed(name@)));
            proof {
                reveal(progress_ok);
                reveal(ready_complete);
                assert(progress_ok(g, s.targets@, s.running@, s.completed@, s.claimed()));
                old(s).running.lemma_finite();
                assert(s.running@.len() < r0.len());
            }
        }
    }
}

impl Executor {
    /// The target named `name`.
    pub fn target(&self, name: &String) -> (t: Option<&Target>)
        requires
            self.wf(),
        ensures
            match t {
                Some(t) => self.graph().contains_key(name@) && *t == self.graph()[name@],
                None => !self.graph().contains_key(name@),
            },
    {
        self.project.targets.get(name)
    }

    /// The fingerprints already recorded for the dependencies of `name`, in order.
    pub fn dependency_fingerprints(&self, name: &String) -> (r: Vec<String>)
        requires
            self.wf(),
        ensures
            self.graph().contains_key(name@) ==> crate::model::strs(r@) == known_fingerprints(self.fingerprints(), deps_of(self.graph(), name@)),
            self.graph().contains_key(name@) ==> forall|i: int| 0 <= i < deps_of(self.graph(), name@).len()
                && #[trigger] self.fingerprints().contains_key(deps_of(self.graph(), name@)[i])
                ==> crate::model::strs(r@).contains(self.fingerprints()[deps_of(self.graph(), name@)[i]]@),
            !self.graph().contains_key(name@) ==> r@.len() == 0,
    {
        let mut r: Vec<String> = Vec::new();
        let target = match self.project.targets.get(name) {
            Some(t) => t,
            None => {
                return r;
            },
        };
        let ghost ds = deps_of(self.graph(), name@);
        let mut i: usize = 0;
        while i < target.dependencies.len()
            invariant
                self.wf(),
                ds == crate::model::strs(target.dependencies@),
                i <= ds.len(),
                crate::model::strs(r@) == known_fingerprints(self.fingerprints(), ds.subrange(0, i as int)),
            decreases ds.len() - i,
        {
            assert(ds.subrange(0, i + 1).drop_last() =~= ds.subrange(0, i as int));
            assert(ds.subrange(0, i + 1).last() == target.dependencies@[i as int]@);
            match self.fingerprints.get(&target.dependencies[i]) {
                Some(fp) => {
                    let ghost r0 = r@;
                    r.push(fp.clone());
                    proof {
                        crate::parser::lemma_strs_push(r0, r@.last());
                    }
                    assert(crate::model::strs(r@) =~= known_fingerprints(self.fingerprints(), ds.subrange(0, i as int)) + seq![fp@]);
                },
                None => {
                    assert(known_fingerprints(self.fingerprints(), ds.subrange(0, i as int)) + Seq::<Seq<char>>::empty() =~= known_fingerprints(self.fingerprints(), ds.subrange(0, i as int)));
                },
            }
            i = i + 1;
        }
        assert(ds.subrange(0, ds.len() as int) =~= ds);
        proof {
            assert forall|i: int| 0 <= i < ds.len() && #[trigger] self.fingerprints().contains_key(ds[i])
                implies crate::model::strs(r@).contains(self.fingerprints()[ds[i]]@) by {
                lemma_known_fingerprints_each(self.fingerprints(), ds, i);
            }
        }
        r
    }

    /// The files recorded with `name` when it last succeeded.
    pub fn previous_files(&self, name: &String) -> (r: Option<&StrMap<crate::cache::FileState>>)
        requires
            self.wf(),
        ensures
            match r {
                Some(f) => self.cache_targets().contains_key(name@) && *f == self.cache_targets()[name@].files,
                None => !self.cache_targets().contains_key(name@),
            },
    {
        match self.cache.targets.get(name) {
            Some(state) => Some(&state.files),
            None => None,
        }
    }

    /// The progress bar, once a build has been prepared.
    pub fn progress(&self) -> (p: Option<&Progress>)
        ensures
            p == match self.progress_view() {
                Some(q) => Some(&q),
                None => None::<&Progress>,
            },
    {
        self.progress.as_ref()
    }

    /// The build state to keep for the next run.
    pub fn cache(&self) -> (c: &Cache)
        ensures
            c.targets@ == self.cache_targets(),
    {
        &self.cache
    }

    /// The shell that runs recipes.
    pub fn shell(&self) -> (r: &String)
        ensures
            r@ == self.shell_path(),
    {
        &self.project.shell
    }

    /// The directory commands run in.
    pub fn root(&self) -> (r: &String)
        ensures
            r@ == self.root_dir(),
    {
        &self.root
    }

    pub fn jobs_limit(&self) -> (j: usize)
        ensures
            j == self.jobs(),
    {
        self.jobs
    }

    pub fn is_dry_run(&self) -> (b: bool)
        ensures
            b == self.dry_run(),
    {
        self.dry_run
    }

    pub fn is_verbose(&self) -> (b: bool)
        ensures
            b == self.verbose(),
    {
        self.verbose
    }

    /// Whether the build state is saved when the build ends: not in a dry run.
    pub fn saves_cache(&self) -> (b: bool)
        ensures
            b == !self.dry_run(),
    {
        !self.dry_run
    }
}

/// No target runs or completes before every one of its dependencies has completed, and no
/// target is both running and completed.
pub proof fn lemma_dependencies_first(e: &Executor, s: &Schedule)
    requires
        s.inv(e.graph()),
    ensures
        forall|n: Seq<char>| #[trigger] s.running().contains(n) ==> deps_done(e.graph(), n, s.completed()),
        forall|n: Seq<char>| #[trigger] s.completed().contains(n) ==> deps_done(e.graph(), n, s.completed()),
        s.completed().disjoint(s.running()),
        s.completed().subset_of(s.targets()),
        s.running().subset_of(s.targets()),
{
    reveal(progress_ok);
}

/// Over a whole build, as its history records it: no target starts until each of its
/// dependencies has completed (so none starts after a dependency failed), none starts,
/// completes or fails twice, only targets to be built start, a target completes or fails
/// only after it started, the completed targets are exactly those with a completion, and
/// the running targets are exactly those started that have neither completed nor failed.
pub proof fn lemma_build_history(e: &Executor, s: &Schedule)
    requires
        s.inv(e.graph()),
    ensures
        s.history().no_duplicates(),
        forall|i: int| 0 <= i < s.history().len() ==> #[trigger] event_ok(e.graph(), s.targets(), s.history(), i),
        forall|n: Seq<char>| #[trigger] s.completed().contains(n) <==> s.history().contains(Event::Completed(n)),
        forall|n: Seq<char>| #[trigger] s.running().contains(n) <==> s.history().contains(Event::Started(n))
            && !s.history().contains(Event::Completed(n)) && !s.history().contains(Event::Failed(n)),
        forall|n: Seq<char>| #[trigger] s.history().contains(Event::Failed(n)) ==> s.failed() && !s.completed().contains(n),
{
    reveal(hist_ok);
    reveal(progress_ok);
    let h = s.history();
    assert forall|n: Seq<char>| #[trigger] s.running().contains(n) <==> h.contains(Event::Started(n))
        && !h.contains(Event::Completed(n)) && !h.contains(Event::Failed(n)) by {
        if s.running().contains(n) {
            assert(!s.completed().contains(n));
        }
    }
}

/// What a build that is not a dry run records of a target makes a later build, started
/// from that record, skip it: when the target's fingerprint comes out the same, its
/// outputs exist and it is not marked `@always`.
pub proof fn lemma_rebuild_skips(first: &Executor, later: &Executor, name: Seq<char>, fp: FingerprintResult, fp_again: FingerprintResult, always: bool, outputs_exist: bool, recipe_empty: bool, dry_run: bool)
    requires
        !first.dry_run(),
        later.cache_targets() == first.recorded(name, fp).1,
        fp_again.fingerprint@ == fp.fingerprint@,
        outputs_exist,
        !always,
    ensures
        later.cache_targets().contains_key(name),
        later.cache_targets()[name].fingerprint@ == fp_again.fingerprint@,
        decide(always, true, outputs_exist, recipe_empty, dry_run) is Skip,
{
}

/// A target marked `@always` is never skipped, whatever its record and its outputs say;
/// a target is skipped exactly when it is not marked `@always`, its fingerprint matches
/// the recorded one and its outputs exist. A target that is not skipped, has commands and
/// is not in a dry run has them run.
pub proof fn lemma_always_rebuilds(always: bool, fingerprint_matches: bool, outputs_exist: bool, recipe_empty: bool, dry_run: bool)
    ensures
        always ==> !(decide(always, fingerprint_matches, outputs_exist, recipe_empty, dry_run) is Skip),
        (decide(always, fingerprint_matches, outputs_exist, recipe_empty, dry_run) is Skip) <==> (!always && fingerprint_matches && outputs_exist),
        !(decide(always, fingerprint_matches, outputs_exist, recipe_empty, dry_run) is Skip) && !recipe_empty && !dry_run
            ==> decide(always, fingerprint_matches, outputs_exist, recipe_empty, dry_run) is Spawn,
        !fingerprint_matches || !outputs_exist ==> !(decide(always, fingerprint_matches, outputs_exist, recipe_empty, dry_run) is Skip),
{
}

/// The fingerprints handed on from dependencies: those of a list followed by another are
/// those of the first followed by those of the second.
pub proof fn lemma_known_fingerprints_concat(fps: Map<Seq<char>, String>, a: Seq<Seq<char>>, b: Seq<Seq<char>>)
    ensures
        known_fingerprints(fps, a + b) == known_fingerprints(fps, a) + known_fingerprints(fps, b),
    decreases b.len(),
{
    if b.len() == 0 {
        assert(a + b =~= a);
        assert(known_fingerprints(fps, a) + known_fingerprints(fps, b) =~= known_fingerprints(fps, a));
    } else {
        lemma_known_fingerprints_concat(fps, a, b.drop_last());
        assert((a + b).drop_last() =~= a + b.drop_last());
        assert((a + b).last() == b.last());
        assert(known_fingerprints(fps, a) + known_fingerprints(fps, b) =~= known_fingerprints(fps, a) + known_fingerprints(fps, b.drop_last())
            + if fps.contains_key(b.last()) { seq![fps[b.last()]@] } else { Seq::<Seq<char>>::empty() });
    }
}

/// One dependency hands on its recorded fingerprint, if it has one, and nothing else.
pub proof fn lemma_known_fingerprints_single(fps: Map<Seq<char>, String>, d: Seq<char>)
    ensures
        known_fingerprints(fps, seq![d]) == if fps.contains_key(d) { seq![fps[d]@] } else { Seq::<Seq<char>>::empty() },
{
    assert(seq![d].drop_last() =~= Seq::<Seq<char>>::empty());
    assert(known_fingerprints(fps, Seq::<Seq<char>>::empty()) == Seq::<Seq<char>>::empty());
    assert(seq![d].last() == d);
    assert(Seq::<Seq<char>>::empty() + (if fps.contains_key(d) { seq![fps[d]@] } else { Seq::<Seq<char>>::empty() })
        =~= (if fps.contains_key(d) { seq![fps[d]@] } else { Seq::<Seq<char>>::empty() }));
}

/// Every dependency with a recorded fingerprint hands it on: whatever its place in the
/// list, its fingerprint is among those handed on, after those of the dependencies before
/// it and before those of the dependencies after it.
pub proof fn lemma_known_fingerprints_each(fps: Map<Seq<char>, String>, ds: Seq<Seq<char>>, i: int)
    requires
        0 <= i < ds.len(),
        fps.contains_key(ds[i]),
    ensures
        known_fingerprints(fps, ds) == known_fingerprints(fps, ds.subrange(0, i)) + seq![fps[ds[i]]@] + known_fingerprints(fps, ds.subrange(i + 1, ds.len() as int)),
        known_fingerprints(fps, ds).contains(fps[ds[i]]@),
{
    let a = ds.subrange(0, i);
    let b = ds.subrange(i + 1, ds.len() as int);
    assert(ds =~= a + seq![ds[i]] + b);
    lemma_known_fingerprints_concat(fps, a + seq![ds[i]], b);
    lemma_known_fingerprints_concat(fps, a, seq![ds[i]]);
    lemma_known_fingerprints_single(fps, ds[i]);
    let k = known_fingerprints(fps, ds);
    assert(k[known_fingerprints(fps, a).len() as int] == fps[ds[i]]@);
}

/// Never more than `jobs` targets run at once, and one is only picked to start while
/// there is room for it.
pub proof fn lemma_job_limit(e: &Executor, s: &Schedule)
    requires
        s.inv(e.graph()),
    ensures
        s.running().len() <= s.jobs(),
        s.claimed() is Some ==> s.running().len() < s.jobs(),
{
}
} // verus!
