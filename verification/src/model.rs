use vstd::prelude::*;

use crate::collections::{StrMap, has_key, key_pos};

verus! {

/// Strings taken by their characters.
pub open spec fn strs(v: Seq<String>) -> Seq<Seq<char>> {
    v.map_values(|s: String| s@)
}

/// A target as the contracts see it.
pub struct TargetView {
    pub name: Seq<char>,
    pub dependencies: Seq<Seq<char>>,
    pub watches: Seq<Seq<char>>,
    pub outputs: Seq<Seq<char>>,
    pub always: bool,
    pub recipe: Seq<Seq<char>>,
}

/// A rule of the build file: what it depends on, which files it watches,
/// which files it must produce, and the commands that build it.
#[derive(Debug)]
pub struct Target {
    pub name: String,
    pub dependencies: Vec<String>,
    pub watches: Vec<String>,
    /// Output paths, already joined to the directory of the file that declared them.
    pub outputs: Vec<String>,
    pub always: bool,
    pub recipe: Vec<String>,
}

impl View for Target {
    type V = TargetView;

    open spec fn view(&self) -> TargetView {
        TargetView {
            name: self.name@,
            dependencies: strs(self.dependencies@),
            watches: strs(self.watches@),
            outputs: strs(self.outputs@),
            always: self.always,
            recipe: strs(self.recipe@),
        }
    }
}

/// A target with the given name and dependencies and nothing else.
pub open spec fn fresh_target(name: Seq<char>, dependencies: Seq<Seq<char>>) -> TargetView {
    TargetView {
        name,
        dependencies,
        watches: Seq::empty(),
        outputs: Seq::empty(),
        always: false,
        recipe: Seq::empty(),
    }
}

pub fn clone_strings(v: &Vec<String>) -> (r: Vec<String>)
    ensures
        strs(r@) == strs(v@),
{
    let mut r: Vec<String> = Vec::new();
    let mut i: usize = 0;
    while i < v.len()
        invariant
            i <= v@.len(),
            strs(r@) == strs(v@).subrange(0, i as int),
        decreases v@.len() - i,
    {
        let c = v[i].clone();
        let ghost r0 = r@;
        r.push(c);
        assert(r@ == r0.push(c));
        assert(strs(r0.push(c)) =~= strs(r0).push(c@));
        assert(strs(v@).subrange(0, i + 1) =~= strs(v@).subrange(0, i as int).push(v@[i as int]@));
        i = i + 1;
        assert(strs(r@) =~= strs(v@).subrange(0, i as int));
    }
    assert(strs(v@).subrange(0, v@.len() as int) =~= strs(v@));
    r
}

impl Target {
    pub fn new(name: String, dependencies: Vec<String>) -> (t: Target)
        ensures
            t@ == fresh_target(name@, strs(dependencies@)),
    {
        let t = Target {
            name,
            dependencies,
            watches: Vec::new(),
            outputs: Vec::new(),
            always: false,
            recipe: Vec::new(),
        };
        assert(strs(t.watches@) =~= Seq::empty());
        assert(strs(t.outputs@) =~= Seq::empty());
        assert(strs(t.recipe@) =~= Seq::empty());
        t
    }

    /// A copy of the target.
    pub fn duplicate(&self) -> (t: Target)
        ensures
            t@ == self@,
    {
        Target {
            name: self.name.clone(),
            dependencies: clone_strings(&self.dependencies),
            watches: clone_strings(&self.watches),
            outputs: clone_strings(&self.outputs),
            always: self.always,
            recipe: clone_strings(&self.recipe),
        }
    }
}

/// A parsed build file: its variables, its targets (keyed by name) and the shell
/// that runs recipes.
#[derive(Debug)]
pub struct Project {
    pub variables: StrMap<String>,
    pub targets: StrMap<Target>,
    pub shell: String,
}

impl Project {
    /// What a parsed project satisfies: names are distinct, each target is stored under
    /// its name, every dependency is a target, and no target depends on itself.
    pub open spec fn wf(&self) -> bool {
        &&& self.variables.wf()
        &&& self.targets.wf()
        &&& keyed_by_name(self.targets@)
        &&& deps_known(self.targets@)
        &&& acyclic(self.targets@)
    }
}

/// The dependencies of target `n` in the target table `g`.
pub open spec fn deps_of(g: Map<Seq<char>, Target>, n: Seq<char>) -> Seq<Seq<char>> {
    strs(g[n].dependencies@)
}

/// Consecutive names in `p` are linked: each but the last is a target that depends on the next.
pub open spec fn is_path(g: Map<Seq<char>, Target>, p: Seq<Seq<char>>) -> bool {
    &&& p.len() >= 1
    &&& forall|i: int|
        0 <= i < p.len() - 1 ==> g.contains_key(#[trigger] p[i]) && deps_of(g, p[i]).contains(
            p[i + 1],
        )
}

/// `b` is `a` or is reached from `a` by following dependencies.
pub open spec fn reaches(g: Map<Seq<char>, Target>, a: Seq<char>, b: Seq<char>) -> bool {
    exists|p: Seq<Seq<char>>| #[trigger] is_path(g, p) && p[0] == a && p.last() == b
}

/// Following dependencies from `a` leads back to `a`.
pub open spec fn on_cycle(g: Map<Seq<char>, Target>, a: Seq<char>) -> bool {
    exists|p: Seq<Seq<char>>| #[trigger] is_path(g, p) && p.len() >= 2 && p[0] == a && p.last() == a
}

pub open spec fn acyclic(g: Map<Seq<char>, Target>) -> bool {
    forall|a: Seq<char>| !#[trigger] on_cycle(g, a)
}

/// Every dependency of every target is itself a target.
pub open spec fn deps_known(g: Map<Seq<char>, Target>) -> bool {
    forall|n: Seq<char>, i: int|
        g.contains_key(n) && 0 <= i < deps_of(g, n).len() ==> g.contains_key(
            #[trigger] deps_of(g, n)[i],
        )
}

/// Each target is stored under its own name.
pub open spec fn keyed_by_name(g: Map<Seq<char>, Target>) -> bool {
    forall|n: Seq<char>| g.contains_key(n) ==> (#[trigger] g[n]).name@ == n
}

pub proof fn lemma_path_single(g: Map<Seq<char>, Target>, a: Seq<char>)
    ensures
        is_path(g, seq![a]),
        reaches(g, a, a),
{
    assert(is_path(g, seq![a]));
}

pub proof fn lemma_path_extend(g: Map<Seq<char>, Target>, p: Seq<Seq<char>>, d: Seq<char>)
    requires
        is_path(g, p),
        g.contains_key(p.last()),
        deps_of(g, p.last()).contains(d),
    ensures
        is_path(g, p.push(d)),
        p.push(d)[0] == p[0],
        p.push(d).last() == d,
{
    let q = p.push(d);
    assert forall|i: int| 0 <= i < q.len() - 1 implies g.contains_key(#[trigger] q[i])
        && deps_of(g, q[i]).contains(q[i + 1]) by {
        if i < p.len() - 1 {
            assert(q[i] == p[i] && q[i + 1] == p[i + 1]);
        } else {
            assert(q[i] == p.last());
        }
    }
}

/// Joining paths end to start.
pub proof fn lemma_path_concat(g: Map<Seq<char>, Target>, p: Seq<Seq<char>>, q: Seq<Seq<char>>)
    requires
        is_path(g, p),
        is_path(g, q),
        p.last() == q[0],
    ensures
        is_path(g, p + q.drop_first()),
        (p + q.drop_first())[0] == p[0],
        (p + q.drop_first()).last() == q.last(),
        (p + q.drop_first()).len() == p.len() + q.len() - 1,
{
    let r = p + q.drop_first();
    assert forall|i: int| 0 <= i < r.len() - 1 implies g.contains_key(#[trigger] r[i])
        && deps_of(g, r[i]).contains(r[i + 1]) by {
        if i < p.len() - 1 {
            assert(r[i] == p[i] && r[i + 1] == p[i + 1]);
        } else {
            let j = i - (p.len() - 1);
            assert(r[i] == q[j]);
            assert(r[i + 1] == q[j + 1]);
        }
    }
    if q.len() > 1 {
        assert(r.last() == q.last());
    }
}

pub proof fn lemma_reaches_trans(g: Map<Seq<char>, Target>, a: Seq<char>, b: Seq<char>, c: Seq<char>)
    requires
        reaches(g, a, b),
        reaches(g, b, c),
    ensures
        reaches(g, a, c),
{
    let p = choose|p: Seq<Seq<char>>| #[trigger] is_path(g, p) && p[0] == a && p.last() == b;
    let q = choose|q: Seq<Seq<char>>| #[trigger] is_path(g, q) && q[0] == b && q.last() == c;
    lemma_path_concat(g, p, q);
}


/// `b` is reached from `a` by following at least one dependency.
pub open spec fn reaches_plus(g: Map<Seq<char>, Target>, a: Seq<char>, b: Seq<char>) -> bool {
    exists|p: Seq<Seq<char>>| #[trigger] is_path(g, p) && p.len() >= 2 && p[0] == a && p.last() == b
}

/// Nothing reached from `v` lies on a cycle.
pub open spec fn clean(g: Map<Seq<char>, Target>, v: Seq<char>) -> bool {
    forall|w: Seq<char>| #[trigger] reaches(g, v, w) ==> !on_cycle(g, w)
}

pub proof fn lemma_edge(g: Map<Seq<char>, Target>, a: Seq<char>, d: Seq<char>)
    requires
        g.contains_key(a),
        deps_of(g, a).contains(d),
    ensures
        reaches_plus(g, a, d),
        reaches(g, a, d),
{
    lemma_path_single(g, a);
    lemma_path_extend(g, seq![a], d);
    assert(seq![a].push(d).len() == 2);
}

pub proof fn lemma_reaches_plus_step(g: Map<Seq<char>, Target>, a: Seq<char>, b: Seq<char>, d: Seq<char>)
    requires
        reaches_plus(g, a, b),
        g.contains_key(b),
        deps_of(g, b).contains(d),
    ensures
        reaches_plus(g, a, d),
{
    let p = choose|p: Seq<Seq<char>>| #[trigger] is_path(g, p) && p.len() >= 2 && p[0] == a && p.last() == b;
    lemma_path_extend(g, p, d);
}

/// A path without its first name.
pub proof fn lemma_path_tail(g: Map<Seq<char>, Target>, p: Seq<Seq<char>>)
    requires
        is_path(g, p),
        p.len() >= 2,
    ensures
        is_path(g, p.drop_first()),
        p.drop_first()[0] == p[1],
        p.drop_first().last() == p.last(),
        g.contains_key(p[0]),
        deps_of(g, p[0]).contains(p[1]),
{
    let q = p.drop_first();
    assert forall|i: int| 0 <= i < q.len() - 1 implies g.contains_key(#[trigger] q[i])
        && deps_of(g, q[i]).contains(q[i + 1]) by {
        assert(q[i] == p[i + 1]);
        assert(q[i + 1] == p[i + 2]);
    }
    assert(g.contains_key(p[0]) && deps_of(g, p[0]).contains(p[1]));
}

/// A name all of whose dependencies are clean is clean.
pub proof fn lemma_clean_from_deps(g: Map<Seq<char>, Target>, n: Seq<char>)
    requires
        g.contains_key(n),
        forall|d: Seq<char>| deps_of(g, n).contains(d) ==> #[trigger] clean(g, d),
    ensures
        clean(g, n),
{
    assert forall|w: Seq<char>| #[trigger] reaches(g, n, w) implies !on_cycle(g, w) by {
        let p = choose|p: Seq<Seq<char>>| #[trigger] is_path(g, p) && p[0] == n && p.last() == w;
        if on_cycle(g, w) {
            let c = choose|c: Seq<Seq<char>>| #[trigger] is_path(g, c) && c.len() >= 2 && c[0] == w && c.last() == w;
            if p.len() == 1 {
                // w is n: the cycle leaves n through a dependency that reaches n again
                lemma_path_tail(g, c);
                let x = c[1];
                assert(clean(g, x));
                assert(reaches(g, x, n));
                assert(!on_cycle(g, n));
            } else {
                lemma_path_tail(g, p);
                let x = p[1];
                assert(clean(g, x));
                assert(reaches(g, x, w));
            }
        }
    }
}

/// A path that has an edge starts at a target.
pub proof fn lemma_cycle_start(g: Map<Seq<char>, Target>, a: Seq<char>)
    requires
        on_cycle(g, a),
    ensures
        g.contains_key(a),
{
    let c = choose|c: Seq<Seq<char>>| #[trigger] is_path(g, c) && c.len() >= 2 && c[0] == a && c.last() == a;
    lemma_path_tail(g, c);
}

/// Every member of `s` is a target whose dependencies are all members.
pub open spec fn dep_closed(g: Map<Seq<char>, Target>, s: Set<Seq<char>>) -> bool {
    forall|t: Seq<char>| #[trigger] s.contains(t) ==> g.contains_key(t) && forall|i: int| 0 <= i < deps_of(g, t).len() ==> s.contains(#[trigger] deps_of(g, t)[i])
}

/// The names reached from `a`, `a` included.
pub open spec fn reach_set(g: Map<Seq<char>, Target>, a: Seq<char>) -> Set<Seq<char>> {
    Set::new(|n: Seq<char>| reaches(g, a, n))
}

/// A set closed under dependencies holds everything reached from its members.
pub proof fn lemma_closed_path(g: Map<Seq<char>, Target>, s: Set<Seq<char>>, p: Seq<Seq<char>>)
    requires
        dep_closed(g, s),
        is_path(g, p),
        s.contains(p[0]),
    ensures
        s.contains(p.last()),
    decreases p.len(),
{
    if p.len() >= 2 {
        lemma_path_tail(g, p);
        let d = p[1];
        let j = choose|j: int| 0 <= j < deps_of(g, p[0]).len() && deps_of(g, p[0])[j] == d;
        assert(s.contains(deps_of(g, p[0])[j]));
        lemma_closed_path(g, s, p.drop_first());
    }
}

/// A stretch of a path is a path.
pub proof fn lemma_subpath(g: Map<Seq<char>, Target>, p: Seq<Seq<char>>, i: int, j: int)
    requires
        is_path(g, p),
        0 <= i <= j < p.len(),
    ensures
        is_path(g, p.subrange(i, j + 1)),
{
    let q = p.subrange(i, j + 1);
    assert forall|k: int| 0 <= k < q.len() - 1 implies g.contains_key(#[trigger] q[k]) && deps_of(g, q[k]).contains(q[k + 1]) by {
        assert(q[k] == p[i + k]);
        assert(q[k + 1] == p[i + k + 1]);
    }
}

/// When every member of `u` depends on a member of `u`, paths through `u` go on forever.
pub proof fn lemma_long_path(g: Map<Seq<char>, Target>, u: Set<Seq<char>>, start: Seq<char>, k: nat) -> (p: Seq<Seq<char>>)
    requires
        u.contains(start),
        forall|n: Seq<char>| #[trigger] u.contains(n) ==> g.contains_key(n) && exists|i: int| 0 <= i < deps_of(g, n).len() && u.contains(#[trigger] deps_of(g, n)[i]),
    ensures
        is_path(g, p),
        p.len() == k + 1,
        forall|i: int| 0 <= i < p.len() ==> u.contains(#[trigger] p[i]),
    decreases k,
{
    if k == 0 {
        lemma_path_single(g, start);
        seq![start]
    } else {
        let q = lemma_long_path(g, u, start, (k - 1) as nat);
        let last = q.last();
        assert(u.contains(q[q.len() - 1]));
        let i = choose|i: int| 0 <= i < deps_of(g, last).len() && u.contains(#[trigger] deps_of(g, last)[i]);
        let d = deps_of(g, last)[i];
        lemma_path_extend(g, q, d);
        let p = q.push(d);
        assert forall|j: int| 0 <= j < p.len() implies u.contains(#[trigger] p[j]) by {
            if j < q.len() {
                assert(p[j] == q[j]);
            }
        }
        p
    }
}

/// A sequence longer than a finite set it lies in repeats a member.
pub proof fn lemma_pigeonhole(p: Seq<Seq<char>>, u: Set<Seq<char>>)
    requires
        u.finite(),
        p.len() > u.len(),
        forall|i: int| 0 <= i < p.len() ==> u.contains(#[trigger] p[i]),
    ensures
        exists|i: int, j: int| 0 <= i < j < p.len() && p[i] == p[j],
{
    if p.no_duplicates() {
        p.unique_seq_to_set();
        assert(p.to_set().subset_of(u));
        vstd::set_lib::lemma_len_subset(p.to_set(), u);
        assert(false);
    } else {
        let (i, j) = choose|i: int, j: int| 0 <= i < p.len() && 0 <= j < p.len() && i != j && p[i] == p[j];
        if i < j {
            assert(0 <= i < j < p.len() && p[i] == p[j]);
        } else {
            assert(0 <= j < i < p.len() && p[j] == p[i]);
        }
    }
}

/// If every member of a finite non-empty set depends on a member, there is a cycle.
pub proof fn lemma_no_sink_cycle(g: Map<Seq<char>, Target>, u: Set<Seq<char>>, start: Seq<char>) -> (a: Seq<char>)
    requires
        u.finite(),
        u.contains(start),
        forall|n: Seq<char>| #[trigger] u.contains(n) ==> g.contains_key(n) && exists|i: int| 0 <= i < deps_of(g, n).len() && u.contains(#[trigger] deps_of(g, n)[i]),
    ensures
        on_cycle(g, a),
{
    let p = lemma_long_path(g, u, start, u.len());
    lemma_pigeonhole(p, u);
    let (i, j) = choose|i: int, j: int| 0 <= i < j < p.len() && p[i] == p[j];
    lemma_subpath(g, p, i, j);
    let c = p.subrange(i, j + 1);
    assert(c[0] == p[i] && c.last() == p[j]);
    assert(is_path(g, c) && c.len() >= 2 && c[0] == p[i] && c.last() == p[i]);
    p[i]
}

/// In an acyclic table, a finite non-empty set of targets always has a member that
/// depends on nothing in the set.
pub proof fn lemma_minimal(g: Map<Seq<char>, Target>, u: Set<Seq<char>>, start: Seq<char>) -> (n: Seq<char>)
    requires
        acyclic(g),
        u.finite(),
        u.contains(start),
        forall|m: Seq<char>| #[trigger] u.contains(m) ==> g.contains_key(m),
    ensures
        u.contains(n),
        forall|i: int| 0 <= i < deps_of(g, n).len() ==> !u.contains(#[trigger] deps_of(g, n)[i]),
{
    if exists|n: Seq<char>| #[trigger] u.contains(n) && forall|i: int| 0 <= i < deps_of(g, n).len() ==> !u.contains(#[trigger] deps_of(g, n)[i]) {
        choose|n: Seq<char>| #[trigger] u.contains(n) && forall|i: int| 0 <= i < deps_of(g, n).len() ==> !u.contains(#[trigger] deps_of(g, n)[i])
    } else {
        assert forall|m: Seq<char>| #[trigger] u.contains(m) implies g.contains_key(m) && exists|i: int| 0 <= i < deps_of(g, m).len() && u.contains(#[trigger] deps_of(g, m)[i]) by {
            if !exists|i: int| 0 <= i < deps_of(g, m).len() && u.contains(#[trigger] deps_of(g, m)[i]) {
                assert(forall|i: int| 0 <= i < deps_of(g, m).len() ==> !u.contains(#[trigger] deps_of(g, m)[i]));
            }
        }
        let a = lemma_no_sink_cycle(g, u, start);
        assert(!on_cycle(g, a));
        start
    }
}
} // verus!
