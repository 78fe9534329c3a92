use vstd::prelude::*;

verus! {

/// A component of a path, as `std::path::Component` names those of a Unix path.
pub enum Comp {
    /// The leading `/`.
    Root,
    /// A `.` at the very start.
    Cur,
    /// A `..`.
    Parent,
    /// Any other name.
    Normal(Seq<char>),
}

/// The components a segment `seg` adds; `first` when it starts the path. Empty segments
/// (repeated separators) and `.` (but at the very start) add none.
pub open spec fn seg_comps(seg: Seq<char>, first: bool) -> Seq<Comp> {
    if seg.len() == 0 {
        Seq::empty()
    } else if seg == seq!['.'] {
        if first { seq![Comp::Cur] } else { Seq::empty() }
    } else if seg == seq!['.', '.'] {
        seq![Comp::Parent]
    } else {
        seq![Comp::Normal(seg)]
    }
}

/// The components of `s` from `i` on, `cur` being the part of the current segment read
/// so far and `first` telling whether that segment starts the path.
pub open spec fn comps_from(s: Seq<char>, i: int, cur: Seq<char>, first: bool) -> Seq<Comp>
    decreases s.len() - i,
{
    if i < 0 || i >= s.len() {
        seg_comps(cur, first)
    } else if s[i] == '/' {
        seg_comps(cur, first) + comps_from(s, i + 1, Seq::empty(), false)
    } else {
        comps_from(s, i + 1, cur.push(s[i]), first)
    }
}

/// The components of the path `s`: a root for a leading `/`, then its names, with
/// repeated and trailing separators and inner `.` segments left out.
pub open spec fn components(s: Seq<char>) -> Seq<Comp> {
    if s.len() > 0 && s[0] == '/' {
        seq![Comp::Root] + comps_from(s, 1, Seq::empty(), false)
    } else {
        comps_from(s, 0, Seq::empty(), true)
    }
}

/// `lt` is a strict total order.
pub open spec fn strict_total<T>(lt: spec_fn(T, T) -> bool) -> bool {
    &&& forall|x: T| !#[trigger] lt(x, x)
    &&& forall|x: T, y: T, z: T| #[trigger] lt(x, y) && #[trigger] lt(y, z) ==> lt(x, z)
    &&& forall|x: T, y: T| x != y ==> #[trigger] lt(x, y) || #[trigger] lt(y, x)
}

/// Lexicographic order by `lt`: at the first difference, or the shorter one first.
pub open spec fn lex<T>(a: Seq<T>, b: Seq<T>, lt: spec_fn(T, T) -> bool) -> bool
    decreases a.len(),
{
    if a.len() == 0 {
        b.len() > 0
    } else if b.len() == 0 {
        false
    } else if a[0] != b[0] {
        lt(a[0], b[0])
    } else {
        lex(a.drop_first(), b.drop_first(), lt)
    }
}

pub proof fn lemma_lex_irreflexive<T>(a: Seq<T>, lt: spec_fn(T, T) -> bool)
    ensures
        !lex(a, a, lt),
    decreases a.len(),
{
    if a.len() > 0 {
        lemma_lex_irreflexive(a.drop_first(), lt);
    }
}

pub proof fn lemma_lex_transitive<T>(a: Seq<T>, b: Seq<T>, c: Seq<T>, lt: spec_fn(T, T) -> bool)
    requires
        strict_total(lt),
        lex(a, b, lt),
        lex(b, c, lt),
    ensures
        lex(a, c, lt),
    decreases a.len(),
{
    if a.len() > 0 && b.len() > 0 && c.len() > 0 {
        if a[0] == b[0] && b[0] == c[0] {
            lemma_lex_transitive(a.drop_first(), b.drop_first(), c.drop_first(), lt);
        } else if a[0] != b[0] && b[0] != c[0] {
            assert(lt(a[0], b[0]) && lt(b[0], c[0]));
            assert(lt(a[0], c[0]));
        }
    }
}

pub proof fn lemma_lex_total<T>(a: Seq<T>, b: Seq<T>, lt: spec_fn(T, T) -> bool)
    requires
        strict_total(lt),
        a != b,
    ensures
        lex(a, b, lt) || lex(b, a, lt),
    decreases a.len(),
{
    if a.len() == 0 && b.len() == 0 {
        assert(a =~= b);
    } else if a.len() > 0 && b.len() > 0 {
        if a[0] == b[0] {
            if a.drop_first() == b.drop_first() {
                assert(a.drop_first().len() == b.drop_first().len());
                assert(a =~= b) by {
                    assert forall|i: int| 0 <= i < a.len() implies a[i] == b[i] by {
                        if i > 0 {
                            assert(a[i] == a.drop_first()[i - 1]);
                            assert(b[i] == b.drop_first()[i - 1]);
                        }
                    }
                }
            }
            lemma_lex_total(a.drop_first(), b.drop_first(), lt);
        } else {
            assert(lt(a[0], b[0]) || lt(b[0], a[0]));
        }
    }
}

/// With the first `i` entries equal, comparing is comparing what follows them.
pub proof fn lemma_lex_skip<T>(a: Seq<T>, b: Seq<T>, i: int, lt: spec_fn(T, T) -> bool)
    requires
        0 <= i <= a.len(),
        i <= b.len(),
        a.subrange(0, i) == b.subrange(0, i),
    ensures
        lex(a, b, lt) == lex(a.skip(i), b.skip(i), lt),
    decreases i,
{
    if i > 0 {
        assert(a[0] == a.subrange(0, i)[0]);
        assert(b[0] == b.subrange(0, i)[0]);
        assert(a.drop_first().subrange(0, i - 1) =~= a.subrange(0, i).drop_first());
        assert(b.drop_first().subrange(0, i - 1) =~= b.subrange(0, i).drop_first());
        lemma_lex_skip(a.drop_first(), b.drop_first(), i - 1, lt);
        assert(a.drop_first().skip(i - 1) =~= a.skip(i));
        assert(b.drop_first().skip(i - 1) =~= b.skip(i));
    } else {
        assert(a.skip(0) =~= a);
        assert(b.skip(0) =~= b);
    }
}

/// Characters in the order of their code points, which is the order of their UTF-8 bytes.
pub open spec fn char_lt(x: char, y: char) -> bool {
    (x as int) < (y as int)
}

pub open spec fn comp_rank(c: Comp) -> int {
    match c {
        Comp::Root => 0,
        Comp::Cur => 1,
        Comp::Parent => 2,
        Comp::Normal(_) => 3,
    }
}

/// The order of components: root, `.`, `..`, then names by their characters.
pub open spec fn comp_lt(x: Comp, y: Comp) -> bool {
    if comp_rank(x) != comp_rank(y) {
        comp_rank(x) < comp_rank(y)
    } else {
        match (x, y) {
            (Comp::Normal(a), Comp::Normal(b)) => lex(a, b, char_order()),
            _ => false,
        }
    }
}

/// The order of paths: by their components, in turn.
pub open spec fn path_lt(a: Seq<char>, b: Seq<char>) -> bool {
    comps_order()(components(a), components(b))
}

pub open spec fn char_order() -> spec_fn(char, char) -> bool {
    |p: char, q: char| char_lt(p, q)
}

pub open spec fn comp_order() -> spec_fn(Comp, Comp) -> bool {
    |x: Comp, y: Comp| comp_lt(x, y)
}

pub proof fn lemma_char_order()
    ensures
        strict_total(char_order()),
{
    let lt = char_order();
    assert forall|x: char, y: char| x != y implies #[trigger] lt(x, y) || #[trigger] lt(y, x) by {
        assert((x as int) != (y as int));
    }
}

pub proof fn lemma_comp_order()
    ensures
        strict_total(comp_order()),
{
    let clt = char_order();
    let lt = comp_order();
    lemma_char_order();
    assert forall|x: Comp| !#[trigger] lt(x, x) by {
        if let Comp::Normal(a) = x {
            lemma_lex_irreflexive(a, clt);
        }
    }
    assert forall|x: Comp, y: Comp, z: Comp| #[trigger] lt(x, y) && #[trigger] lt(y, z) implies lt(x, z) by {
        if let (Comp::Normal(a), Comp::Normal(b), Comp::Normal(c)) = (x, y, z) {
            lemma_lex_transitive(a, b, c, clt);
        }
    }
    assert forall|x: Comp, y: Comp| x != y implies #[trigger] lt(x, y) || #[trigger] lt(y, x) by {
        if let (Comp::Normal(a), Comp::Normal(b)) = (x, y) {
            lemma_lex_total(a, b, clt);
        }
    }
}

/// The order of component sequences, and so of paths.
pub open spec fn comps_order() -> spec_fn(Seq<Comp>, Seq<Comp>) -> bool {
    |a: Seq<Comp>, b: Seq<Comp>| lex(a, b, comp_order())
}

pub proof fn lemma_comps_order()
    ensures
        strict_total(comps_order()),
{
    let lt = comp_order();
    let l = comps_order();
    lemma_comp_order();
    assert forall|x: Seq<Comp>| !#[trigger] l(x, x) by {
        lemma_lex_irreflexive(x, lt);
    }
    assert forall|x: Seq<Comp>, y: Seq<Comp>, z: Seq<Comp>| #[trigger] l(x, y) && #[trigger] l(y, z) implies l(x, z) by {
        lemma_lex_transitive(x, y, z, lt);
    }
    assert forall|x: Seq<Comp>, y: Seq<Comp>| x != y implies #[trigger] l(x, y) || #[trigger] l(y, x) by {
        lemma_lex_total(x, y, lt);
    }
}

/// A component of a path, as a value.
#[derive(Debug)]
pub enum PathPart {
    Root,
    Cur,
    Parent,
    Normal(Vec<char>),
}

impl View for PathPart {
    type V = Comp;

    open spec fn view(&self) -> Comp {
        match self {
            PathPart::Root => Comp::Root,
            PathPart::Cur => Comp::Cur,
            PathPart::Parent => Comp::Parent,
            PathPart::Normal(v) => Comp::Normal(v@),
        }
    }
}

pub open spec fn parts_view(v: Seq<PathPart>) -> Seq<Comp> {
    v.map_values(|p: PathPart| p@)
}

fn seg_part(seg: Vec<char>, first: bool) -> (r: Option<PathPart>)
    ensures
        seg_comps(seg@, first) == match r {
            Some(p) => seq![p@],
            None => Seq::<Comp>::empty(),
        },
{
    if seg.len() == 0 {
        return None;
    }
    if seg.len() == 1 && seg[0] == '.' {
        assert(seg@ =~= seq!['.']);
        return if first { Some(PathPart::Cur) } else { None };
    }
    if seg.len() == 2 && seg[0] == '.' && seg[1] == '.' {
        assert(seg@ =~= seq!['.', '.']);
        return Some(PathPart::Parent);
    }
    assert(seg@ != seq!['.']) by {
        if seg@ == seq!['.'] {
            assert(seg@.len() == 1);
        }
    }
    assert(seg@ != seq!['.', '.']) by {
        if seg@ == seq!['.', '.'] {
            assert(seg@.len() == 2);
        }
    }
    Some(PathPart::Normal(seg))
}

/// The components of the path `s`.
pub fn path_parts(s: &Vec<char>) -> (r: Vec<PathPart>)
    ensures
        parts_view(r@) == components(s@),
{
    let mut out: Vec<PathPart> = Vec::new();
    let mut cur: Vec<char> = Vec::new();
    let mut first = true;
    let mut i: usize = 0;
    if s.len() > 0 && s[0] == '/' {
        out.push(PathPart::Root);
        first = false;
        i = 1;
    }
    assert(parts_view(out@) + comps_from(s@, i as int, cur@, first) =~= components(s@));
    while i < s.len()
        invariant
            i <= s@.len(),
            parts_view(out@) + comps_from(s@, i as int, cur@, first) == components(s@),
        decreases s@.len() - i,
    {
        let ghost o = parts_view(out@);
        if s[i] == '/' {
            let seg = cur;
            cur = Vec::new();
            let ghost sv = seg@;
            let ghost f = first;
            match seg_part(seg, first) {
                Some(p) => {
                    out.push(p);
                },
                None => {},
            }
            first = false;
            assert(parts_view(out@) =~= o + seg_comps(sv, f));
            assert(cur@ =~= Seq::<char>::empty());
        } else {
            cur.push(s[i]);
        }
        i = i + 1;
    }
    let ghost o = parts_view(out@);
    let ghost sv = cur@;
    match seg_part(cur, first) {
        Some(p) => {
            out.push(p);
        },
        None => {},
    }
    assert(parts_view(out@) =~= o + seg_comps(sv, first));
    out
}

/// -1, 0 or 1 as `a` comes before, is, or comes after `b` in the order `lt`.
pub open spec fn order_sign<T>(a: T, b: T, lt: spec_fn(T, T) -> bool) -> i8 {
    if lt(a, b) {
        -1i8
    } else if a == b {
        0i8
    } else {
        1i8
    }
}

fn compare_chars(a: &Vec<char>, b: &Vec<char>) -> (r: i8)
    ensures
        r == order_sign(a@, b@, |x: Seq<char>, y: Seq<char>| lex(x, y, char_order())),
{
    let ghost lt = char_order();
    proof {
        lemma_char_order();
    }
    let mut i: usize = 0;
    assert(a@.subrange(0, 0) =~= b@.subrange(0, 0));
    while i < a.len() && i < b.len()
        invariant
            i <= a@.len(),
            i <= b@.len(),
            lt == char_order(),
            a@.subrange(0, i as int) == b@.subrange(0, i as int),
        decreases a@.len() - i,
    {
        if a[i] != b[i] {
            proof {
                lemma_lex_skip(a@, b@, i as int, lt);
                assert(a@.skip(i as int)[0] == a@[i as int]);
                assert(b@.skip(i as int)[0] == b@[i as int]);
                assert(a@ != b@) by {
                    if a@ == b@ {
                        assert(a@[i as int] == b@[i as int]);
                    }
                }
            }
            if a[i] < b[i] {
                return -1;
            } else {
                return 1;
            }
        }
        assert(a@.subrange(0, i + 1) =~= a@.subrange(0, i as int).push(a@[i as int]));
        assert(b@.subrange(0, i + 1) =~= b@.subrange(0, i as int).push(b@[i as int]));
        i = i + 1;
    }
    proof {
        lemma_lex_skip(a@, b@, i as int, lt);
        lemma_lex_irreflexive(a@, lt);
    }
    if a.len() == b.len() {
        assert(a@ =~= a@.subrange(0, i as int));
        assert(b@ =~= b@.subrange(0, i as int));
        0
    } else if a.len() < b.len() {
        -1
    } else {
        assert(a@.len() != b@.len());
        1
    }
}

fn compare_part(x: &PathPart, y: &PathPart) -> (r: i8)
    ensures
        r == order_sign(x@, y@, comp_order()),
{
    proof {
        lemma_comp_order();
    }
    let rx: u8 = match x {
        PathPart::Root => 0,
        PathPart::Cur => 1,
        PathPart::Parent => 2,
        PathPart::Normal(_) => 3,
    };
    let ry: u8 = match y {
        PathPart::Root => 0,
        PathPart::Cur => 1,
        PathPart::Parent => 2,
        PathPart::Normal(_) => 3,
    };
    if rx < ry {
        return -1;
    }
    if rx > ry {
        return 1;
    }
    match (x, y) {
        (PathPart::Normal(a), PathPart::Normal(b)) => {
            let r = compare_chars(a, b);
            proof {
                if r == 1 {
                    assert(Comp::Normal(a@) != Comp::Normal(b@));
                }
            }
            r
        },
        _ => 0,
    }
}

fn compare_parts(a: &Vec<PathPart>, b: &Vec<PathPart>) -> (r: i8)
    ensures
        r == order_sign(parts_view(a@), parts_view(b@), comps_order()),
{
    let ghost lt = comp_order();
    let ghost av = parts_view(a@);
    let ghost bv = parts_view(b@);
    proof {
        lemma_comp_order();
    }
    let mut i: usize = 0;
    assert(av.subrange(0, 0) =~= bv.subrange(0, 0));
    while i < a.len() && i < b.len()
        invariant
            i <= a@.len(),
            i <= b@.len(),
            lt == comp_order(),
            av == parts_view(a@),
            bv == parts_view(b@),
            strict_total(lt),
            av.subrange(0, i as int) == bv.subrange(0, i as int),
        decreases a@.len() - i,
    {
        let c = compare_part(&a[i], &b[i]);
        assert(av[i as int] == a@[i as int]@);
        assert(bv[i as int] == b@[i as int]@);
        if c != 0 {
            proof {
                lemma_lex_skip(av, bv, i as int, lt);
                assert(av.skip(i as int)[0] == av[i as int]);
                assert(bv.skip(i as int)[0] == bv[i as int]);
                assert(av != bv) by {
                    if av == bv {
                        assert(av[i as int] == bv[i as int]);
                    }
                }
            }
            return c;
        }
        assert(av.subrange(0, i + 1) =~= av.subrange(0, i as int).push(av[i as int]));
        assert(bv.subrange(0, i + 1) =~= bv.subrange(0, i as int).push(bv[i as int]));
        i = i + 1;
    }
    proof {
        lemma_lex_skip(av, bv, i as int, lt);
        lemma_lex_irreflexive(av, lt);
    }
    if a.len() == b.len() {
        assert(av =~= av.subrange(0, i as int));
        assert(bv =~= bv.subrange(0, i as int));
        0
    } else if a.len() < b.len() {
        -1
    } else {
        assert(av.len() != bv.len());
        1
    }
}

/// Some path picked by `r` has the components of the `i`-th.
pub open spec fn represented(paths: Seq<String>, r: Seq<usize>, i: int) -> bool {
    exists|k: int| 0 <= k < r.len() && comps_at(paths, r[k] as int) == comps_at(paths, i)
}

/// The components of the `i`-th path.
pub open spec fn comps_at(paths: Seq<String>, i: int) -> Seq<Comp> {
    components(paths[i]@)
}

/// The paths in `paths` in order and each once, as `sort` and then `dedup` leave a list of
/// `std::path::PathBuf`s: by their components, the first of equal ones kept. Gives their
/// indices.
pub fn sorted_unique(paths: &Vec<String>) -> (r: Vec<usize>)
    ensures
        forall|k: int| 0 <= k < r@.len() ==> r@[k] < paths@.len(),
        forall|j: int, k: int| 0 <= j < k < r@.len() ==> path_lt(#[trigger] paths@[r@[j] as int]@, #[trigger] paths@[r@[k] as int]@),
        forall|i: int| 0 <= i < paths@.len() ==> #[trigger] represented(paths@, r@, i),
        forall|k: int, i: int| 0 <= k < r@.len() && 0 <= i < r@[k] ==> #[trigger] comps_at(paths@, i) != #[trigger] comps_at(paths@, r@[k] as int),
{
    let ghost lt = comps_order();
    proof {
        lemma_comps_order();
    }
    let n = paths.len();
    let mut parts: Vec<Vec<PathPart>> = Vec::new();
    let mut i: usize = 0;
    while i < n
        invariant
            n == paths@.len(),
            i <= n,
            parts@.len() == i,
            forall|q: int| 0 <= q < i ==> parts_view(#[trigger] parts@[q]@) == comps_at(paths@, q),
        decreases n - i,
    {
        let chars = crate::text::chars_of(paths[i].as_str());
        parts.push(path_parts(&chars));
        i = i + 1;
    }
    let mut r: Vec<usize> = Vec::new();
    let mut i: usize = 0;
    while i < n
        invariant
            n == paths@.len(),
            i <= n,
            lt == comps_order(),
            strict_total(lt),
            parts@.len() == n,
            forall|q: int| 0 <= q < n ==> parts_view(#[trigger] parts@[q]@) == comps_at(paths@, q),
            forall|k: int| 0 <= k < r@.len() ==> r@[k] < i,
            forall|j: int, k: int| 0 <= j < k < r@.len() ==> lt(#[trigger] comps_at(paths@, r@[j] as int), #[trigger] comps_at(paths@, r@[k] as int)),
            forall|q: int| 0 <= q < i ==> #[trigger] represented(paths@, r@, q),
            forall|k: int, q: int| 0 <= k < r@.len() && 0 <= q < r@[k] ==> #[trigger] comps_at(paths@, q) != #[trigger] comps_at(paths@, r@[k] as int),
        decreases n - i,
    {
        let ghost ci = comps_at(paths@, i as int);
        let mut p: usize = 0;
        while p < r.len() && compare_parts(&parts[r[p]], &parts[i]) < 0
            invariant
                n == paths@.len(),
                i < n,
                ci == comps_at(paths@, i as int),
                lt == comps_order(),
                parts@.len() == n,
                forall|q: int| 0 <= q < n ==> parts_view(#[trigger] parts@[q]@) == comps_at(paths@, q),
                forall|k: int| 0 <= k < r@.len() ==> r@[k] < i,
                p <= r@.len(),
                forall|q: int| 0 <= q < p ==> lt(#[trigger] comps_at(paths@, r@[q] as int), ci),
            decreases r@.len() - p,
        {
            p = p + 1;
        }
        let same = p < r.len() && compare_parts(&parts[r[p]], &parts[i]) == 0;
        proof {
            if p < r@.len() {
                assert(!lt(comps_at(paths@, r@[p as int] as int), ci));
                if !same {
                    assert(comps_at(paths@, r@[p as int] as int) != ci);
                    assert(lt(ci, comps_at(paths@, r@[p as int] as int)));
                }
            }
        }
        if same {
            proof {
                assert(comps_at(paths@, r@[p as int] as int) == ci);
                assert forall|q: int| 0 <= q < i + 1 implies #[trigger] represented(paths@, r@, q) by {
                    if q == i {
                        assert(comps_at(paths@, r@[p as int] as int) == comps_at(paths@, q));
                    }
                }
            }
        } else {
            let ghost r0 = r@;
            proof {
                // no earlier path has these components
                assert forall|q: int| 0 <= q < i implies #[trigger] comps_at(paths@, q) != ci by {
                    assert(represented(paths@, r0, q));
                    let m = choose|m: int| 0 <= m < r0.len() && #[trigger] comps_at(paths@, r0[m] as int) == comps_at(paths@, q);
                    if comps_at(paths@, q) == ci {
                        if m < p {
                            assert(lt(comps_at(paths@, r0[m] as int), ci));
                        } else if m > p {
                            assert(lt(ci, comps_at(paths@, r0[p as int] as int)));
                            assert(lt(comps_at(paths@, r0[p as int] as int), comps_at(paths@, r0[m] as int)));
                            assert(lt(ci, comps_at(paths@, r0[m] as int)));
                        }
                    }
                }
            }
            r.insert(p, i);
            proof {
                assert forall|k: int| 0 <= k < r@.len() implies r@[k] == if k < p { r0[k] } else if k == p { i } else { r0[k - 1] } by {}
                assert forall|j: int, k: int| 0 <= j < k < r@.len() implies lt(#[trigger] comps_at(paths@, r@[j] as int), #[trigger] comps_at(paths@, r@[k] as int)) by {
                    if k < p {
                        assert(lt(comps_at(paths@, r0[j] as int), comps_at(paths@, r0[k] as int)));
                    } else if j < p && k == p {
                    } else if j < p && k > p {
                        assert(lt(comps_at(paths@, r0[j] as int), comps_at(paths@, r0[k - 1] as int)));
                    } else if j == p {
                        if k - 1 > p {
                            assert(lt(comps_at(paths@, r0[p as int] as int), comps_at(paths@, r0[k - 1] as int)));
                        }
                    } else {
                        assert(lt(comps_at(paths@, r0[j - 1] as int), comps_at(paths@, r0[k - 1] as int)));
                    }
                }
                assert forall|q: int| 0 <= q < i + 1 implies #[trigger] represented(paths@, r@, q) by {
                    if q == i {
                        assert(comps_at(paths@, r@[p as int] as int) == comps_at(paths@, q));
                    } else {
                        assert(represented(paths@, r0, q));
                        let m = choose|m: int| 0 <= m < r0.len() && #[trigger] comps_at(paths@, r0[m] as int) == comps_at(paths@, q);
                        if m < p {
                            assert(comps_at(paths@, r@[m] as int) == comps_at(paths@, q));
                        } else {
                            assert(comps_at(paths@, r@[m + 1] as int) == comps_at(paths@, q));
                        }
                    }
                }
                assert forall|k: int, q: int| 0 <= k < r@.len() && 0 <= q < r@[k] implies #[trigger] comps_at(paths@, q) != #[trigger] comps_at(paths@, r@[k] as int) by {
                    if k < p {
                        assert(r@[k] == r0[k]);
                    } else if k > p {
                        assert(r@[k] == r0[k - 1]);
                    }
                }
            }
        }
        i = i + 1;
    }
    assert forall|j: int, k: int| 0 <= j < k < r@.len() implies path_lt(#[trigger] paths@[r@[j] as int]@, #[trigger] paths@[r@[k] as int]@) by {
        assert(lt(comps_at(paths@, r@[j] as int), comps_at(paths@, r@[k] as int)));
    }
    r
}

} // verus!
