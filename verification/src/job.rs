use vstd::prelude::*;

use crate::expand::push_str;
use crate::model::strs;
use crate::text::{chars_of, is_whitespace, is_ws, push_char};

verus! {

/// The line that follows each command of a job's script: it prints the step marker.
pub open spec fn step_line() -> Seq<char> {
    "printf '\\036MMAKE_STEP\\037'\n"@
}

/// The script a job runs: each command, a newline, then the line that prints the step marker.
pub open spec fn script(recipe: Seq<Seq<char>>) -> Seq<char>
    decreases recipe.len(),
{
    if recipe.len() == 0 {
        Seq::empty()
    } else {
        script(recipe.drop_last()) + recipe.last() + seq!['\n'] + step_line()
    }
}

/// The shell script for a recipe, with a step marker printed after each command.
pub fn build_instrumented_script(recipe: &Vec<String>) -> (s: String)
    ensures
        s@ == script(strs(recipe@)),
{
    let mut script_text = String::new();
    let mut i: usize = 0;
    while i < recipe.len()
        invariant
            i <= recipe@.len(),
            script_text@ == script(strs(recipe@).subrange(0, i as int)),
        decreases recipe@.len() - i,
    {
        push_str(&mut script_text, recipe[i].as_str());
        push_char(&mut script_text, '\n');
        push_str(&mut script_text, "printf '\\036MMAKE_STEP\\037'\n");
        let ghost pre = strs(recipe@).subrange(0, i + 1);
        assert(pre.drop_last() =~= strs(recipe@).subrange(0, i as int));
        assert(pre.last() == recipe@[i as int]@);
        i = i + 1;
    }
    assert(strs(recipe@).subrange(0, recipe@.len() as int) =~= strs(recipe@));
    script_text
}

/// The bytes a job prints after each command: record separator, `MMAKE_STEP`, unit separator.
pub open spec fn marker() -> Seq<u8> {
    seq![0x1eu8, 0x4du8, 0x4du8, 0x41u8, 0x4bu8, 0x45u8, 0x5fu8, 0x53u8, 0x54u8, 0x45u8, 0x50u8, 0x1fu8]
}

pub fn step_marker() -> (m: Vec<u8>)
    ensures
        m@ == marker(),
{
    let m: Vec<u8> = vec![0x1eu8, 0x4du8, 0x4du8, 0x41u8, 0x4bu8, 0x45u8, 0x5fu8, 0x53u8, 0x54u8, 0x45u8, 0x50u8, 0x1fu8];
    assert(m@ =~= marker());
    m
}

/// The first position at or after `i` where `n` occurs in `h`.
pub open spec fn first_match(h: Seq<u8>, n: Seq<u8>, i: int) -> Option<int>
    decreases h.len() + 1 - i,
{
    if i < 0 || i + n.len() > h.len() {
        None
    } else if h.subrange(i, i + n.len()) == n {
        Some(i)
    } else {
        first_match(h, n, i + 1)
    }
}

/// Where `needle` first occurs in `haystack`; never for an empty needle.
pub open spec fn find_bytes_spec(haystack: Seq<u8>, needle: Seq<u8>) -> Option<int> {
    if needle.len() == 0 || haystack.len() < needle.len() {
        None
    } else {
        first_match(haystack, needle, 0)
    }
}

pub proof fn lemma_first_match(h: Seq<u8>, n: Seq<u8>, i: int)
    requires
        0 <= i,
    ensures
        match first_match(h, n, i) {
            Some(k) => i <= k && k + n.len() <= h.len() && h.subrange(k, k + n.len()) == n
                && forall|j: int| i <= j < k ==> #[trigger] h.subrange(j, j + n.len()) != n,
            None => forall|j: int| i <= j && j + n.len() <= h.len() ==> #[trigger] h.subrange(j, j + n.len()) != n,
        },
    decreases h.len() + 1 - i,
{
    if i + n.len() <= h.len() && h.subrange(i, i + n.len()) != n {
        lemma_first_match(h, n, i + 1);
    }
}

/// Skipping positions known not to match changes nothing.
pub proof fn lemma_first_match_skip(h: Seq<u8>, n: Seq<u8>, i: int, k: int)
    requires
        0 <= i <= k,
        forall|j: int| i <= j < k && j + n.len() <= h.len() ==> #[trigger] h.subrange(j, j + n.len()) != n,
    ensures
        first_match(h, n, i) == first_match(h, n, k),
    decreases k - i,
{
    if i < k {
        if i + n.len() <= h.len() {
            lemma_first_match_skip(h, n, i + 1, k);
        } else {
            assert(first_match(h, n, i) is None);
            lemma_first_match(h, n, k);
            if k + n.len() <= h.len() {
                assert(false);
            }
        }
    }
}

/// Searching from `f` on is searching the part after `f`, shifted.
pub proof fn lemma_first_match_shift(h: Seq<u8>, n: Seq<u8>, f: int, k: int)
    requires
        0 <= f <= h.len(),
        0 <= k,
    ensures
        first_match(h, n, f + k) == match first_match(h.subrange(f, h.len() as int), n, k) {
            Some(q) => Some(q + f),
            None => None::<int>,
        },
    decreases h.len() + 1 - k,
{
    let t = h.subrange(f, h.len() as int);
    if f + k + n.len() <= h.len() {
        assert(h.subrange(f + k, f + k + n.len()) =~= t.subrange(k, k + n.len()));
        if h.subrange(f + k, f + k + n.len()) != n {
            lemma_first_match_shift(h, n, f, k + 1);
        }
    }
}

/// Where `needle` first occurs in `haystack`: never for an empty needle or one longer than
/// the haystack.
pub fn find_bytes(haystack: &[u8], needle: &[u8]) -> (r: Option<usize>)
    ensures
        r == match find_bytes_spec(haystack@, needle@) {
            Some(k) => Some(k as usize),
            None => None::<usize>,
        },
{
    if needle.len() == 0 || haystack.len() < needle.len() {
        return None;
    }
    let n = haystack.len();
    let m = needle.len();
    let mut i: usize = 0;
    while i <= n - m
        invariant
            n == haystack@.len(),
            m == needle@.len(),
            0 < m <= n,
            i <= n - m + 1,
            first_match(haystack@, needle@, 0) == first_match(haystack@, needle@, i as int),
        decreases n - m + 1 - i,
    {
        let mut j: usize = 0;
        let mut same = true;
        while j < m
            invariant
                j <= m,
                i + m <= n,
                n == haystack@.len(),
                m == needle@.len(),
                same == forall|q: int| 0 <= q < j ==> haystack@[i + q] == needle@[q],
            decreases m - j,
        {
            if haystack[i + j] != needle[j] {
                same = false;
            }
            j = j + 1;
        }
        if same {
            assert(haystack@.subrange(i as int, i + m) =~= needle@);
            return Some(i);
        }
        assert(haystack@.subrange(i as int, i + m) != needle@) by {
            let q = choose|q: int| 0 <= q < m && haystack@[i + q] != needle@[q];
            assert(haystack@.subrange(i as int, i + m)[q] != needle@[q]);
        }
        i = i + 1;
    }
    None
}

/// `s` with each marker taken out, from the left.
pub open spec fn strip_markers(s: Seq<u8>) -> Seq<u8>
    decreases s.len(),
{
    match first_match(s, marker(), 0) {
        None => s,
        Some(p) => {
            if p < 0 || p + 12 > s.len() {
                s
            } else {
                s.subrange(0, p) + strip_markers(s.subrange(p + 12, s.len() as int))
            }
        },
    }
}

/// How many markers `s` holds, counted from the left without overlap.
pub open spec fn marker_count(s: Seq<u8>) -> nat
    decreases s.len(),
{
    match first_match(s, marker(), 0) {
        None => 0,
        Some(p) => {
            if p < 0 || p + 12 > s.len() {
                0
            } else {
                1 + marker_count(s.subrange(p + 12, s.len() as int))
            }
        },
    }
}

/// A piece of a job's output: some bytes, or the end of one command.
#[derive(Debug, PartialEq, Eq)]
pub enum Piece {
    Output(Vec<u8>),
    Step,
}

/// A piece of output as the contracts see it.
pub enum PieceView {
    Output(Seq<u8>),
    Step,
}

impl View for Piece {
    type V = PieceView;

    open spec fn view(&self) -> PieceView {
        match self {
            Piece::Output(b) => PieceView::Output(b@),
            Piece::Step => PieceView::Step,
        }
    }
}

/// The pieces as the contracts see them.
pub open spec fn piece_views(ps: Seq<Piece>) -> Seq<PieceView> {
    ps.map_values(|p: Piece| p@)
}

/// What the splitter tells of the bytes `x` it holds, and what it then holds back: for
/// each marker, from the left, the output before it and a step; then, of what follows
/// the last marker, all but the last 11 bytes when more than 12 remain, else nothing.
pub open spec fn split_pieces(x: Seq<u8>) -> (Seq<PieceView>, Seq<u8>)
    decreases x.len(),
{
    match first_match(x, marker(), 0) {
        Some(p) => {
            if 0 <= p && p + 12 <= x.len() {
                let rest = split_pieces(x.subrange(p + 12, x.len() as int));
                (seq![PieceView::Output(x.subrange(0, p)), PieceView::Step] + rest.0, rest.1)
            } else {
                (Seq::empty(), x)
            }
        },
        None => {
            if x.len() > 12 {
                (seq![PieceView::Output(x.subrange(0, x.len() - 11))], x.subrange(x.len() - 11, x.len() as int))
            } else {
                (Seq::empty(), x)
            }
        },
    }
}

/// The bytes of the output pieces, in order.
pub open spec fn piece_bytes(ps: Seq<Piece>) -> Seq<u8>
    decreases ps.len(),
{
    if ps.len() == 0 {
        Seq::empty()
    } else {
        piece_bytes(ps.drop_last()) + match ps.last() {
            Piece::Output(b) => b@,
            Piece::Step => Seq::empty(),
        }
    }
}

/// The number of step pieces.
pub open spec fn piece_steps(ps: Seq<Piece>) -> nat
    decreases ps.len(),
{
    if ps.len() == 0 {
        0
    } else {
        piece_steps(ps.drop_last()) + match ps.last() {
            Piece::Output(_) => 0nat,
            Piece::Step => 1nat,
        }
    }
}

/// Splits a job's standard output at the step markers, as it arrives in chunks. A marker
/// may straddle two chunks: the bytes that may begin one are held back until more comes.
pub struct StepSplitter {
    pending: Vec<u8>,
}

/// A marker found at `p` in `x` is the first one in `x + y` as well.
proof fn lemma_match_in_prefix(x: Seq<u8>, y: Seq<u8>, p: int)
    requires
        first_match(x, marker(), 0) == Some(p),
    ensures
        first_match(x + y, marker(), 0) == Some(p),
        (x + y).subrange(0, p) == x.subrange(0, p),
        (x + y).subrange(p + 12, (x + y).len() as int) == x.subrange(p + 12, x.len() as int) + y,
{
    lemma_first_match(x, marker(), 0);
    let z = x + y;
    assert forall|j: int| 0 <= j < p && j + 12 <= z.len() implies #[trigger] z.subrange(j, j + 12) != marker() by {
        assert(z.subrange(j, j + 12) =~= x.subrange(j, j + 12));
    }
    lemma_first_match_skip(z, marker(), 0, p);
    assert(z.subrange(p, p + 12) =~= x.subrange(p, p + 12));
    assert(z.subrange(0, p) =~= x.subrange(0, p));
    assert(z.subrange(p + 12, z.len() as int) =~= x.subrange(p + 12, x.len() as int) + y);
}

/// With no marker in `x`, the first `x.len() - 11` bytes of `x` hold no part of any
/// marker, whatever follows.
proof fn lemma_flush(x: Seq<u8>, y: Seq<u8>, f: int)
    requires
        first_match(x, marker(), 0) is None,
        f == x.len() - 11,
        f > 0,
    ensures
        strip_markers(x + y) == x.subrange(0, f) + strip_markers(x.subrange(f, x.len() as int) + y),
        marker_count(x + y) == marker_count(x.subrange(f, x.len() as int) + y),
{
    lemma_first_match(x, marker(), 0);
    let z = x + y;
    let rest = x.subrange(f, x.len() as int) + y;
    assert(z.subrange(f, z.len() as int) =~= rest);
    assert forall|j: int| 0 <= j < f && j + 12 <= z.len() implies #[trigger] z.subrange(j, j + 12) != marker() by {
        assert(z.subrange(j, j + 12) =~= x.subrange(j, j + 12));
    }
    lemma_first_match_skip(z, marker(), 0, f);
    lemma_first_match_shift(z, marker(), f, 0);
    match first_match(rest, marker(), 0) {
        None => {
            assert(z =~= x.subrange(0, f) + rest);
        },
        Some(q) => {
            lemma_first_match(rest, marker(), 0);
            assert(z.subrange(0, q + f) =~= x.subrange(0, f) + rest.subrange(0, q));
            assert(z.subrange(q + f + 12, z.len() as int) =~= rest.subrange(q + 12, rest.len() as int));
        },
    }
}

/// The output bytes of one piece.
pub open spec fn piece_view_bytes(p: PieceView) -> Seq<u8> {
    match p {
        PieceView::Output(b) => b,
        PieceView::Step => Seq::empty(),
    }
}

/// The output bytes of pieces, in order.
pub open spec fn view_bytes(ps: Seq<PieceView>) -> Seq<u8>
    decreases ps.len(),
{
    if ps.len() == 0 {
        Seq::empty()
    } else {
        piece_view_bytes(ps[0]) + view_bytes(ps.drop_first())
    }
}

/// The number of steps among pieces.
pub open spec fn view_steps(ps: Seq<PieceView>) -> nat
    decreases ps.len(),
{
    if ps.len() == 0 {
        0
    } else {
        (if ps[0] is Step { 1nat } else { 0nat }) + view_steps(ps.drop_first())
    }
}

/// What the splitter tells of `x`, followed by what the rest of the stream gives from
/// what it holds back, is the stream with its markers taken out, with a step for each.
pub proof fn lemma_split_stream(x: Seq<u8>, y: Seq<u8>)
    ensures
        strip_markers(x + y) == view_bytes(split_pieces(x).0) + strip_markers(split_pieces(x).1 + y),
        marker_count(x + y) == view_steps(split_pieces(x).0) + marker_count(split_pieces(x).1 + y),
        first_match(split_pieces(x).1, marker(), 0) is None,
    decreases x.len(),
{
    lemma_first_match(x, marker(), 0);
    match first_match(x, marker(), 0) {
        Some(p) => {
            let rest = x.subrange(p + 12, x.len() as int);
            lemma_split_stream(rest, y);
            lemma_match_in_prefix(x, y, p);
            let o = PieceView::Output(x.subrange(0, p));
            let ps = seq![o, PieceView::Step] + split_pieces(rest).0;
            assert(ps.drop_first() =~= seq![PieceView::Step] + split_pieces(rest).0);
            assert(ps.drop_first().drop_first() =~= split_pieces(rest).0);
            assert(view_bytes(ps.drop_first()) =~= view_bytes(split_pieces(rest).0));
            assert(view_bytes(ps) =~= x.subrange(0, p) + view_bytes(split_pieces(rest).0));
            assert(view_steps(ps.drop_first()) == 1 + view_steps(split_pieces(rest).0));
            assert(view_steps(ps) == 1 + view_steps(split_pieces(rest).0));
        },
        None => {
            if x.len() > 12 {
                let f = x.len() - 11;
                lemma_flush(x, y, f);
                let ps = seq![PieceView::Output(x.subrange(0, f))];
                assert(ps.drop_first() =~= Seq::<PieceView>::empty());
                assert(view_bytes(ps.drop_first()) == Seq::<u8>::empty());
                assert(view_steps(ps.drop_first()) == 0);
                assert(view_steps(ps) == 0);
                assert(view_bytes(ps) =~= x.subrange(0, f));
                let q = x.subrange(f, x.len() as int);
                lemma_first_match(q, marker(), 0);
                if first_match(q, marker(), 0) is Some {
                    let k = first_match(q, marker(), 0)->0;
                    assert(q.subrange(k, k + 12) =~= x.subrange(k + f, k + f + 12));
                }
            } else {
                assert(split_pieces(x).0 =~= Seq::<PieceView>::empty());
            }
        },
    }
}

/// A stream holds no marker once its markers are out.
proof fn lemma_no_marker(q: Seq<u8>)
    requires
        first_match(q, marker(), 0) is None,
    ensures
        strip_markers(q) == q,
        marker_count(q) == 0,
{
}

/// Cutting the output into chunks changes nothing: fed in two chunks and then finished,
/// the splitter tells the same bytes and the same number of steps as fed all at once,
/// namely the stream with its markers taken out and one step for each marker.
pub proof fn lemma_chunks(p0: Seq<u8>, a: Seq<u8>, b: Seq<u8>)
    ensures
        ({
            let first = split_pieces(p0 + a);
            let second = split_pieces(first.1 + b);
            let whole = split_pieces(p0 + a + b);
            &&& view_bytes(first.0) + view_bytes(second.0) + second.1 == view_bytes(whole.0) + whole.1
            &&& view_bytes(whole.0) + whole.1 == strip_markers(p0 + a + b)
            &&& view_steps(first.0) + view_steps(second.0) == view_steps(whole.0)
            &&& view_steps(whole.0) == marker_count(p0 + a + b)
        }),
{
    let first = split_pieces(p0 + a);
    let second = split_pieces(first.1 + b);
    let whole = split_pieces(p0 + a + b);
    let e = Seq::<u8>::empty();
    lemma_split_stream(p0 + a, b);
    lemma_split_stream(first.1 + b, e);
    lemma_split_stream(p0 + a + b, e);
    assert(p0 + a + b + e =~= p0 + a + b);
    assert(first.1 + b + e =~= first.1 + b);
    assert(second.1 + e =~= second.1);
    assert(whole.1 + e =~= whole.1);
    lemma_no_marker(second.1);
    lemma_no_marker(whole.1);
    assert(view_bytes(first.0) + view_bytes(second.0) + second.1 =~= view_bytes(first.0) + (view_bytes(second.0) + second.1));
}

pub proof fn lemma_view_concat(a: Seq<PieceView>, b: Seq<PieceView>)
    ensures
        view_bytes(a + b) == view_bytes(a) + view_bytes(b),
        view_steps(a + b) == view_steps(a) + view_steps(b),
    decreases a.len(),
{
    if a.len() == 0 {
        assert(a + b =~= b);
        assert(view_bytes(a) =~= Seq::<u8>::empty());
    } else {
        lemma_view_concat(a.drop_first(), b);
        assert((a + b).drop_first() =~= a.drop_first() + b);
        assert((a + b)[0] == a[0]);
    }
}

/// The chunks one after another.
pub open spec fn concat_all(chunks: Seq<Seq<u8>>) -> Seq<u8>
    decreases chunks.len(),
{
    if chunks.len() == 0 {
        Seq::empty()
    } else {
        concat_all(chunks.drop_last()) + chunks.last()
    }
}

/// What the splitter tells, in all, of `chunks` fed one after another from the held-back
/// bytes `p0`, and what it then holds back.
pub open spec fn feed_all(p0: Seq<u8>, chunks: Seq<Seq<u8>>) -> (Seq<PieceView>, Seq<u8>)
    decreases chunks.len(),
{
    if chunks.len() == 0 {
        (Seq::empty(), p0)
    } else {
        let before = feed_all(p0, chunks.drop_last());
        let step = split_pieces(before.1 + chunks.last());
        (before.0 + step.0, step.1)
    }
}

proof fn lemma_feed_all_stream(p0: Seq<u8>, chunks: Seq<Seq<u8>>, y: Seq<u8>)
    ensures
        strip_markers(p0 + concat_all(chunks) + y) == view_bytes(feed_all(p0, chunks).0) + strip_markers(feed_all(p0, chunks).1 + y),
        marker_count(p0 + concat_all(chunks) + y) == view_steps(feed_all(p0, chunks).0) + marker_count(feed_all(p0, chunks).1 + y),
        chunks.len() > 0 ==> first_match(feed_all(p0, chunks).1, marker(), 0) is None,
    decreases chunks.len(),
{
    if chunks.len() == 0 {
        assert(p0 + concat_all(chunks) + y =~= p0 + y);
        assert(view_bytes(Seq::<PieceView>::empty()) =~= Seq::<u8>::empty());
    } else {
        let last = chunks.last();
        let before = feed_all(p0, chunks.drop_last());
        lemma_feed_all_stream(p0, chunks.drop_last(), last + y);
        lemma_split_stream(before.1 + last, y);
        let step = split_pieces(before.1 + last);
        lemma_view_concat(before.0, step.0);
        assert(p0 + concat_all(chunks) + y =~= p0 + concat_all(chunks.drop_last()) + (last + y));
        assert(before.1 + (last + y) =~= before.1 + last + y);
        assert(view_bytes(before.0) + (view_bytes(step.0) + strip_markers(step.1 + y)) =~= view_bytes(before.0) + view_bytes(step.0) + strip_markers(step.1 + y));
    }
}

/// However the output is cut into chunks, feeding them one after another and then
/// finishing tells the stream with its markers taken out, and one step for each marker.
pub proof fn lemma_any_chunks(chunks: Seq<Seq<u8>>)
    ensures
        view_bytes(feed_all(Seq::empty(), chunks).0) + feed_all(Seq::empty(), chunks).1 == strip_markers(concat_all(chunks)),
        view_steps(feed_all(Seq::empty(), chunks).0) == marker_count(concat_all(chunks)),
{
    let e = Seq::<u8>::empty();
    lemma_feed_all_stream(e, chunks, e);
    assert(e + concat_all(chunks) + e =~= concat_all(chunks));
    let rest = feed_all(e, chunks).1;
    assert(rest + e =~= rest);
    if chunks.len() > 0 {
        lemma_no_marker(rest);
    } else {
        assert(rest == e);
        lemma_first_match(e, marker(), 0);
        lemma_no_marker(rest);
    }
}

impl StepSplitter {
    /// The bytes held back.
    pub closed spec fn pending(&self) -> Seq<u8> {
        self.pending@
    }

    /// What is held back holds no whole marker.
    pub open spec fn wf(&self) -> bool {
        first_match(self.pending(), marker(), 0) is None
    }

    pub fn new() -> (s: StepSplitter)
        ensures
            s.wf(),
            s.pending() == Seq::<u8>::empty(),
    {
        StepSplitter { pending: Vec::new() }
    }

    /// Takes the next chunk of output and gives back what can be told of it: output bytes,
    /// and a step for each marker. What it gives, followed by what the rest of the stream
    /// gives, is the stream with its markers taken out, with a step for each marker.
    pub fn feed(&mut self, chunk: &[u8]) -> (r: Vec<Piece>)
        requires
            old(self).wf(),
        ensures
            final(self).wf(),
            final(self).pending().len() <= 12,
            piece_views(r@) == split_pieces(old(self).pending() + chunk@).0,
            final(self).pending() == split_pieces(old(self).pending() + chunk@).1,
            forall|y: Seq<u8>| #[trigger] strip_markers(old(self).pending() + chunk@ + y) == piece_bytes(r@) + strip_markers(final(self).pending() + y),
            forall|y: Seq<u8>| #[trigger] marker_count(old(self).pending() + chunk@ + y) == piece_steps(r@) + marker_count(final(self).pending() + y),
    {
        let ghost s0 = self.pending@ + chunk@;
        let mut i: usize = 0;
        while i < chunk.len()
            invariant
                i <= chunk@.len(),
                self.pending@ == old(self).pending@ + chunk@.subrange(0, i as int),
            decreases chunk@.len() - i,
        {
            self.pending.push(chunk[i]);
            i = i + 1;
            assert(self.pending@ =~= old(self).pending@ + chunk@.subrange(0, i as int));
        }
        assert(self.pending@ =~= s0);
        let marker_bytes = step_marker();
        let mut pieces: Vec<Piece> = Vec::new();
        assert forall|y: Seq<u8>| #[trigger] strip_markers(s0 + y) == piece_bytes(pieces@) + strip_markers(self.pending@ + y) by {
            assert(piece_bytes(pieces@) + strip_markers(self.pending@ + y) =~= strip_markers(self.pending@ + y));
        }
        assert(piece_views(pieces@) =~= Seq::<PieceView>::empty());
        assert(split_pieces(s0).0 =~= piece_views(pieces@) + split_pieces(self.pending@).0);
        loop
            invariant_except_break
                marker_bytes@ == marker(),
                split_pieces(s0).0 == piece_views(pieces@) + split_pieces(self.pending@).0,
                split_pieces(s0).1 == split_pieces(self.pending@).1,
                forall|y: Seq<u8>| #[trigger] strip_markers(s0 + y) == piece_bytes(pieces@) + strip_markers(self.pending@ + y),
                forall|y: Seq<u8>| #[trigger] marker_count(s0 + y) == piece_steps(pieces@) + marker_count(self.pending@ + y),
            ensures
                first_match(self.pending@, marker(), 0) is None,
                split_pieces(s0).0 == piece_views(pieces@) + split_pieces(self.pending@).0,
                split_pieces(s0).1 == split_pieces(self.pending@).1,
                forall|y: Seq<u8>| #[trigger] strip_markers(s0 + y) == piece_bytes(pieces@) + strip_markers(self.pending@ + y),
                forall|y: Seq<u8>| #[trigger] marker_count(s0 + y) == piece_steps(pieces@) + marker_count(self.pending@ + y),
            decreases self.pending@.len(),
        {
            let position = match find_bytes(&self.pending, &marker_bytes) {
                Some(p) => p,
                None => {
                    proof {
                        if self.pending@.len() >= 12 {
                            assert(find_bytes_spec(self.pending@, marker()) == first_match(self.pending@, marker(), 0));
                        } else {
                            lemma_first_match(self.pending@, marker(), 0);
                            assert(first_match(self.pending@, marker(), 0) is None);
                        }
                    }
                    break;
                },
            };
            let ghost x = self.pending@;
            proof {
                lemma_first_match(x, marker(), 0);
            }
            let n = self.pending.len();
            let output = crate::job::copy_bytes(&self.pending, 0, position);
            let rest = crate::job::copy_bytes(&self.pending, position + 12, n);
            let ghost p0 = pieces@;
            pieces.push(Piece::Output(output));
            pieces.push(Piece::Step);
            self.pending = rest;
            proof {
                assert(first_match(x, marker(), 0) == Some(position as int));
                assert(piece_views(pieces@) =~= piece_views(p0) + seq![PieceView::Output(x.subrange(0, position as int)), PieceView::Step]);
                assert(split_pieces(x).0 =~= seq![PieceView::Output(x.subrange(0, position as int)), PieceView::Step] + split_pieces(self.pending@).0);
                assert(split_pieces(s0).0 =~= piece_views(pieces@) + split_pieces(self.pending@).0);
                assert(pieces@.drop_last() =~= p0.push(Piece::Output(output)));
                assert(p0.push(Piece::Output(output)).drop_last() =~= p0);
                assert(piece_bytes(pieces@) == piece_bytes(p0.push(Piece::Output(output))) + Seq::<u8>::empty());
                assert(piece_bytes(pieces@) =~= piece_bytes(p0) + x.subrange(0, position as int));
                assert(piece_steps(p0.push(Piece::Output(output))) == piece_steps(p0));
                assert(piece_steps(pieces@) == piece_steps(p0) + 1);
                assert(self.pending@ == x.subrange(position + 12, x.len() as int));
                assert forall|y: Seq<u8>| #[trigger] strip_markers(s0 + y) == piece_bytes(pieces@) + strip_markers(self.pending@ + y) by {
                    lemma_match_in_prefix(x, y, position as int);
                    assert(strip_markers(s0 + y) == piece_bytes(p0) + strip_markers(x + y));
                    assert(strip_markers(x + y) == (x + y).subrange(0, position as int) + strip_markers((x + y).subrange(position + 12, (x + y).len() as int)));
                    assert(piece_bytes(p0) + (x.subrange(0, position as int) + strip_markers(self.pending@ + y)) =~= piece_bytes(p0) + x.subrange(0, position as int) + strip_markers(self.pending@ + y));
                }
                assert forall|y: Seq<u8>| #[trigger] marker_count(s0 + y) == piece_steps(pieces@) + marker_count(self.pending@ + y) by {
                    lemma_match_in_prefix(x, y, position as int);
                    assert(marker_count(s0 + y) == piece_steps(p0) + marker_count(x + y));
                }
            }
        }
        let len = self.pending.len();
        if len > 12 {
            let keep: usize = 11;
            let flush = len - keep;
            let ghost x = self.pending@;
            let output = copy_bytes(&self.pending, 0, flush);
            let rest = copy_bytes(&self.pending, flush, len);
            let ghost p0 = pieces@;
            pieces.push(Piece::Output(output));
            self.pending = rest;
            proof {
                assert(pieces@.drop_last() =~= p0);
                assert(split_pieces(x).0 =~= seq![PieceView::Output(x.subrange(0, flush as int))]);
                assert(piece_views(pieces@) =~= piece_views(p0) + seq![PieceView::Output(x.subrange(0, flush as int))]);
                assert forall|y: Seq<u8>| #[trigger] strip_markers(s0 + y) == piece_bytes(pieces@) + strip_markers(self.pending@ + y) by {
                    lemma_flush(x, y, flush as int);
                    assert(piece_bytes(p0) + (x.subrange(0, flush as int) + strip_markers(self.pending@ + y)) =~= piece_bytes(p0) + x.subrange(0, flush as int) + strip_markers(self.pending@ + y));
                }
                assert forall|y: Seq<u8>| #[trigger] marker_count(s0 + y) == piece_steps(pieces@) + marker_count(self.pending@ + y) by {
                    lemma_flush(x, y, flush as int);
                }
                lemma_first_match(x, marker(), 0);
                lemma_first_match(self.pending@, marker(), 0);
                if first_match(self.pending@, marker(), 0) is Some {
                    let q = first_match(self.pending@, marker(), 0)->0;
                    assert(self.pending@.subrange(q, q + 12) =~= x.subrange(q + flush, q + flush + 12));
                }
            }
        } else {
            assert(split_pieces(self.pending@).0 =~= Seq::<PieceView>::empty());
            assert(split_pieces(s0).0 =~= piece_views(pieces@));
        }
        pieces
    }

    /// The end of the stream: the bytes still held back, which hold no marker.
    pub fn finish(&mut self) -> (r: Vec<u8>)
        requires
            old(self).wf(),
        ensures
            r@ == old(self).pending(),
            strip_markers(r@) == r@,
            marker_count(r@) == 0,
            final(self).pending() == Seq::<u8>::empty(),
            final(self).wf(),
    {
        let r = copy_bytes(&self.pending, 0, self.pending.len());
        assert(r@ =~= self.pending@);
        self.pending = Vec::new();
        proof {
            lemma_first_match(Seq::<u8>::empty(), marker(), 0);
        }
        r
    }
}

/// A copy of `v[a..b]`.
pub fn copy_bytes(v: &Vec<u8>, a: usize, b: usize) -> (r: Vec<u8>)
    requires
        a <= b <= v@.len(),
    ensures
        r@ == v@.subrange(a as int, b as int),
{
    let mut r: Vec<u8> = Vec::new();
    let mut i = a;
    while i < b
        invariant
            a <= i <= b,
            b <= v@.len(),
            r@ == v@.subrange(a as int, i as int),
        decreases b - i,
    {
        r.push(v[i]);
        i = i + 1;
        assert(r@ =~= v@.subrange(a as int, i as int));
    }
    r
}

/// Nothing but whitespace, or nothing at all.
pub open spec fn blank(s: Seq<char>) -> bool {
    forall|i: int| 0 <= i < s.len() ==> is_ws(#[trigger] s[i])
}

fn is_blank(s: &String) -> (b: bool)
    ensures
        b == blank(s@),
{
    let v = chars_of(s.as_str());
    let mut i: usize = 0;
    while i < v.len()
        invariant
            v@ == s@,
            i <= v@.len(),
            forall|j: int| 0 <= j < i ==> is_ws(#[trigger] v@[j]),
        decreases v@.len() - i,
    {
        if !is_whitespace(v[i]) {
            return false;
        }
        i = i + 1;
    }
    true
}

/// `text` under its heading, unless it is blank.
pub open spec fn section(heading: Seq<char>, text: Seq<char>) -> Seq<char> {
    if blank(text) {
        Seq::empty()
    } else {
        "\n\n"@ + heading + ":\n"@ + text
    }
}

/// Why a job failed: its target, its exit status, and what it wrote to standard output
/// and standard error, each only when not blank.
pub open spec fn failure_text(name: Seq<char>, status: Seq<char>, stdout: Seq<char>, stderr: Seq<char>) -> Seq<char> {
    "target '"@ + name + "' failed with status "@ + status + section("stdout"@, stdout) + section("stderr"@, stderr)
}

/// The message for a job of target `name` that ended with `status`, having written
/// `stdout` and `stderr`.
pub fn failure_message(name: &String, status: &String, stdout: &String, stderr: &String) -> (m: String)
    ensures
        m@ == failure_text(name@, status@, stdout@, stderr@),
{
    let mut m = String::new();
    push_str(&mut m, "target '");
    push_str(&mut m, name.as_str());
    push_str(&mut m, "' failed with status ");
    push_str(&mut m, status.as_str());
    if !is_blank(stdout) {
        push_str(&mut m, "\n\n");
        push_str(&mut m, "stdout");
        push_str(&mut m, ":\n");
        push_str(&mut m, stdout.as_str());
    }
    if !is_blank(stderr) {
        push_str(&mut m, "\n\n");
        push_str(&mut m, "stderr");
        push_str(&mut m, ":\n");
        push_str(&mut m, stderr.as_str());
    }
    assert(m@ =~= failure_text(name@, status@, stdout@, stderr@));
    m
}

/// The message for a job of target `name` that succeeded without producing `output`.
pub fn missing_output_message(name: &String, output: &String) -> (m: String)
    ensures
        m@ == "target '"@ + name@ + "' completed successfully, but output was not produced: "@ + output@,
{
    let mut m = String::new();
    push_str(&mut m, "target '");
    push_str(&mut m, name.as_str());
    push_str(&mut m, "' completed successfully, but output was not produced: ");
    push_str(&mut m, output.as_str());
    m
}

} // verus!
