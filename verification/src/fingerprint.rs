use vstd::prelude::*;
use vstd::utf8::{encode_scalar, encode_utf8, encode_utf8_decode_utf8, is_scalar};

use sha2::Digest;

use crate::cache::FileState;
use crate::collections::{StrMap, entry_map};
use crate::model::{Target, strs};
use crate::parser::{join_path, join_spec};
use crate::text::{chars_of, ends_with, ends_with_chars, push_char, slice_of, string_of};

verus! {

/// SHA-256 of `data`.
pub uninterp spec fn sha256(data: Seq<u8>) -> Seq<u8>;

/// Calls `sha2::Sha256::digest`: the result is the SHA-256 digest of `data`, 32 bytes long.
#[verifier::external_body]
fn sha256_digest(data: &[u8]) -> (r: Vec<u8>)
    ensures
        r@ == sha256(data@),
        r@.len() == 32,
{
    sha2::Sha256::digest(data).to_vec()
}

/// The lower-case hex digit for `d` (below 16).
pub open spec fn hex_digit(d: nat) -> char {
    if d < 10 {
        ((d + 48) as u32) as char
    } else {
        ((d + 87) as u32) as char
    }
}

/// Lower-case hex of `bytes`, two digits a byte, as `{:x}` writes a digest.
pub open spec fn hex(bytes: Seq<u8>) -> Seq<char>
    decreases bytes.len(),
{
    if bytes.len() == 0 {
        Seq::empty()
    } else {
        hex(bytes.drop_last()) + seq![hex_digit((bytes.last() / 16) as nat), hex_digit((bytes.last() % 16) as nat)]
    }
}

/// Two hex digits per byte.
proof fn lemma_hex_len(bytes: Seq<u8>)
    ensures
        hex(bytes).len() == 2 * bytes.len(),
    decreases bytes.len(),
{
    if bytes.len() > 0 {
        lemma_hex_len(bytes.drop_last());
    }
}

fn hex_char(d: u8) -> (c: char)
    requires
        d < 16,
    ensures
        c == hex_digit(d as nat),
{
    if d < 10 {
        (d + 48) as char
    } else {
        (d + 87) as char
    }
}

fn hex_string(bytes: &[u8]) -> (s: String)
    ensures
        s@ == hex(bytes@),
{
    let mut s = String::new();
    let mut i: usize = 0;
    while i < bytes.len()
        invariant
            i <= bytes@.len(),
            s@ == hex(bytes@.subrange(0, i as int)),
        decreases bytes@.len() - i,
    {
        let b = bytes[i];
        push_char(&mut s, hex_char(b / 16));
        push_char(&mut s, hex_char(b % 16));
        assert(bytes@.subrange(0, i + 1).drop_last() =~= bytes@.subrange(0, i as int));
        i = i + 1;
    }
    assert(bytes@.subrange(0, bytes@.len() as int) =~= bytes@);
    s
}

/// The SHA-256 of `data` in lower-case hex: how a watched file's contents are hashed.
pub fn hash_bytes(data: &[u8]) -> (h: String)
    ensures
        h@ == hex(sha256(data@)),
        h@.len() == 64,
{
    let digest = sha256_digest(data);
    proof {
        lemma_hex_len(digest@);
    }
    hex_string(&digest)
}

/// Each item's UTF-8 bytes followed by `end`.
pub open spec fn terminated(items: Seq<Seq<char>>, end: u8) -> Seq<u8>
    decreases items.len(),
{
    if items.len() == 0 {
        Seq::empty()
    } else {
        terminated(items.drop_last(), end) + encode_utf8(items.last()) + seq![end]
    }
}

/// A watched file as the contracts see it: relative path, size, modification time, hash.
pub struct WatchedView {
    pub relative: Seq<char>,
    pub size: u64,
    pub mtime_ns: u128,
    pub hash: Seq<char>,
}

/// A watched file: its path relative to the root, what `stat` said of it, and its hash.
#[derive(Debug)]
pub struct WatchedFile {
    pub relative: String,
    pub size: u64,
    pub mtime_ns: u128,
    pub hash: String,
}

impl View for WatchedFile {
    type V = WatchedView;

    open spec fn view(&self) -> WatchedView {
        WatchedView { relative: self.relative@, size: self.size, mtime_ns: self.mtime_ns, hash: self.hash@ }
    }
}

/// Path, zero byte, hash, zero byte, for each file in turn.
pub open spec fn file_bytes(files: Seq<WatchedView>) -> Seq<u8>
    decreases files.len(),
{
    if files.len() == 0 {
        Seq::empty()
    } else {
        file_bytes(files.drop_last()) + encode_utf8(files.last().relative) + seq![0u8] + encode_utf8(files.last().hash) + seq![0u8]
    }
}

/// What a fingerprint hashes: the watched files, the fingerprints of the dependencies,
/// the recipe lines (each ended by a newline) and the outputs.
pub open spec fn fingerprint_input(files: Seq<WatchedView>, deps: Seq<Seq<char>>, recipe: Seq<Seq<char>>, outputs: Seq<Seq<char>>) -> Seq<u8> {
    file_bytes(files) + terminated(deps, 0u8) + terminated(recipe, 10u8) + terminated(outputs, 0u8)
}

/// What one watched file adds to the hashed bytes: its path, a zero byte, its hash, a zero
/// byte.
pub open spec fn file_entry(f: WatchedView) -> Seq<u8> {
    encode_utf8(f.relative) + seq![0u8] + encode_utf8(f.hash) + seq![0u8]
}

/// What follows the files in the hashed bytes: each dependency fingerprint and each output
/// ended by a zero byte, each recipe line by a newline.
pub open spec fn trailer(deps: Seq<Seq<char>>, recipe: Seq<Seq<char>>, outputs: Seq<Seq<char>>) -> Seq<u8> {
    terminated(deps, 0u8) + terminated(recipe, 10u8) + terminated(outputs, 0u8)
}

/// With no watched file, only the dependencies, recipe and outputs are hashed.
pub proof fn lemma_fingerprint_no_files(deps: Seq<Seq<char>>, recipe: Seq<Seq<char>>, outputs: Seq<Seq<char>>)
    ensures
        fingerprint_input(Seq::empty(), deps, recipe, outputs) == trailer(deps, recipe, outputs),
{
    assert(file_bytes(Seq::<WatchedView>::empty()) == Seq::<u8>::empty());
    assert(Seq::<u8>::empty() + terminated(deps, 0u8) + terminated(recipe, 10u8) + terminated(outputs, 0u8) =~= trailer(deps, recipe, outputs));
}

/// One more watched file adds exactly its own entry to the hashed bytes, after the entries
/// of the files before it and before the dependencies, recipe and outputs: every watched
/// file, not only the first, enters the fingerprint.
pub proof fn lemma_fingerprint_one_more_file(files: Seq<WatchedView>, f: WatchedView, deps: Seq<Seq<char>>, recipe: Seq<Seq<char>>, outputs: Seq<Seq<char>>)
    ensures
        ({
            let before = fingerprint_input(files, deps, recipe, outputs);
            let t = trailer(deps, recipe, outputs);
            &&& before.len() >= t.len()
            &&& fingerprint_input(files.push(f), deps, recipe, outputs)
                == before.subrange(0, before.len() - t.len()) + file_entry(f) + t
        }),
{
    let before = fingerprint_input(files, deps, recipe, outputs);
    let t = trailer(deps, recipe, outputs);
    assert(files.push(f).drop_last() =~= files);
    assert(files.push(f).last() == f);
    assert(before =~= file_bytes(files) + t);
    assert(before.subrange(0, before.len() - t.len()) =~= file_bytes(files));
    assert(fingerprint_input(files.push(f), deps, recipe, outputs) =~= file_bytes(files) + file_entry(f) + t);
}

/// One more dependency fingerprint, recipe line or output adds exactly its bytes and its
/// end byte (a zero byte, a newline, a zero byte) after the others of its kind, and
/// changes nothing else that is hashed.
pub proof fn lemma_fingerprint_one_more_item(files: Seq<WatchedView>, deps: Seq<Seq<char>>, recipe: Seq<Seq<char>>, outputs: Seq<Seq<char>>, x: Seq<char>)
    ensures
        ({
            let before = fingerprint_input(files, deps, recipe, outputs);
            let o = terminated(outputs, 0u8);
            let ro = terminated(recipe, 10u8) + o;
            &&& before.len() >= ro.len()
            &&& fingerprint_input(files, deps.push(x), recipe, outputs)
                == before.subrange(0, before.len() - ro.len()) + encode_utf8(x) + seq![0u8] + ro
            &&& fingerprint_input(files, deps, recipe.push(x), outputs)
                == before.subrange(0, before.len() - o.len()) + encode_utf8(x) + seq![10u8] + o
            &&& fingerprint_input(files, deps, recipe, outputs.push(x)) == before + encode_utf8(x) + seq![0u8]
        }),
{
    let fb = file_bytes(files);
    let d = terminated(deps, 0u8);
    let r = terminated(recipe, 10u8);
    let o = terminated(outputs, 0u8);
    let before = fingerprint_input(files, deps, recipe, outputs);
    assert(deps.push(x).drop_last() =~= deps);
    assert(recipe.push(x).drop_last() =~= recipe);
    assert(outputs.push(x).drop_last() =~= outputs);
    assert(before =~= fb + d + (r + o));
    assert(before.subrange(0, before.len() - (r + o).len()) =~= fb + d);
    assert(before.subrange(0, before.len() - o.len()) =~= fb + d + r);
    assert(fingerprint_input(files, deps.push(x), recipe, outputs) =~= fb + d + encode_utf8(x) + seq![0u8] + (r + o));
    assert(fingerprint_input(files, deps, recipe.push(x), outputs) =~= fb + d + r + encode_utf8(x) + seq![10u8] + o);
    assert(fingerprint_input(files, deps, recipe, outputs.push(x)) =~= before + encode_utf8(x) + seq![0u8]);
}

/// Every watched file is recorded under its path, with its size, modification time and
/// hash, unless a later file has the same path; nothing else is recorded.
pub proof fn lemma_file_states_each(files: Seq<WatchedView>, i: int)
    requires
        0 <= i < files.len(),
        forall|j: int| i < j < files.len() ==> #[trigger] files[j].relative != files[i].relative,
    ensures
        file_states(files).contains_key(files[i].relative),
        file_states(files)[files[i].relative] == (files[i].size, files[i].mtime_ns, files[i].hash),
    decreases files.len(),
{
    if i < files.len() - 1 {
        let rest = files.drop_last();
        assert forall|j: int| i < j < rest.len() implies #[trigger] rest[j].relative != rest[i].relative by {
            assert(rest[j] == files[j]);
        }
        lemma_file_states_each(rest, i);
        assert(rest[i] == files[i]);
        assert(files.last() == files[files.len() - 1]);
    }
}

/// Only the paths of watched files are recorded.
pub proof fn lemma_file_states_keys(files: Seq<WatchedView>, p: Seq<char>)
    requires
        file_states(files).contains_key(p),
    ensures
        exists|i: int| 0 <= i < files.len() && files[i].relative == p,
    decreases files.len(),
{
    if files.len() > 0 && files.last().relative != p {
        lemma_file_states_keys(files.drop_last(), p);
        let i = choose|i: int| 0 <= i < files.drop_last().len() && files.drop_last()[i].relative == p;
        assert(files[i] == files.drop_last()[i]);
    } else if files.len() > 0 {
        assert(files[files.len() - 1].relative == p);
    }
}

proof fn lemma_file_bytes_concat(a: Seq<WatchedView>, b: Seq<WatchedView>)
    ensures
        file_bytes(a + b) == file_bytes(a) + file_bytes(b),
    decreases b.len(),
{
    if b.len() == 0 {
        assert(a + b =~= a);
        assert(file_bytes(a) + file_bytes(b) =~= file_bytes(a));
    } else {
        lemma_file_bytes_concat(a, b.drop_last());
        assert((a + b).drop_last() =~= a + b.drop_last());
        assert((a + b).last() == b.last());
    }
}

/// A character other than NUL is encoded without a zero byte.
proof fn lemma_scalar_no_zero(v: u32)
    requires
        v != 0,
        is_scalar(v),
    ensures
        forall|j: int| 0 <= j < encode_scalar(v).len() ==> encode_scalar(v)[j] != 0,
{
    assert(v <= 0x7F && v != 0 ==> (v & 0x7F) as u8 != 0) by (bit_vector);
    assert((0xC0u8 | ((v >> 6) & 0x1F) as u8) != 0) by (bit_vector);
    assert((0xE0u8 | ((v >> 12) & 0x0F) as u8) != 0) by (bit_vector);
    assert((0xF0u8 | ((v >> 18) & 0x7) as u8) != 0) by (bit_vector);
    assert((0x80u8 | (v & 0x3F) as u8) != 0) by (bit_vector);
    assert((0x80u8 | ((v >> 6) & 0x3F) as u8) != 0) by (bit_vector);
    assert((0x80u8 | ((v >> 12) & 0x3F) as u8) != 0) by (bit_vector);
}

/// A text without NUL is encoded without a zero byte.
proof fn lemma_encode_no_zero(h: Seq<char>)
    requires
        forall|i: int| 0 <= i < h.len() ==> h[i] != '\0',
    ensures
        forall|j: int| 0 <= j < encode_utf8(h).len() ==> encode_utf8(h)[j] != 0,
    decreases h.len(),
{
    if h.len() > 0 {
        let v = h[0] as u32;
        vstd::utf8::char_is_scalar(h[0]);
        assert(v != 0) by {
            vstd::utf8::char_u32_cast(h[0], v);
        }
        lemma_scalar_no_zero(v);
        assert forall|i: int| 0 <= i < h.drop_first().len() implies h.drop_first()[i] != '\0' by {
            assert(h.drop_first()[i] == h[i + 1]);
        }
        lemma_encode_no_zero(h.drop_first());
        let e = encode_utf8(h);
        let a = encode_scalar(v);
        assert(e == a + encode_utf8(h.drop_first()));
        assert forall|j: int| 0 <= j < e.len() implies e[j] != 0 by {
            if j < a.len() {
                assert(e[j] == a[j]);
            } else {
                assert(e[j] == encode_utf8(h.drop_first())[j - a.len()]);
            }
        }
    }
}

/// Two different texts without NUL, each encoded and followed by the same bytes starting
/// with a zero byte, give different bytes.
proof fn lemma_distinct_fields(h1: Seq<char>, h2: Seq<char>, q: Seq<u8>)
    requires
        h1 != h2,
        forall|i: int| 0 <= i < h1.len() ==> h1[i] != '\0',
        forall|i: int| 0 <= i < h2.len() ==> h2[i] != '\0',
        q.len() > 0,
        q[0] == 0u8,
    ensures
        encode_utf8(h1) + q != encode_utf8(h2) + q,
{
    let e1 = encode_utf8(h1);
    let e2 = encode_utf8(h2);
    lemma_encode_no_zero(h1);
    lemma_encode_no_zero(h2);
    let r1 = e1 + q;
    let r2 = e2 + q;
    if r1 == r2 {
        if e1.len() < e2.len() {
            assert(r1[e1.len() as int] == q[0]);
            assert(r2[e1.len() as int] == e2[e1.len() as int]);
        } else if e2.len() < e1.len() {
            assert(r2[e2.len() as int] == q[0]);
            assert(r1[e2.len() as int] == e1[e2.len() as int]);
        } else {
            assert(e1 =~= r1.subrange(0, e1.len() as int));
            assert(e2 =~= r2.subrange(0, e2.len() as int));
            encode_utf8_decode_utf8(h1);
            encode_utf8_decode_utf8(h2);
        }
    }
}

/// Editing any one watched file changes what is hashed: two lists of watched files that
/// differ only in the hash of one file, at any place in the list, give different hashed
/// bytes (hashes, as hex text, hold no NUL character).
pub proof fn lemma_fingerprint_sees_every_file(pre: Seq<WatchedView>, f1: WatchedView, f2: WatchedView, post: Seq<WatchedView>, deps: Seq<Seq<char>>, recipe: Seq<Seq<char>>, outputs: Seq<Seq<char>>)
    requires
        f1.relative == f2.relative,
        f1.hash != f2.hash,
        forall|i: int| 0 <= i < f1.hash.len() ==> f1.hash[i] != '\0',
        forall|i: int| 0 <= i < f2.hash.len() ==> f2.hash[i] != '\0',
    ensures
        fingerprint_input(pre + seq![f1] + post, deps, recipe, outputs) != fingerprint_input(pre + seq![f2] + post, deps, recipe, outputs),
{
    let t = trailer(deps, recipe, outputs);
    let a = file_bytes(pre);
    let b = file_bytes(post);
    let e = encode_utf8(f1.relative);
    let h1 = encode_utf8(f1.hash);
    let h2 = encode_utf8(f2.hash);
    lemma_file_bytes_split(pre, f1, post);
    lemma_file_bytes_split(pre, f2, post);
    let x1 = fingerprint_input(pre + seq![f1] + post, deps, recipe, outputs);
    let x2 = fingerprint_input(pre + seq![f2] + post, deps, recipe, outputs);
    assert(x1 == a + file_entry(f1) + b + t);
    assert(x2 == a + file_entry(f2) + b + t);
    lemma_bytes_shape(a, e, h1, b, t);
    lemma_bytes_shape(a, e, h2, b, t);
    let q = seq![0u8] + b + t;
    lemma_distinct_fields(f1.hash, f2.hash, q);
    lemma_prefix_cancel(a + e + seq![0u8], h1 + q, h2 + q);
}

proof fn lemma_bytes_shape(a: Seq<u8>, e: Seq<u8>, h: Seq<u8>, b: Seq<u8>, t: Seq<u8>)
    ensures
        a + (e + seq![0u8] + h + seq![0u8]) + b + t == (a + e + seq![0u8]) + (h + (seq![0u8] + b + t)),
{
    assert(a + (e + seq![0u8] + h + seq![0u8]) + b + t =~= (a + e + seq![0u8]) + (h + (seq![0u8] + b + t)));
}

proof fn lemma_prefix_cancel(p: Seq<u8>, r1: Seq<u8>, r2: Seq<u8>)
    requires
        r1 != r2,
    ensures
        p + r1 != p + r2,
{
    if p + r1 == p + r2 {
        assert(r1 =~= (p + r1).subrange(p.len() as int, (p + r1).len() as int));
        assert(r2 =~= (p + r2).subrange(p.len() as int, (p + r2).len() as int));
    }
}

proof fn lemma_file_bytes_split(pre: Seq<WatchedView>, f: WatchedView, post: Seq<WatchedView>)
    ensures
        file_bytes(pre + seq![f] + post) == file_bytes(pre) + file_entry(f) + file_bytes(post),
{
    lemma_file_bytes_concat(pre + seq![f], post);
    assert((pre + seq![f]) =~= pre.push(f));
    assert(pre.push(f).drop_last() =~= pre);
    assert(pre.push(f).last() == f);
    assert(file_bytes(pre.push(f)) =~= file_bytes(pre) + file_entry(f));
}

/// The files recorded with a fingerprint, by relative path (a later entry for the same
/// path wins).
pub open spec fn file_states(files: Seq<WatchedView>) -> Map<Seq<char>, (u64, u128, Seq<char>)>
    decreases files.len(),
{
    if files.len() == 0 {
        Map::empty()
    } else {
        file_states(files.drop_last()).insert(files.last().relative, (files.last().size, files.last().mtime_ns, files.last().hash))
    }
}

/// A fingerprint and the files it was computed from.
#[derive(Debug)]
pub struct FingerprintResult {
    pub fingerprint: String,
    pub files: StrMap<FileState>,
}

/// The file states of a map, by their plain values.
pub open spec fn state_values(m: Map<Seq<char>, FileState>) -> Map<Seq<char>, (u64, u128, Seq<char>)> {
    m.map_values(|f: FileState| (f.size, f.mtime_ns, f.hash@))
}

/// Appends the UTF-8 bytes of `s` and then `end`.
fn push_terminated(out: &mut Vec<u8>, s: &String, end: u8)
    ensures
        final(out)@ == old(out)@ + encode_utf8(s@) + seq![end],
{
    let bytes = s.as_str().as_bytes();
    let mut i: usize = 0;
    let ghost start = out@;
    while i < bytes.len()
        invariant
            i <= bytes@.len(),
            bytes@ == encode_utf8(s@),
            out@ == start + bytes@.subrange(0, i as int),
        decreases bytes@.len() - i,
    {
        out.push(bytes[i]);
        i = i + 1;
        assert(out@ =~= start + bytes@.subrange(0, i as int));
    }
    out.push(end);
    assert(bytes@.subrange(0, bytes@.len() as int) =~= bytes@);
}

fn push_all_terminated(out: &mut Vec<u8>, items: &Vec<String>, end: u8)
    ensures
        final(out)@ == old(out)@ + terminated(strs(items@), end),
{
    let ghost start = out@;
    let mut i: usize = 0;
    while i < items.len()
        invariant
            i <= items@.len(),
            out@ == start + terminated(strs(items@).subrange(0, i as int), end),
        decreases items@.len() - i,
    {
        push_terminated(out, &items[i], end);
        let ghost pre = strs(items@).subrange(0, i + 1);
        assert(pre.drop_last() =~= strs(items@).subrange(0, i as int));
        assert(pre.last() == items@[i as int]@);
        i = i + 1;
        assert(out@ =~= start + terminated(strs(items@).subrange(0, i as int), end));
    }
    assert(strs(items@).subrange(0, items@.len() as int) =~= strs(items@));
}

/// The fingerprint of a target from its watched files (sorted, without repeats, with
/// their hashes settled) and the fingerprints of its dependencies.
pub fn calculate(target: &Target, files: &Vec<WatchedFile>, dependency_fingerprints: &Vec<String>) -> (r: FingerprintResult)
    ensures
        r.fingerprint@ == hex(sha256(fingerprint_input(
            files@.map_values(|f: WatchedFile| f@),
            strs(dependency_fingerprints@),
            strs(target.recipe@),
            strs(target.outputs@),
        ))),
        r.fingerprint@.len() == 64,
        r.files.wf(),
        state_values(r.files@) == file_states(files@.map_values(|f: WatchedFile| f@)),
{
    let ghost fv = files@.map_values(|f: WatchedFile| f@);
    let mut message: Vec<u8> = Vec::new();
    let mut states: StrMap<FileState> = StrMap::new();
    let mut i: usize = 0;
    assert(state_values(states@) =~= file_states(fv.subrange(0, 0)));
    while i < files.len()
        invariant
            i <= files@.len(),
            fv == files@.map_values(|f: WatchedFile| f@),
            message@ == file_bytes(fv.subrange(0, i as int)),
            states.wf(),
            state_values(states@) == file_states(fv.subrange(0, i as int)),
        decreases files@.len() - i,
    {
        let f = &files[i];
        push_terminated(&mut message, &f.relative, 0u8);
        push_terminated(&mut message, &f.hash, 0u8);
        let ghost pre = fv.subrange(0, i + 1);
        assert(pre.drop_last() =~= fv.subrange(0, i as int));
        assert(pre.last() == f@);
        let ghost before = states@;
        states.insert(f.relative.clone(), FileState { size: f.size, mtime_ns: f.mtime_ns, hash: f.hash.clone() });
        assert(state_values(states@) =~= state_values(before).insert(f.relative@, (f.size, f.mtime_ns, f.hash@)));
        i = i + 1;
        assert(message@ =~= file_bytes(fv.subrange(0, i as int)));
    }
    assert(fv.subrange(0, files@.len() as int) =~= fv);
    push_all_terminated(&mut message, dependency_fingerprints, 0u8);
    push_all_terminated(&mut message, &target.recipe, 10u8);
    push_all_terminated(&mut message, &target.outputs, 0u8);
    assert(message@ =~= fingerprint_input(fv, strs(dependency_fingerprints@), strs(target.recipe@), strs(target.outputs@)));
    FingerprintResult { fingerprint: hash_bytes(&message), files: states }
}

/// The hash recorded for `relative` last time, when its size and modification time are
/// unchanged; otherwise the file must be hashed again.
pub fn cached_hash(previous: Option<&StrMap<FileState>>, relative: &String, size: u64, mtime_ns: u128) -> (h: Option<String>)
    requires
        previous matches Some(p) ==> p.wf(),
    ensures
        h == (match previous {
            Some(p) => if p@.contains_key(relative@) && p@[relative@].size == size && p@[relative@].mtime_ns == mtime_ns {
                Some(p@[relative@].hash)
            } else {
                None
            },
            None => None,
        }),
{
    match previous {
        Some(p) => match p.get(relative) {
            Some(old) => {
                if old.size == size && old.mtime_ns == mtime_ns {
                    Some(old.hash.clone())
                } else {
                    None
                }
            },
            None => None,
        },
        None => None,
    }
}

/// `s` with every trailing repetition of `p` taken off, as `str::trim_end_matches` does.
pub open spec fn trim_end_all(s: Seq<char>, p: Seq<char>) -> Seq<char>
    decreases s.len(),
{
    if p.len() > 0 && ends_with(s, p) {
        trim_end_all(s.subrange(0, s.len() - p.len()), p)
    } else {
        s
    }
}

fn trim_end_matches(v: &Vec<char>, p: &Vec<char>) -> (r: Vec<char>)
    ensures
        r@ == trim_end_all(v@, p@),
{
    let mut cur = slice_of(v, 0, v.len());
    assert(cur@ =~= v@);
    while p.len() > 0 && ends_with_chars(&cur, p)
        invariant
            trim_end_all(v@, p@) == trim_end_all(cur@, p@),
        decreases cur@.len(),
    {
        let n = cur.len() - p.len();
        cur = slice_of(&cur, 0, n);
    }
    cur
}

/// How a watch pattern is resolved against the project root.
#[derive(Debug, PartialEq, Eq)]
pub enum WatchPattern {
    /// A single file (the pattern holds no `*`).
    File { path: String },
    /// Every file under `base`, at any depth (`DIR/**`).
    Tree { base: String },
    /// The files directly in `base` (`DIR/*`).
    Dir { base: String },
    /// A `*` anywhere else.
    Unsupported,
}

/// How `pattern` is resolved: the path of a single file, a directory walked to any depth,
/// a directory read one level deep, or none.
pub open spec fn watch_spec(root: Seq<char>, pattern: Seq<char>) -> WatchShape {
    if !pattern.contains('*') {
        WatchShape::File(join_spec(root, pattern))
    } else if ends_with(pattern, "/**"@) {
        WatchShape::Tree(join_spec(root, trim_end_all(pattern, "/**"@)))
    } else if ends_with(pattern, "/*"@) {
        WatchShape::Dir(join_spec(root, trim_end_all(pattern, "/*"@)))
    } else {
        WatchShape::Unsupported
    }
}

/// A watch pattern's resolution, as the contracts see it.
pub enum WatchShape {
    File(Seq<char>),
    Tree(Seq<char>),
    Dir(Seq<char>),
    Unsupported,
}

impl View for WatchPattern {
    type V = WatchShape;

    open spec fn view(&self) -> WatchShape {
        match self {
            WatchPattern::File { path } => WatchShape::File(path@),
            WatchPattern::Tree { base } => WatchShape::Tree(base@),
            WatchPattern::Dir { base } => WatchShape::Dir(base@),
            WatchPattern::Unsupported => WatchShape::Unsupported,
        }
    }
}

/// Resolves a watch pattern against the project root.
pub fn expand_watch(root: &String, pattern: &String) -> (w: WatchPattern)
    ensures
        w@ == watch_spec(root@, pattern@),
{
    let chars = chars_of(pattern.as_str());
    proof {
        crate::text::lemma_find_char_from(chars@, '*', 0);
    }
    match crate::text::find_char(&chars, '*', 0) {
        None => {
            assert(!pattern@.contains('*'));
            return WatchPattern::File { path: join_path(root, pattern) };
        },
        Some(k) => {
            assert(chars@[k as int] == '*');
        },
    }
    let tree = chars_of("/**");
    let dir = chars_of("/*");
    if ends_with_chars(&chars, &tree) {
        let base = string_of(&trim_end_matches(&chars, &tree));
        return WatchPattern::Tree { base: join_path(root, &base) };
    }
    if ends_with_chars(&chars, &dir) {
        let base = string_of(&trim_end_matches(&chars, &dir));
        return WatchPattern::Dir { base: join_path(root, &base) };
    }
    WatchPattern::Unsupported
}

} // verus!
