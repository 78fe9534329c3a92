use vstd::prelude::*;

use crate::collections::{StrMap, StrSet, distinct_keys, entry_keys, entry_map, has_key, key_pos, lemma_dom_len, lemma_key_pos};
use crate::expand::{ParseError, ParseFault, expand_spec, expand, push_str, text_vars};
use crate::model::{
    Project,
    Target,
    keyed_by_name,
    TargetView,
    acyclic,
    clean,
    dep_closed,
    deps_known,
    deps_of,
    fresh_target,
    lemma_closed_path,
    lemma_reaches_trans,
    reach_set,
    lemma_clean_from_deps,
    lemma_cycle_start,
    lemma_edge,
    lemma_reaches_plus_step,
    on_cycle,
    reaches,
    reaches_plus,
    strs,
};
use crate::text::{
    chars_eq,
    chars_of,
    find_char,
    find_char_from,
    find_pat,
    find_pat_from,
    lemma_find_char_from,
    push_char,
    slice_of,
    split_words,
    starts_with,
    starts_with_chars,
    string_of,
    trim,
    trim_chars,
    words,
};

verus! {

/// Variables taken by their characters, entry by entry.
pub open spec fn text_entries(es: Seq<(Seq<char>, String)>) -> Seq<(Seq<char>, Seq<char>)> {
    es.map_values(|e: (Seq<char>, String)| (e.0, e.1@))
}

/// Targets taken by their views, entry by entry.
pub open spec fn target_entries(es: Seq<(Seq<char>, Target)>) -> Seq<(Seq<char>, TargetView)> {
    es.map_values(|e: (Seq<char>, Target)| (e.0, e.1@))
}

/// Sets `k` to `v`: an existing entry keeps its place, a new one goes last.
pub open spec fn assoc_insert<V>(es: Seq<(Seq<char>, V)>, k: Seq<char>, v: V) -> Seq<(Seq<char>, V)> {
    if has_key(es, k) {
        es.update(key_pos(es, k), (k, v))
    } else {
        es.push((k, v))
    }
}

/// `rel` joined to the directory `base`, as `Path::join` does it on Unix: an absolute
/// `rel` replaces `base`, otherwise a separator goes between them unless `base` is empty
/// or already ends with one.
pub open spec fn join_spec(base: Seq<char>, rel: Seq<char>) -> Seq<char> {
    if rel.len() > 0 && rel[0] == '/' {
        rel
    } else if base.len() == 0 {
        rel
    } else if base.last() == '/' {
        base + rel
    } else {
        base + seq!['/'] + rel
    }
}

pub fn join_path(base: &String, rel: &String) -> (r: String)
    ensures
        r@ == join_spec(base@, rel@),
{
    let b = chars_of(base.as_str());
    let c = chars_of(rel.as_str());
    if c.len() > 0 && c[0] == '/' {
        return rel.clone();
    }
    if b.len() == 0 {
        return rel.clone();
    }
    let mut r = base.clone();
    if b[b.len() - 1] != '/' {
        push_char(&mut r, '/');
    }
    push_str(&mut r, rel.as_str());
    r
}

/// `line` split around the first `op`, unless what comes before it holds a `:`.
pub open spec fn split_spec(line: Seq<char>, op: Seq<char>) -> Option<(Seq<char>, Seq<char>)> {
    match find_pat_from(line, op, 0) {
        None => None,
        Some(p) => {
            if line.subrange(0, p).contains(':') {
                None
            } else {
                Some((line.subrange(0, p), line.subrange(p + op.len(), line.len() as int)))
            }
        },
    }
}

pub proof fn lemma_find_pat_from(s: Seq<char>, p: Seq<char>, i: int)
    requires
        0 <= i,
    ensures
        match find_pat_from(s, p, i) {
            Some(k) => i <= k && k + p.len() <= s.len() && s.subrange(k, k + p.len()) == p,
            None => true,
        },
    decreases s.len() + 1 - i,
{
    if i + p.len() <= s.len() && s.subrange(i, i + p.len()) != p {
        lemma_find_pat_from(s, p, i + 1);
    }
}

/// Splits an assignment `NAME op VALUE` into name and value.
pub fn split_assignment(line: &[char], operator: &[char]) -> (r: Option<(Vec<char>, Vec<char>)>)
    ensures
        match r {
            Some((a, b)) => split_spec(line@, operator@) == Some((a@, b@)),
            None => split_spec(line@, operator@) is None,
        },
{
    proof {
        lemma_find_pat_from(line@, operator@, 0);
    }
    let position = match find_pat(line, operator) {
        Some(p) => p,
        None => {
            return None;
        },
    };
    let left = slice_of(line, 0, position);
    proof {
        lemma_find_char_from(left@, ':', 0);
    }
    match find_char(&left, ':', 0) {
        Some(k) => {
            assert(left@[k as int] == ':');
            return None;
        },
        None => {},
    }
    assert(!left@.contains(':'));
    let n = line.len();
    assert(position + operator@.len() <= n);
    let right = slice_of(line, position + operator.len(), n);
    Some((left, right))
}

/// The first position at or after `i` that holds something other than a tab.
pub open spec fn skip_tabs(s: Seq<char>, i: int) -> int
    decreases s.len() - i,
{
    if 0 <= i < s.len() && s[i] == '\t' {
        skip_tabs(s, i + 1)
    } else {
        i
    }
}

/// Expansion of each word in turn; the first failure wins.
pub open spec fn expand_all(ws: Seq<Seq<char>>, vars: Map<Seq<char>, Seq<char>>) -> Result<
    Seq<Seq<char>>,
    ParseFault,
>
    decreases ws.len(),
{
    if ws.len() == 0 {
        Ok(Seq::empty())
    } else {
        match expand_spec(ws[0], vars) {
            Err(f) => Err(f),
            Ok(x) => match expand_all(ws.drop_first(), vars) {
                Ok(rest) => Ok(seq![x] + rest),
                Err(f) => Err(f),
            },
        }
    }
}

/// Expanding a list of words expands each of them, in order: on success there is one
/// result per word, the expansion of that word; it fails exactly when some word fails.
pub proof fn lemma_expand_all_each(ws: Seq<Seq<char>>, vars: Map<Seq<char>, Seq<char>>)
    ensures
        (expand_all(ws, vars) is Ok) == (forall|i: int| 0 <= i < ws.len() ==> #[trigger] expand_spec(ws[i], vars) is Ok),
        expand_all(ws, vars) matches Ok(ds) ==> ds.len() == ws.len()
            && forall|i: int| 0 <= i < ws.len() ==> #[trigger] expand_spec(ws[i], vars) == Ok::<Seq<char>, ParseFault>(ds[i]),
    decreases ws.len(),
{
    if ws.len() > 0 {
        let rest = ws.drop_first();
        lemma_expand_all_each(rest, vars);
        assert forall|i: int| 0 <= i < rest.len() implies rest[i] == ws[i + 1] by {}
        if (forall|i: int| 0 <= i < ws.len() ==> #[trigger] expand_spec(ws[i], vars) is Ok) {
            assert(expand_spec(ws[0], vars) is Ok);
            assert forall|i: int| 0 <= i < rest.len() implies #[trigger] expand_spec(rest[i], vars) is Ok by {
                assert(expand_spec(ws[i + 1], vars) is Ok);
            }
        }
        if !(forall|i: int| 0 <= i < ws.len() ==> #[trigger] expand_spec(ws[i], vars) is Ok) {
            let k = choose|k: int| 0 <= k < ws.len() && !(#[trigger] expand_spec(ws[k], vars) is Ok);
            if k > 0 {
                assert(!(expand_spec(rest[k - 1], vars) is Ok));
            }
        }
        match expand_all(ws, vars) {
            Ok(ds) => {
                let x = expand_spec(ws[0], vars)->Ok_0;
                let dr = expand_all(rest, vars)->Ok_0;
                assert(ds == seq![x] + dr);
                assert forall|i: int| 0 <= i < ws.len() implies #[trigger] expand_spec(ws[i], vars) == Ok::<Seq<char>, ParseFault>(ds[i]) by {
                    if i > 0 {
                        assert(expand_spec(rest[i - 1], vars) == Ok::<Seq<char>, ParseFault>(dr[i - 1]));
                        assert(ds[i] == dr[i - 1]);
                    }
                }
            },
            Err(_) => {},
        }
    }
}

/// The variables and targets defined so far.
pub struct CoreView {
    pub vars: Seq<(Seq<char>, Seq<char>)>,
    pub targets: Seq<(Seq<char>, TargetView)>,
}

/// A file being read: where it is, its lines, the next line to read and the rule
/// whose recipe is being collected.
pub struct FrameView {
    pub path: Seq<char>,
    pub base_dir: Seq<char>,
    pub lines: Seq<Seq<char>>,
    pub next: int,
    pub current: Option<TargetView>,
}

/// What a step asks of its caller.
pub enum StepView {
    Continue,
    Include { file: Seq<char>, line: int, path: Seq<char> },
    Finished,
}

pub open spec fn var_map(c: CoreView) -> Map<Seq<char>, Seq<char>> {
    entry_map(c.vars)
}

/// Files the current rule under its name; a second rule of that name is refused.
pub open spec fn flush_spec(c: CoreView, f: FrameView, line: int) -> Result<(CoreView, FrameView), ParseFault> {
    match f.current {
        None => Ok((c, f)),
        Some(t) => {
            if has_key(c.targets, t.name) {
                Err(ParseFault::DuplicateTarget { file: f.path, line, name: t.name })
            } else {
                Ok((CoreView { targets: c.targets.push((t.name, t)), ..c }, FrameView { current: None, ..f }))
            }
        },
    }
}

/// What a recipe line (after its leading tabs) does to the current rule.
pub open spec fn recipe_effect(t: TargetView, body: Seq<char>, base_dir: Seq<char>, vars: Map<Seq<char>, Seq<char>>) -> Result<TargetView, ParseFault> {
    if starts_with(body, "@watch "@) {
        match expand_spec(trim(body.subrange("@watch "@.len() as int, body.len() as int)), vars) {
            Ok(x) => Ok(TargetView { watches: t.watches.push(x), ..t }),
            Err(f) => Err(f),
        }
    } else if starts_with(body, "@output "@) {
        match expand_spec(trim(body.subrange("@output "@.len() as int, body.len() as int)), vars) {
            Ok(x) => Ok(TargetView { outputs: t.outputs.push(join_spec(base_dir, x)), ..t }),
            Err(f) => Err(f),
        }
    } else if trim(body) == "@always"@ {
        Ok(TargetView { always: true, ..t })
    } else {
        match expand_spec(body, vars) {
            Ok(x) => Ok(TargetView { recipe: t.recipe.push(x), ..t }),
            Err(f) => Err(f),
        }
    }
}

/// A `@watch` line adds one watched path, the expansion of what follows `@watch `, after
/// those already there, and changes nothing else of the rule; it fails only when that
/// expansion fails.
pub proof fn lemma_watch_line_appends(t: TargetView, p: Seq<char>, base_dir: Seq<char>, vars: Map<Seq<char>, Seq<char>>)
    ensures
        (recipe_effect(t, "@watch "@ + p, base_dir, vars) is Ok) == (expand_spec(trim(p), vars) is Ok),
        recipe_effect(t, "@watch "@ + p, base_dir, vars) matches Ok(t2) ==> {
            &&& t2.watches.len() == t.watches.len() + 1
            &&& t2.watches.subrange(0, t.watches.len() as int) == t.watches
            &&& Ok::<Seq<char>, ParseFault>(t2.watches.last()) == expand_spec(trim(p), vars)
            &&& t2.name == t.name
            &&& t2.dependencies == t.dependencies
            &&& t2.outputs == t.outputs
            &&& t2.recipe == t.recipe
            &&& t2.always == t.always
        },
{
    let w = "@watch "@;
    let body = w + p;
    assert(body.subrange(0, w.len() as int) =~= w);
    assert(body.subrange(w.len() as int, body.len() as int) =~= p);
    assert(starts_with(body, w));
    match expand_spec(trim(p), vars) {
        Ok(x) => {
            assert(t.watches.push(x).subrange(0, t.watches.len() as int) =~= t.watches);
        },
        Err(_) => {},
    }
}

/// A `@output` line adds one output, the expansion of what follows `@output ` taken from
/// the file's directory, after those already there, and changes nothing else of the rule.
pub proof fn lemma_output_line_appends(t: TargetView, p: Seq<char>, base_dir: Seq<char>, vars: Map<Seq<char>, Seq<char>>)
    ensures
        (recipe_effect(t, "@output "@ + p, base_dir, vars) is Ok) == (expand_spec(trim(p), vars) is Ok),
        recipe_effect(t, "@output "@ + p, base_dir, vars) matches Ok(t2) ==> {
            &&& t2.outputs.len() == t.outputs.len() + 1
            &&& t2.outputs.subrange(0, t.outputs.len() as int) == t.outputs
            &&& expand_spec(trim(p), vars) matches Ok(x) && t2.outputs.last() == join_spec(base_dir, x)
            &&& t2.name == t.name
            &&& t2.dependencies == t.dependencies
            &&& t2.watches == t.watches
            &&& t2.recipe == t.recipe
            &&& t2.always == t.always
        },
{
    let w = "@output "@;
    let body = w + p;
    assert(body.subrange(0, w.len() as int) =~= w);
    assert(body.subrange(w.len() as int, body.len() as int) =~= p);
    assert(starts_with(body, w));
    reveal_strlit("@watch ");
    reveal_strlit("@output ");
    assert(!starts_with(body, "@watch "@)) by {
        if starts_with(body, "@watch "@) {
            assert(body[1] == "@watch "@[1]);
            assert(body[1] == w[1]);
        }
    }
    match expand_spec(trim(p), vars) {
        Ok(x) => {
            assert(t.outputs.push(join_spec(base_dir, x)).subrange(0, t.outputs.len() as int) =~= t.outputs);
        },
        Err(_) => {},
    }
}

/// An `@always` line marks the rule to be rebuilt every time and changes nothing else.
pub proof fn lemma_always_line_marks(t: TargetView, base_dir: Seq<char>, vars: Map<Seq<char>, Seq<char>>)
    ensures
        recipe_effect(t, "@always"@, base_dir, vars) matches Ok(t2) && t2.always && t2.name == t.name
            && t2.dependencies == t.dependencies && t2.watches == t.watches && t2.outputs == t.outputs
            && t2.recipe == t.recipe,
{
    reveal_strlit("@always");
    reveal_strlit("@watch ");
    reveal_strlit("@output ");
    let b = "@always"@;
    assert(!starts_with(b, "@watch "@)) by {
        if starts_with(b, "@watch "@) {
            assert(b.subrange(0, 7)[1] == "@watch "@[1]);
        }
    }
    assert(!starts_with(b, "@output "@));
    crate::text::lemma_skip_ws(b, 0);
    crate::text::lemma_back_ws(b, skip_ws_at(b), b.len() as int);
    assert(!crate::text::is_ws(b[0]));
    assert(!crate::text::is_ws(b[6]));
    assert(trim(b) =~= b);
}

spec fn skip_ws_at(b: Seq<char>) -> int {
    crate::text::skip_ws(b, 0)
}

/// A recipe line without any `@` is a command: it adds its expansion to the rule's
/// commands, after those already there, and changes nothing else.
pub proof fn lemma_command_line_appends(t: TargetView, body: Seq<char>, base_dir: Seq<char>, vars: Map<Seq<char>, Seq<char>>)
    requires
        !body.contains('@'),
    ensures
        (recipe_effect(t, body, base_dir, vars) is Ok) == (expand_spec(body, vars) is Ok),
        recipe_effect(t, body, base_dir, vars) matches Ok(t2) ==> {
            &&& t2.recipe.len() == t.recipe.len() + 1
            &&& t2.recipe.subrange(0, t.recipe.len() as int) == t.recipe
            &&& Ok::<Seq<char>, ParseFault>(t2.recipe.last()) == expand_spec(body, vars)
            &&& t2.name == t.name
            &&& t2.dependencies == t.dependencies
            &&& t2.watches == t.watches
            &&& t2.outputs == t.outputs
            &&& t2.always == t.always
        },
{
    reveal_strlit("@always");
    reveal_strlit("@watch ");
    reveal_strlit("@output ");
    assert(!starts_with(body, "@watch "@)) by {
        if starts_with(body, "@watch "@) {
            assert(body[0] == body.subrange(0, 7)[0]);
        }
    }
    assert(!starts_with(body, "@output "@)) by {
        if starts_with(body, "@output "@) {
            assert(body[0] == body.subrange(0, 8)[0]);
        }
    }
    assert(trim(body) != "@always"@) by {
        let a = crate::text::skip_ws(body, 0);
        crate::text::lemma_skip_ws(body, 0);
        crate::text::lemma_back_ws(body, a, body.len() as int);
        let e = crate::text::back_ws(body, a, body.len() as int);
        assert(trim(body) == body.subrange(a, e));
        if trim(body) == "@always"@ {
            assert(body.subrange(a, e).len() == 7);
            assert(body.subrange(a, e)[0] == body[a]);
            assert(body[a] == '@');
            assert(body.contains(body[a]));
        }
    }
    match expand_spec(body, vars) {
        Ok(x) => {
            assert(t.recipe.push(x).subrange(0, t.recipe.len() as int) =~= t.recipe);
        },
        Err(_) => {},
    }
}

/// A line that starts with a tab belongs to the recipe of the current rule.
pub open spec fn recipe_spec(c: CoreView, f: FrameView, raw: Seq<char>, n: int) -> Result<(CoreView, FrameView, StepView), ParseFault> {
    match f.current {
        None => Err(ParseFault::RecipeWithoutTarget { file: f.path, line: n }),
        Some(t) => {
            let body = raw.subrange(skip_tabs(raw, 0), raw.len() as int);
            match recipe_effect(t, body, f.base_dir, var_map(c)) {
                Ok(t2) => Ok((c, FrameView { current: Some(t2), ..f }, StepView::Continue)),
                Err(e) => Err(e),
            }
        },
    }
}

/// The value `+=` leaves: the old value, a space if both sides are non-empty, the addition.
pub open spec fn appended(old: Seq<char>, x: Seq<char>) -> Seq<char> {
    if old.len() > 0 && x.len() > 0 {
        old + seq![' '] + x
    } else {
        old + x
    }
}

pub open spec fn set_var(c: CoreView, k: Seq<char>, v: Seq<char>) -> CoreView {
    CoreView { vars: assoc_insert(c.vars, k, v), ..c }
}

/// A rule line `NAME: DEPS...` starts a new current rule.
pub open spec fn rule_spec(c: CoreView, f: FrameView, line: Seq<char>, n: int) -> Result<(CoreView, FrameView, StepView), ParseFault> {
    match find_char_from(line, ':', 0) {
        Some(p) => {
            let name = trim(line.subrange(0, p));
            if name.len() == 0 {
                Err(ParseFault::EmptyTargetName { file: f.path, line: n })
            } else {
                match expand_all(words(line.subrange(p + 1, line.len() as int)), var_map(c)) {
                    Ok(ds) => Ok((c, FrameView { current: Some(fresh_target(name, ds)), ..f }, StepView::Continue)),
                    Err(e) => Err(e),
                }
            }
        },
        None => Err(ParseFault::UnsupportedSyntax { file: f.path, line: n, text: line }),
    }
}

/// Assignments: `:=` sets, `?=` sets if unset, `+=` appends.
pub open spec fn assign_spec(c: CoreView, f: FrameView, line: Seq<char>, n: int) -> Result<(CoreView, FrameView, StepView), ParseFault> {
    match split_spec(line, ":="@) {
        Some((nm, val)) => match expand_spec(trim(val), var_map(c)) {
            Ok(x) => Ok((set_var(c, trim(nm), x), f, StepView::Continue)),
            Err(e) => Err(e),
        },
        None => match split_spec(line, "?="@) {
            Some((nm, val)) => {
                if has_key(c.vars, trim(nm)) {
                    Ok((c, f, StepView::Continue))
                } else {
                    match expand_spec(trim(val), var_map(c)) {
                        Ok(x) => Ok((set_var(c, trim(nm), x), f, StepView::Continue)),
                        Err(e) => Err(e),
                    }
                }
            },
            None => match split_spec(line, "+="@) {
                Some((nm, val)) => match expand_spec(trim(val), var_map(c)) {
                    Ok(x) => {
                        let key = trim(nm);
                        let old = if has_key(c.vars, key) { var_map(c)[key] } else { Seq::empty() };
                        Ok((set_var(c, key, appended(old, x)), f, StepView::Continue))
                    },
                    Err(e) => Err(e),
                },
                None => rule_spec(c, f, line, n),
            },
        },
    }
}

/// A trimmed line that is not part of a recipe.
pub open spec fn directive_spec(c: CoreView, f: FrameView, line: Seq<char>, n: int) -> Result<(CoreView, FrameView, StepView), ParseFault> {
    if line.len() == 0 || starts_with(line, "#"@) {
        Ok((c, f, StepView::Continue))
    } else if starts_with(line, "ifndef "@) || starts_with(line, "ifdef "@) || line == "endif"@
        || starts_with(line, "$(error "@) {
        Ok((c, f, StepView::Continue))
    } else if starts_with(line, "include "@) {
        match expand_spec(trim(line.subrange("include "@.len() as int, line.len() as int)), var_map(c)) {
            Ok(x) => Ok((c, f, StepView::Include { file: f.path, line: n, path: join_spec(f.base_dir, x) })),
            Err(e) => Err(e),
        }
    } else {
        assign_spec(c, f, line, n)
    }
}

/// One line of a file, numbered `n` from 1.
pub open spec fn line_spec(c: CoreView, f: FrameView, raw: Seq<char>, n: int) -> Result<(CoreView, FrameView, StepView), ParseFault> {
    if raw.len() > 0 && raw[0] == '\t' {
        recipe_spec(c, f, raw, n)
    } else {
        match flush_spec(c, f, n) {
            Ok((c2, f2)) => directive_spec(c2, f2, trim(raw), n),
            Err(e) => Err(e),
        }
    }
}

/// The next step on the innermost open file: its next line, or its end (which files its
/// last rule, numbered one past the last line).
pub open spec fn frame_step_spec(c: CoreView, f: FrameView) -> Result<(CoreView, FrameView, bool, StepView), ParseFault> {
    if f.next >= f.lines.len() {
        match flush_spec(c, f, f.lines.len() + 1int) {
            Ok((c2, f2)) => Ok((c2, f2, true, StepView::Continue)),
            Err(e) => Err(e),
        }
    } else {
        match line_spec(c, FrameView { next: f.next + 1, ..f }, f.lines[f.next], f.next + 1) {
            Ok((c2, f2, k)) => Ok((c2, f2, false, k)),
            Err(e) => Err(e),
        }
    }
}

/// The state of a parse: what is defined, and the stack of open files (their canonical
/// paths, and where reading stands in each).
pub struct ParserView {
    pub defs: CoreView,
    pub stack: Seq<Seq<char>>,
    pub frames: Seq<FrameView>,
}

pub open spec fn step_spec(m: ParserView) -> Result<(ParserView, StepView), ParseFault> {
    if m.frames.len() == 0 {
        Ok((m, StepView::Finished))
    } else {
        match frame_step_spec(m.defs, m.frames.last()) {
            Ok((c2, f2, ended, k)) => {
                if ended {
                    Ok((ParserView { defs: c2, stack: m.stack.drop_last(), frames: m.frames.drop_last() }, k))
                } else {
                    Ok((ParserView { defs: c2, stack: m.stack, frames: m.frames.drop_last().push(f2) }, k))
                }
            },
            Err(e) => Err(e),
        }
    }
}

/// Opening a file: refused if it is already open (an include cycle).
pub open spec fn enter_spec(m: ParserView, path: Seq<char>, canonical: Seq<char>, base_dir: Seq<char>, text: Seq<char>) -> Result<ParserView, ParseFault> {
    if m.stack.contains(canonical) {
        Err(ParseFault::IncludeCycle { path: canonical })
    } else {
        Ok(ParserView {
            defs: m.defs,
            stack: m.stack.push(canonical),
            frames: m.frames.push(FrameView { path, base_dir, lines: crate::text::lines(text), next: 0, current: None }),
        })
    }
}

/// The parse `m` with the files `outer_frames` (canonical paths `outer_stack`) open around it.
pub open spec fn nest(m: ParserView, outer_stack: Seq<Seq<char>>, outer_frames: Seq<FrameView>) -> ParserView {
    ParserView { defs: m.defs, stack: outer_stack + m.stack, frames: outer_frames + m.frames }
}

/// A file included from others is read as if it were read alone, in place: each step on
/// it, with the including files open around it, does to the definitions exactly what it
/// would do with no file around it, and leaves the including files as they were; the
/// including file goes on only once the included one is done.
pub proof fn lemma_nested_step(m: ParserView, outer_stack: Seq<Seq<char>>, outer_frames: Seq<FrameView>)
    requires
        m.frames.len() > 0,
        m.stack.len() == m.frames.len(),
    ensures
        step_spec(nest(m, outer_stack, outer_frames)) == match step_spec(m) {
            Ok((m2, k)) => Ok::<(ParserView, StepView), ParseFault>((nest(m2, outer_stack, outer_frames), k)),
            Err(e) => Err::<(ParserView, StepView), ParseFault>(e),
        },
{
    let n = nest(m, outer_stack, outer_frames);
    assert(n.frames.last() == m.frames.last());
    assert(n.frames.drop_last() =~= outer_frames + m.frames.drop_last());
    assert(n.stack.drop_last() =~= outer_stack + m.stack.drop_last());
    match frame_step_spec(m.defs, m.frames.last()) {
        Ok((c2, f2, ended, k)) => {
            assert(n.frames.drop_last().push(f2) =~= outer_frames + m.frames.drop_last().push(f2));
        },
        Err(e) => {},
    }
}

/// Opening a file inside others is opening it alone, but for an include cycle through the
/// files around it.
pub proof fn lemma_nested_enter(m: ParserView, outer_stack: Seq<Seq<char>>, outer_frames: Seq<FrameView>, path: Seq<char>, canonical: Seq<char>, base_dir: Seq<char>, text: Seq<char>)
    ensures
        enter_spec(nest(m, outer_stack, outer_frames), path, canonical, base_dir, text) == if outer_stack.contains(canonical) {
            Err::<ParserView, ParseFault>(ParseFault::IncludeCycle { path: canonical })
        } else {
            match enter_spec(m, path, canonical, base_dir, text) {
                Ok(m2) => Ok::<ParserView, ParseFault>(nest(m2, outer_stack, outer_frames)),
                Err(e) => Err::<ParserView, ParseFault>(e),
            }
        },
{
    let n = nest(m, outer_stack, outer_frames);
    assert(n.stack.contains(canonical) == (outer_stack.contains(canonical) || m.stack.contains(canonical))) by {
        if m.stack.contains(canonical) {
            let j = choose|j: int| 0 <= j < m.stack.len() && m.stack[j] == canonical;
            assert(n.stack[outer_stack.len() + j] == canonical);
        }
        if outer_stack.contains(canonical) {
            let j = choose|j: int| 0 <= j < outer_stack.len() && outer_stack[j] == canonical;
            assert(n.stack[j] == canonical);
        }
        if n.stack.contains(canonical) {
            let j = choose|j: int| 0 <= j < n.stack.len() && n.stack[j] == canonical;
            if j >= outer_stack.len() {
                assert(m.stack[j - outer_stack.len()] == canonical);
            }
        }
    }
    let f = FrameView { path, base_dir, lines: crate::text::lines(text), next: 0, current: None };
    assert(n.stack.push(canonical) =~= outer_stack + m.stack.push(canonical));
    assert(n.frames.push(f) =~= outer_frames + m.frames.push(f));
}

/// A build file handed to the parser.
#[derive(Debug)]
pub struct SourceFile {
    /// The path as it is shown in messages.
    pub path: String,
    /// The canonical path, by which include cycles are found.
    pub canonical: String,
    /// The directory of the canonical path, against which includes and outputs are resolved.
    pub base_dir: String,
    /// The contents.
    pub text: String,
}

/// What the parser needs next.
#[derive(Debug, PartialEq, Eq)]
pub enum ParseStep {
    /// Call `step` again.
    Continue,
    /// Read `path` (named on line `line` of `file`) and hand it to `enter`, then go on.
    Include { file: String, line: usize, path: String },
    /// Every file has been read: call `parse`.
    Finished,
}

impl View for ParseStep {
    type V = StepView;

    open spec fn view(&self) -> StepView {
        match self {
            ParseStep::Continue => StepView::Continue,
            ParseStep::Include { file, line, path } => StepView::Include {
                file: file@,
                line: *line as int,
                path: path@,
            },
            ParseStep::Finished => StepView::Finished,
        }
    }
}

struct Frame {
    path: String,
    base_dir: String,
    lines: Vec<Vec<char>>,
    next: usize,
    current: Option<Target>,
}

impl View for Frame {
    type V = FrameView;

    closed spec fn view(&self) -> FrameView {
        FrameView {
            path: self.path@,
            base_dir: self.base_dir@,
            lines: self.lines@.map_values(|l: Vec<char>| l@),
            next: self.next as int,
            current: match self.current {
                Some(t) => Some(t@),
                None => None,
            },
        }
    }
}

/// Reads build files line by line into a project.
pub struct Parser {
    root: String,
    jobs: usize,
    variables: StrMap<String>,
    targets: StrMap<Target>,
    shell: String,
    include_stack: Vec<String>,
    frames: Vec<Frame>,
}

impl Parser {
    pub closed spec fn defs(&self) -> CoreView {
        CoreView {
            vars: text_entries(self.variables.entries()),
            targets: target_entries(self.targets.entries()),
        }
    }

    /// The targets defined so far, in order of definition.
    pub closed spec fn target_table(&self) -> Seq<(Seq<char>, Target)> {
        self.targets.entries()
    }

    pub closed spec fn view(&self) -> ParserView {
        ParserView {
            defs: self.defs(),
            stack: strs(self.include_stack@),
            frames: self.frames@.map_values(|f: Frame| f@),
        }
    }

    pub closed spec fn wf(&self) -> bool {
        &&& self.variables.wf()
        &&& self.targets.wf()
        &&& forall|i: int| 0 <= i < self.frames@.len() ==> #[trigger] self.frames@[i].next <= self.frames@[i].lines@.len() && self.frames@[i].lines@.len() < usize::MAX
        &&& self.frames@.len() == self.include_stack@.len()
        &&& forall|i: int| 0 <= i < self.targets.entries().len() ==> (#[trigger] self.targets.entries()[i]).0 == self.targets.entries()[i].1.name@
        &&& self.shell@ == "/bin/sh"@
    }
}

pub proof fn lemma_text_entries(es: Seq<(Seq<char>, String)>)
    requires
        distinct_keys(es),
    ensures
        distinct_keys(text_entries(es)),
        entry_map(text_entries(es)) == text_vars(entry_map(es)),
        forall|k: Seq<char>| has_key(text_entries(es), k) == has_key(es, k),
{
    let t = text_entries(es);
    assert forall|k: Seq<char>| has_key(t, k) == has_key(es, k) by {
        if has_key(es, k) {
            let i = key_pos(es, k);
            assert(t[i].0 == k);
        }
        if has_key(t, k) {
            let i = key_pos(t, k);
            assert(es[i].0 == k);
        }
    }
    assert forall|k: Seq<char>| #[trigger] entry_map(t).contains_key(k) implies entry_map(t)[k]
        == text_vars(entry_map(es))[k] by {
        let i = key_pos(es, k);
        lemma_key_pos(es, i);
        lemma_key_pos(t, i);
    }
    assert(entry_map(t) =~= text_vars(entry_map(es)));
}


pub proof fn lemma_target_entries(es: Seq<(Seq<char>, Target)>)
    ensures
        forall|k: Seq<char>| has_key(target_entries(es), k) == has_key(es, k),
{
    let t = target_entries(es);
    assert forall|k: Seq<char>| has_key(t, k) == has_key(es, k) by {
        if has_key(es, k) {
            let i = key_pos(es, k);
            assert(t[i].0 == k);
        }
        if has_key(t, k) {
            let i = key_pos(t, k);
            assert(es[i].0 == k);
        }
    }
}

impl Parser {
    proof fn lemma_defs(&self)
        requires
            self.variables.wf(),
        ensures
            var_map(self.defs()) == text_vars(self.variables@),
            forall|k: Seq<char>| has_key(self.defs().vars, k) == self.variables@.contains_key(k),
            forall|k: Seq<char>| has_key(self.defs().targets, k) == self.targets@.contains_key(k),
    {
        lemma_text_entries(self.variables.entries());
        lemma_target_entries(self.targets.entries());
    }

    /// Files `target` under its name; a second target of that name is refused.
    fn insert_target(&mut self, target: Target, file: &String, line: usize) -> (r: Result<(), ParseError>)
        requires
            old(self).wf(),
        ensures
            final(self).wf(),
            final(self).frames == old(self).frames,
            final(self).include_stack == old(self).include_stack,
            final(self).variables == old(self).variables,
            has_key(old(self).defs().targets, target@.name) ==> r is Err && r->Err_0@ == (ParseFault::DuplicateTarget { file: file@, line: line as int, name: target@.name })
                && final(self).defs() == old(self).defs() && final(self).target_table() == old(self).target_table(),
            !has_key(old(self).defs().targets, target@.name) ==> r is Ok && final(self).defs() == (CoreView { targets: old(self).defs().targets.push((target@.name, target@)), ..old(self).defs() }),
    {
        proof {
            self.lemma_defs();
        }
        if self.targets.contains_key(&target.name) {
            let name = target.name.clone();
            return Err(ParseError::DuplicateTarget { file: file.clone(), line, name });
        }
        let ghost old_es = self.targets.entries();
        let key = target.name.clone();
        let ghost tv = target@;
        self.targets.insert(key, target);
        assert(target_entries(self.targets.entries()) =~= target_entries(old_es).push((tv.name, tv)));
        Ok(())
    }

    /// Files the current rule of `f` under its name.
    fn flush(&mut self, f: &mut Frame, line: usize) -> (r: Result<(), ParseError>)
        requires
            old(self).wf(),
        ensures
            final(self).wf(),
            final(self).frames == old(self).frames,
            final(self).include_stack == old(self).include_stack,
            final(self).variables == old(self).variables,
            final(f).path == old(f).path,
            final(f).base_dir == old(f).base_dir,
            final(f).lines == old(f).lines,
            final(f).next == old(f).next,
            match r {
                Ok(_) => flush_spec(old(self).defs(), old(f)@, line as int) == Ok::<(CoreView, FrameView), ParseFault>((final(self).defs(), final(f)@)),
                Err(e) => flush_spec(old(self).defs(), old(f)@, line as int) == Err::<(CoreView, FrameView), ParseFault>(e@),
            },
    {
        proof {
            self.lemma_defs();
        }
        match f.current.take() {
            None => {
                assert(f@ == old(f)@);
                Ok(())
            },
            Some(t) => {
                let ghost tv = t@;
                self.insert_target(t, &f.path, line)?;
                assert(f@ == (FrameView { current: None, ..old(f)@ }));
                Ok(())
            },
        }
    }
}

pub proof fn lemma_strs_push(v: Seq<String>, x: String)
    ensures
        strs(v.push(x)) == strs(v).push(x@),
{
    assert(strs(v.push(x)) =~= strs(v).push(x@));
}

impl Parser {
    /// A recipe line (one that starts with a tab) of file `f`, numbered `n`.
    fn recipe_line(&self, f: &mut Frame, raw: &Vec<char>, n: usize) -> (r: Result<(), ParseError>)
        requires
            self.wf(),
            raw@.len() > 0,
            raw@[0] == '\t',
        ensures
            final(f).path == old(f).path,
            final(f).base_dir == old(f).base_dir,
            final(f).lines == old(f).lines,
            final(f).next == old(f).next,
            match r {
                Ok(_) => recipe_spec(self.defs(), old(f)@, raw@, n as int) == Ok::<(CoreView, FrameView, StepView), ParseFault>((self.defs(), final(f)@, StepView::Continue)),
                Err(e) => recipe_spec(self.defs(), old(f)@, raw@, n as int) == Err::<(CoreView, FrameView, StepView), ParseFault>(e@),
            },
    {
        proof {
            self.lemma_defs();
        }
        let ghost vars = var_map(self.defs());
        let ghost f0 = f@;
        let mut t = match f.current.take() {
            None => {
                return Err(ParseError::RecipeWithoutTarget { file: f.path.clone(), line: n });
            },
            Some(t) => t,
        };
        let ghost t0 = t@;
        let mut a: usize = 0;
        while a < raw.len() && raw[a] == '\t'
            invariant
                a <= raw@.len(),
                skip_tabs(raw@, 0) == skip_tabs(raw@, a as int),
            decreases raw@.len() - a,
        {
            a = a + 1;
        }
        let body = slice_of(raw, a, raw.len());
        assert(body@ == raw@.subrange(skip_tabs(raw@, 0), raw@.len() as int));
        let watch = chars_of("@watch ");
        let output = chars_of("@output ");
        let always = chars_of("@always");
        if starts_with_chars(&body, &watch) {
            let rest = slice_of(&body, watch.len(), body.len());
            let p = trim_chars(&rest);
            let x = expand(&self.variables, &p)?;
            proof {
                lemma_strs_push(t.watches@, x);
            }
            t.watches.push(x);
            f.current = Some(t);
            assert(f@ == (FrameView { current: Some(TargetView { watches: t0.watches.push(x@), ..t0 }), ..f0 }));
            Ok(())
        } else if starts_with_chars(&body, &output) {
            let rest = slice_of(&body, output.len(), body.len());
            let p = trim_chars(&rest);
            let x = expand(&self.variables, &p)?;
            let joined = join_path(&f.base_dir, &x);
            proof {
                lemma_strs_push(t.outputs@, joined);
            }
            t.outputs.push(joined);
            f.current = Some(t);
            assert(f@ == (FrameView { current: Some(TargetView { outputs: t0.outputs.push(joined@), ..t0 }), ..f0 }));
            Ok(())
        } else if chars_eq(&trim_chars(&body), &always) {
            t.always = true;
            f.current = Some(t);
            assert(f@ == (FrameView { current: Some(TargetView { always: true, ..t0 }), ..f0 }));
            Ok(())
        } else {
            let x = expand(&self.variables, &body)?;
            proof {
                lemma_strs_push(t.recipe@, x);
            }
            t.recipe.push(x);
            f.current = Some(t);
            assert(f@ == (FrameView { current: Some(TargetView { recipe: t0.recipe.push(x@), ..t0 }), ..f0 }));
            Ok(())
        }
    }
}

/// Setting a variable, seen through the characters of its value.
pub proof fn lemma_insert_text(es: Seq<(Seq<char>, String)>, k: Seq<char>, v: String)
    requires
        distinct_keys(es),
    ensures
        text_entries(assoc_insert(es, k, v)) == assoc_insert(text_entries(es), k, v@),
{
    lemma_text_entries(es);
    let t = text_entries(es);
    if has_key(es, k) {
        let i = key_pos(es, k);
        lemma_key_pos(es, i);
        lemma_key_pos(t, i);
        assert(text_entries(es.update(i, (k, v))) =~= t.update(i, (k, v@)));
    } else {
        assert(text_entries(es.push((k, v))) =~= t.push((k, v@)));
    }
}

/// `prefix` put before a successful list of results.
pub open spec fn prepend_all(prefix: Seq<Seq<char>>, r: Result<Seq<Seq<char>>, ParseFault>) -> Result<Seq<Seq<char>>, ParseFault> {
    match r {
        Ok(rest) => Ok(prefix + rest),
        Err(f) => Err(f),
    }
}

fn expand_words(vars: &StrMap<String>, ws: &Vec<Vec<char>>) -> (r: Result<Vec<String>, ParseError>)
    requires
        vars.wf(),
    ensures
        match r {
            Ok(v) => expand_all(ws@.map_values(|l: Vec<char>| l@), text_vars(vars@)) == Ok::<Seq<Seq<char>>, ParseFault>(strs(v@)),
            Err(e) => expand_all(ws@.map_values(|l: Vec<char>| l@), text_vars(vars@)) == Err::<Seq<Seq<char>>, ParseFault>(e@),
        },
{
    let ghost wv = ws@.map_values(|l: Vec<char>| l@);
    let ghost tv = text_vars(vars@);
    let mut out: Vec<String> = Vec::new();
    let mut i: usize = 0;
    proof {
        assert(wv.subrange(0, wv.len() as int) =~= wv);
        assert(strs(out@) =~= Seq::<Seq<char>>::empty());
        match expand_all(wv, tv) {
            Ok(r0) => {
                assert(Seq::<Seq<char>>::empty() + r0 =~= r0);
            },
            Err(_) => {},
        }
    }
    while i < ws.len()
        invariant
            i <= ws@.len(),
            vars.wf(),
            wv == ws@.map_values(|l: Vec<char>| l@),
            tv == text_vars(vars@),
            expand_all(wv, tv) == prepend_all(strs(out@), expand_all(wv.subrange(i as int, wv.len() as int), tv)),
        decreases ws@.len() - i,
    {
        let ghost rest = wv.subrange(i as int, wv.len() as int);
        assert(rest[0] == ws@[i as int]@);
        assert(rest.drop_first() =~= wv.subrange(i + 1, wv.len() as int));
        let x = expand(vars, &ws[i])?;
        proof {
            lemma_strs_push(out@, x);
            match expand_all(wv.subrange(i + 1, wv.len() as int), tv) {
                Ok(r2) => {
                    assert(strs(out@) + (seq![x@] + r2) =~= strs(out@).push(x@) + r2);
                },
                Err(_) => {},
            }
        }
        out.push(x);
        i = i + 1;
    }
    assert(wv.subrange(i as int, wv.len() as int) =~= Seq::<Seq<char>>::empty());
    assert(strs(out@) + Seq::<Seq<char>>::empty() =~= strs(out@));
    Ok(out)
}

impl Parser {
    /// Sets variable `key` to `value`.
    fn set_variable(&mut self, key: String, value: String)
        requires
            old(self).wf(),
        ensures
            final(self).wf(),
            final(self).frames == old(self).frames,
            final(self).include_stack == old(self).include_stack,
            final(self).targets == old(self).targets,
            final(self).defs() == set_var(old(self).defs(), key@, value@),
    {
        let ghost es = self.variables.entries();
        let ghost k = key@;
        let ghost v = value;
        self.variables.insert(key, value);
        proof {
            lemma_insert_text(es, k, v);
            assert(self.variables.entries() == assoc_insert(es, k, v));
        }
    }

    /// A rule line `NAME: DEPS...`, or a line of no known form.
    fn rule_line(&self, f: &mut Frame, line: &Vec<char>, n: usize) -> (r: Result<ParseStep, ParseError>)
        requires
            self.wf(),
        ensures
            final(f).path == old(f).path,
            final(f).base_dir == old(f).base_dir,
            final(f).lines == old(f).lines,
            final(f).next == old(f).next,
            match r {
                Ok(k) => rule_spec(self.defs(), old(f)@, line@, n as int) == Ok::<(CoreView, FrameView, StepView), ParseFault>((self.defs(), final(f)@, k@)),
                Err(e) => rule_spec(self.defs(), old(f)@, line@, n as int) == Err::<(CoreView, FrameView, StepView), ParseFault>(e@),
            },
    {
        proof {
            self.lemma_defs();
            lemma_find_char_from(line@, ':', 0);
        }
        let len = line.len();
        match find_char(line, ':', 0) {
            Some(p) => {
                let before = slice_of(line, 0, p);
                let name = trim_chars(&before);
                if name.len() == 0 {
                    return Err(ParseError::EmptyTargetName { file: f.path.clone(), line: n });
                }
                let after = slice_of(line, p + 1, len);
                let ws = split_words(&after);
                let deps = expand_words(&self.variables, &ws)?;
                let t = Target::new(string_of(&name), deps);
                f.current = Some(t);
                Ok(ParseStep::Continue)
            },
            None => {
                Err(ParseError::UnsupportedSyntax { file: f.path.clone(), line: n, text: string_of(line) })
            },
        }
    }
}

impl Parser {
    /// Assignment lines, or else a rule line.
    fn assign_line(&mut self, f: &mut Frame, line: &Vec<char>, n: usize) -> (r: Result<ParseStep, ParseError>)
        requires
            old(self).wf(),
        ensures
            final(self).wf(),
            final(self).frames == old(self).frames,
            final(self).include_stack == old(self).include_stack,
            final(self).targets == old(self).targets,
            final(f).path == old(f).path,
            final(f).base_dir == old(f).base_dir,
            final(f).lines == old(f).lines,
            final(f).next == old(f).next,
            match r {
                Ok(k) => assign_spec(old(self).defs(), old(f)@, line@, n as int) == Ok::<(CoreView, FrameView, StepView), ParseFault>((final(self).defs(), final(f)@, k@)),
                Err(e) => assign_spec(old(self).defs(), old(f)@, line@, n as int) == Err::<(CoreView, FrameView, StepView), ParseFault>(e@),
            },
    {
        proof {
            self.lemma_defs();
        }
        let set_op = chars_of(":=");
        let default_op = chars_of("?=");
        let append_op = chars_of("+=");
        match split_assignment(line, &set_op) {
            Some((nm, val)) => {
                let x = expand(&self.variables, &trim_chars(&val))?;
                let key = string_of(&trim_chars(&nm));
                self.set_variable(key, x);
                return Ok(ParseStep::Continue);
            },
            None => {},
        }
        match split_assignment(line, &default_op) {
            Some((nm, val)) => {
                let key = string_of(&trim_chars(&nm));
                if self.variables.contains_key(&key) {
                    return Ok(ParseStep::Continue);
                }
                let x = expand(&self.variables, &trim_chars(&val))?;
                self.set_variable(key, x);
                return Ok(ParseStep::Continue);
            },
            None => {},
        }
        match split_assignment(line, &append_op) {
            Some((nm, val)) => {
                let key = string_of(&trim_chars(&nm));
                let x = expand(&self.variables, &trim_chars(&val))?;
                let mut value = match self.variables.get(&key) {
                    Some(old) => old.clone(),
                    None => String::new(),
                };
                let ghost old_value = value@;
                if !value.as_str().is_empty() && !x.as_str().is_empty() {
                    push_char(&mut value, ' ');
                }
                push_str(&mut value, x.as_str());
                assert(value@ =~= appended(old_value, x@));
                self.set_variable(key, value);
                return Ok(ParseStep::Continue);
            },
            None => {},
        }
        self.rule_line(f, line, n)
    }

    /// A line that does not start with a tab, trimmed.
    fn directive_line(&mut self, f: &mut Frame, line: &Vec<char>, n: usize) -> (r: Result<ParseStep, ParseError>)
        requires
            old(self).wf(),
        ensures
            final(self).wf(),
            final(self).frames == old(self).frames,
            final(self).include_stack == old(self).include_stack,
            final(self).targets == old(self).targets,
            final(f).path == old(f).path,
            final(f).base_dir == old(f).base_dir,
            final(f).lines == old(f).lines,
            final(f).next == old(f).next,
            match r {
                Ok(k) => directive_spec(old(self).defs(), old(f)@, line@, n as int) == Ok::<(CoreView, FrameView, StepView), ParseFault>((final(self).defs(), final(f)@, k@)),
                Err(e) => directive_spec(old(self).defs(), old(f)@, line@, n as int) == Err::<(CoreView, FrameView, StepView), ParseFault>(e@),
            },
    {
        proof {
            self.lemma_defs();
        }
        let len = line.len();
        if len == 0 || starts_with_chars(line, &chars_of("#")) {
            return Ok(ParseStep::Continue);
        }
        if starts_with_chars(line, &chars_of("ifndef ")) || starts_with_chars(line, &chars_of("ifdef "))
            || chars_eq(line, &chars_of("endif")) || starts_with_chars(line, &chars_of("$(error ")) {
            return Ok(ParseStep::Continue);
        }
        let inc_kw = chars_of("include ");
        if starts_with_chars(line, &inc_kw) {
            let rest = slice_of(line, inc_kw.len(), len);
            let x = expand(&self.variables, &trim_chars(&rest))?;
            let path = join_path(&f.base_dir, &x);
            return Ok(ParseStep::Include { file: f.path.clone(), line: n, path });
        }
        self.assign_line(f, line, n)
    }

    /// One line of file `f`, numbered `n`.
    fn line_step(&mut self, f: &mut Frame, raw: &Vec<char>, n: usize) -> (r: Result<ParseStep, ParseError>)
        requires
            old(self).wf(),
        ensures
            final(self).wf(),
            final(self).frames == old(self).frames,
            final(self).include_stack == old(self).include_stack,
            final(f).path == old(f).path,
            final(f).base_dir == old(f).base_dir,
            final(f).lines == old(f).lines,
            final(f).next == old(f).next,
            match r {
                Ok(k) => line_spec(old(self).defs(), old(f)@, raw@, n as int) == Ok::<(CoreView, FrameView, StepView), ParseFault>((final(self).defs(), final(f)@, k@)),
                Err(e) => line_spec(old(self).defs(), old(f)@, raw@, n as int) == Err::<(CoreView, FrameView, StepView), ParseFault>(e@),
            },
    {
        if raw.len() > 0 && raw[0] == '\t' {
            self.recipe_line(f, raw, n)?;
            Ok(ParseStep::Continue)
        } else {
            self.flush(f, n)?;
            let line = trim_chars(raw);
            self.directive_line(f, &line, n)
        }
    }
}

impl Parser {
    /// A parser that knows the variables `MMAKE` (`1`), `ROOT`, `CWD` and `JOBS`.
    pub fn new(root: String, cwd: String, jobs: usize) -> (p: Parser)
        ensures
            p.wf(),
            p@.defs.vars == seq![
                ("MMAKE"@, "1"@),
                ("ROOT"@, root@),
                ("CWD"@, cwd@),
                ("JOBS"@, crate::text::decimal(jobs as nat)),
            ],
            p@.defs.targets == Seq::<(Seq<char>, TargetView)>::empty(),
            p@.stack == Seq::<Seq<char>>::empty(),
            p@.frames == Seq::<FrameView>::empty(),
    {
        proof {
            reveal_strlit("MMAKE");
            reveal_strlit("ROOT");
            reveal_strlit("CWD");
            reveal_strlit("JOBS");
        }
        let mut variables: StrMap<String> = StrMap::new();
        let ghost e0 = variables.entries();
        variables.insert(String::from_str("MMAKE"), String::from_str("1"));
        let ghost e1 = variables.entries();
        assert(!has_key(e0, "MMAKE"@));
        let root_value = root.clone();
        variables.insert(String::from_str("ROOT"), root_value);
        let ghost e2 = variables.entries();
        assert(!has_key(e1, "ROOT"@)) by {
            if has_key(e1, "ROOT"@) {
                let j = key_pos(e1, "ROOT"@);
                assert(e1[j].0 == "MMAKE"@);
            }
        }
        variables.insert(String::from_str("CWD"), cwd);
        let ghost e3 = variables.entries();
        assert(!has_key(e2, "CWD"@)) by {
            if has_key(e2, "CWD"@) {
                let j = key_pos(e2, "CWD"@);
                assert(e2[j].0 == "MMAKE"@ || e2[j].0 == "ROOT"@);
            }
        }
        variables.insert(String::from_str("JOBS"), crate::text::decimal_string(jobs));
        assert(e3.len() == 3 && e3[0].0 == "MMAKE"@ && e3[1].0 == "ROOT"@ && e3[2].0 == "CWD"@);
        assert(!has_key(e3, "JOBS"@)) by {
            if has_key(e3, "JOBS"@) {
                let j = key_pos(e3, "JOBS"@);
                assert(j == 0 || j == 1 || j == 2);
                reveal_strlit("JOBS");
                reveal_strlit("ROOT");
                reveal_strlit("MMAKE");
                reveal_strlit("CWD");
                assert("JOBS"@[0] != "ROOT"@[0]);
                assert("JOBS"@ != "ROOT"@);
                assert("JOBS"@ != "MMAKE"@);
                assert("JOBS"@ != "CWD"@);
                assert(e3[j].0 == "MMAKE"@ || e3[j].0 == "ROOT"@ || e3[j].0 == "CWD"@);
            }
        }
        let p = Parser {
            root,
            jobs,
            variables,
            targets: StrMap::new(),
            shell: String::from_str("/bin/sh"),
            include_stack: Vec::new(),
            frames: Vec::new(),
        };
        assert(p@.defs.vars =~= seq![
            ("MMAKE"@, "1"@),
            ("ROOT"@, p.root@),
            ("CWD"@, e3.last().1@),
            ("JOBS"@, crate::text::decimal(jobs as nat)),
        ]);
        assert(p@.defs.targets =~= Seq::<(Seq<char>, TargetView)>::empty());
        assert(p@.stack =~= Seq::<Seq<char>>::empty());
        assert(p@.frames =~= Seq::<FrameView>::empty());
        p
    }

    /// Opens a file: its lines are read next, before the rest of the file that named it.
    pub fn enter(&mut self, file: SourceFile) -> (r: Result<(), ParseError>)
        requires
            old(self).wf(),
            file.text@.len() < usize::MAX,
        ensures
            final(self).wf(),
            match r {
                Ok(_) => enter_spec(old(self)@, file.path@, file.canonical@, file.base_dir@, file.text@) == Ok::<ParserView, ParseFault>(final(self)@),
                Err(e) => enter_spec(old(self)@, file.path@, file.canonical@, file.base_dir@, file.text@) == Err::<ParserView, ParseFault>(e@),
            },
    {
        let mut i: usize = 0;
        while i < self.include_stack.len()
            invariant
                self.wf(),
                i <= self.include_stack@.len(),
                forall|j: int| 0 <= j < i ==> self.include_stack@[j]@ != file.canonical@,
            decreases self.include_stack@.len() - i,
        {
            if self.include_stack[i] == file.canonical {
                assert(strs(self.include_stack@)[i as int] == file.canonical@);
                return Err(ParseError::IncludeCycle { path: file.canonical });
            }
            i = i + 1;
        }
        assert(!strs(self.include_stack@).contains(file.canonical@));
        let chars = chars_of(file.text.as_str());
        let lines = crate::text::split_lines(&chars);
        proof {
            crate::text::lemma_lines_len(chars@, 0);
        }
        let ghost stack0 = self.include_stack@;
        let ghost frames0 = self.frames@;
        let ghost canon = file.canonical@;
        self.include_stack.push(file.canonical);
        let frame = Frame { path: file.path, base_dir: file.base_dir, lines, next: 0, current: None };
        let ghost fv = frame@;
        self.frames.push(frame);
        proof {
            lemma_strs_push(stack0, self.include_stack@.last());
            assert(self.frames@.map_values(|f: Frame| f@) =~= frames0.map_values(|f: Frame| f@).push(fv));
            assert(self.frames@.last().lines@.len() == lines@.len());
            assert(lines@.map_values(|l: Vec<char>| l@).len() == lines@.len());
            assert forall|i: int| 0 <= i < self.frames@.len() implies #[trigger] self.frames@[i].next <= self.frames@[i].lines@.len() && self.frames@[i].lines@.len() < usize::MAX by {
                if i < self.frames@.len() - 1 {
                    assert(self.frames@[i] == frames0[i]);
                }
            }
        }
        Ok(())
    }

    /// Reads one line of the innermost open file, or closes it when it is done.
    pub fn step(&mut self) -> (r: Result<ParseStep, ParseError>)
        requires
            old(self).wf(),
        ensures
            final(self).wf(),
            match r {
                Ok(k) => step_spec(old(self)@) == Ok::<(ParserView, StepView), ParseFault>((final(self)@, k@)),
                Err(e) => step_spec(old(self)@) == Err::<(ParserView, StepView), ParseFault>(e@),
            },
    {
        if self.frames.len() == 0 {
            assert(self@.frames.len() == 0);
            return Ok(ParseStep::Finished);
        }
        let ghost frames0 = self.frames@;
        let ghost stack0 = self.include_stack@;
        assert(frames0[frames0.len() - 1].lines@.len() < usize::MAX);
        assert(frames0[frames0.len() - 1].next <= frames0[frames0.len() - 1].lines@.len());
        let mut f = self.frames.pop().unwrap();
        let canon = self.include_stack.pop().unwrap();
        assert(f == frames0.last());
        assert(self.frames@.map_values(|x: Frame| x@) =~= frames0.map_values(|x: Frame| x@).drop_last());
        assert(self.wf()) by {
            assert forall|i: int| 0 <= i < self.frames@.len() implies #[trigger] self.frames@[i].next <= self.frames@[i].lines@.len() && self.frames@[i].lines@.len() < usize::MAX by {
                assert(self.frames@[i] == frames0[i]);
            }
        }
        let count = f.lines.len();
        if f.next >= count {
            self.flush(&mut f, count + 1)?;
            assert(strs(self.include_stack@) =~= strs(stack0).drop_last());
            Ok(ParseStep::Continue)
        } else {
            let n = f.next + 1;
            let raw = slice_of(&f.lines[f.next], 0, f.lines[f.next].len());
            assert(raw@ == f@.lines[f@.next]);
            let ghost fv0 = f@;
            f.next = n;
            assert(f@ == (FrameView { next: fv0.next + 1, ..fv0 }));
            let k = self.line_step(&mut f, &raw, n)?;
            let ghost fv = f@;
            self.frames.push(f);
            self.include_stack.push(canon);
            assert(self.include_stack@ =~= stack0);
            assert(self.frames@.map_values(|x: Frame| x@) =~= frames0.map_values(|x: Frame| x@).drop_last().push(fv));
            assert(self.wf()) by {
                assert forall|i: int| 0 <= i < self.frames@.len() implies #[trigger] self.frames@[i].next <= self.frames@[i].lines@.len() && self.frames@[i].lines@.len() < usize::MAX by {
                    if i < self.frames@.len() - 1 {
                        assert(self.frames@[i] == frames0[i]);
                    }
                }
            }
            Ok(k)
        }
    }
}

/// The first of `ds` from position `j` on that names no target.
pub open spec fn first_missing(g: Map<Seq<char>, Target>, ds: Seq<Seq<char>>, j: int) -> Option<Seq<char>>
    decreases ds.len() - j,
{
    if j < 0 || j >= ds.len() {
        None
    } else if !g.contains_key(ds[j]) {
        Some(ds[j])
    } else {
        first_missing(g, ds, j + 1)
    }
}

/// The first target (in entry order, from position `i` on) with a dependency that names
/// no target, and that dependency.
pub open spec fn first_unknown(es: Seq<(Seq<char>, Target)>, g: Map<Seq<char>, Target>, i: int) -> Option<(Seq<char>, Seq<char>)>
    decreases es.len() - i,
{
    if i < 0 || i >= es.len() {
        None
    } else {
        match first_missing(g, strs(es[i].1.dependencies@), 0) {
            Some(d) => Some((es[i].1.name@, d)),
            None => first_unknown(es, g, i + 1),
        }
    }
}

pub proof fn lemma_first_missing_none(g: Map<Seq<char>, Target>, ds: Seq<Seq<char>>, j: int)
    requires
        0 <= j,
        first_missing(g, ds, j) is None,
    ensures
        forall|k: int| j <= k < ds.len() ==> g.contains_key(#[trigger] ds[k]),
    decreases ds.len() - j,
{
    if j < ds.len() {
        lemma_first_missing_none(g, ds, j + 1);
    }
}

pub proof fn lemma_first_unknown_none(es: Seq<(Seq<char>, Target)>, g: Map<Seq<char>, Target>, i: int)
    requires
        0 <= i,
        first_unknown(es, g, i) is None,
    ensures
        forall|k: int, q: int| i <= k < es.len() && 0 <= q < strs(es[k].1.dependencies@).len() ==> g.contains_key(#[trigger] strs(es[k].1.dependencies@)[q]),
    decreases es.len() - i,
{
    if i < es.len() {
        lemma_first_missing_none(g, strs(es[i].1.dependencies@), 0);
        lemma_first_unknown_none(es, g, i + 1);
    }
}

/// The outcome that dependency validation owes: the first unknown dependency in entry
/// order; else a cycle if there is one; else success.
pub open spec fn validation_ok(es: Seq<(Seq<char>, Target)>, r: Result<(), ParseFault>) -> bool {
    let g = entry_map(es);
    match first_unknown(es, g, 0) {
        Some((t, d)) => r == Err::<(), ParseFault>(ParseFault::UnknownDependency { target: t, dependency: d }),
        None => {
            &&& deps_known(g)
            &&& (r is Ok <==> acyclic(g))
            &&& (r matches Err(ParseFault::DependencyCycle { target }) && on_cycle(g, target) || r is Ok)
        },
    }
}

impl Parser {
    /// Depth-first search from `name`; `visiting` holds the names on the way to it.
    fn visit(&self, name: &String, visiting: &mut StrSet, visited: &mut StrSet) -> (r: Result<(), ParseError>)
        requires
            self.targets.wf(),
            deps_known(self.targets@),
            self.targets@.contains_key(name@),
            old(visiting).wf(),
            old(visited).wf(),
            old(visiting)@.subset_of(self.targets@.dom()),
            forall|v: Seq<char>| #[trigger] old(visiting)@.contains(v) ==> reaches_plus(self.targets@, v, name@),
            forall|v: Seq<char>| #[trigger] old(visited)@.contains(v) ==> clean(self.targets@, v) && self.targets@.contains_key(v),
            dep_closed(self.targets@, old(visited)@),
        ensures
            final(visiting).wf(),
            final(visited).wf(),
            forall|v: Seq<char>| #[trigger] final(visited)@.contains(v) ==> clean(self.targets@, v) && self.targets@.contains_key(v),
            dep_closed(self.targets@, final(visited)@),
            match r {
                Ok(_) => {
                    &&& final(visiting)@ == old(visiting)@
                    &&& old(visited)@.subset_of(final(visited)@)
                    &&& final(visited)@.contains(name@)
                    &&& final(visited)@ == old(visited)@.union(reach_set(self.targets@, name@))
                    &&& clean(self.targets@, name@)
                },
                Err(e) => e@ matches ParseFault::DependencyCycle { target } && on_cycle(self.targets@, target),
            },
        decreases self.targets.entries().len() - old(visiting)@.len(),
    {
        let ghost g = self.targets@;
        proof {
            lemma_dom_len(self.targets.entries());
            vstd::set_lib::lemma_len_subset(old(visiting)@, g.dom());
        }
        if visited.contains(name) {
            proof {
                assert forall|n: Seq<char>| reach_set(g, name@).contains(n) implies #[trigger] visited@.contains(n) by {
                    let p = choose|p: Seq<Seq<char>>| #[trigger] crate::model::is_path(g, p) && p[0] == name@ && p.last() == n;
                    lemma_closed_path(g, visited@, p);
                }
                assert(visited@ =~= old(visited)@.union(reach_set(g, name@)));
            }
            return Ok(());
        }
        if !visiting.insert(name.clone()) {
            return Err(ParseError::DependencyCycle { target: name.clone() });
        }
        proof {
            vstd::set_lib::lemma_len_subset(visiting@, g.dom());
        }
        let target = self.targets.get(name).unwrap();
        let mut i: usize = 0;
        while i < target.dependencies.len()
            invariant
                self.targets.wf(),
                g == self.targets@,
                deps_known(g),
                g.contains_key(name@),
                *target == g[name@],
                i <= target.dependencies@.len(),
                visiting.wf(),
                visited.wf(),
                visiting@ == old(visiting)@.insert(name@),
                !old(visiting)@.contains(name@),
                visiting@.subset_of(g.dom()),
                visiting@.len() <= self.targets.entries().len(),
                visiting@.len() == old(visiting)@.len() + 1,
                forall|v: Seq<char>| #[trigger] old(visiting)@.contains(v) ==> reaches_plus(g, v, name@),
                old(visited)@.subset_of(visited@),
                forall|v: Seq<char>| #[trigger] visited@.contains(v) ==> clean(g, v) && g.contains_key(v),
                forall|j: int| 0 <= j < i ==> visited@.contains(#[trigger] deps_of(g, name@)[j]),
                dep_closed(g, visited@),
                forall|v: Seq<char>| #[trigger] visited@.contains(v) ==> old(visited)@.contains(v) || reaches(g, name@, v),
            decreases target.dependencies@.len() - i,
        {
            let dep = &target.dependencies[i];
            let ghost d = dep@;
            assert(deps_of(g, name@)[i as int] == d);
            assert(deps_of(g, name@).contains(d));
            assert(g.contains_key(d));
            assert forall|v: Seq<char>| #[trigger] visiting@.contains(v) implies reaches_plus(g, v, d) by {
                if v == name@ {
                    lemma_edge(g, name@, d);
                } else {
                    lemma_reaches_plus_step(g, v, name@, d);
                }
            }
            let ghost before = visited@;
            self.visit(dep, visiting, visited)?;
            proof {
                lemma_edge(g, name@, d);
                assert forall|v: Seq<char>| #[trigger] visited@.contains(v) implies old(visited)@.contains(v) || reaches(g, name@, v) by {
                    if !before.contains(v) {
                        assert(reach_set(g, d).contains(v));
                        lemma_reaches_trans(g, name@, d, v);
                    }
                }
            }
            i = i + 1;
        }
        proof {
            assert forall|d: Seq<char>| deps_of(g, name@).contains(d) implies #[trigger] clean(g, d) by {
                let j = choose|j: int| 0 <= j < deps_of(g, name@).len() && deps_of(g, name@)[j] == d;
                assert(visited@.contains(deps_of(g, name@)[j]));
            }
            lemma_clean_from_deps(g, name@);
        }
        visiting.remove(name);
        assert(visiting@ =~= old(visiting)@);
        visited.insert(name.clone());
        proof {
            assert(dep_closed(g, visited@));
            crate::model::lemma_path_single(g, name@);
            assert forall|n: Seq<char>| reach_set(g, name@).contains(n) implies #[trigger] visited@.contains(n) by {
                let p = choose|p: Seq<Seq<char>>| #[trigger] crate::model::is_path(g, p) && p[0] == name@ && p.last() == n;
                lemma_closed_path(g, visited@, p);
            }
            assert forall|n: Seq<char>| #[trigger] visited@.contains(n) implies old(visited)@.union(reach_set(g, name@)).contains(n) by {
                if n == name@ {
                    assert(reach_set(g, name@).contains(n));
                }
            }
            assert(visited@ =~= old(visited)@.union(reach_set(g, name@)));
        }
        Ok(())
    }

    /// Every dependency must name a target, and no target may depend on itself.
    fn validate_dependencies(&self) -> (r: Result<(), ParseError>)
        requires
            self.targets.wf(),
        ensures
            validation_ok(self.targets.entries(), match r {
                Ok(_) => Ok::<(), ParseFault>(()),
                Err(e) => Err::<(), ParseFault>(e@),
            }),
    {
        let ghost es = self.targets.entries();
        let ghost g = self.targets@;
        let n = self.targets.len();
        let mut i: usize = 0;
        while i < n
            invariant
                n == es.len(),
                es == self.targets.entries(),
                g == self.targets@,
                g == entry_map(es),
                i <= n,
                self.targets.wf(),
                first_unknown(es, g, 0) == first_unknown(es, g, i as int),
            decreases n - i,
        {
            let target = self.targets.value_at(i);
            let ghost ds = strs(target.dependencies@);
            let mut j: usize = 0;
            while j < target.dependencies.len()
                invariant
                    n == es.len(),
                    i < n,
                    es == self.targets.entries(),
                    g == entry_map(es),
                    first_unknown(es, g, 0) == first_unknown(es, g, i as int),
                    *target == es[i as int].1,
                    ds == strs(target.dependencies@),
                    j <= ds.len(),
                    self.targets.wf(),
                    g == self.targets@,
                    first_missing(g, ds, 0) == first_missing(g, ds, j as int),
                decreases ds.len() - j,
            {
                if !self.targets.contains_key(&target.dependencies[j]) {
                    return Err(ParseError::UnknownDependency {
                        target: target.name.clone(),
                        dependency: target.dependencies[j].clone(),
                    });
                }
                j = j + 1;
            }
            i = i + 1;
        }
        proof {
            lemma_first_unknown_none(es, g, 0);
            assert forall|m: Seq<char>, q: int| g.contains_key(m) && 0 <= q < deps_of(g, m).len() implies g.contains_key(#[trigger] deps_of(g, m)[q]) by {
                let k = key_pos(es, m);
                lemma_key_pos(es, k);
                assert(strs(es[k].1.dependencies@)[q] == deps_of(g, m)[q]);
            }
        }
        let mut visiting = StrSet::new();
        let mut visited = StrSet::new();
        let mut k: usize = 0;
        while k < n
            invariant
                n == es.len(),
                es == self.targets.entries(),
                g == self.targets@,
                g == entry_map(es),
                self.targets.wf(),
                deps_known(g),
                first_unknown(es, g, 0) is None,
                k <= n,
                visiting.wf(),
                visited.wf(),
                visiting@ == Set::<Seq<char>>::empty(),
                forall|v: Seq<char>| #[trigger] visited@.contains(v) ==> clean(g, v) && g.contains_key(v),
                forall|j: int| 0 <= j < k ==> visited@.contains(#[trigger] es[j].0),
                dep_closed(g, visited@),
            decreases n - k,
        {
            let name = self.targets.key_at(k);
            proof {
                self.targets.lemma_view(k as int);
            }
            match self.visit(name, &mut visiting, &mut visited) {
                Ok(()) => {},
                Err(e) => {
                    proof {
                        let t = choose|t: Seq<char>| e@ == (ParseFault::DependencyCycle { target: t }) && on_cycle(g, t);
                        assert(!acyclic(g));
                    }
                    return Err(e);
                },
            }
            k = k + 1;
        }
        proof {
            assert forall|a: Seq<char>| !#[trigger] on_cycle(g, a) by {
                if on_cycle(g, a) {
                    lemma_cycle_start(g, a);
                    let j = key_pos(es, a);
                    assert(visited@.contains(es[j].0));
                    crate::model::lemma_path_single(g, a);
                    assert(reaches(g, a, a));
                }
            }
        }
        Ok(())
    }
}

impl Parser {
    /// Ends the parse, once every file has been read: the shell is the value of `SHELL` if
    /// set (else `/bin/sh`), and the
    /// dependencies are checked.
    pub fn parse(self) -> (r: Result<Project, ParseError>)
        requires
            self.wf(),
            self@.frames.len() == 0,
        ensures
            target_entries(self.target_table()) == self@.defs.targets,
            validation_ok(self.target_table(), match r {
                Ok(_) => Ok::<(), ParseFault>(()),
                Err(e) => Err::<(), ParseFault>(e@),
            }),
            match r {
                Ok(p) => {
                    &&& p.wf()
                    &&& text_entries(p.variables.entries()) == self@.defs.vars
                    &&& target_entries(p.targets.entries()) == self@.defs.targets
                    &&& p.shell@ == (if has_key(self@.defs.vars, "SHELL"@) {
                        var_map(self@.defs)["SHELL"@]
                    } else {
                        "/bin/sh"@
                    })
                },
                Err(_) => true,
            },
    {
        let mut this = self;
        proof {
            this.lemma_defs();
        }
        let shell_key = String::from_str("SHELL");
        match this.variables.get(&shell_key) {
            Some(shell) => {
                this.shell = shell.clone();
            },
            None => {},
        }
        this.validate_dependencies()?;
        proof {
            let es = this.targets.entries();
            assert forall|k: Seq<char>| this.targets@.contains_key(k) implies (#[trigger] this.targets@[k]).name@ == k by {
                let j = key_pos(es, k);
                lemma_key_pos(es, j);
            }
        }
        Ok(Project { variables: this.variables, targets: this.targets, shell: this.shell })
    }
}
} // verus!
