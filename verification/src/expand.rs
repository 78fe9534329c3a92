use vstd::prelude::*;
use vstd::utf8::*;

use crate::collections::StrMap;
use crate::text::{decimal, decimal_string, find_char, find_char_from, lemma_find_char_from, push_char, slice_of, string_of};

verus! {

/// A failure of parsing, as the contracts see it.
pub enum ParseFault {
    IncludeCycle { path: Seq<char> },
    RecipeWithoutTarget { file: Seq<char>, line: int },
    UnterminatedVariable { input: Seq<char> },
    UndefinedVariable { name: Seq<char> },
    EmptyTargetName { file: Seq<char>, line: int },
    UnsupportedSyntax { file: Seq<char>, line: int, text: Seq<char> },
    DuplicateTarget { file: Seq<char>, line: int, name: Seq<char> },
    UnknownDependency { target: Seq<char>, dependency: Seq<char> },
    DependencyCycle { target: Seq<char> },
}

/// Why a build file was refused.
#[derive(Debug, PartialEq, Eq)]
pub enum ParseError {
    /// A file includes itself, directly or not (its canonical path).
    IncludeCycle { path: String },
    /// A recipe line (one that starts with a tab) comes before any target.
    RecipeWithoutTarget { file: String, line: usize },
    /// `$(` without a closing `)`; holds the whole text being expanded.
    UnterminatedVariable { input: String },
    /// `$(NAME)` names no variable.
    UndefinedVariable { name: String },
    /// A rule line with nothing before its `:`.
    EmptyTargetName { file: String, line: usize },
    /// A line of no known form.
    UnsupportedSyntax { file: String, line: usize, text: String },
    /// A second rule for the same target.
    DuplicateTarget { file: String, line: usize, name: String },
    /// A target depends on a name that no rule defines.
    UnknownDependency { target: String, dependency: String },
    /// The dependencies of a target lead back to it.
    DependencyCycle { target: String },
}

/// `file:line: ` as a message about a line of a build file begins.
pub open spec fn at_line(file: Seq<char>, line: int) -> Seq<char> {
    file + ":"@ + decimal(line as nat) + ": "@
}

/// How a parse failure is reported.
pub open spec fn fault_text(f: ParseFault) -> Seq<char> {
    match f {
        ParseFault::IncludeCycle { path } => "include cycle detected at "@ + path,
        ParseFault::RecipeWithoutTarget { file, line } => at_line(file, line) + "recipe without target"@,
        ParseFault::UnterminatedVariable { input } => "unterminated variable reference in '"@ + input + "'"@,
        ParseFault::UndefinedVariable { name } => "undefined variable '"@ + name + "'"@,
        ParseFault::EmptyTargetName { file, line } => at_line(file, line) + "empty target name"@,
        ParseFault::UnsupportedSyntax { file, line, text } => at_line(file, line) + "unsupported syntax: "@ + text,
        ParseFault::DuplicateTarget { file, line, name } => at_line(file, line) + "target '"@ + name + "' is already defined"@,
        ParseFault::UnknownDependency { target, dependency } => "target '"@ + target + "' depends on unknown target '"@ + dependency + "'"@,
        ParseFault::DependencyCycle { target } => "dependency cycle detected at target '"@ + target + "'"@,
    }
}

fn push_at_line(m: &mut String, file: &String, line: usize)
    ensures
        final(m)@ == old(m)@ + at_line(file@, line as int),
{
    push_str(m, file.as_str());
    push_str(m, ":");
    push_str(m, decimal_string(line).as_str());
    push_str(m, ": ");
}

impl ParseError {
    /// The message this failure is reported with.
    pub fn message(&self) -> (m: String)
        ensures
            m@ == fault_text(self@),
    {
        let mut m = String::new();
        match self {
            ParseError::IncludeCycle { path } => {
                push_str(&mut m, "include cycle detected at ");
                push_str(&mut m, path.as_str());
            },
            ParseError::RecipeWithoutTarget { file, line } => {
                push_at_line(&mut m, file, *line);
                push_str(&mut m, "recipe without target");
            },
            ParseError::UnterminatedVariable { input } => {
                push_str(&mut m, "unterminated variable reference in '");
                push_str(&mut m, input.as_str());
                push_str(&mut m, "'");
            },
            ParseError::UndefinedVariable { name } => {
                push_str(&mut m, "undefined variable '");
                push_str(&mut m, name.as_str());
                push_str(&mut m, "'");
            },
            ParseError::EmptyTargetName { file, line } => {
                push_at_line(&mut m, file, *line);
                push_str(&mut m, "empty target name");
            },
            ParseError::UnsupportedSyntax { file, line, text } => {
                push_at_line(&mut m, file, *line);
                push_str(&mut m, "unsupported syntax: ");
                push_str(&mut m, text.as_str());
            },
            ParseError::DuplicateTarget { file, line, name } => {
                push_at_line(&mut m, file, *line);
                push_str(&mut m, "target '");
                push_str(&mut m, name.as_str());
                push_str(&mut m, "' is already defined");
            },
            ParseError::UnknownDependency { target, dependency } => {
                push_str(&mut m, "target '");
                push_str(&mut m, target.as_str());
                push_str(&mut m, "' depends on unknown target '");
                push_str(&mut m, dependency.as_str());
                push_str(&mut m, "'");
            },
            ParseError::DependencyCycle { target } => {
                push_str(&mut m, "dependency cycle detected at target '");
                push_str(&mut m, target.as_str());
                push_str(&mut m, "'");
            },
        }
        assert(m@ =~= fault_text(self@));
        m
    }
}

impl View for ParseError {
    type V = ParseFault;

    open spec fn view(&self) -> ParseFault {
        match self {
            ParseError::IncludeCycle { path } => ParseFault::IncludeCycle { path: path@ },
            ParseError::RecipeWithoutTarget { file, line } => ParseFault::RecipeWithoutTarget {
                file: file@,
                line: *line as int,
            },
            ParseError::UnterminatedVariable { input } => ParseFault::UnterminatedVariable {
                input: input@,
            },
            ParseError::UndefinedVariable { name } => ParseFault::UndefinedVariable { name: name@ },
            ParseError::EmptyTargetName { file, line } => ParseFault::EmptyTargetName {
                file: file@,
                line: *line as int,
            },
            ParseError::UnsupportedSyntax { file, line, text } => ParseFault::UnsupportedSyntax {
                file: file@,
                line: *line as int,
                text: text@,
            },
            ParseError::DuplicateTarget { file, line, name } => ParseFault::DuplicateTarget {
                file: file@,
                line: *line as int,
                name: name@,
            },
            ParseError::UnknownDependency { target, dependency } => ParseFault::UnknownDependency {
                target: target@,
                dependency: dependency@,
            },
            ParseError::DependencyCycle { target } => ParseFault::DependencyCycle {
                target: target@,
            },
        }
    }
}

/// The characters that a literal character becomes when expanded: each byte of its
/// UTF-8 encoding, taken as the character with that code.
pub open spec fn byte_chars(c: char) -> Seq<char> {
    encode_scalar(c as u32).map_values(|b: u8| b as char)
}

/// Variables taken by their characters.
pub open spec fn text_vars(m: Map<Seq<char>, String>) -> Map<Seq<char>, Seq<char>> {
    m.map_values(|s: String| s@)
}

/// Expansion of `input` from position `i` on: `$(NAME)` becomes the value of NAME,
/// every other character becomes its bytes.
pub open spec fn expand_from(input: Seq<char>, i: int, vars: Map<Seq<char>, Seq<char>>) -> Result<
    Seq<char>,
    ParseFault,
>
    decreases input.len() - i,
{
    if i < 0 || i >= input.len() {
        Ok(Seq::empty())
    } else if i + 1 < input.len() && input[i] == '$' && input[i + 1] == '(' {
        match find_char_from(input, ')', i + 2) {
            None => Err(ParseFault::UnterminatedVariable { input }),
            Some(e) => {
                let name = input.subrange(i + 2, e);
                if e < i + 2 || e >= input.len() {
                    Ok(Seq::empty())
                } else if !vars.contains_key(name) {
                    Err(ParseFault::UndefinedVariable { name })
                } else {
                    match expand_from(input, e + 1, vars) {
                        Ok(rest) => Ok(vars[name] + rest),
                        Err(f) => Err(f),
                    }
                }
            },
        }
    } else {
        match expand_from(input, i + 1, vars) {
            Ok(rest) => Ok(byte_chars(input[i]) + rest),
            Err(f) => Err(f),
        }
    }
}

pub open spec fn expand_spec(input: Seq<char>, vars: Map<Seq<char>, Seq<char>>) -> Result<
    Seq<char>,
    ParseFault,
> {
    expand_from(input, 0, vars)
}

/// `prefix` put before a successful result.
pub open spec fn prepend(prefix: Seq<char>, r: Result<Seq<char>, ParseFault>) -> Result<
    Seq<char>,
    ParseFault,
> {
    match r {
        Ok(rest) => Ok(prefix + rest),
        Err(f) => Err(f),
    }
}

/// Appends a string slice to a string.
pub fn push_str(s: &mut String, t: &str)
    ensures
        final(s)@ == old(s)@ + t@,
{
    s.append(t);
}

/// Appends the bytes of the UTF-8 encoding of `c`, each as a character.
fn push_byte_chars(out: &mut String, c: char)
    ensures
        final(out)@ == old(out)@ + byte_chars(c),
{
    let v = c as u32;
    let ghost bs = encode_scalar(v);
    if v <= 0x7F {
        let b0: u8 = (v & 0x7F) as u8;
        assert(bs =~= seq![b0]);
        push_char(out, b0 as char);
        assert(bs.map_values(|b: u8| b as char) =~= seq![b0 as char]);
    } else if v <= 0x7FF {
        let b0: u8 = 0xC0 | ((v >> 6) & 0x1F) as u8;
        let b1: u8 = 0x80 | (v & 0x3F) as u8;
        assert(bs =~= seq![b0, b1]);
        push_char(out, b0 as char);
        push_char(out, b1 as char);
        assert(bs.map_values(|b: u8| b as char) =~= seq![b0 as char, b1 as char]);
    } else if v <= 0xFFFF {
        let b0: u8 = 0xE0 | ((v >> 12) & 0x0F) as u8;
        let b1: u8 = 0x80 | ((v >> 6) & 0x3F) as u8;
        let b2: u8 = 0x80 | (v & 0x3F) as u8;
        assert(bs =~= seq![b0, b1, b2]);
        push_char(out, b0 as char);
        push_char(out, b1 as char);
        push_char(out, b2 as char);
        assert(bs.map_values(|b: u8| b as char) =~= seq![b0 as char, b1 as char, b2 as char]);
    } else {
        let b0: u8 = 0xF0 | ((v >> 18) & 0x7) as u8;
        let b1: u8 = 0x80 | ((v >> 12) & 0x3F) as u8;
        let b2: u8 = 0x80 | ((v >> 6) & 0x3F) as u8;
        let b3: u8 = 0x80 | (v & 0x3F) as u8;
        assert(bs =~= seq![b0, b1, b2, b3]);
        push_char(out, b0 as char);
        push_char(out, b1 as char);
        push_char(out, b2 as char);
        push_char(out, b3 as char);
        assert(bs.map_values(|b: u8| b as char) =~= seq![
            b0 as char,
            b1 as char,
            b2 as char,
            b3 as char,
        ]);
    }
}

/// An ASCII character stands for itself in the expansion.
proof fn lemma_ascii_byte_chars(c: char)
    requires
        (c as u32) < 128,
    ensures
        byte_chars(c) == seq![c],
{
    let v = c as u32;
    assert(v <= 0x7F ==> (v & 0x7F) == v) by (bit_vector);
    let b = (v & 0x7F) as u8;
    assert(b as u32 == v);
    char_u32_cast(c, v);
    assert(encode_scalar(v) == seq![b]);
    assert(byte_chars(c) =~= seq![b as char]);
}

/// Text without a `$(` is left as it is: an ASCII input holding no `$(` expands, with any
/// variables, to itself, so a `$` not followed by `(` (as in `$HOME` or `$$`) is kept.
pub proof fn lemma_plain_text_unchanged(input: Seq<char>, vars: Map<Seq<char>, Seq<char>>)
    requires
        forall|i: int| 0 <= i < input.len() ==> (input[i] as u32) < 128,
        forall|i: int| 0 <= i < input.len() - 1 ==> !(#[trigger] input[i] == '$' && input[i + 1] == '('),
    ensures
        expand_spec(input, vars) == Ok::<Seq<char>, ParseFault>(input),
{
    lemma_plain_from(input, vars, 0);
    assert(input.subrange(0, input.len() as int) =~= input);
}

proof fn lemma_plain_from(input: Seq<char>, vars: Map<Seq<char>, Seq<char>>, i: int)
    requires
        0 <= i <= input.len(),
        forall|k: int| 0 <= k < input.len() ==> (input[k] as u32) < 128,
        forall|k: int| 0 <= k < input.len() - 1 ==> !(#[trigger] input[k] == '$' && input[k + 1] == '('),
    ensures
        expand_from(input, i, vars) == Ok::<Seq<char>, ParseFault>(input.subrange(i, input.len() as int)),
    decreases input.len() - i,
{
    if i < input.len() {
        lemma_plain_from(input, vars, i + 1);
        lemma_ascii_byte_chars(input[i]);
        assert(!(i + 1 < input.len() && input[i] == '$' && input[i + 1] == '('));
        assert(seq![input[i]] + input.subrange(i + 1, input.len() as int) =~= input.subrange(i, input.len() as int));
    } else {
        assert(input.subrange(i, input.len() as int) =~= Seq::<char>::empty());
    }
}

/// A reference `$(NAME)` with text on either side that holds no `$(` expands to the
/// value of NAME between those texts, unchanged, or fails when NAME is not defined.
pub proof fn lemma_reference_replaced(before: Seq<char>, name: Seq<char>, after: Seq<char>, vars: Map<Seq<char>, Seq<char>>)
    requires
        !name.contains(')'),
        forall|i: int| 0 <= i < before.len() ==> (before[i] as u32) < 128 && before[i] != '$',
        forall|i: int| 0 <= i < after.len() ==> (after[i] as u32) < 128 && after[i] != '$',
    ensures
        vars.contains_key(name) ==> expand_spec(before + seq!['$', '('] + name + seq![')'] + after, vars)
            == Ok::<Seq<char>, ParseFault>(before + vars[name] + after),
        !vars.contains_key(name) ==> expand_spec(before + seq!['$', '('] + name + seq![')'] + after, vars)
            == Err::<Seq<char>, ParseFault>(ParseFault::UndefinedVariable { name }),
{
    let input = before + seq!['$', '('] + name + seq![')'] + after;
    let b = before.len() as int;
    let e = b + 2 + name.len();
    assert(input[b] == '$' && input[b + 1] == '(');
    assert(input[e] == ')');
    lemma_find_char_from(input, ')', b + 2);
    assert forall|j: int| b + 2 <= j < e implies input[j] != ')' by {
        assert(input[j] == name[j - b - 2]);
        if input[j] == ')' {
            assert(name.contains(name[j - b - 2]));
        }
    }
    assert(find_char_from(input, ')', b + 2) == Some(e));
    assert(input.subrange(b + 2, e) =~= name);
    // after the reference the rest is plain
    lemma_plain_tail(input, vars, e + 1);
    assert(input.subrange(e + 1, input.len() as int) =~= after);
    // before it, each character stands for itself
    lemma_plain_head(input, vars, b);
    assert(input.subrange(0, b) =~= before);
    match expand_from(input, b, vars) {
        Ok(r) => {
            assert(r == vars[name] + after);
            assert(before + (vars[name] + after) =~= before + vars[name] + after);
        },
        Err(_) => {},
    }
}

/// From `i` on, an ASCII text without `$` expands to itself.
proof fn lemma_plain_tail(input: Seq<char>, vars: Map<Seq<char>, Seq<char>>, i: int)
    requires
        0 <= i <= input.len(),
        forall|k: int| i <= k < input.len() ==> (input[k] as u32) < 128 && input[k] != '$',
    ensures
        expand_from(input, i, vars) == Ok::<Seq<char>, ParseFault>(input.subrange(i, input.len() as int)),
    decreases input.len() - i,
{
    if i < input.len() {
        lemma_plain_tail(input, vars, i + 1);
        lemma_ascii_byte_chars(input[i]);
        assert(seq![input[i]] + input.subrange(i + 1, input.len() as int) =~= input.subrange(i, input.len() as int));
    } else {
        assert(input.subrange(i, input.len() as int) =~= Seq::<char>::empty());
    }
}

/// Up to `b`, an ASCII text without `$` puts itself before what follows.
proof fn lemma_plain_head(input: Seq<char>, vars: Map<Seq<char>, Seq<char>>, b: int)
    requires
        0 <= b <= input.len(),
        forall|k: int| 0 <= k < b ==> (input[k] as u32) < 128 && input[k] != '$',
    ensures
        expand_from(input, 0, vars) == prepend(input.subrange(0, b), expand_from(input, b, vars)),
    decreases b,
{
    if b > 0 {
        lemma_plain_head(input, vars, b - 1);
        lemma_ascii_byte_chars(input[b - 1]);
        match expand_from(input, b, vars) {
            Ok(r) => {
                assert(input.subrange(0, b - 1) + (seq![input[b - 1]] + r) =~= input.subrange(0, b) + r);
            },
            Err(_) => {},
        }
    } else {
        match expand_from(input, 0, vars) {
            Ok(r) => {
                assert(input.subrange(0, 0) + r =~= r);
            },
            Err(_) => {},
        }
    }
}

/// Expands `$(NAME)` references in `input` with the values of `vars`.
pub fn expand(vars: &StrMap<String>, input: &[char]) -> (r: Result<String, ParseError>)
    requires
        vars.wf(),
    ensures
        match r {
            Ok(s) => expand_spec(input@, text_vars(vars@)) == Ok::<Seq<char>, ParseFault>(s@),
            Err(e) => expand_spec(input@, text_vars(vars@)) == Err::<Seq<char>, ParseFault>(e@),
        },
{
    let ghost tv = text_vars(vars@);
    let mut output = String::new();
    let mut i: usize = 0;
    let n = input.len();
    while i < n
        invariant
            n == input@.len(),
            i <= n,
            vars.wf(),
            tv == text_vars(vars@),
            expand_spec(input@, tv) == prepend(output@, expand_from(input@, i as int, tv)),
        decreases n - i,
    {
        if i + 1 < n && input[i] == '$' && input[i + 1] == '(' {
            let start = i + 2;
            proof {
                lemma_find_char_from(input@, ')', start as int);
            }
            match find_char(input, ')', start) {
                None => {
                    let whole = string_of(input);
                    return Err(ParseError::UnterminatedVariable { input: whole });
                },
                Some(end) => {
                    let name_chars = slice_of(input, start, end);
                    let name = string_of(&name_chars);
                    match vars.get(&name) {
                        None => {
                            return Err(ParseError::UndefinedVariable { name });
                        },
                        Some(value) => {
                            let ghost before = output@;
                            push_str(&mut output, value.as_str());
                            assert(prepend(before, expand_from(input@, i as int, tv)) == prepend(
                                output@,
                                expand_from(input@, end + 1, tv),
                            )) by {
                                assert(tv[name@] == value@);
                                match expand_from(input@, end + 1, tv) {
                                    Ok(rest) => {
                                        assert(before + (value@ + rest) =~= output@ + rest);
                                    },
                                    Err(f) => {},
                                }
                            }
                            i = end + 1;
                        },
                    }
                },
            }
        } else {
            let ghost before = output@;
            push_byte_chars(&mut output, input[i]);
            assert(prepend(before, expand_from(input@, i as int, tv)) == prepend(
                output@,
                expand_from(input@, i + 1, tv),
            )) by {
                match expand_from(input@, i + 1, tv) {
                    Ok(rest) => {
                        assert(before + (byte_chars(input@[i as int]) + rest) =~= output@ + rest);
                    },
                    Err(f) => {},
                }
            }
            i = i + 1;
        }
    }
    assert(output@ + Seq::<char>::empty() =~= output@);
    Ok(output)
}

} // verus!
