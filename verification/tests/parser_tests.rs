use mmake::expand::ParseError;
use mmake::model::{Project, Target};
use mmake::parser::{join_path, split_assignment, ParseStep, Parser, SourceFile};

fn source(path: &str, canonical: &str, base: &str, text: &str) -> SourceFile {
    SourceFile {
        path: path.to_string(),
        canonical: canonical.to_string(),
        base_dir: base.to_string(),
        text: text.to_string(),
    }
}

fn parse_text(text: &str) -> Result<Project, ParseError> {
    let mut parser = Parser::new("/proj".to_string(), "/cwd".to_string(), 4);
    parser.enter(source("Makefile", "/proj/Makefile", "/proj", text))?;
    loop {
        match parser.step()? {
            ParseStep::Continue => {}
            ParseStep::Finished => break,
            ParseStep::Include { .. } => panic!("no includes expected"),
        }
    }
    parser.parse()
}

fn var(p: &Project, name: &str) -> Option<String> {
    p.variables.get(&name.to_string()).cloned()
}

fn target<'a>(p: &'a Project, name: &str) -> &'a Target {
    p.targets.get(&name.to_string()).expect("target exists")
}

fn chars(s: &str) -> Vec<char> {
    s.chars().collect()
}

#[test]
fn assignments_and_rules() {
    let text = "CC := gcc\nFLAGS ?= -O2\nFLAGS ?= -O3\nLIST += a\nLIST += b\nEMPTY :=\nEMPTY += \nall: build\n\t@always\nbuild: \n\techo $(CC) $(FLAGS)\n\t@watch src/*\n\t@output out/bin\n";
    let p = parse_text(text).unwrap();
    assert_eq!(var(&p, "CC").as_deref(), Some("gcc"));
    assert_eq!(var(&p, "FLAGS").as_deref(), Some("-O2"));
    assert_eq!(var(&p, "LIST").as_deref(), Some("a b"));
    assert_eq!(var(&p, "EMPTY").as_deref(), Some(""));
    let all = target(&p, "all");
    assert_eq!(all.name, "all");
    assert_eq!(all.dependencies, vec!["build".to_string()]);
    assert!(all.always);
    assert!(all.recipe.is_empty());
    let build = target(&p, "build");
    assert!(build.dependencies.is_empty());
    assert_eq!(build.recipe, vec!["echo gcc -O2".to_string()]);
    assert_eq!(build.watches, vec!["src/*".to_string()]);
    assert_eq!(build.outputs, vec!["/proj/out/bin".to_string()]);
    assert!(!build.always);
    assert_eq!(p.shell, "/bin/sh");
    assert_eq!(p.targets.len(), 2);
    assert_eq!(p.targets.key_at(0), "all");
    assert_eq!(p.targets.key_at(1), "build");
}

#[test]
fn predefined_variables() {
    let p = parse_text("all:\n\techo $(MMAKE) $(JOBS) $(ROOT) $(CWD)\n").unwrap();
    assert_eq!(target(&p, "all").recipe, vec!["echo 1 4 /proj /cwd".to_string()]);
    assert_eq!(var(&p, "MMAKE").as_deref(), Some("1"));
    assert_eq!(var(&p, "JOBS").as_deref(), Some("4"));
}

#[test]
fn shell_variable_sets_shell() {
    let p = parse_text("SHELL := /bin/bash\nall:\n").unwrap();
    assert_eq!(p.shell, "/bin/bash");
}

#[test]
fn comments_and_conditionals_are_skipped() {
    let p = parse_text("# a comment\nifdef X\nifndef Y\nendif\n$(error boom)\n\nall:\n").unwrap();
    assert_eq!(p.targets.len(), 1);
    assert!(p.targets.contains_key(&"all".to_string()));
}

#[test]
fn crlf_line_endings() {
    let p = parse_text("a:\r\n\techo hi\r\n").unwrap();
    assert_eq!(target(&p, "a").recipe, vec!["echo hi".to_string()]);
}

#[test]
fn recipe_tabs_are_stripped() {
    let p = parse_text("a:\n\t\techo  x \n").unwrap();
    assert_eq!(target(&p, "a").recipe, vec!["echo  x ".to_string()]);
}

#[test]
fn absolute_output_keeps_its_path() {
    let p = parse_text("a:\n\t@output /abs/x\n\t@output $(ROOT)/y\n").unwrap();
    assert_eq!(target(&p, "a").outputs, vec!["/abs/x".to_string(), "/proj/y".to_string()]);
}

#[test]
fn non_ascii_literal_characters_become_their_bytes() {
    let p = parse_text("X := \u{e9}\nall:\n").unwrap();
    assert_eq!(var(&p, "X").as_deref(), Some("\u{c3}\u{a9}"));
}

#[test]
fn variable_values_are_kept_as_they_are() {
    let p = parse_text("A := \u{e9}\nB := $(A)\nall:\n").unwrap();
    assert_eq!(var(&p, "B").as_deref(), Some("\u{c3}\u{a9}"));
}

#[test]
fn dependencies_are_split_before_expansion() {
    let r = parse_text("DEPS := b c\na: $(DEPS)\nb:\nc:\n");
    assert_eq!(
        r.unwrap_err(),
        ParseError::UnknownDependency { target: "a".to_string(), dependency: "b c".to_string() }
    );
}

#[test]
fn recipe_without_target() {
    assert_eq!(
        parse_text("\techo hi\n").unwrap_err(),
        ParseError::RecipeWithoutTarget { file: "Makefile".to_string(), line: 1 }
    );
}

#[test]
fn undefined_variable() {
    assert_eq!(
        parse_text("a: $(NOPE)\n").unwrap_err(),
        ParseError::UndefinedVariable { name: "NOPE".to_string() }
    );
}

#[test]
fn unterminated_variable() {
    assert_eq!(
        parse_text("X := $(Y\n").unwrap_err(),
        ParseError::UnterminatedVariable { input: "$(Y".to_string() }
    );
}

#[test]
fn empty_target_name() {
    assert_eq!(
        parse_text("x:\n: foo\n").unwrap_err(),
        ParseError::EmptyTargetName { file: "Makefile".to_string(), line: 2 }
    );
}

#[test]
fn unsupported_syntax() {
    assert_eq!(
        parse_text("all:\ngarbage here\n").unwrap_err(),
        ParseError::UnsupportedSyntax { file: "Makefile".to_string(), line: 2, text: "garbage here".to_string() }
    );
}

#[test]
fn duplicate_target_reported_where_it_is_filed() {
    assert_eq!(
        parse_text("a:\na:\n").unwrap_err(),
        ParseError::DuplicateTarget { file: "Makefile".to_string(), line: 3, name: "a".to_string() }
    );
    assert_eq!(
        parse_text("a:\na:\nb:\n").unwrap_err(),
        ParseError::DuplicateTarget { file: "Makefile".to_string(), line: 3, name: "a".to_string() }
    );
}

#[test]
fn unknown_dependency() {
    assert_eq!(
        parse_text("a: b\n").unwrap_err(),
        ParseError::UnknownDependency { target: "a".to_string(), dependency: "b".to_string() }
    );
}

#[test]
fn dependency_cycle() {
    assert_eq!(
        parse_text("a: b\nb: a\n").unwrap_err(),
        ParseError::DependencyCycle { target: "a".to_string() }
    );
    assert_eq!(
        parse_text("a: a\n").unwrap_err(),
        ParseError::DependencyCycle { target: "a".to_string() }
    );
}

#[test]
fn includes_are_read_in_place() {
    let mut parser = Parser::new("/proj".to_string(), "/cwd".to_string(), 1);
    parser
        .enter(source("Makefile", "/proj/Makefile", "/proj", "X := 1\ninclude sub/$(X).mk\nall: inc\n\techo $(Y)\n"))
        .unwrap();
    assert_eq!(parser.step().unwrap(), ParseStep::Continue);
    assert_eq!(
        parser.step().unwrap(),
        ParseStep::Include { file: "Makefile".to_string(), line: 2, path: "/proj/sub/1.mk".to_string() }
    );
    parser
        .enter(source("/proj/sub/1.mk", "/proj/sub/1.mk", "/proj/sub", "Y := from-include\ninc:\n\t@output o\n"))
        .unwrap();
    loop {
        match parser.step().unwrap() {
            ParseStep::Continue => {}
            ParseStep::Finished => break,
            other => panic!("unexpected {:?}", other),
        }
    }
    let p = parser.parse().unwrap();
    assert_eq!(target(&p, "all").recipe, vec!["echo from-include".to_string()]);
    assert_eq!(target(&p, "inc").outputs, vec!["/proj/sub/o".to_string()]);
}

#[test]
fn include_cycle_is_refused() {
    let mut parser = Parser::new("/proj".to_string(), "/cwd".to_string(), 1);
    parser.enter(source("Makefile", "/proj/Makefile", "/proj", "include Makefile\n")).unwrap();
    match parser.step().unwrap() {
        ParseStep::Include { path, .. } => assert_eq!(path, "/proj/Makefile"),
        other => panic!("unexpected {:?}", other),
    }
    assert_eq!(
        parser.enter(source("/proj/Makefile", "/proj/Makefile", "/proj", "include Makefile\n")).unwrap_err(),
        ParseError::IncludeCycle { path: "/proj/Makefile".to_string() }
    );
}

#[test]
fn split_assignment_cases() {
    let (a, b) = split_assignment(&chars("A := b"), &chars(":=")).unwrap();
    assert_eq!(a, chars("A "));
    assert_eq!(b, chars(" b"));
    assert!(split_assignment(&chars("a:b := c"), &chars(":=")).is_none());
    assert!(split_assignment(&chars("plain"), &chars(":=")).is_none());
    let (a, b) = split_assignment(&chars("X?=1?=2"), &chars("?=")).unwrap();
    assert_eq!(a, chars("X"));
    assert_eq!(b, chars("1?=2"));
}

#[test]
fn join_path_cases() {
    assert_eq!(join_path(&"/proj".to_string(), &"a/b".to_string()), "/proj/a/b");
    assert_eq!(join_path(&"/proj/".to_string(), &"a".to_string()), "/proj/a");
    assert_eq!(join_path(&"/proj".to_string(), &"/abs".to_string()), "/abs");
    assert_eq!(join_path(&"".to_string(), &"a".to_string()), "a");
    assert_eq!(join_path(&"/proj".to_string(), &"".to_string()), "/proj/");
}
