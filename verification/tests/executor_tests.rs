use mmake::cache::{Cache, TargetState};
use mmake::collections::StrMap;
use mmake::executor::{BuildError, Executor, Next, Started};
use mmake::fingerprint::calculate;
use mmake::model::Project;
use mmake::parser::{ParseStep, Parser, SourceFile};

fn project(text: &str) -> Project {
    let mut parser = Parser::new("/proj".to_string(), "/proj".to_string(), 2);
    parser
        .enter(SourceFile {
            path: "Makefile".to_string(),
            canonical: "/proj/Makefile".to_string(),
            base_dir: "/proj".to_string(),
            text: text.to_string(),
        })
        .unwrap();
    while parser.step().unwrap() != ParseStep::Finished {}
    parser.parse().unwrap()
}

fn executor(text: &str, dry_run: bool, cache: Cache) -> Executor {
    Executor::new(project(text), "/proj".to_string(), 2, dry_run, false, cache)
}

fn fingerprint_of(e: &Executor, name: &str) -> mmake::fingerprint::FingerprintResult {
    let name = name.to_string();
    let deps = e.dependency_fingerprints(&name);
    calculate(e.target(&name).unwrap(), &Vec::new(), &deps)
}

const TWO: &str = "all: lib\n\techo all\nlib:\n\techo lib\n\techo more\n";

#[test]
fn builds_dependencies_first() {
    let mut e = executor(TWO, false, Cache::default());
    let mut s = e.run(&"all".to_string(), false).unwrap();
    assert_eq!(e.progress().unwrap().draw(80, 24), None);
    assert_eq!(e.next_ready(&mut s).unwrap(), Next::Start { name: "lib".to_string() });
    // asking again gives the same target until it is started
    assert_eq!(e.next_ready(&mut s).unwrap(), Next::Start { name: "lib".to_string() });
    let fp = fingerprint_of(&e, "lib");
    let lib_fp = fp.fingerprint.clone();
    let fp = match e.start_target(&mut s, fp, true) {
        Started::Spawn { name, fingerprint } => {
            assert_eq!(name, "lib");
            fingerprint
        }
        other => panic!("unexpected {:?}", other),
    };
    assert_eq!(e.next_ready(&mut s).unwrap(), Next::Wait);
    e.on_step_done();
    e.on_step_done();
    e.on_job_finished(&mut s, &"lib".to_string(), fp, true);
    assert_eq!(e.next_ready(&mut s).unwrap(), Next::Start { name: "all".to_string() });
    let deps = e.dependency_fingerprints(&"all".to_string());
    assert_eq!(deps, vec![lib_fp.clone()]);
    let fp = fingerprint_of(&e, "all");
    let fp = match e.start_target(&mut s, fp, true) {
        Started::Spawn { fingerprint, .. } => fingerprint,
        other => panic!("unexpected {:?}", other),
    };
    e.on_step_done();
    e.on_job_finished(&mut s, &"all".to_string(), fp, true);
    assert_eq!(e.next_ready(&mut s).unwrap(), Next::Finished);
    assert!(e.saves_cache());
    let cache = e.cache();
    assert_eq!(cache.targets.len(), 2);
    assert_eq!(cache.targets.get(&"lib".to_string()).unwrap().fingerprint, lib_fp);
}

#[test]
fn failure_stops_new_work() {
    let mut e = executor(TWO, false, Cache::default());
    let mut s = e.run(&"all".to_string(), false).unwrap();
    assert_eq!(e.next_ready(&mut s).unwrap(), Next::Start { name: "lib".to_string() });
    let fp = fingerprint_of(&e, "lib");
    let fp = match e.start_target(&mut s, fp, true) {
        Started::Spawn { fingerprint, .. } => fingerprint,
        other => panic!("unexpected {:?}", other),
    };
    e.on_job_finished(&mut s, &"lib".to_string(), fp, false);
    assert_eq!(e.next_ready(&mut s).unwrap(), Next::Finished);
    assert_eq!(e.cache().targets.len(), 0);
}

#[test]
fn dry_run_only_shows() {
    let mut e = executor(TWO, true, Cache::default());
    let mut s = e.run(&"all".to_string(), true).unwrap();
    assert_eq!(e.next_ready(&mut s).unwrap(), Next::Start { name: "lib".to_string() });
    let fp = fingerprint_of(&e, "lib");
    assert!(matches!(e.start_target(&mut s, fp, false), Started::DryRun { .. }));
    assert_eq!(e.next_ready(&mut s).unwrap(), Next::Start { name: "all".to_string() });
    let fp = fingerprint_of(&e, "all");
    assert!(matches!(e.start_target(&mut s, fp, false), Started::DryRun { .. }));
    assert_eq!(e.next_ready(&mut s).unwrap(), Next::Finished);
    assert!(!e.saves_cache());
    assert_eq!(e.cache().targets.len(), 0);
    // all three commands count as finished
    let bar = e.progress().unwrap().draw(40, 10).unwrap();
    assert!(bar.ends_with(" (3/3)"));
}

#[test]
fn unchanged_target_is_skipped() {
    let e0 = executor(TWO, false, Cache::default());
    let fp = fingerprint_of(&e0, "lib");
    let mut targets = StrMap::new();
    targets.insert("lib".to_string(), TargetState { fingerprint: fp.fingerprint.clone(), files: StrMap::new() });
    let mut e = executor(TWO, false, Cache { targets });
    let mut s = e.run(&"lib".to_string(), false).unwrap();
    assert_eq!(e.next_ready(&mut s).unwrap(), Next::Start { name: "lib".to_string() });
    let fp = fingerprint_of(&e, "lib");
    assert!(matches!(e.start_target(&mut s, fp, true), Started::Skipped { .. }));
    assert_eq!(e.next_ready(&mut s).unwrap(), Next::Finished);
}

#[test]
fn missing_output_forces_a_build() {
    let e0 = executor(TWO, false, Cache::default());
    let fp = fingerprint_of(&e0, "lib");
    let mut targets = StrMap::new();
    targets.insert("lib".to_string(), TargetState { fingerprint: fp.fingerprint.clone(), files: StrMap::new() });
    let mut e = executor(TWO, false, Cache { targets });
    let mut s = e.run(&"lib".to_string(), false).unwrap();
    e.next_ready(&mut s).unwrap();
    let fp = fingerprint_of(&e, "lib");
    assert!(matches!(e.start_target(&mut s, fp, false), Started::Spawn { .. }));
}

#[test]
fn empty_recipe_is_recorded() {
    let mut e = executor("all: a\na:\n", false, Cache::default());
    let mut s = e.run(&"all".to_string(), false).unwrap();
    assert_eq!(e.next_ready(&mut s).unwrap(), Next::Start { name: "a".to_string() });
    let fp = fingerprint_of(&e, "a");
    assert!(matches!(e.start_target(&mut s, fp, true), Started::Recorded { .. }));
    assert_eq!(e.next_ready(&mut s).unwrap(), Next::Start { name: "all".to_string() });
    let fp = fingerprint_of(&e, "all");
    assert!(matches!(e.start_target(&mut s, fp, true), Started::Recorded { .. }));
    assert_eq!(e.next_ready(&mut s).unwrap(), Next::Finished);
    assert_eq!(e.cache().targets.len(), 2);
}

#[test]
fn jobs_limit_bounds_parallelism() {
    let text = "all: a b c\na:\n\techo a\nb:\n\techo b\nc:\n\techo c\n";
    let mut e = executor(text, false, Cache::default());
    let mut s = e.run(&"all".to_string(), false).unwrap();
    let mut started = Vec::new();
    for _ in 0..2 {
        match e.next_ready(&mut s).unwrap() {
            Next::Start { name } => {
                let fp = fingerprint_of(&e, &name);
                assert!(matches!(e.start_target(&mut s, fp, true), Started::Spawn { .. }));
                started.push(name);
            }
            other => panic!("unexpected {:?}", other),
        }
    }
    assert_eq!(started, vec!["a".to_string(), "b".to_string()]);
    assert_eq!(e.next_ready(&mut s).unwrap(), Next::Wait);
}

#[test]
fn unknown_target_is_refused() {
    let mut e = executor(TWO, false, Cache::default());
    match e.run(&"nope".to_string(), false) {
        Err(err) => assert_eq!(err, BuildError::UnknownTarget { name: "nope".to_string() }),
        Ok(_) => panic!("an unknown target was accepted"),
    }
}

#[test]
fn total_commands_counts_the_closure() {
    let mut e = executor(TWO, false, Cache::default());
    e.run(&"lib".to_string(), true).unwrap();
    let bar = e.progress().unwrap().draw(40, 10).unwrap();
    assert!(bar.ends_with(" (0/2)"));
}

#[test]
fn zero_jobs_reports_a_deadlock() {
    let mut e = Executor::new(project(TWO), "/proj".to_string(), 0, false, false, Cache::default());
    let mut s = e.run(&"all".to_string(), false).unwrap();
    assert_eq!(e.next_ready(&mut s).unwrap_err(), BuildError::Deadlock);
}

#[test]
fn empty_project_refuses_any_target() {
    let mut e = executor("", false, Cache::default());
    match e.run(&"all".to_string(), false) {
        Err(err) => assert_eq!(err.message(), "unknown target 'all'"),
        Ok(_) => panic!("a target was found in an empty project"),
    }
    assert!(e.progress().is_none());
}
