use mmake::executor::BuildError;
use mmake::expand::ParseError;
use mmake::cache::FileState;
use mmake::cli::Args;
use mmake::collections::{StrMap, StrSet};
use mmake::fingerprint::{cached_hash, calculate, expand_watch, hash_bytes, WatchPattern, WatchedFile};
use mmake::job::{build_instrumented_script, failure_message, find_bytes, missing_output_message, step_marker, Piece, StepSplitter};
use mmake::model::Target;
use mmake::paths::sorted_unique;
use mmake::progress::Progress;
use mmake::text::decimal_string;

#[test]
fn sha256_hex_of_known_inputs() {
    assert_eq!(hash_bytes(b""), "e3b0c44298fc1c149afbf4c8996fb92427ae41e4649b934ca495991b7852b855");
    assert_eq!(hash_bytes(b"abc"), "ba7816bf8f01cfea414140de5dae2223b00361a396177a9cb410ff61f20015ad");
}

#[test]
fn fingerprint_of_recipe_only() {
    let mut t = Target::new("t".to_string(), Vec::new());
    t.recipe.push("echo hi".to_string());
    let r = calculate(&t, &Vec::new(), &Vec::new());
    assert_eq!(r.fingerprint, "ab08508fdf5ca4da5c4995987bc41c56c048aaa5eeb046417ae4049b7d40286e");
    assert_eq!(r.files.len(), 0);
}

#[test]
fn fingerprint_of_everything() {
    let mut t = Target::new("t".to_string(), vec!["d".to_string()]);
    t.recipe.push("echo hi".to_string());
    t.outputs.push("/proj/out".to_string());
    let files = vec![WatchedFile { relative: "a.txt".to_string(), size: 3, mtime_ns: 7, hash: "h".to_string() }];
    let r = calculate(&t, &files, &vec!["dep1".to_string()]);
    assert_eq!(r.fingerprint, "b8e4977ce03d89d09c1ce93f1605bb0f02989513709491f77cd432f46166b83d");
    let st = r.files.get(&"a.txt".to_string()).unwrap();
    assert_eq!((st.size, st.mtime_ns, st.hash.as_str()), (3, 7, "h"));
}

#[test]
fn cached_hash_is_reused_only_when_unchanged() {
    let mut prev = StrMap::new();
    prev.insert("a".to_string(), FileState { size: 1, mtime_ns: 2, hash: "x".to_string() });
    let a = "a".to_string();
    assert_eq!(cached_hash(Some(&prev), &a, 1, 2), Some("x".to_string()));
    assert_eq!(cached_hash(Some(&prev), &a, 1, 3), None);
    assert_eq!(cached_hash(Some(&prev), &a, 5, 2), None);
    assert_eq!(cached_hash(Some(&prev), &"b".to_string(), 1, 2), None);
    assert_eq!(cached_hash(None, &a, 1, 2), None);
}

#[test]
fn watch_patterns() {
    let root = "/proj".to_string();
    assert_eq!(expand_watch(&root, &"src/main.c".to_string()), WatchPattern::File { path: "/proj/src/main.c".to_string() });
    assert_eq!(expand_watch(&root, &"src/**".to_string()), WatchPattern::Tree { base: "/proj/src".to_string() });
    assert_eq!(expand_watch(&root, &"src/**/**".to_string()), WatchPattern::Tree { base: "/proj/src".to_string() });
    assert_eq!(expand_watch(&root, &"src/*".to_string()), WatchPattern::Dir { base: "/proj/src".to_string() });
    assert_eq!(expand_watch(&root, &"src/*/*".to_string()), WatchPattern::Dir { base: "/proj/src".to_string() });
    assert_eq!(expand_watch(&root, &"a*b".to_string()), WatchPattern::Unsupported);
    assert_eq!(expand_watch(&root, &"/abs/*".to_string()), WatchPattern::Dir { base: "/abs".to_string() });
}

#[test]
fn progress_bar_line() {
    let mut p = Progress::new(4, true);
    p.set_finished(2);
    let line = p.draw(40, 10).unwrap();
    let expected = format!("[{}>{}] (2/4)", "=".repeat(15), " ".repeat(15));
    assert_eq!(line, expected);
    p.set_finished(10);
    assert_eq!(p.draw(40, 10).unwrap(), format!("[{}] (4/4)", "=".repeat(31)));
    assert_eq!(p.draw(0, 10), None);
    assert_eq!(p.draw(40, 0), None);
    assert!(p.clear());
    assert!(p.finish());
}

#[test]
fn progress_bar_minimum_width() {
    let p = Progress::new(3, true);
    assert_eq!(p.draw(5, 1).unwrap(), format!("[>{}] (0/3)", " ".repeat(9)));
}

#[test]
fn progress_disabled_or_empty() {
    let p = Progress::new(0, true);
    assert_eq!(p.draw(80, 24), None);
    assert!(!p.clear());
    let q = Progress::new(5, false);
    assert_eq!(q.draw(80, 24), None);
    assert!(!q.finish());
}

#[test]
fn progress_increment_stops_at_total() {
    let mut p = Progress::new(1, true);
    p.increment();
    p.increment();
    assert_eq!(p.draw(20, 1).unwrap(), format!("[{}] (1/1)", "=".repeat(11)));
}

#[test]
fn script_prints_a_marker_after_each_command() {
    let script = build_instrumented_script(&vec!["echo a".to_string(), "echo b".to_string()]);
    assert_eq!(script, "echo a\nprintf '\\036MMAKE_STEP\\037'\necho b\nprintf '\\036MMAKE_STEP\\037'\n");
    assert_eq!(build_instrumented_script(&Vec::new()), "");
}

#[test]
fn find_bytes_cases() {
    assert_eq!(find_bytes(b"abcabc", b"ca"), Some(2));
    assert_eq!(find_bytes(b"abcabc", b"abc"), Some(0));
    assert_eq!(find_bytes(b"abc", b""), None);
    assert_eq!(find_bytes(b"ab", b"abc"), None);
    assert_eq!(find_bytes(b"abc", b"x"), None);
    assert_eq!(step_marker(), b"\x1eMMAKE_STEP\x1f".to_vec());
}

fn outputs(pieces: &[Piece]) -> Vec<u8> {
    let mut out = Vec::new();
    for p in pieces {
        if let Piece::Output(b) = p {
            out.extend_from_slice(b);
        }
    }
    out
}

#[test]
fn splitter_finds_markers() {
    let mut s = StepSplitter::new();
    let pieces = s.feed(b"hello\x1eMMAKE_STEP\x1fworld");
    assert_eq!(pieces, vec![Piece::Output(b"hello".to_vec()), Piece::Step]);
    assert_eq!(s.finish(), b"world".to_vec());
}

#[test]
fn splitter_joins_a_marker_split_across_chunks() {
    let mut s = StepSplitter::new();
    assert_eq!(s.feed(b"ab\x1eMMAKE"), Vec::<Piece>::new());
    assert_eq!(s.feed(b"_STEP\x1fcd"), vec![Piece::Output(b"ab".to_vec()), Piece::Step]);
    assert_eq!(s.finish(), b"cd".to_vec());
}

#[test]
fn splitter_flushes_all_but_a_marker_prefix() {
    let mut s = StepSplitter::new();
    let pieces = s.feed(&[b'a'; 20]);
    assert_eq!(pieces, vec![Piece::Output(vec![b'a'; 9])]);
    assert_eq!(s.finish(), vec![b'a'; 11]);
}

#[test]
fn splitter_output_is_the_stream_without_markers() {
    let stream = b"x\x1eMMAKE_STEP\x1f\x1eMMAKE_STEP\x1fyyyyyyyyyyyyyyyyyyyy\x1eMMAKE_STEP\x1fz";
    let mut s = StepSplitter::new();
    let mut all = Vec::new();
    let mut steps = 0;
    for chunk in stream.chunks(5) {
        let pieces = s.feed(chunk);
        steps += pieces.iter().filter(|p| **p == Piece::Step).count();
        all.extend(outputs(&pieces));
    }
    all.extend(s.finish());
    assert_eq!(steps, 3);
    assert_eq!(all, b"xyyyyyyyyyyyyyyyyyyyyz".to_vec());
}

#[test]
fn decimal_strings() {
    assert_eq!(decimal_string(0), "0");
    assert_eq!(decimal_string(7), "7");
    assert_eq!(decimal_string(1234), "1234");
    assert_eq!(decimal_string(usize::MAX), usize::MAX.to_string());
}

#[test]
fn args_defaults() {
    let a = Args { target: None, jobs: None, file: "Makefile".to_string(), dry_run: false, verbose: false };
    assert_eq!(a.target_name(), "all");
    assert_eq!(a.effective_jobs(8), 8);
    assert_eq!(a.effective_jobs(0), 1);
    let b = Args { target: Some("x".to_string()), jobs: Some(0), file: "M".to_string(), dry_run: true, verbose: true };
    assert_eq!(b.target_name(), "x");
    assert_eq!(b.effective_jobs(8), 1);
}

#[test]
fn string_set_keeps_members_once() {
    let mut s = StrSet::new();
    assert!(s.insert("a".to_string()));
    assert!(!s.insert("a".to_string()));
    assert!(s.insert("b".to_string()));
    assert_eq!(s.len(), 2);
    s.remove(&"a".to_string());
    assert!(!s.contains(&"a".to_string()));
    assert_eq!(s.len(), 1);
}

#[test]
fn string_map_updates_in_place() {
    let mut m = StrMap::new();
    m.insert("a".to_string(), 1);
    m.insert("b".to_string(), 2);
    m.insert("a".to_string(), 3);
    assert_eq!(m.len(), 2);
    assert_eq!(m.key_at(0), "a");
    assert_eq!(*m.value_at(0), 3);
    assert_eq!(m.get(&"b".to_string()), Some(&2));
    assert_eq!(m.get(&"c".to_string()), None);
}

#[test]
fn jobs_to_run_prefers_the_request() {
    let a = Args { target: None, jobs: Some(3), file: "Makefile".to_string(), dry_run: false, verbose: false };
    assert_eq!(a.jobs_to_run(), 3);
    let b = Args { target: None, jobs: None, file: "Makefile".to_string(), dry_run: false, verbose: false };
    assert!(b.jobs_to_run() >= 1);
}

#[test]
fn failure_message_shows_only_non_blank_streams() {
    let name = "app".to_string();
    let status = "exit status: 2".to_string();
    assert_eq!(
        failure_message(&name, &status, &" \n".to_string(), &"boom\n".to_string()),
        "target 'app' failed with status exit status: 2\n\nstderr:\nboom\n"
    );
    assert_eq!(
        failure_message(&name, &status, &"out".to_string(), &String::new()),
        "target 'app' failed with status exit status: 2\n\nstdout:\nout"
    );
    assert_eq!(
        missing_output_message(&name, &"bin/app".to_string()),
        "target 'app' completed successfully, but output was not produced: bin/app"
    );
}

#[test]
fn error_messages() {
    assert_eq!(
        ParseError::UnsupportedSyntax { file: "Makefile".to_string(), line: 12, text: "???".to_string() }.message(),
        "Makefile:12: unsupported syntax: ???"
    );
    assert_eq!(
        ParseError::DuplicateTarget { file: "a.mk".to_string(), line: 3, name: "x".to_string() }.message(),
        "a.mk:3: target 'x' is already defined"
    );
    assert_eq!(
        ParseError::UnknownDependency { target: "a".to_string(), dependency: "b".to_string() }.message(),
        "target 'a' depends on unknown target 'b'"
    );
    assert_eq!(ParseError::UndefinedVariable { name: "V".to_string() }.message(), "undefined variable 'V'");
    assert_eq!(BuildError::UnknownTarget { name: "nope".to_string() }.message(), "unknown target 'nope'");
    assert_eq!(BuildError::Deadlock.message(), "build scheduler reached a deadlock");
}

#[test]
fn paths_are_ordered_as_std_orders_them() {
    let inputs = vec![
        "/r/b", "/r/a/c", "/r/a", "/r//a", "/r/a/./c", "/r/a-b", "/r/a/b", "/r/./x", "/r/a/",
        "/r/A", "/r/..", "/r/.a", "rel/x", "./rel", "/r/é", "/r/z", "/r/a b", "/", ".", "/r/a/b/",
    ];
    let names: Vec<String> = inputs.iter().map(|s| s.to_string()).collect();
    let order = sorted_unique(&names);
    let ours: Vec<String> = order.iter().map(|&i| names[i].clone()).collect();
    let mut std_paths: Vec<std::path::PathBuf> = inputs.iter().map(std::path::PathBuf::from).collect();
    std_paths.sort();
    std_paths.dedup();
    let theirs: Vec<String> = std_paths.iter().map(|p| p.to_string_lossy().into_owned()).collect();
    assert_eq!(ours, theirs);
}
