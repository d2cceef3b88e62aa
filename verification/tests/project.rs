use duvet::project::{find_binary_path, find_binary_paths, kind_args};
use duvet::text::{rsplit_last, split_once_str};

fn expected_paths(stderr: &str) -> Vec<&str> {
    stderr
        .split('\n')
        .filter_map(|line| {
            let line = line.trim();
            let mut line = line.split("Running ");
            line.next()?;
            let v = line.next()?;
            if v.ends_with(')') {
                let v = v.split('(').last()?;
                Some(&v[..v.len() - 1])
            } else {
                Some(v)
            }
        })
        .collect()
}

#[test]
fn binaries_that_cargo_names() {
    let stderr = "   Compiling foo v0.1.0\n    Finished test [unoptimized] target(s) in 0.5s\n     Running unittests (target/debug/deps/foo-abc123)\r\n     Running target/debug/deps/bar-def  \n   Doc-tests foo\n";
    assert_eq!(
        find_binary_paths(stderr),
        vec!["target/debug/deps/foo-abc123", "target/debug/deps/bar-def"]
    );
    for text in [
        "",
        "Running ",
        "Running x",
        "Running a (b) (c)",
        "Running a) ",
        "Running ()",
        "x Running y Running z",
        "Running Running ",
        "running x\nRunning é (ü)\n\n Running (",
        "Running a(b\rRunning c)",
        stderr,
    ] {
        assert_eq!(find_binary_paths(text), expected_paths(text), "{:?}", text);
    }
    assert_eq!(find_binary_path("  Running a (b)"), Some("b"));
    assert_eq!(find_binary_path("Runnin a (b)"), None);
}

#[test]
fn arguments_of_a_kind_of_target() {
    assert_eq!(kind_args("lib", "x"), Some(vec!["--lib".to_string()]));
    assert_eq!(
        kind_args("test", "x"),
        Some(vec!["--test".to_string(), "x".to_string()])
    );
    assert_eq!(
        kind_args("bin", "y"),
        Some(vec!["--bin".to_string(), "y".to_string()])
    );
    assert_eq!(
        kind_args("example", "z"),
        Some(vec!["--example".to_string(), "z".to_string()])
    );
    assert_eq!(
        kind_args("bench", "b"),
        Some(vec!["--bench".to_string(), "b".to_string()])
    );
    assert_eq!(kind_args("custom-build", "b"), None);
    assert_eq!(kind_args("", "b"), None);
}

#[test]
fn splitting_at_a_text() {
    assert_eq!(split_once_str("a--b--c", "--"), ("a", Some("b--c")));
    assert_eq!(split_once_str("--", "--"), ("", Some("")));
    assert_eq!(split_once_str("a-b", "--"), ("a-b", None));
    assert_eq!(split_once_str("", "--"), ("", None));
    assert_eq!(split_once_str("é--ü", "--"), ("é", Some("ü")));
    assert_eq!(rsplit_last("a(b(c", '('), "c");
    assert_eq!(rsplit_last("abc", '('), "abc");
    assert_eq!(rsplit_last("abc(", '('), "");
    assert_eq!(rsplit_last("", '('), "");
}
