use duvet::export::{Data, Export, File, Function, Region, Summary, Total};

fn total(covered: u64) -> Total {
    Total { count: 10, covered }
}

fn summary(covered: u64) -> Summary {
    Summary {
        functions: total(1),
        instantiations: total(1),
        lines: total(1),
        regions: total(covered),
    }
}

fn file(name: &str) -> File {
    File {
        filename: name.to_string(),
        segments: vec![],
        summary: summary(1),
    }
}

fn function(name: &str, count: usize, files: &[&str]) -> Function {
    Function {
        count,
        filenames: files.iter().map(|f| f.to_string()).collect(),
        name: name.to_string(),
        regions: vec![],
    }
}

#[test]
fn files_and_functions_outside_the_project() {
    assert!(file("/rustc/lib.rs").is_external());
    assert!(!file("src/lib.rs").is_external());
    assert!(!file("").is_external());
    assert!(function("f", 1, &["/a", "/b"]).is_external());
    assert!(!function("f", 1, &["/a", "b"]).is_external());
    // a function without files lies nowhere else
    assert!(function("f", 1, &[]).is_external());
    assert!(function("f", 0, &["src/lib.rs"]).is_empty());
    assert!(function("f", 3, &["/a"]).is_empty());
    assert!(!function("f", 3, &["src/lib.rs"]).is_empty());
}

#[test]
fn trimming_an_export() {
    let mut data = Data {
        files: vec![file("/x.rs"), file("a.rs"), file("/y.rs"), file("b.rs")],
        functions: vec![
            function("one", 1, &["a.rs"]),
            function("none", 0, &["a.rs"]),
            function("out", 2, &["/x.rs"]),
            function("two", 2, &["b.rs", "/x.rs"]),
        ],
        totals: summary(4),
    };
    assert!(!data.is_empty());
    data.trim();
    let files: Vec<&str> = data.files.iter().map(|f| f.filename.as_str()).collect();
    assert_eq!(files, vec!["a.rs", "b.rs"]);
    let functions: Vec<&str> = data.functions.iter().map(|f| f.name.as_str()).collect();
    assert_eq!(functions, vec!["one", "two"]);

    let outside = Data {
        files: vec![file("/x.rs")],
        functions: vec![function("out", 2, &["/x.rs"])],
        totals: summary(4),
    };
    let uncovered = Data {
        files: vec![file("c.rs")],
        functions: vec![],
        totals: summary(0),
    };
    assert!(uncovered.is_empty());
    let last = Data {
        files: vec![file("d.rs")],
        functions: vec![],
        totals: summary(1),
    };
    let mut export = Export {
        version: "2.0.1".to_string(),
        data: vec![outside, data, uncovered, last],
    };
    export.trim();
    let kept: Vec<Vec<&str>> = export
        .data
        .iter()
        .map(|d| d.files.iter().map(|f| f.filename.as_str()).collect())
        .collect();
    assert_eq!(kept, vec![vec!["a.rs", "b.rs"], vec!["d.rs"]]);
    assert_eq!(export.version, "2.0.1");
}

#[test]
fn places_of_a_region() {
    let region = Region {
        line_start: 3,
        col_start: 5,
        line_end: 4,
        col_end: 1,
        execution_count: 7,
        file_id: 0,
        expanded_file_id: 0,
        kind: 0,
    };
    assert_eq!(region.places(), ((2, 4), (3, 0)));
    let region = Region {
        col_start: 0,
        ..region
    };
    assert_eq!(region.places(), ((2, 0), (3, 0)));
}
