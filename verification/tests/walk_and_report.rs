use std::collections::HashMap;

use treeport::{
    needs_resolution, trim_white_space, Action, CategorySpec, Command, Entry, ReportRunner,
    ReportSpec, RootStatus, StatSpec, WalkError, WalkMessage, Walker,
};

fn command(head: &str, tail: &[&str]) -> Command {
    Command {
        head: head.to_string(),
        tail: tail.iter().map(|s| s.to_string()).collect(),
    }
}

fn stat(name: &str) -> StatSpec {
    StatSpec {
        name: name.to_string(),
        command: command("sh", &["-c", name]),
    }
}

fn category(name: &str, stats: &[&str]) -> CategorySpec {
    CategorySpec {
        name: name.to_string(),
        command: command("true", &[]),
        stats: stats.iter().map(|s| stat(s)).collect(),
    }
}

fn git_spec() -> ReportSpec {
    ReportSpec {
        categories: vec![category("git", &["status", "size (bytes)"]), category("git-bare", &["size (bytes)"])],
    }
}

/// An in-memory file system: the entries of each directory.
struct Fs {
    dirs: HashMap<String, Vec<(String, bool)>>,
}

impl Fs {
    fn new() -> Fs {
        Fs { dirs: HashMap::new() }
    }

    fn add_dir(&mut self, path: &str, entries: &[(&str, bool)]) {
        self.dirs.insert(
            path.to_string(),
            entries
                .iter()
                .map(|(name, is_dir)| (format!("{}/{}", path, name), *is_dir))
                .collect(),
        );
    }
}

/// Drives a walk to its end; `detect` answers detections, and returns the
/// actions in the order they were asked for.
fn drive(
    walker: &mut Walker,
    fs: &Fs,
    detect: &dyn Fn(&str, usize) -> bool,
) -> Vec<String> {
    let mut log = Vec::new();
    loop {
        match walker.next_action() {
            Action::Detect(path, i) => {
                log.push(format!("detect {} {}", path, i));
                walker.on_detect(detect(&path, i));
            }
            Action::List(path) => {
                log.push(format!("list {}", path));
                let entries = fs
                    .dirs
                    .get(&path)
                    .cloned()
                    .unwrap_or_default()
                    .into_iter()
                    .map(|(path, is_dir)| Entry { path, is_dir })
                    .collect();
                walker.on_listed(entries);
            }
            Action::Finished => break,
        }
    }
    log
}

fn root(path: &str) -> RootStatus {
    RootStatus {
        path: path.to_string(),
        exists: true,
        is_dir: true,
    }
}

fn describe(messages: &[WalkMessage]) -> Vec<String> {
    messages
        .iter()
        .map(|m| match m {
            WalkMessage::MiscFile(p) => format!("misc {}", p),
            WalkMessage::CategorizedDir(c, p) => format!("cat {} {}", c, p),
        })
        .collect()
}

#[test]
fn root_does_not_exist() {
    let runner = ReportRunner::new(git_spec());
    let roots = vec![RootStatus {
        path: "/i/do/not/exit".to_string(),
        exists: false,
        is_dir: false,
    }];
    match runner.walk(&roots) {
        Err(err) => {
            assert!(matches!(&err, WalkError::BadRoots(bad) if bad == &vec!["/i/do/not/exit".to_string()]));
            let message = err.message();
            assert!(message.contains("Roots must exist and be directories."));
            assert_eq!(
                message,
                "Roots must exist and be directories. These are not: [\"/i/do/not/exit\"]"
            );
        }
        Ok(_) => panic!("a missing root must be refused"),
    }
}

#[test]
fn no_roots_are_refused() {
    let runner = ReportRunner::new(git_spec());
    match runner.walk(&vec![]) {
        Err(err) => {
            assert!(matches!(err, WalkError::NoRoots));
            assert_eq!(err.message(), "Must specify at least one root to process");
        }
        Ok(_) => panic!("no roots must be refused"),
    }
}

#[test]
fn only_bad_roots_are_listed_in_order() {
    let runner = ReportRunner::new(git_spec());
    let roots = vec![
        RootStatus { path: "/a".to_string(), exists: false, is_dir: false },
        root("/b"),
        RootStatus { path: "/c".to_string(), exists: true, is_dir: false },
    ];
    match runner.walk(&roots) {
        Err(WalkError::BadRoots(bad)) => assert_eq!(bad, vec!["/a".to_string(), "/c".to_string()]),
        _ => panic!("bad roots must be refused"),
    }
}

/// The scenario of the command-line test: four repositories under one
/// directory; the report lists each with its category and status, and
/// nothing else.
#[test]
fn simple_report() {
    let tmp = "/tmp/t";
    let mut fs = Fs::new();
    fs.add_dir(
        tmp,
        &[("dirty-repo", true), ("unpushed-repo", true), ("origin-repo", true), ("synced-repo", true)],
    );
    for repo in ["dirty-repo", "unpushed-repo", "synced-repo"] {
        fs.add_dir(&format!("{}/{}", tmp, repo), &[(".git", true), ("README.md", false)]);
    }
    fs.add_dir(&format!("{}/origin-repo", tmp), &[("HEAD", false), ("objects", true)]);
    let detect = |path: &str, i: usize| -> bool {
        let name = path.rsplit('/').next().unwrap();
        match i {
            0 => name.ends_with("-repo") && name != "origin-repo",
            _ => name == "origin-repo",
        }
    };
    let runner = ReportRunner::new(git_spec());
    let mut walker = match runner.walk(&vec![root(tmp)]) {
        Ok(w) => w,
        Err(_) => panic!("the root is a directory"),
    };
    drive(&mut walker, &fs, &detect);
    let messages = walker.into_messages();

    let status = |path: &str| -> &str {
        if path.ends_with("dirty-repo") {
            "dirty"
        } else if path.ends_with("unpushed-repo") {
            "unpushed"
        } else {
            "synced"
        }
    };
    let mut items = Vec::new();
    for m in &messages {
        let outputs: Vec<String> = match m {
            WalkMessage::MiscFile(_) => vec![],
            WalkMessage::CategorizedDir(0, p) => vec![format!("{}\n", status(p)), " 4096\n".to_string()],
            WalkMessage::CategorizedDir(_, _) => vec!["8192\n".to_string()],
        };
        items.push(runner.item_for(m, &outputs));
    }
    let report = runner.finish(items);
    let mut out = Vec::new();
    assert!(report.write_csv(&mut out).is_ok());
    let text = String::from_utf8(out).unwrap();

    let mut lines = text.lines();
    let headers: Vec<&str> = lines.next().unwrap().split(',').collect();
    assert_eq!(headers, vec!["path", "category", "status", "size (bytes)", "size (bytes)"]);
    let mut record_by_path: HashMap<String, HashMap<String, String>> = HashMap::new();
    for line in lines {
        let mut record: HashMap<String, String> = line
            .split(',')
            .enumerate()
            .map(|(i, value)| (headers[i].to_string(), value.to_string()))
            .collect();
        let path = record.get("path").unwrap().clone();
        let rel_path = path.strip_prefix(&format!("{}/", tmp)).unwrap().to_string();
        record.insert("path".to_string(), rel_path.clone());
        record_by_path.insert(rel_path, record);
    }

    let record = record_by_path.remove("dirty-repo").unwrap();
    assert_eq!(record.get("category").unwrap(), "git");
    assert_eq!(record.get("status").unwrap(), "dirty");

    let record = record_by_path.remove("unpushed-repo").unwrap();
    assert_eq!(record.get("category").unwrap(), "git");
    assert_eq!(record.get("status").unwrap(), "unpushed");

    let record = record_by_path.remove("origin-repo").unwrap();
    assert_eq!(record.get("category").unwrap(), "git-bare");

    let record = record_by_path.remove("synced-repo").unwrap();
    assert_eq!(record.get("category").unwrap(), "git");
    assert_eq!(record.get("status").unwrap(), "synced");

    assert_eq!(record_by_path, HashMap::new());
}

#[test]
fn walk_reports_files_and_first_matching_category() {
    // /r holds a file, a directory of the second category (whose contents
    // are not visited), and a plain directory holding a file.
    let mut fs = Fs::new();
    fs.add_dir("/r", &[("a.txt", false), ("proj", true), ("plain", true)]);
    fs.add_dir("/r/proj", &[("inner", false)]);
    fs.add_dir("/r/plain", &[("b.txt", false)]);
    let detect = |path: &str, i: usize| path == "/r/proj" && i >= 1;
    let mut walker = Walker::new(
        3,
        vec![Entry { path: "/r".to_string(), is_dir: true }],
    );
    let log = drive(&mut walker, &fs, &detect);
    assert_eq!(
        log,
        vec![
            "detect /r 0",
            "detect /r 1",
            "detect /r 2",
            "list /r",
            "detect /r/proj 0",
            "detect /r/proj 1",
            "detect /r/plain 0",
            "detect /r/plain 1",
            "detect /r/plain 2",
            "list /r/plain",
        ]
    );
    assert_eq!(
        describe(walker.messages()),
        vec!["misc /r/a.txt", "cat 1 /r/proj", "misc /r/plain/b.txt"]
    );
}

#[test]
fn walk_without_categories_lists_every_directory() {
    let mut fs = Fs::new();
    fs.add_dir("/r", &[("d", true), ("f", false)]);
    fs.add_dir("/r/d", &[("g", false)]);
    let mut walker = Walker::new(0, vec![Entry { path: "/r".to_string(), is_dir: true }]);
    let log = drive(&mut walker, &fs, &|_: &str, _: usize| true);
    assert_eq!(log, vec!["list /r", "list /r/d"]);
    assert_eq!(describe(&walker.into_messages()), vec!["misc /r/d/g", "misc /r/f"]);
}

#[test]
fn walk_visits_roots_in_order() {
    let fs = Fs::new();
    let mut walker = Walker::new(
        1,
        vec![
            Entry { path: "/x".to_string(), is_dir: false },
            Entry { path: "/y".to_string(), is_dir: true },
            Entry { path: "/z".to_string(), is_dir: false },
        ],
    );
    drive(&mut walker, &fs, &|_: &str, _: usize| true);
    assert_eq!(describe(walker.messages()), vec!["misc /x", "cat 0 /y", "misc /z"]);
}

#[test]
fn answers_without_a_request_change_nothing() {
    let mut walker = Walker::new(2, vec![Entry { path: "/f".to_string(), is_dir: false }]);
    walker.on_detect(true);
    walker.on_listed(vec![Entry { path: "/g".to_string(), is_dir: false }]);
    assert!(walker.messages().is_empty());
    assert!(matches!(walker.next_action(), Action::Finished));
    assert_eq!(describe(walker.messages()), vec!["misc /f"]);
    // A pending request is repeated until it is answered.
    let mut walker = Walker::new(2, vec![Entry { path: "/d".to_string(), is_dir: true }]);
    assert!(matches!(walker.next_action(), Action::Detect(p, 0) if p == "/d"));
    assert!(matches!(walker.next_action(), Action::Detect(p, 0) if p == "/d"));
    walker.on_listed(vec![]);
    assert!(matches!(walker.next_action(), Action::Detect(p, 0) if p == "/d"));
}

#[test]
fn trim_matches_str_trim() {
    for s in [
        "",
        "   ",
        "abc",
        "  abc  ",
        "\tdirty\n",
        "a b\r\n",
        "\u{a0}\u{3000}x\u{2009}y\u{85}",
        "\u{200b}x",
        "é ",
    ] {
        assert_eq!(trim_white_space(s), s.trim(), "trimming {:?}", s);
    }
}

#[test]
fn relative_programs_need_resolution() {
    assert!(needs_resolution("./detect.sh"));
    assert!(needs_resolution("bin/stat"));
    assert!(!needs_resolution("/usr/bin/git"));
    assert!(!needs_resolution("git"));
    assert!(!needs_resolution(""));
}

#[test]
fn stat_names_list_every_category_in_order() {
    let runner = ReportRunner::new(ReportSpec {
        categories: vec![category("a", &["x", "y"]), category("b", &[]), category("c", &["x"])],
    });
    assert_eq!(runner.stat_names(), vec!["x", "y", "x"]);
}

#[test]
fn items_of_files_and_directories() {
    let runner = ReportRunner::new(git_spec());
    let item = runner.item_for(&WalkMessage::MiscFile("/f".to_string()), &vec![]);
    assert_eq!(item.path, "/f");
    assert_eq!(item.category, "misc");
    assert!(item.stats.is_empty());
    let item = runner.item_for(
        &WalkMessage::CategorizedDir(1, "/d".to_string()),
        &vec!["  12 \n".to_string()],
    );
    assert_eq!(item.category, "git-bare");
    assert_eq!(item.stats.len(), 1);
    assert_eq!(item.stats[0].name, "size (bytes)");
    assert_eq!(item.stats[0].value, "12");
}

#[test]
fn csv_of_a_report() {
    let runner = ReportRunner::new(ReportSpec {
        categories: vec![category("c", &["note", "note", "other"])],
    });
    let items = vec![
        runner.item_for(
            &WalkMessage::CategorizedDir(0, "/a,b".to_string()),
            &vec!["first".to_string(), "say \"hi\"".to_string(), "two\nlines".to_string()],
        ),
        runner.item_for(&WalkMessage::MiscFile("/plain".to_string()), &vec![]),
    ];
    let report = runner.finish(items);
    let rows = report.csv_rows();
    assert_eq!(rows[0], vec!["path", "category", "note", "note", "other"]);
    // The later of two statistics of one name wins.
    assert_eq!(rows[1], vec!["/a,b", "c", "say \"hi\"", "say \"hi\"", "two\nlines"]);
    assert_eq!(rows[2], vec!["/plain", "misc", "", "", ""]);
    let mut out = b"prefix:".to_vec();
    assert!(report.write_csv(&mut out).is_ok());
    assert_eq!(
        String::from_utf8(out).unwrap(),
        "prefix:path,category,note,note,other\n\"/a,b\",c,\"say \"\"hi\"\"\",\"say \"\"hi\"\"\",\"two\nlines\"\n/plain,misc,,,\n"
    );
}

#[test]
fn csv_of_an_empty_record() {
    let runner = ReportRunner::new(ReportSpec { categories: vec![category("c", &[])] });
    let report = runner.finish(vec![runner.item_for(&WalkMessage::MiscFile(String::new()), &vec![])]);
    let mut out = Vec::new();
    assert!(report.write_csv(&mut out).is_ok());
    // A row of two empty fields is written as one delimiter; a header of
    // plain words as they are.
    assert_eq!(String::from_utf8(out).unwrap(), "path,category\n,misc\n");
}

#[test]
fn refused_roots_are_shown_as_paths() {
    let runner = ReportRunner::new(git_spec());
    let roots = vec![RootStatus { path: "/tmp/it's".to_string(), exists: false, is_dir: false }];
    match runner.walk(&roots) {
        Err(err) => {
            let expected = format!(
                "Roots must exist and be directories. These are not: {:?}",
                vec![std::path::PathBuf::from("/tmp/it's")]
            );
            assert_eq!(err.message(), expected);
            assert!(err.message().ends_with("[\"/tmp/it's\"]"));
        }
        Ok(_) => panic!("a missing root must be refused"),
    }
}

#[test]
fn csv_reads_back_with_a_csv_reader() {
    let runner = ReportRunner::new(ReportSpec {
        categories: vec![category("c,1", &["a \"b\"", "lines"]), category("d", &["x"])],
    });
    let messages = vec![
        WalkMessage::CategorizedDir(0, "/p,q".to_string()),
        WalkMessage::MiscFile("/r\"s".to_string()),
        WalkMessage::CategorizedDir(1, "".to_string()),
    ];
    let outputs = vec![
        vec!["1,2".to_string(), "one\r\ntwo\n\n".to_string()],
        vec![],
        vec!["\"\"".to_string()],
    ];
    let items: Vec<_> = messages
        .iter()
        .zip(outputs.iter())
        .map(|(m, o)| runner.item_for(m, o))
        .collect();
    let report = runner.finish(items);
    let table = report.csv_rows();
    let mut buf = Vec::new();
    assert!(report.write_csv(&mut buf).is_ok());
    let mut reader = csv::ReaderBuilder::new().has_headers(false).from_reader(&buf[..]);
    let read: Vec<Vec<String>> = reader
        .records()
        .map(|r| r.unwrap().iter().map(|f| f.to_string()).collect())
        .collect();
    assert_eq!(read, table);
    assert_eq!(read[0], vec!["path", "category", "a \"b\"", "lines", "x"]);
    assert_eq!(read[1], vec!["/p,q", "c,1", "1,2", "one\r\ntwo", ""]);
}

#[test]
fn joined_roots_report_each_root_in_turn() {
    let mut fs = Fs::new();
    fs.add_dir("/a", &[("x", false), ("p", true)]);
    fs.add_dir("/b", &[("y", false)]);
    let detect = |path: &str, i: usize| path == "/a/p" && i == 1;
    let walk = |roots: &[&str]| -> Vec<String> {
        let entries = roots
            .iter()
            .map(|r| Entry { path: r.to_string(), is_dir: true })
            .collect();
        let mut walker = Walker::new(2, entries);
        drive(&mut walker, &fs, &detect);
        describe(&walker.into_messages())
    };
    let a = walk(&["/a"]);
    let b = walk(&["/b"]);
    assert_eq!(a, vec!["misc /a/x", "cat 1 /a/p"]);
    assert_eq!(b, vec!["misc /b/y"]);
    assert_eq!(walk(&["/a", "/b"]), [a.clone(), b].concat());
    assert_eq!(walk(&["/a", "/a"]), [a.clone(), a].concat());
}
