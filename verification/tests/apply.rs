use cargo_vibe::apply::{
    group_by_file, groups_inside, AppliedFileFix, ApplyEvent, ApplyRun, ApplyStage,
};
use cargo_vibe::edit::rewrite;
use cargo_vibe::fix::FixLoop;
use cargo_vibe::path::{FilePath, PathPart};
use cargo_vibe::suggestion::ClippySuggestion;
use std::collections::BTreeMap;

fn name(s: &str) -> PathPart {
    PathPart::Normal(s.as_bytes().to_vec())
}

/// The path with the names in `shown`, below the root, in a file system without links.
fn path(shown: &str) -> FilePath {
    let mut parts = vec![PathPart::Root];
    let mut resolved = vec![PathPart::Root];
    for part in shown.split('/').filter(|part| !part.is_empty()) {
        if part == ".." {
            parts.push(PathPart::Parent);
            resolved.pop();
        } else {
            parts.push(name(part));
            resolved.push(name(part));
        }
    }
    FilePath { shown: shown.to_string(), parts, resolved }
}

/// The file that a path resolves to, by its names.
fn key(file: &FilePath) -> String {
    let mut key = String::new();
    for part in &file.resolved {
        if let PathPart::Normal(bytes) = part {
            key.push('/');
            key.push_str(&String::from_utf8(bytes.clone()).unwrap());
        }
    }
    key
}

fn suggestion(start: usize, end: usize, with: &str, lint: Option<&str>) -> ClippySuggestion {
    ClippySuggestion {
        file_path: "test_overlap.rs".to_string(),
        byte_start: start,
        byte_end: end,
        replacement: with.to_string(),
        lint: lint.map(str::to_string),
    }
}

/// Applies `suggestions` to the files of a directory that is kept in memory.
fn apply_all(
    fixer: &FixLoop,
    files: &mut BTreeMap<String, Vec<u8>>,
    suggestions: &Vec<ClippySuggestion>,
) -> Vec<AppliedFileFix> {
    let root = path(&fixer.root);
    let targets: Vec<FilePath> =
        suggestions.iter().map(|s| path(&format!("{}/{}", fixer.root, s.file_path))).collect();
    let mut run = fixer.apply_suggestions(suggestions, &targets, &root);
    while run.stage != ApplyStage::Finished {
        let file = key(run.file().unwrap());
        let event = match &run.stage {
            ApplyStage::Read => ApplyEvent::ReadDone(files.get(&file).cloned()),
            ApplyStage::Write(rewrite) => {
                files.insert(file, rewrite.content.clone());
                ApplyEvent::WriteDone(true)
            }
            ApplyStage::Finished => unreachable!(),
        };
        run.step(event);
    }
    run.fixes
}

fn total_applied(fixes: &[AppliedFileFix]) -> usize {
    fixes.iter().map(|f| f.applied).sum()
}

#[test]
fn test_apply_suggestions_ordering_and_overlap() {
    let test_file = "/heal-test/test_overlap.rs".to_string();
    let mut files = BTreeMap::new();
    files.insert(test_file.clone(), b"abcdefghijklmnopqrstuvwxyz".to_vec());

    // 1. We have non-overlapping suggestions.
    // abcdefghijklmnopqrstuvwxyz
    // Sugg 1: replace "def" (3..6) with "123"
    // Sugg 2: replace "uvw" (20..23) with "89"
    // Sugg 3: replace "op" (14..16) with "XYZ"
    let suggestions = vec![
        ClippySuggestion {
            file_path: "test_overlap.rs".to_string(),
            byte_start: 3,
            byte_end: 6,
            replacement: "123".to_string(),
            lint: Some("clippy::lint_a".to_string()),
        },
        ClippySuggestion {
            file_path: "test_overlap.rs".to_string(),
            byte_start: 20,
            byte_end: 23,
            replacement: "89".to_string(),
            lint: Some("clippy::lint_b".to_string()),
        },
        ClippySuggestion {
            file_path: "test_overlap.rs".to_string(),
            byte_start: 14,
            byte_end: 16,
            replacement: "XYZ".to_string(),
            lint: None,
        },
    ];

    let fixer = FixLoop::new("/heal-test", "test", 1, "7", "HEAD", false);
    let applied = apply_all(&fixer, &mut files, &suggestions);
    assert_eq!(total_applied(&applied), 3);
    assert_eq!(applied.len(), 1);
    assert_eq!(
        applied[0].lints,
        vec!["clippy::lint_a".to_string(), "clippy::lint_b".to_string()]
    );

    let content = String::from_utf8(files[&test_file].clone()).unwrap();
    assert_eq!(content, "abc123ghijklmnXYZqrst89xyz");

    // 2. Now let's test overlapping suggestions.
    files.insert(test_file.clone(), b"abcdefghijklmnopqrstuvwxyz".to_vec());

    // Sugg A: 3..6 "def" -> "123"
    // Sugg B: 4..5 "e" -> "4" (overlaps with A)
    // Sugg C: 20..23 "uvw" -> "89" (safe)
    let overlapping_suggestions = vec![
        ClippySuggestion {
            file_path: "test_overlap.rs".to_string(),
            byte_start: 3,
            byte_end: 6,
            replacement: "123".to_string(),
            lint: None,
        },
        ClippySuggestion {
            file_path: "test_overlap.rs".to_string(),
            byte_start: 4,
            byte_end: 5,
            replacement: "4".to_string(),
            lint: None,
        },
        ClippySuggestion {
            file_path: "test_overlap.rs".to_string(),
            byte_start: 20,
            byte_end: 23,
            replacement: "89".to_string(),
            lint: None,
        },
    ];

    let applied = apply_all(&fixer, &mut files, &overlapping_suggestions);
    assert_eq!(total_applied(&applied), 2);

    let content = String::from_utf8(files[&test_file].clone()).unwrap();
    assert_eq!(content, "abcd4fghijklmnopqrst89xyz");
}

#[test]
fn ranges_outside_the_file_are_skipped() {
    let content = b"abc".to_vec();
    let list = vec![
        suggestion(2, 4, "x", None),
        suggestion(3, 2, "x", None),
        suggestion(3, 3, "d", Some("l")),
        suggestion(usize::MAX, usize::MAX, "x", None),
    ];
    let done = rewrite(content, &list);
    assert_eq!(done.content, b"abcd".to_vec());
    assert_eq!(done.applied, 1);
    assert_eq!(done.lints, vec!["l".to_string()]);
}

#[test]
fn a_file_without_an_edit_stays_as_it_is() {
    let done = rewrite(b"abc".to_vec(), &Vec::new());
    assert_eq!(done.content, b"abc".to_vec());
    assert_eq!(done.applied, 0);
    assert_eq!(done.lints, Vec::<String>::new());
}

#[test]
fn of_two_suggestions_for_one_range_the_first_is_applied() {
    let list = vec![
        suggestion(1, 2, "first", Some("b")),
        suggestion(1, 2, "second", Some("a")),
    ];
    let done = rewrite(b"abc".to_vec(), &list);
    assert_eq!(done.content, b"afirstc".to_vec());
    assert_eq!(done.lints, vec!["b".to_string()]);
}

#[test]
fn insertions_at_one_place_are_all_applied() {
    // An empty range ends where the edit behind it starts, so that it collides with none.
    let list = vec![suggestion(1, 1, "x", None), suggestion(1, 1, "y", None)];
    let done = rewrite(b"ab".to_vec(), &list);
    assert_eq!(done.content, b"ayxb".to_vec());
    assert_eq!(done.applied, 2);
}

#[test]
fn lints_are_listed_once_and_in_order() {
    let list = vec![
        suggestion(0, 1, "1", Some("z")),
        suggestion(1, 2, "22", Some("a")),
        suggestion(2, 3, "", Some("z")),
    ];
    let done = rewrite(b"abc".to_vec(), &list);
    assert_eq!(done.content, b"122".to_vec());
    assert_eq!(done.lints, vec!["a".to_string(), "z".to_string()]);
}

#[test]
fn replacements_count_in_bytes() {
    let list = vec![suggestion(2, 3, "ö", None), suggestion(0, 2, "ß", None)];
    let done = rewrite("äb".as_bytes().to_vec(), &list);
    assert_eq!(done.content, "ßö".as_bytes().to_vec());
}

#[test]
fn suggestions_are_grouped_by_file() {
    let list = vec![
        suggestion(1, 1, "x", None),
        suggestion(2, 2, "x", None),
        suggestion(3, 3, "x", None),
    ];
    let targets = vec![path("/p/a.rs"), path("/p/b.rs"), path("//p/a.rs")];
    let groups = group_by_file(&list, &targets);
    assert_eq!(groups.len(), 2);
    assert_eq!(groups[0].file, path("/p/a.rs"));
    assert_eq!(groups[0].suggestions, vec![list[0].clone(), list[2].clone()]);
    assert_eq!(groups[1].file, path("/p/b.rs"));
    assert_eq!(groups[1].suggestions, vec![list[1].clone()]);
}

#[test]
fn one_file_under_two_names_is_rewritten_once() {
    let fixer = FixLoop::new("/root", "test", 1, "7", "HEAD", false);
    let mut files = BTreeMap::new();
    files.insert("/root/a.rs".to_string(), b"abc".to_vec());
    let mut suggestions = vec![suggestion(0, 1, "XX", None), suggestion(2, 3, "Z", None)];
    suggestions[0].file_path = "a.rs".to_string();
    suggestions[1].file_path = "d/../a.rs".to_string();
    let applied = apply_all(&fixer, &mut files, &suggestions);
    assert_eq!(applied.len(), 1);
    assert_eq!(applied[0].applied, 2);
    assert_eq!(applied[0].file.shown, "/root/a.rs");
    assert_eq!(files["/root/a.rs"], b"XXbZ".to_vec());
}

#[test]
fn the_order_of_suggestions_changes_nothing() {
    let fixer = FixLoop::new("/root", "test", 1, "7", "HEAD", false);
    let mut list = vec![
        suggestion(0, 2, "1", Some("b")),
        suggestion(1, 3, "22", Some("a")),
        suggestion(4, 4, "333", None),
        suggestion(0, 1, "4", Some("c")),
    ];
    list[3].file_path = "other.rs".to_string();
    let mut outcomes = Vec::new();
    for turn in 0..4 {
        list.rotate_left(turn);
        let mut files = BTreeMap::new();
        files.insert("/root/test_overlap.rs".to_string(), b"abcd".to_vec());
        files.insert("/root/other.rs".to_string(), b"xy".to_vec());
        let mut applied = apply_all(&fixer, &mut files, &list);
        applied.sort_by(|a, b| a.file.shown.cmp(&b.file.shown));
        outcomes.push((files, applied));
    }
    assert_eq!(outcomes[0].0["/root/test_overlap.rs"], b"a22d333".to_vec());
    assert_eq!(outcomes[0].0["/root/other.rs"], b"4y".to_vec());
    for outcome in &outcomes {
        assert_eq!(outcome, &outcomes[0]);
    }
}

#[test]
fn files_outside_the_project_are_not_touched() {
    let list = vec![
        suggestion(0, 0, "x", None),
        suggestion(0, 0, "y", None),
        suggestion(0, 0, "z", None),
    ];
    let targets =
        vec![path("/project/../etc/a.rs"), path("/project/c.rs"), path("/project2/b.rs")];
    let groups = groups_inside(group_by_file(&list, &targets), &path("/project"));
    assert_eq!(groups.len(), 1);
    assert_eq!(groups[0].file, path("/project/c.rs"));
    assert_eq!(groups[0].suggestions, vec![list[1].clone()]);
    let fixer = FixLoop::new("/project", "test", 1, "7", "HEAD", false);
    let run = fixer.apply_suggestions(
        &vec![list[0].clone()],
        &vec![path("/project/../etc/a.rs")],
        &path("/project"),
    );
    assert_eq!(run.stage, ApplyStage::Finished);
    assert_eq!(run.fixes, Vec::new());
    assert_eq!(run.file(), None);
}

#[test]
fn files_that_cannot_be_read_or_written_are_not_reported() {
    let list = vec![suggestion(0, 0, "x", None), suggestion(0, 0, "x", None)];
    let targets = vec![path("/p/a.rs"), path("/p/b.rs")];
    let mut run = ApplyRun::new(group_by_file(&list, &targets));
    // An event that does not answer the stage changes nothing.
    run.step(ApplyEvent::WriteDone(true));
    assert_eq!(run.stage, ApplyStage::Read);
    assert_eq!(run.file(), Some(&path("/p/a.rs")));
    run.step(ApplyEvent::ReadDone(None));
    assert_eq!(run.file(), Some(&path("/p/b.rs")));
    run.step(ApplyEvent::ReadDone(Some(b"b".to_vec())));
    assert!(matches!(&run.stage, ApplyStage::Write(r) if r.content == b"xb".to_vec()));
    run.step(ApplyEvent::WriteDone(false));
    assert_eq!(run.stage, ApplyStage::Finished);
    assert_eq!(run.fixes, Vec::new());
}

#[test]
fn a_file_without_an_applicable_suggestion_is_not_written() {
    let list = vec![suggestion(5, 6, "x", None)];
    let mut run = ApplyRun::new(group_by_file(&list, &vec![path("/p/a.rs")]));
    run.step(ApplyEvent::ReadDone(Some(b"abc".to_vec())));
    assert_eq!(run.stage, ApplyStage::Finished);
    assert_eq!(run.fixes, Vec::new());
}

#[test]
fn each_modified_file_is_reported_once() {
    let list = vec![
        suggestion(0, 0, "x", Some("l")),
        suggestion(0, 0, "x", None),
        suggestion(1, 1, "x", Some("k")),
    ];
    let targets = vec![path("/p/a.rs"), path("/p/b.rs"), path("/p/a.rs")];
    let mut run = ApplyRun::new(group_by_file(&list, &targets));
    for _ in 0..2 {
        run.step(ApplyEvent::ReadDone(Some(b"ab".to_vec())));
        run.step(ApplyEvent::WriteDone(true));
    }
    assert_eq!(
        run.fixes,
        vec![
            AppliedFileFix {
                file: path("/p/a.rs"),
                applied: 2,
                lints: vec!["k".to_string(), "l".to_string()],
            },
            AppliedFileFix { file: path("/p/b.rs"), applied: 1, lints: Vec::new() },
        ]
    );
    assert_eq!(run.fixes[0].clone(), run.fixes[0]);
}

#[test]
fn paths_are_told_apart_by_their_components() {
    assert!(path("/a/b").starts_with(&path("/a")));
    assert!(path("/a").starts_with(&path("/a")));
    assert!(!path("/ab").starts_with(&path("/a")));
    assert!(!path("/a").starts_with(&path("/a/b")));
    assert!(path("/a//b").same(&path("/a/b")));
    assert!(!path("/a/b").same(&path("/a")));
    assert!(path("/a/../b").same(&path("/b")));
    assert!(!path("/a/../b").starts_with(&path("/a")));
    assert!(path("/a/../b").before(&path("/b")));
    assert!(path("/a").before(&path("/a/b")));
    assert!(path("/a/z").before(&path("/a.b")));
    assert!(!path("/b").before(&path("/a/z")));
    assert!(!path("/a").before(&path("/a")));
    let parent = FilePath {
        shown: "..".to_string(),
        parts: vec![PathPart::Parent],
        resolved: vec![PathPart::Root],
    };
    let normal = FilePath {
        shown: "a".to_string(),
        parts: vec![name("a")],
        resolved: vec![PathPart::Root, name("a")],
    };
    assert!(parent.before(&normal));
    assert!(!normal.before(&parent));
}

#[test]
fn names_that_are_no_text_are_told_apart() {
    let file = |byte: u8| FilePath {
        shown: "\u{fffd}".to_string(),
        parts: vec![PathPart::Normal(vec![byte])],
        resolved: vec![PathPart::Normal(vec![byte])],
    };
    assert!(!file(0xfe).same(&file(0xff)));
    assert!(file(0xfe).before(&file(0xff)));
    assert!(file(0xfe).same(&file(0xfe)));
}

#[test]
fn paths_are_sorted_as_std_sorts_them() {
    let names = ["/a", "/a/b", "/a/b/c", "/a.b", "/a-b/c", "/b", "/Z", "/ä/x", "/a/B", "/"];
    for left in names {
        for right in names {
            let expected = std::path::Path::new(left) < std::path::Path::new(right);
            assert_eq!(path(left).before(&path(right)), expected);
            let inside = std::path::Path::new(left).starts_with(right);
            assert_eq!(path(left).starts_with(&path(right)), inside);
        }
    }
}
