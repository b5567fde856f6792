use std::path::{Path, PathBuf};

use docmill::batch::{
    artifact_dir, batch_page_count, global_batch_failure, select_files, start_line, worker_count, Batch,
};
use docmill::paths;

fn glob_base(pattern: &str) -> PathBuf {
    PathBuf::from(docmill::batch::glob_base(pattern))
}

fn batch_out_path(file: &Path, base: &Path, output: &Path, to: &str) -> PathBuf {
    PathBuf::from(docmill::batch::batch_out_path(
        file.to_str().unwrap(),
        base.to_str().unwrap(),
        output.to_str().unwrap(),
        to,
    ))
}

#[test]
fn glob_base_is_the_static_prefix() {
    assert_eq!(glob_base("reports/**/*.pdf"), Path::new("reports"));
    assert_eq!(glob_base("reports/one.pdf"), Path::new("reports"));
}

#[test]
fn batch_output_extensions_match_the_target() {
    let file = Path::new("input/nested/report.pdf");
    let base = Path::new("input");
    let output = Path::new("converted");
    assert_eq!(
        batch_out_path(file, base, output, "md"),
        Path::new("converted/nested/report.md")
    );
    assert_eq!(
        batch_out_path(file, base, output, "json"),
        Path::new("converted/nested/report.json")
    );
    assert_eq!(
        batch_out_path(file, base, output, "dclx"),
        Path::new("converted/nested/report.dclx")
    );
    assert_eq!(
        batch_out_path(file, base, output, "chunks"),
        Path::new("converted/nested/report.chunks.json")
    );
}

/// What std does for a pattern's base.
fn std_base(pattern: &str) -> PathBuf {
    let mut base = PathBuf::new();
    for component in Path::new(pattern).components() {
        if component.as_os_str().to_str().unwrap().contains(['*', '?', '[']) {
            break;
        }
        base.push(component);
    }
    if base == Path::new(pattern) {
        base.pop();
    }
    base
}

const PATHS: [&str; 22] = [
    "", ".", "..", "/", "//", "a", "a/", "a/.", "./a", "/a", "a/b", "a//b", "a/./b", "a/../b.c",
    "/a/b.tar.gz", ".hidden", "a/.hidden", "x.", "a.b/c", "../x.md", "a/b.pdf/", "/.",
];

#[test]
fn bases_agree_with_std() {
    for p in PATHS {
        assert_eq!(glob_base(p).components().collect::<Vec<_>>(), std_base(p).components().collect::<Vec<_>>(), "{p:?}");
        for tail in ["*.md", "x?/y", "[ab]/c"] {
            let pattern = format!("{p}/{tail}");
            assert_eq!(glob_base(&pattern), std_base(&pattern), "{pattern:?}");
        }
    }
}

#[test]
fn names_agree_with_std() {
    for p in PATHS {
        let path = Path::new(p);
        let name = path.file_name().map(|s| s.to_str().unwrap().to_string());
        let stem = path.file_stem().map(|s| s.to_str().unwrap().to_string());
        let extension = path.extension().map(|s| s.to_str().unwrap().to_string());
        assert_eq!(paths::file_name_of(p), name, "{p:?}");
        assert_eq!(paths::stem_of(p), stem, "{p:?}");
        assert_eq!(paths::extension_of(p), extension, "{p:?}");
        for q in PATHS {
            assert_eq!(PathBuf::from(paths::join(p, q)), path.join(q), "{p:?} {q:?}");
        }
    }
}

#[test]
fn output_paths_agree_with_std() {
    for file in ["in/a.md", "in/deep/b.tar.gz", "in/.c", "other/d.md", "in", "/in/e.md"] {
        for base in ["in", "", "/in", "./in"] {
            let relative = Path::new(file)
                .strip_prefix(base)
                .map(Path::to_path_buf)
                .unwrap_or_else(|_| Path::new(Path::new(file).file_name().unwrap()).to_path_buf());
            let want = Path::new("out").join(relative).with_extension("md");
            let got = batch_out_path(Path::new(file), Path::new(base), Path::new("out"), "md");
            assert_eq!(got, want, "{file:?} {base:?}");
        }
    }
}

#[test]
fn page_windows_are_counted() {
    for total in 0usize..6 {
        assert_eq!(batch_page_count(total, None), total);
        for first in 1usize..8 {
            for last in first..8 {
                let want = (1..=total).filter(|p| (first..=last).contains(p)).count();
                assert_eq!(batch_page_count(total, Some((first, last))), want);
            }
        }
    }
    assert_eq!(batch_page_count(3, Some((1, usize::MAX))), 3);
}

#[test]
fn files_are_announced_with_their_pages() {
    assert_eq!(start_line("a.pdf", Some(1)), "start: a.pdf (1 page)");
    assert_eq!(start_line("a.pdf", Some(12)), "start: a.pdf (12 pages)");
    assert_eq!(start_line("a.md", None), "start: a.md");
    assert_eq!(artifact_dir("out/a.md"), "a_artifacts");
    assert_eq!(artifact_dir("/"), "document_artifacts");
}

#[test]
fn workers_are_at_most_the_files() {
    assert_eq!(worker_count(4, 2), 2);
    assert_eq!(worker_count(2, 4), 2);
    assert_eq!(worker_count(3, 0), 1);
}

#[test]
fn batches_count_and_go_on_after_a_failure() {
    let mut batch = Batch::new(2);
    assert_eq!(batch.take(), Some(0));
    assert!(!batch.fail("unsupported input format for \"bad.bin\""));
    assert_eq!(batch.take(), Some(1));
    batch.converted();
    assert_eq!(batch.take(), None);
    assert_eq!(batch.summary(), "batch: 1 converted, 1 failed");
    assert_eq!(batch.exit_code(), 1);
}

#[test]
fn batches_go_on_after_a_shared_failure() {
    for error in [
        "no execution provider here",
        "the pdfium library is not installed",
        "model not found at /x",
    ] {
        assert!(global_batch_failure(error));
        let mut batch = Batch::new(3);
        assert_eq!(batch.take(), Some(0));
        assert!(batch.fail(error));
        assert_eq!(batch.take(), Some(1));
        batch.converted();
        assert_eq!(batch.take(), Some(2));
        batch.converted();
        assert_eq!(batch.take(), None);
        assert_eq!(batch.summary(), "batch: 2 converted, 1 failed");
        assert_eq!(batch.exit_code(), 1);
    }
    assert!(!global_batch_failure("model missing"));
    let mut fine = Batch::new(1);
    fine.take();
    assert_eq!(fine.summary(), "batch: 0 converted, 0 failed, 1 skipped");
    fine.converted();
    assert_eq!(fine.exit_code(), 0);
}

#[test]
fn directory_batch_discovery_is_sorted_and_filters_extensions() {
    let found = ["/d/z.md", "/d/ignored.log", "/d/nested/a.md"].map(String::from).to_vec();
    let files = select_files("/d", found, true).unwrap();
    assert_eq!(files, vec!["/d/nested/a.md", "/d/z.md"]);
}

#[test]
fn files_sort_as_std_sorts_paths() {
    let mut all: Vec<String> = PATHS.map(String::from).to_vec();
    all.extend(["a-b/c", "a/c", "a b", "A/z", "a/B", "/a/b", "/B", "é/x", "z/é"].map(String::from));
    for _ in 0..3 {
        all.rotate_left(7);
        let sorted = select_files("p/*", all.clone(), false).unwrap();
        assert_eq!(sorted.len(), all.len());
        let mut want: Vec<PathBuf> = all.iter().map(PathBuf::from).collect();
        want.sort();
        assert_eq!(sorted.iter().map(PathBuf::from).collect::<Vec<_>>(), want);
    }
}

#[test]
fn directory_batches_keep_known_extensions() {
    let files = |all: &[&str]| all.iter().map(|s| s.to_string()).collect::<Vec<_>>();
    let found = files(&["d/ignored.log", "d/nested/a.md", "d/z.md", "d/plain"]);
    assert_eq!(
        select_files("d", found, true).unwrap(),
        files(&["d/nested/a.md", "d/z.md"])
    );
    assert_eq!(
        select_files("d", files(&["d/x.log"]), true).unwrap_err(),
        "--input 'd' contains no files with a convertible extension"
    );
    assert_eq!(
        select_files("d/*", files(&["d/x.log"]), false).unwrap(),
        files(&["d/x.log"])
    );
    assert_eq!(
        select_files("d/*", Vec::new(), false).unwrap_err(),
        "--input 'd/*' matches no files"
    );
}

#[test]
fn parents_agree_with_std() {
    for p in PATHS {
        let want = Path::new(p).parent().map(Path::to_path_buf);
        assert_eq!(paths::parent_of(p).map(PathBuf::from), want, "{p:?}");
    }
}
