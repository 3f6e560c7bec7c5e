use std::cmp::Ordering::{Equal, Greater, Less};
use std::path::Path;

use filesystem::{DirEntry, FakeFileSystem, FileSystem};
use yeesh::cmd_input::suggester::SuggestionType::{Directory, File, PathExecutable};
use yeesh::cmd_input::suggester::{
    get_search_params, get_suggestion_from_file, get_suggestions, is_current_dir,
    rank_suggestions, suggestions_in, FileEntry, Suggestion, SuggestionType,
};

fn suggestion(replacement: &str, is_prefix: bool, s_type: SuggestionType) -> Suggestion {
    Suggestion { replacement: replacement.to_string(), is_prefix, s_type }
}

fn entry(file_name: &str, is_dir: bool) -> FileEntry {
    FileEntry { file_name: file_name.to_string(), is_dir }
}

fn create_files(fs: &FakeFileSystem, files: Vec<&'static str>) {
    for file in files {
        fs.create_file(file, vec![]).unwrap();
    }
}

fn create_directories(fs: &FakeFileSystem, directories: Vec<&'static str>) {
    for dir in directories {
        fs.create_dir_all(dir).unwrap();
    }
}

/// Lists a directory of the fake file system as the library wants it.
fn list(fs: &FakeFileSystem, path: &str) -> Option<Vec<FileEntry>> {
    let dir = if is_current_dir(path) { fs.current_dir().ok()? } else { path.into() };
    let mut entries = vec![];
    for item in fs.read_dir(dir).ok()? {
        let item = item.ok()?;
        entries.push(FileEntry {
            file_name: item.file_name().to_string_lossy().into(),
            is_dir: fs.is_dir(item.path()),
        });
    }
    Some(entries)
}

fn suggest(fs: &FakeFileSystem, prefix: &str) -> Vec<Suggestion> {
    let (path, search_str) = get_search_params(prefix);
    get_suggestions(list(fs, &path), &path, &search_str)
}

#[test]
fn test_suggestion_cmp() {
    let mut s1 = Suggestion {
        replacement: "a".to_string(),
        is_prefix: true,
        s_type: File,
    };
    let mut s2 = Suggestion {
        replacement: "b".to_string(),
        is_prefix: true,
        s_type: File,
    };

    assert_eq!(s1.cmp(&s2), Less);

    s1.is_prefix = false;
    assert_eq!(s1.cmp(&s2), Greater);

    s1.is_prefix = true;
    s2.replacement = "a".to_string();
    assert_eq!(s1.cmp(&s2), Equal);
}

#[test]
fn test_get_search_params() {
    let (mut path, mut search_str) = get_search_params("");
    assert_eq!(Path::new(&path), Path::new(""));
    assert_eq!(search_str, "");

    (path, search_str) = get_search_params("he");
    assert_eq!(Path::new(&path), Path::new(""));
    assert_eq!(search_str, "he");

    (path, search_str) = get_search_params("hello/");
    assert_eq!(Path::new(&path), Path::new("hello"));
    assert_eq!(search_str, "");
}

#[test]
fn test_exact_match() {
    let fs = FakeFileSystem::new();
    create_directories(&fs, vec!["a", "aa", "b"]);

    let mut suggestions = suggest(&fs, "b");
    assert_eq!(suggestions, vec![suggestion("b/", true, Directory)]);

    suggestions = suggest(&fs, "a");
    assert_eq!(
        suggestions,
        vec![suggestion("a/", true, Directory), suggestion("aa/", true, Directory)]
    );
}

#[test]
fn test_no_match() {
    let fs = FakeFileSystem::new();
    create_directories(&fs, vec!["ello"]);
    create_files(&fs, vec!["hello", "ello/there"]);

    let mut suggestions = suggest(&fs, "a");
    assert_eq!(suggestions, vec![]);

    suggestions = suggest(&fs, "a/");
    assert_eq!(suggestions, vec![]);
}

#[test]
fn test_current_dir() {
    let fs = FakeFileSystem::new();
    create_files(&fs, vec!["hello", "there", "world"]);
    create_directories(&fs, vec!["ello", "here", "orld"]);

    let mut suggestions = suggest(&fs, "");
    assert_eq!(
        suggestions,
        vec![
            suggestion("ello/", true, Directory),
            suggestion("hello", true, File),
            suggestion("here/", true, Directory),
            suggestion("orld/", true, Directory),
            suggestion("there", true, File),
            suggestion("world", true, File),
        ]
    );

    suggestions = suggest(&fs, "./");
    assert_eq!(
        suggestions,
        vec![
            suggestion("./ello/", true, Directory),
            suggestion("./hello", true, File),
            suggestion("./here/", true, Directory),
            suggestion("./orld/", true, Directory),
            suggestion("./there", true, File),
            suggestion("./world", true, File),
        ]
    );

    suggestions = suggest(&fs, "he");
    assert_eq!(
        suggestions,
        vec![
            suggestion("hello", true, File),
            suggestion("here/", true, Directory),
            suggestion("there", false, File),
        ]
    );

    suggestions = suggest(&fs, "./he");
    assert_eq!(
        suggestions,
        vec![
            suggestion("./hello", true, File),
            suggestion("./here/", true, Directory),
            suggestion("./there", false, File),
        ]
    );
}

#[test]
fn test_subdir() {
    let fs = FakeFileSystem::new();
    create_directories(&fs, vec!["test", "test/ello"]);
    create_files(&fs, vec!["test/hello", "test/there", "test/world"]);

    let mut suggestions = suggest(&fs, "test/");
    assert_eq!(
        suggestions,
        vec![
            suggestion("test/ello/", true, Directory),
            suggestion("test/hello", true, File),
            suggestion("test/there", true, File),
            suggestion("test/world", true, File)
        ]
    );

    suggestions = suggest(&fs, "./test/");
    assert_eq!(
        suggestions,
        vec![
            suggestion("./test/ello/", true, Directory),
            suggestion("./test/hello", true, File),
            suggestion("./test/there", true, File),
            suggestion("./test/world", true, File)
        ]
    );

    suggestions = suggest(&fs, "test/he");
    assert_eq!(
        suggestions,
        vec![suggestion("test/hello", true, File), suggestion("test/there", false, File),]
    );

    suggestions = suggest(&fs, "./test/he");
    assert_eq!(
        suggestions,
        vec![
            suggestion("./test/hello", true, File),
            suggestion("./test/there", false, File),
        ]
    );
}

#[test]
fn test_absolute_path() {
    let fs = FakeFileSystem::new();
    create_directories(&fs, vec!["ello", "here", "orld"]);
    create_files(&fs, vec!["hello", "there", "world"]);
    fs.set_current_dir(Path::new("ello")).unwrap();

    let mut suggestions = suggest(&fs, "/");
    assert_eq!(
        suggestions,
        vec![
            suggestion("/ello/", true, Directory),
            suggestion("/hello", true, File),
            suggestion("/here/", true, Directory),
            suggestion("/orld/", true, Directory),
            suggestion("/there", true, File),
            suggestion("/world", true, File),
        ]
    );

    suggestions = suggest(&fs, "/he");
    assert_eq!(
        suggestions,
        vec![
            suggestion("/hello", true, File),
            suggestion("/here/", true, Directory),
            suggestion("/there", false, File),
        ]
    );
}

#[test]
fn test_prefix_matches_sort_first() {
    let sorted = rank_suggestions(vec![
        suggestion("a", false, File),
        suggestion("b", true, File),
    ]);
    assert_eq!(sorted, vec![suggestion("b", true, File), suggestion("a", false, File)]);

    let by_wrapper = suggestions_in(&vec![entry("xb", false), entry("b", false)], "", "b");
    assert_eq!(by_wrapper, vec![suggestion("b", true, File), suggestion("xb", false, File)]);
}

#[test]
fn test_ties_break_in_dictionary_order() {
    let sorted = rank_suggestions(vec![
        suggestion("beta", true, File),
        suggestion("b", true, Directory),
        suggestion("alpha", true, File),
        suggestion("be", true, File),
        suggestion("zz", false, File),
        suggestion("az", false, File),
    ]);
    let names: Vec<&str> = sorted.iter().map(|s| s.replacement.as_str()).collect();
    assert_eq!(names, vec!["alpha", "b", "be", "beta", "az", "zz"]);
}

#[test]
fn test_equal_rank_keeps_order() {
    let items = vec![
        suggestion("same", true, File),
        suggestion("a", true, File),
        suggestion("same", true, Directory),
        suggestion("same", true, PathExecutable),
    ];
    let expected = vec![
        suggestion("a", true, File),
        suggestion("same", true, File),
        suggestion("same", true, Directory),
        suggestion("same", true, PathExecutable),
    ];
    assert_eq!(rank_suggestions(items.clone()), expected);
    assert_eq!(items[1].cmp(&items[0]), Less);
    assert_eq!(items[0].cmp(&items[2]), Equal);
}

#[test]
fn test_both_sorts_agree() {
    let entries = vec![
        entry("there", false),
        entry("here", true),
        entry("hello", false),
        entry("other", false),
        entry("he", true),
        entry("ache", false),
    ];
    let by_wrapper = suggestions_in(&entries, "d/", "he");
    let mut unsorted = vec![];
    for item in &entries {
        if let Some(found) = get_suggestion_from_file(item, "d/", "he") {
            unsorted.push(found);
        }
    }
    assert_eq!(unsorted.len(), 6);
    assert_eq!(by_wrapper, rank_suggestions(unsorted));
    let names: Vec<&str> = by_wrapper.iter().map(|s| s.replacement.as_str()).collect();
    assert_eq!(names, vec!["d/he/", "d/hello", "d/here/", "d/ache", "d/other", "d/there"]);
}

#[test]
fn test_suggestion_from_file() {
    let found = get_suggestion_from_file(&entry("telephone", true), "", "te").unwrap();
    assert_eq!(found, suggestion("telephone/", true, Directory));

    let found = get_suggestion_from_file(&entry("notes.txt", false), "docs/", "te").unwrap();
    assert_eq!(found, suggestion("docs/notes.txt", false, File));

    assert!(get_suggestion_from_file(&entry("other", false), "", "te").is_none());

    let found = get_suggestion_from_file(&entry("x", false), "p/", "").unwrap();
    assert_eq!(found, suggestion("p/x", true, File));
}

#[test]
fn test_directory_that_cannot_be_listed_has_no_suggestions() {
    assert_eq!(get_suggestions(None, "missing/", "a"), vec![]);
    let fs = FakeFileSystem::new();
    assert_eq!(suggest(&fs, "missing/a"), vec![]);
}

#[test]
fn test_search_params_split_at_last_slash() {
    assert_eq!(get_search_params("a/b/c"), ("a/b/".to_string(), "c".to_string()));
    assert_eq!(get_search_params("/x"), ("/".to_string(), "x".to_string()));
    assert_eq!(get_search_params("./x"), ("./".to_string(), "x".to_string()));
    assert_eq!(get_search_params("x"), ("".to_string(), "x".to_string()));
    assert_eq!(get_search_params("hello/"), ("hello/".to_string(), "".to_string()));
    assert_eq!(get_search_params("/"), ("/".to_string(), "".to_string()));
}

#[test]
fn test_current_dir_paths() {
    assert!(is_current_dir(""));
    assert!(is_current_dir("./"));
    assert!(!is_current_dir("."));
    assert!(!is_current_dir("/"));
    assert!(!is_current_dir("a/"));
    assert!(!is_current_dir("./a"));
}

#[test]
fn test_kind_of_entry() {
    assert_eq!(SuggestionType::from_is_dir(true), Directory);
    assert_eq!(SuggestionType::from_is_dir(false), File);
}

#[test]
fn test_filesystem_offers_telephone_before_test() {
    let fs = FakeFileSystem::new();
    create_directories(&fs, vec!["/test/dir", "/telephone"]);
    let suggestions = suggest(&fs, "te");
    assert_eq!(
        suggestions,
        vec![suggestion("telephone/", true, Directory), suggestion("test/", true, Directory)]
    );
}
