use context_kit::context::{generate_context_from_files, sort_paths, ExportOptions, FileText};
use context_kit::export::{build_and_format_tree, format_tree, perform_auto_export, CachedProjectData};
use context_kit::lines::split_lines;
use context_kit::models::{FileCache, FileMetadata, FileNode, ProjectStats};
use context_kit::render::{
    compress_content_for_tree, extension, number_lines, remove_comments_from_content,
    remove_debug_logs_from_content, splice_excluded,
};
use context_kit::sync::Group;
use context_kit::tree::{build_tree, TreeEntry};

fn strings(v: &[&str]) -> Vec<String> {
    v.iter().map(|s| s.to_string()).collect()
}

fn text(v: &[char]) -> String {
    v.iter().collect()
}

fn opts(line_numbers: bool) -> ExportOptions {
    ExportOptions {
        use_full_tree: false,
        with_line_numbers: line_numbers,
        without_comments: false,
        remove_debug_logs: false,
        super_compressed: false,
        always_apply_text: None,
        exclude_extensions: Vec::new(),
    }
}

fn file(path: &str, content: &str) -> FileText {
    FileText { path: path.to_string(), content: Some(content.to_string()) }
}

fn plain_meta() -> FileMetadata {
    FileMetadata { size: 1, mtime: 1, token_count: 1, links: Vec::new(), excluded_ranges: None }
}

const RULE: &str = "================================================\n";

#[test]
fn exclusion_splicing_removes_marked_span() {
    let r = splice_excluded("ABCDE".as_bytes(), &[(1, 3)]);
    assert_eq!(r, b"ADE".to_vec());
}

#[test]
fn exclusion_splicing_handles_several_ranges_and_out_of_bounds() {
    assert_eq!(splice_excluded(b"0123456789", &[(0, 2), (5, 7), (9, 40)]), b"23478".to_vec());
    assert_eq!(splice_excluded(b"abc", &[]), b"abc".to_vec());
}

#[test]
fn number_lines_prefixes_one_based_indices() {
    assert_eq!(text(&number_lines("a\r\nb\n\nc")), "1: a\n2: b\n3: \n4: c\n");
    assert_eq!(text(&number_lines("")), "");
}

#[test]
fn split_lines_matches_str_lines() {
    let cs: Vec<char> = "x\ny\r\n\nz\n".chars().collect();
    let got: Vec<String> = split_lines(&cs).iter().map(|l| text(l)).collect();
    let want: Vec<String> = "x\ny\r\n\nz\n".lines().map(|l| l.to_string()).collect();
    assert_eq!(got, want);
}

#[test]
fn extension_follows_last_dot_of_file_name() {
    assert_eq!(text(&extension("src/a.test.ts")), "ts");
    assert_eq!(text(&extension("dir.v2/Makefile")), "");
    assert_eq!(text(&extension(".gitignore")), "");
    assert_eq!(text(&extension("a/.env.local")), "local");
}

#[test]
fn comments_are_removed_by_extension() {
    let js = "let a = 1; // note\n/* block\ncomment */\nlet b = 2;\n";
    assert_eq!(remove_comments_from_content(js, "src/x.js"), "let a = 1; \nlet b = 2;");
    assert_eq!(remove_comments_from_content("x = 1 # c\n\n# only\ny = 2", "a.py"), "x = 1 \ny = 2");
    assert_eq!(remove_comments_from_content("<a/><!-- c -->\n", "p.html"), "<a/>");
    assert_eq!(remove_comments_from_content("keep // this\n\n", "notes.txt"), "keep // this\n\n");
}

#[test]
fn debug_logs_are_removed() {
    let src = "let a = 1;\n  console.log(a);\nlet b = 2;\nprintln!(\"{}\", b);\n";
    assert_eq!(remove_debug_logs_from_content(src), "let a = 1;\nlet b = 2;\n");
}

#[test]
fn compression_collapses_whitespace() {
    assert_eq!(compress_content_for_tree("  fn main() {\n\tprint();\r\n}  \n"), "fn main() { print(); }");
}

#[test]
fn tree_puts_directories_first_then_names() {
    let entries = vec![
        TreeEntry { path: "z.txt".to_string(), is_dir: false },
        TreeEntry { path: "b".to_string(), is_dir: true },
        TreeEntry { path: "b/y.rs".to_string(), is_dir: false },
        TreeEntry { path: "a.txt".to_string(), is_dir: false },
        TreeEntry { path: "c".to_string(), is_dir: true },
    ];
    let nodes = build_tree(&entries);
    assert_eq!(format_tree(&nodes), "├── b/\n│   └── y.rs\n├── c/\n├── a.txt\n└── z.txt\n");
}

#[test]
fn minimal_tree_of_paths() {
    let t = build_and_format_tree(&strings(&["src/main.rs", "README.md", "src/util/io.rs"]));
    assert_eq!(t, "├── src/\n│   ├── util/\n│   │   └── io.rs\n│   └── main.rs\n└── README.md\n");
}

#[test]
fn sort_paths_orders_lexicographically() {
    assert_eq!(sort_paths(&strings(&["b", "a/z", "a", "B"])), strings(&["B", "a", "a/z", "b"]));
}

#[test]
fn two_file_context_with_line_numbers() {
    let cache = FileCache::new();
    let files = vec![file("src/b.rs", "fn b() {}\nfn c() {}\n"), file("a.txt", "hello")];
    let r = generate_context_from_files(&strings(&["src/b.rs", "a.txt"]), &None, &files, &cache, &opts(true)).unwrap();
    let want = format!(
        "Directory structure:\n├── src/\n│   └── b.rs\n└── a.txt\n\n\n{RULE}FILE: a.txt\n{RULE}1: hello\n\n\n{RULE}FILE: src/b.rs\n{RULE}1: fn b() {{}}\n2: fn c() {{}}\n\n\n"
    );
    assert_eq!(r, want);
}

#[test]
fn context_without_numbers_applies_exclusions_and_suffix() {
    let mut cache = FileCache::new();
    cache.insert(
        "a.txt".to_string(),
        FileMetadata { size: 5, mtime: 1, token_count: 1, links: Vec::new(), excluded_ranges: Some(vec![(1, 3)]) },
    );
    let mut o = opts(false);
    o.always_apply_text = Some("Be brief.".to_string());
    let files = vec![file("a.txt", "ABCDE")];
    let r = generate_context_from_files(&strings(&["a.txt"]), &None, &files, &cache, &o).unwrap();
    let want = format!(
        "Directory structure:\n└── a.txt\n\n\n{RULE}FILE: a.txt\n{RULE}ADE\n\n\n{RULE}**ALWAYS APPLY**\n{RULE}Be brief.\n"
    );
    assert_eq!(r, want);
}

#[test]
fn blank_always_apply_text_adds_nothing_and_excluded_extensions_are_skipped() {
    let cache = FileCache::new();
    let mut o = opts(false);
    o.always_apply_text = Some("  \n".to_string());
    o.exclude_extensions = strings(&["png"]);
    let files = vec![file("i.png", "bin"), file("a.md", "x")];
    let r = generate_context_from_files(&strings(&["i.png", "a.md"]), &None, &files, &cache, &o).unwrap();
    let want = format!("Directory structure:\n├── a.md\n└── i.png\n\n\n{RULE}FILE: a.md\n{RULE}x\n\n");
    assert_eq!(r, want);
}

#[test]
fn full_tree_mode_needs_a_cached_tree() {
    let cache = FileCache::new();
    let mut o = opts(true);
    o.use_full_tree = true;
    assert!(generate_context_from_files(&strings(&["a"]), &None, &[], &cache, &o).is_err());
    let tree = Some(FileNode {
        name: "proj".to_string(),
        path: String::new(),
        children: Some(vec![FileNode { name: "a".to_string(), path: "a".to_string(), children: None }]),
    });
    let r = generate_context_from_files(&strings(&["a"]), &tree, &[], &cache, &o).unwrap();
    assert_eq!(r, "Directory structure:\n└── a\n\n\n");
}

#[test]
fn super_compressed_inlines_content_in_tree() {
    let cache = FileCache::new();
    let mut o = opts(false);
    o.super_compressed = true;
    o.exclude_extensions = strings(&["png"]);
    let files = vec![file("src/a.rs", "fn a() {\n    1\n}\n"), file("i.png", "x")];
    let r = generate_context_from_files(&strings(&["src/a.rs", "i.png", "gone.txt"]), &None, &files, &cache, &o).unwrap();
    assert_eq!(
        r,
        "Directory structure:\n├── src/\n│   └── a.rs [fn a() { 1 }]\n├── gone.txt [KHÔNG THỂ ĐỌC FILE]\n└── i.png [BỊ LOẠI TRỪ]\n"
    );
}

#[test]
fn auto_export_names_project_and_nonempty_groups() {
    let mut cache = FileCache::new();
    cache.insert("a.txt".to_string(), plain_meta());
    let g = |id: &str, name: &str, paths: &[&str]| Group {
        id: id.to_string(),
        name: name.to_string(),
        paths: strings(paths),
        stats: Default::default(),
        cross_sync_enabled: None,
        token_limit: None,
    };
    let data = CachedProjectData {
        stats: ProjectStats::default(),
        file_tree: None,
        groups: vec![g("1", "Core lib", &["a.txt"]), g("2", "empty", &["nothing"])],
        file_metadata_cache: cache,
        sync_enabled: Some(true),
        sync_path: Some("/tmp/out".to_string()),
        data_hash: None,
        custom_ignore_patterns: None,
        is_watching_files: None,
        export_use_full_tree: None,
        export_with_line_numbers: Some(false),
        export_without_comments: None,
        export_remove_debug_logs: None,
        export_super_compressed: None,
        always_apply_text: None,
        export_exclude_extensions: None,
        git_export_mode_is_context: None,
    };
    let out = perform_auto_export(&data, &[file("a.txt", "hi")]);
    let names: Vec<&str> = out.iter().map(|(n, _)| n.as_str()).collect();
    assert_eq!(names, vec!["_PROJECT_CONTEXT.txt", "Core_lib_context.txt"]);
    assert_eq!(out[1].1, format!("Directory structure:\n└── a.txt\n\n\n{RULE}FILE: a.txt\n{RULE}hi\n\n"));
}

#[test]
fn select_lines_takes_one_based_inclusive_ranges() {
    let text = "l1\nl2\nl3\nl4\n";
    assert_eq!(context_kit::render::select_lines(text, None, None), text);
    assert_eq!(context_kit::render::select_lines(text, Some(2), Some(3)), "l2\nl3");
    assert_eq!(context_kit::render::select_lines(text, Some(0), Some(1)), "l1");
    assert_eq!(context_kit::render::select_lines(text, Some(3), None), "l3\nl4");
    assert_eq!(context_kit::render::select_lines(text, Some(4), Some(2)), "");
    assert_eq!(context_kit::render::select_lines(text, None, Some(99)), "l1\nl2\nl3\nl4");
}

fn leaf(name: &str, path: &str) -> FileNode {
    FileNode { name: name.to_string(), path: path.to_string(), children: None }
}

#[test]
fn format_tree_puts_directories_first_whatever_the_stored_order() {
    let tree = vec![
        leaf("a.txt", "a.txt"),
        FileNode {
            name: "src".to_string(),
            path: "src".to_string(),
            children: Some(vec![leaf("c.rs", "src/c.rs"), leaf("b.rs", "src/b.rs")]),
        },
    ];
    assert_eq!(format_tree(&tree), "├── src/\n│   ├── b.rs\n│   └── c.rs\n└── a.txt\n");
}

#[test]
fn full_tree_mode_renders_in_tree_order() {
    let cache = FileCache::new();
    let mut o = opts(false);
    o.use_full_tree = true;
    let tree = Some(FileNode {
        name: "proj".to_string(),
        path: String::new(),
        children: Some(vec![
            leaf("z.md", "z.md"),
            FileNode { name: "lib".to_string(), path: "lib".to_string(), children: Some(vec![leaf("m.rs", "lib/m.rs")]) },
        ]),
    });
    let r = generate_context_from_files(&strings(&["z.md"]), &tree, &[], &cache, &o).unwrap();
    assert_eq!(r, "Directory structure:\n├── lib/\n│   └── m.rs\n└── z.md\n\n\n");
}

#[test]
fn missing_full_tree_error_message() {
    let cache = FileCache::new();
    let mut o = opts(false);
    o.use_full_tree = true;
    let e = generate_context_from_files(&strings(&["a"]), &None, &[], &cache, &o).unwrap_err();
    assert_eq!(e, "Không tìm thấy cây thư mục đầy đủ trong cache.");
}
