use context_kit::deps::{analyze_dependencies, parse_config_aliases, resolve_link, CompilerOptions, TsConfig};
use context_kit::models::{FileCache, FileMetadata, ProjectStats, ScanOptions};
use context_kit::scan::{
    analyze_file, build_cache, complete_scan, finish_file, plan_scan, project_stats, DiscoveredFile, ScanJob,
};

fn strings(v: &[&str]) -> Vec<String> {
    v.iter().map(|s| s.to_string()).collect()
}

fn found(path: &str, size: u64, mtime: u64) -> DiscoveredFile {
    DiscoveredFile { path: path.to_string(), size, mtime }
}

fn meta(size: u64, mtime: u64, tokens: usize, links: &[&str]) -> FileMetadata {
    FileMetadata { size, mtime, token_count: tokens, links: strings(links), excluded_ranges: None }
}

fn no_options() -> ScanOptions {
    ScanOptions { user_non_analyzable_extensions: None }
}

fn old_cache() -> FileCache {
    let mut c = FileCache::new();
    c.insert("src/a.ts".to_string(), meta(10, 1, 3, &["src/b.ts"]));
    c.insert("src/b.ts".to_string(), meta(20, 2, 4, &[]));
    c.insert("Cargo.lock".to_string(), meta(30, 3, 0, &[]));
    c
}

fn scan(files: &[DiscoveredFile], old: &FileCache, options: &ScanOptions) -> (Vec<String>, FileCache) {
    let jobs = plan_scan(files, old, options);
    let mut kinds = Vec::new();
    let mut results = Vec::new();
    for (f, job) in files.iter().zip(jobs) {
        let kind = match &job {
            ScanJob::Reuse(_) => "reuse",
            ScanJob::Analyze => "analyze",
            ScanJob::Record => "record",
        };
        kinds.push(kind.to_string());
        let analysis = match &job {
            ScanJob::Analyze => (99, strings(&["x"])),
            _ => (0, Vec::new()),
        };
        results.push((f.path.clone(), finish_file(f, job, analysis)));
    }
    (kinds, build_cache(results))
}

fn dump(c: &FileCache) -> Vec<(String, u64, u64, usize, Vec<String>)> {
    (0..c.len())
        .map(|i| {
            let m = c.meta_at(i);
            (c.path_at(i).clone(), m.size, m.mtime, m.token_count, m.links.clone())
        })
        .collect()
}

#[test]
fn rescan_of_unchanged_tree_reads_nothing_and_keeps_metadata() {
    let old = old_cache();
    let files = vec![found("src/b.ts", 20, 2), found("Cargo.lock", 30, 3), found("src/a.ts", 10, 1)];
    let (kinds, cache) = scan(&files, &old, &no_options());
    assert_eq!(kinds, strings(&["reuse", "reuse", "reuse"]));
    assert_eq!(dump(&cache), dump(&old));
}

#[test]
fn discovery_order_does_not_change_cache_or_stats() {
    let old = old_cache();
    let a = vec![found("src/a.ts", 10, 1), found("new.ts", 5, 9), found("src/b.ts", 20, 2)];
    let b = vec![found("src/b.ts", 20, 2), found("src/a.ts", 10, 1), found("new.ts", 5, 9)];
    let (_, ca) = scan(&a, &old, &no_options());
    let (_, cb) = scan(&b, &old, &no_options());
    assert_eq!(dump(&ca), dump(&cb));
    assert_eq!(project_stats(&ca, 1), project_stats(&cb, 1));
    assert_eq!(project_stats(&ca, 1), ProjectStats { total_files: 3, total_dirs: 1, total_size: 35, total_tokens: 106 });
}

#[test]
fn changing_one_file_invalidates_only_that_file() {
    let old = old_cache();
    let files = vec![found("src/a.ts", 10, 1), found("src/b.ts", 21, 2), found("Cargo.lock", 30, 3)];
    let (kinds, cache) = scan(&files, &old, &no_options());
    assert_eq!(kinds, strings(&["reuse", "analyze", "reuse"]));
    let b = cache.get("src/b.ts").unwrap();
    assert_eq!((b.size, b.token_count), (21, 99));
    assert_eq!(cache.get("src/a.ts").unwrap().token_count, 3);
}

#[test]
fn non_analyzable_files_are_recorded_without_analysis() {
    let old = FileCache::new();
    let options = ScanOptions { user_non_analyzable_extensions: Some(strings(&["png"])) };
    let files = vec![found("logo.png", 7, 1), found("yarn.lock", 8, 1), found("a.ts", 9, 1)];
    let (kinds, cache) = scan(&files, &old, &options);
    assert_eq!(kinds, strings(&["record", "record", "analyze"]));
    let png = cache.get("logo.png").unwrap();
    assert_eq!((png.size, png.token_count, png.links.len()), (7, 0, 0));
}

#[test]
fn reuse_keeps_exclusion_ranges_and_change_drops_them() {
    let mut old = FileCache::new();
    old.insert("a.txt".to_string(), meta(5, 1, 2, &[]));
    let updated = old.set_excluded_ranges("a.txt", vec![(0, 1)]).unwrap();
    assert_eq!(updated.excluded_ranges, Some(vec![(0, 1)]));
    assert!(old.set_excluded_ranges("missing", vec![]).is_none());
    let (_, same) = scan(&[found("a.txt", 5, 1)], &old, &no_options());
    assert_eq!(same.get("a.txt").unwrap().excluded_ranges, Some(vec![(0, 1)]));
    let (_, changed) = scan(&[found("a.txt", 6, 1)], &old, &no_options());
    assert_eq!(changed.get("a.txt").unwrap().excluded_ranges, None);
    let cleared = old.set_excluded_ranges("a.txt", vec![]).unwrap();
    assert_eq!(cleared.excluded_ranges, None);
}

#[test]
fn relative_imports_resolve_with_extension_and_index_probing() {
    let files = strings(&["src/app.ts", "src/util/index.ts", "src/lib.tsx", "styles/main.css"]);
    let aliases: Vec<(String, String)> = Vec::new();
    assert_eq!(resolve_link("src/app.ts", "./lib", &files, &aliases), Some("src/lib.tsx".to_string()));
    assert_eq!(resolve_link("src/app.ts", "./util", &files, &aliases), Some("src/util/index.ts".to_string()));
    assert_eq!(resolve_link("src/app.ts", "../styles/main.css", &files, &aliases), Some("styles/main.css".to_string()));
    assert_eq!(resolve_link("src/app.ts", "./missing", &files, &aliases), None);
    assert_eq!(resolve_link("src/app.ts", "react", &files, &aliases), None);
}

#[test]
fn longest_alias_wins() {
    let files = strings(&["src/components/Button.tsx", "lib/Button.tsx"]);
    let aliases = vec![("@".to_string(), "lib".to_string()), ("@/components".to_string(), "src/components".to_string())];
    assert_eq!(resolve_link("x.ts", "@/components/Button", &files, &aliases), Some("src/components/Button.tsx".to_string()));
    assert_eq!(resolve_link("x.ts", "@/Button", &files, &aliases), Some("lib/Button.tsx".to_string()));
}

#[test]
fn config_aliases_keep_first_replacement_and_strip_wildcards() {
    let cfg = TsConfig {
        compiler_options: Some(CompilerOptions {
            base_url: Some("./src".to_string()),
            paths: Some(vec![
                ("@/*".to_string(), strings(&["./*", "ignored/*"])),
                ("~lib".to_string(), strings(&["../lib"])),
                ("none".to_string(), Vec::new()),
            ]),
        }),
    };
    let t = parse_config_aliases(&cfg);
    assert_eq!(t, vec![("@".to_string(), "src".to_string()), ("~lib".to_string(), "lib".to_string())]);
    assert!(parse_config_aliases(&TsConfig { compiler_options: None }).is_empty());
}

#[test]
fn dependencies_are_found_once_each() {
    let files = strings(&["src/a.ts", "src/b.ts", "src/c.ts"]);
    let aliases: Vec<(String, String)> = Vec::new();
    let content = "import x from './b';\nimport y from \"./b\";\nconst z = require('./c');\nimport r from 'react';\n";
    let links = analyze_dependencies(content, "src/a.ts", &files, &aliases);
    assert_eq!(links, strings(&["src/b.ts", "src/c.ts"]));
}

#[test]
fn analysis_counts_tokens_and_links() {
    let files = strings(&["a.ts", "b.ts"]);
    let aliases: Vec<(String, String)> = Vec::new();
    let (tokens, links) = analyze_file(Some("import b from './b';"), "a.ts", &files, &aliases);
    assert!(tokens > 0);
    assert_eq!(links, strings(&["b.ts"]));
    assert_eq!(analyze_file(None, "a.ts", &files, &aliases), (0, Vec::new()));
    assert_eq!(analyze_file(Some(""), "a.ts", &files, &aliases).0, 0);
}

#[test]
fn probing_tries_all_extensions_before_index_files() {
    let files = strings(&["src/b/index.ts", "src/b.js", "src/c", "src/c.ts"]);
    let aliases: Vec<(String, String)> = Vec::new();
    assert_eq!(resolve_link("src/a.ts", "./b", &files, &aliases), Some("src/b.js".to_string()));
    assert_eq!(resolve_link("src/a.ts", "./c", &files, &aliases), Some("src/c".to_string()));
}

#[test]
fn alias_imports_are_found() {
    let files = strings(&["src/utils/x.ts", "src/a.ts"]);
    let aliases = vec![("@".to_string(), "src".to_string())];
    let content = "import { x } from '@/utils/x';\nimport React from 'react';\n";
    assert_eq!(analyze_dependencies(content, "src/a.ts", &files, &aliases), strings(&["src/utils/x.ts"]));
}

#[test]
fn complete_scan_twice_gives_the_same_cache() {
    let old = FileCache::new();
    let files = vec![found("b.ts", 2, 7), found("a.ts", 1, 7)];
    let first = complete_scan(&files, &old, &no_options(), vec![(5, strings(&["a.ts"])), (3, Vec::new())]);
    assert_eq!(first.get("b.ts").unwrap().token_count, 5);
    let jobs = plan_scan(&files, &first, &no_options());
    assert!(jobs.iter().all(|j| matches!(j, ScanJob::Reuse(_))));
    let second = complete_scan(&files, &first, &no_options(), vec![(0, Vec::new()), (0, Vec::new())]);
    assert_eq!(dump(&second), dump(&first));
}
