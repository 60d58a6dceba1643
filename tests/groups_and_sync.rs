use context_kit::export::{
    find_group, get_expanded_files_for_group, sanitize_group_name, update_group_paths, update_groups_in_project_data,
};
use context_kit::groups::{expand_group_paths_to_files, recalculate_stats_for_paths};
use context_kit::models::{FileCache, FileMetadata, GroupStats};
use context_kit::sync::{cross_sync_closure, cross_sync_paths, prune_paths, update_groups_after_scan, Group};

fn meta(size: u64, tokens: usize, links: &[&str]) -> FileMetadata {
    FileMetadata {
        size,
        mtime: 100,
        token_count: tokens,
        links: links.iter().map(|s| s.to_string()).collect(),
        excluded_ranges: None,
    }
}

fn cache_of(entries: &[(&str, u64, usize, &[&str])]) -> FileCache {
    let mut c = FileCache::new();
    for (p, size, tokens, links) in entries {
        c.insert(p.to_string(), meta(*size, *tokens, links));
    }
    c
}

fn strings(v: &[&str]) -> Vec<String> {
    v.iter().map(|s| s.to_string()).collect()
}

fn group(id: &str, name: &str, paths: &[&str], sync: Option<bool>) -> Group {
    Group {
        id: id.to_string(),
        name: name.to_string(),
        paths: strings(paths),
        stats: GroupStats::default(),
        cross_sync_enabled: sync,
        token_limit: None,
    }
}

#[test]
fn expand_directory_prefix_selects_only_that_directory() {
    let c = cache_of(&[("src/a.ts", 1, 1, &[]), ("src/b.ts", 1, 1, &[]), ("lib/c.ts", 1, 1, &[])]);
    let r = expand_group_paths_to_files(&strings(&["src"]), &c);
    assert_eq!(r, strings(&["src/a.ts", "src/b.ts"]));
}

#[test]
fn expand_empty_path_selects_whole_project() {
    let c = cache_of(&[("src/a.ts", 1, 1, &[]), ("src/b.ts", 1, 1, &[]), ("lib/c.ts", 1, 1, &[])]);
    let r = expand_group_paths_to_files(&strings(&[""]), &c);
    assert_eq!(r, strings(&["lib/c.ts", "src/a.ts", "src/b.ts"]));
}

#[test]
fn expand_file_and_prefix_rules_are_additive_without_repeats() {
    let c = cache_of(&[("src", 1, 1, &[]), ("src/x.ts", 1, 1, &[]), ("srcx/y.ts", 1, 1, &[])]);
    let r = expand_group_paths_to_files(&strings(&["src", "src/x.ts"]), &c);
    assert_eq!(r, strings(&["src", "src/x.ts"]));
}

#[test]
fn stats_count_files_dirs_sizes_and_tokens() {
    let c = cache_of(&[
        ("src/a.ts", 10, 3, &[]),
        ("src/ui/b.ts", 20, 4, &[]),
        ("lib/c.ts", 40, 5, &[]),
    ]);
    let s = recalculate_stats_for_paths(&strings(&["src", "src/a.ts"]), &c);
    assert_eq!(s, GroupStats { total_files: 2, total_dirs: 2, total_size: 30, token_count: 7 });
}

#[test]
fn stats_saturate_instead_of_overflowing() {
    let c = cache_of(&[("a", u64::MAX, usize::MAX, &[]), ("b", 5, 5, &[])]);
    let s = recalculate_stats_for_paths(&strings(&[""]), &c);
    assert_eq!(s.total_size, u64::MAX);
    assert_eq!(s.token_count, usize::MAX);
    assert_eq!(s.total_files, 2);
    assert_eq!(s.total_dirs, 0);
}

#[test]
fn cross_sync_closure_terminates_on_cycle() {
    let c = cache_of(&[("a", 1, 1, &["b"]), ("b", 1, 1, &["c"]), ("c", 1, 1, &["a"]), ("d", 1, 1, &["a"])]);
    let mut r = cross_sync_closure(&strings(&["a"]), &c);
    r.sort();
    assert_eq!(r, strings(&["a", "b", "c"]));
}

#[test]
fn cross_sync_closure_visits_breadth_first() {
    let c = cache_of(&[("a", 1, 1, &["b", "c"]), ("b", 1, 1, &["d"]), ("c", 1, 1, &[]), ("d", 1, 1, &[])]);
    let r = cross_sync_closure(&strings(&["a", "a"]), &c);
    assert_eq!(r, strings(&["a", "b", "c", "d"]));
}

#[test]
fn cross_sync_paths_adds_only_uncovered_files() {
    let c = cache_of(&[("src/a.ts", 1, 1, &["lib/b.ts", "src/c.ts"]), ("src/c.ts", 1, 1, &[]), ("lib/b.ts", 1, 1, &[])]);
    let r = cross_sync_paths(&strings(&["src"]), &c);
    assert_eq!(r, strings(&["src", "lib/b.ts"]));
}

#[test]
fn prune_keeps_cached_files_and_scanned_dirs() {
    let c = cache_of(&[("src/a.ts", 1, 1, &[])]);
    let r = prune_paths(&strings(&["src/a.ts", "gone.ts", "src", "", "old"]), &c, &strings(&["", "src"]));
    assert_eq!(r, strings(&["src/a.ts", "src", ""]));
}

#[test]
fn update_after_scan_prunes_syncs_and_recomputes() {
    let c = cache_of(&[("src/a.ts", 10, 2, &["lib/b.ts"]), ("lib/b.ts", 5, 1, &[])]);
    let mut groups = vec![
        group("1", "plain", &["src", "missing.ts"], None),
        group("2", "synced", &["src"], Some(true)),
    ];
    update_groups_after_scan(&mut groups, &c, &strings(&["", "src", "lib"]));
    assert_eq!(groups[0].paths, strings(&["src"]));
    assert_eq!(groups[0].stats, GroupStats { total_files: 1, total_dirs: 1, total_size: 10, token_count: 2 });
    assert_eq!(groups[1].paths, strings(&["src", "lib/b.ts"]));
    assert_eq!(groups[1].stats, GroupStats { total_files: 2, total_dirs: 2, total_size: 15, token_count: 3 });
    assert_eq!(groups[1].id, "2");
}

#[test]
fn sanitize_replaces_non_alphanumerics() {
    assert_eq!(sanitize_group_name("My Group/v2.0"), "My_Group_v2_0");
    assert_eq!(sanitize_group_name("Nhóm 1"), "Nhóm_1");
}

#[test]
fn unknown_group_is_a_lookup_failure() {
    let c = cache_of(&[("a.ts", 1, 1, &[])]);
    let groups = vec![group("g1", "one", &["a.ts"], None)];
    assert_eq!(find_group(&groups, "g1"), Some(0));
    assert_eq!(find_group(&groups, "nope"), None);
    assert!(get_expanded_files_for_group(&groups, &c, "nope").is_err());
    assert_eq!(get_expanded_files_for_group(&groups, &c, "g1").unwrap(), strings(&["a.ts"]));
}

#[test]
fn group_path_edit_removes_then_adds() {
    let c = cache_of(&[("src/a.ts", 1, 1, &[]), ("src/b.ts", 2, 1, &[]), ("lib/c.ts", 4, 1, &[])]);
    let mut g = group("1", "g", &["src"], None);
    update_group_paths(&mut g, &c, &strings(&["lib/c.ts", "src/a.ts"]), &strings(&["src/b.ts"]));
    assert_eq!(g.paths, strings(&["src/a.ts", "lib/c.ts"]));
    assert_eq!(g.stats.total_size, 5);
    assert_eq!(g.stats.total_files, 2);
}

#[test]
fn group_list_change_plans_deletes_and_renames() {
    let old = vec![group("1", "Alpha", &[], None), group("2", "Beta", &[], None), group("3", "Gamma", &[], None)];
    let new = vec![group("3", "Gamma v2", &[], None), group("1", "Alpha", &[], None)];
    let (deletes, renames) = update_groups_in_project_data(&old, &new);
    assert_eq!(deletes, strings(&["Beta_context.txt"]));
    assert_eq!(renames, vec![("Gamma_context.txt".to_string(), "Gamma_v2_context.txt".to_string())]);
}

#[test]
fn cross_sync_paths_skips_link_targets_outside_the_cache() {
    let c = cache_of(&[("src/a.ts", 1, 1, &["lib", "lib/b.ts"]), ("lib/b.ts", 1, 1, &[]), ("lib/other.ts", 1, 1, &[])]);
    let r = cross_sync_paths(&strings(&["src/a.ts"]), &c);
    assert_eq!(r, strings(&["src/a.ts", "lib/b.ts"]));
}
