//! The project snapshot, group operations, and the exports written on every sync.
use vstd::prelude::*;
use crate::context::{generate_context_from_files, is_context_for, ExportOptions, FileText};
use crate::groups::{expand_group_paths_to_files, expansion, recalculate_stats_for_paths, stats_of};
use crate::models::{copy_strings, holds_text, strs, FileCache, FileNode, ProjectStats};
use crate::outside::{alphanumeric, is_alphanumeric, string_from_chars};
use crate::sync::Group;
use crate::text::{chars_of, push_str, text_eq};
use crate::tree::{render_from, FileMarks};

verus! {

/// The persisted result of one scan for one (project, profile) pair.
#[derive(Debug)]
pub struct CachedProjectData {
    pub stats: ProjectStats,
    pub file_tree: Option<FileNode>,
    pub groups: Vec<Group>,
    pub file_metadata_cache: FileCache,
    pub sync_enabled: Option<bool>,
    pub sync_path: Option<String>,
    pub data_hash: Option<String>,
    pub custom_ignore_patterns: Option<Vec<String>>,
    pub is_watching_files: Option<bool>,
    pub export_use_full_tree: Option<bool>,
    pub export_with_line_numbers: Option<bool>,
    pub export_without_comments: Option<bool>,
    pub export_remove_debug_logs: Option<bool>,
    pub export_super_compressed: Option<bool>,
    pub always_apply_text: Option<String>,
    pub export_exclude_extensions: Option<Vec<String>>,
    pub git_export_mode_is_context: Option<bool>,
}

/// A group name made safe for a file name: every character that is not alphanumeric becomes `_`.
pub open spec fn sanitized(name: Seq<char>) -> Seq<char> {
    name.map_values(|c: char| if alphanumeric(c) { c } else { '_' })
}

/// Turns a group name into a safe file-name stem.
pub fn sanitize_group_name(name: &str) -> (r: String)
    ensures
        r@ == sanitized(name@),
{
    let cs = chars_of(name);
    let mut out: Vec<char> = Vec::new();
    let mut i: usize = 0;
    while i < cs.len()
        invariant
            i <= cs.len(),
            cs@ == name@,
            out@ == sanitized(cs@.take(i as int)),
        decreases cs.len() - i,
    {
        let c = cs[i];
        if is_alphanumeric(c) {
            out.push(c);
        } else {
            out.push('_');
        }
        assert(sanitized(cs@.take(i + 1)) =~= sanitized(cs@.take(i as int)).push(out@.last()));
        i = i + 1;
    }
    assert(cs@.take(i as int) =~= cs@);
    string_from_chars(&out)
}

/// The plain tree text of some nodes, in the order given.
fn render_plain(tree: &Vec<FileNode>) -> (r: String)
    ensures
        r@ == render_from(tree@, Seq::empty(), 0, (false, Seq::empty(), Seq::empty())),
{
    let marks = FileMarks { inline: false, table: Vec::new(), excluded_extensions: Vec::new() };
    assert(crate::tree::marks_view(marks) =~= (false, Seq::<(Seq<char>, Seq<char>)>::empty(), Seq::<Seq<char>>::empty()));
    let mut out: Vec<char> = Vec::new();
    let empty: Vec<char> = Vec::new();
    crate::tree::format_tree_helper(tree, &empty, &marks, &mut out);
    assert(out@ =~= render_from(tree@, Seq::empty(), 0, (false, Seq::empty(), Seq::empty())));
    string_from_chars(&out)
}

/// The plain tree text of a tree: at every level directories first, then files, each by name.
pub fn format_tree(tree: &Vec<FileNode>) -> (r: String)
    ensures
        exists|nodes: Seq<FileNode>|
            crate::tree::ordered_from(nodes, tree@) && r@ == #[trigger] render_from(
                nodes,
                Seq::empty(),
                0,
                (false, Seq::empty(), Seq::empty()),
            ),
{
    let nodes = crate::tree::order_tree(tree);
    render_plain(&nodes)
}

/// The tree text of the minimal tree of some paths.
pub fn build_and_format_tree(paths: &[String]) -> (r: String)
    ensures
        exists|nodes: Seq<FileNode>|
            crate::tree::tree_matches(
                nodes,
                crate::context::minimal_entries(strs(paths@)),
                Seq::empty(),
                crate::tree::max_path_len(crate::context::minimal_entries(strs(paths@))),
            ) && r@ == #[trigger] render_from(nodes, Seq::empty(), 0, (false, Seq::empty(), Seq::empty())),
{
    let nodes = crate::context::minimal_tree(paths);
    render_plain(&nodes)
}

/// The export settings of a snapshot, with their defaults: minimal tree, line numbers on,
/// no stripping, no compression, nothing excluded.
pub open spec fn export_options_spec(d: CachedProjectData, o: ExportOptions) -> bool {
    &&& o.use_full_tree == (d.export_use_full_tree == Some(true))
    &&& o.with_line_numbers == (d.export_with_line_numbers != Some(false))
    &&& o.without_comments == (d.export_without_comments == Some(true))
    &&& o.remove_debug_logs == (d.export_remove_debug_logs == Some(true))
    &&& o.super_compressed == (d.export_super_compressed == Some(true))
    &&& (match d.always_apply_text {
        Some(t) => o.always_apply_text matches Some(u) && u@ == t@,
        None => o.always_apply_text is None,
    })
    &&& strs(o.exclude_extensions@) == match d.export_exclude_extensions {
        Some(v) => strs(v@),
        None => Seq::empty(),
    }
}

fn flag(b: Option<bool>, default: bool) -> (r: bool)
    ensures
        r == match b {
            Some(x) => x,
            None => default,
        },
{
    match b {
        Some(x) => x,
        None => default,
    }
}

/// The export settings of a snapshot.
pub fn export_options(data: &CachedProjectData) -> (r: ExportOptions)
    ensures
        export_options_spec(*data, r),
{
    let always = match &data.always_apply_text {
        Some(t) => Some(t.clone()),
        None => None,
    };
    let exclude = match &data.export_exclude_extensions {
        Some(v) => copy_strings(v),
        None => {
            let e: Vec<String> = Vec::new();
            assert(strs(e@) =~= Seq::<Seq<char>>::empty());
            e
        },
    };
    ExportOptions {
        use_full_tree: flag(data.export_use_full_tree, false),
        with_line_numbers: flag(data.export_with_line_numbers, true),
        without_comments: flag(data.export_without_comments, false),
        remove_debug_logs: flag(data.export_remove_debug_logs, false),
        super_compressed: flag(data.export_super_compressed, false),
        always_apply_text: always,
        exclude_extensions: exclude,
    }
}

/// The file name of the whole-project export.
pub open spec fn project_export_name() -> Seq<char> {
    "_PROJECT_CONTEXT.txt"@
}

/// The file name of a group's export.
pub open spec fn group_export_name(name: Seq<char>) -> Seq<char> {
    sanitized(name) + "_context.txt"@
}

/// What a sync writes, as (file name, files exported): the whole project, then each group
/// that holds at least one file, in order.
pub open spec fn export_targets(gs: Seq<Group>, c: Seq<(Seq<char>, crate::models::MetaView)>) -> Seq<(Seq<char>, Seq<Seq<char>>)>
    decreases gs.len(),
{
    if gs.len() == 0 {
        seq![(project_export_name(), crate::models::keys_of(c))]
    } else {
        let rest = export_targets(gs.drop_last(), c);
        let files = expansion(strs(gs.last().paths@), c);
        if files.len() > 0 {
            rest.push((group_export_name(gs.last().name@), files))
        } else {
            rest
        }
    }
}

/// The exports of a sync: for the project and each non-empty group, a file name and the
/// context text. `files` holds the text read for the exported files. Nothing is produced
/// when the settings ask for the full tree and the snapshot has none.
pub fn perform_auto_export(data: &CachedProjectData, files: &[FileText]) -> (r: Vec<(String, String)>)
    ensures
        (data.export_use_full_tree == Some(true) && data.file_tree is None) ==> r@.len() == 0,
        !(data.export_use_full_tree == Some(true) && data.file_tree is None) ==> {
            let ts = export_targets(data.groups@, data.file_metadata_cache@);
            &&& r@.len() == ts.len()
            &&& forall|i: int| 0 <= i < ts.len() ==> (#[trigger] r@[i]).0@ == ts[i].0 && exists|o: ExportOptions|
                export_options_spec(*data, o) && is_context_for(
                    r@[i].1@,
                    ts[i].1,
                    data.file_tree,
                    files@,
                    data.file_metadata_cache@,
                    o,
                )
        },
{
    let opts = export_options(data);
    let cache = &data.file_metadata_cache;
    let mut out: Vec<(String, String)> = Vec::new();
    let all = cache.keys();
    match generate_context_from_files(all.as_slice(), &data.file_tree, files, cache, &opts) {
        Ok(ctx) => {
            out.push((string_from_chars(&chars_of("_PROJECT_CONTEXT.txt")), ctx));
        },
        Err(_) => {
            return out;
        },
    }
    let ghost gs = data.groups@;
    assert(export_targets(gs.take(0), cache@) =~= seq![(project_export_name(), crate::models::keys_of(cache@))]);
    let mut i: usize = 0;
    while i < data.groups.len()
        invariant
            i <= gs.len(),
            gs == data.groups@,
            !(opts.use_full_tree && data.file_tree is None),
            export_options_spec(*data, opts),
            out@.len() == export_targets(gs.take(i as int), cache@).len(),
            forall|k: int| 0 <= k < out@.len() ==> (#[trigger] out@[k]).0@ == export_targets(gs.take(i as int), cache@)[k].0
                && is_context_for(out@[k].1@, export_targets(gs.take(i as int), cache@)[k].1, data.file_tree, files@, cache@, opts),
        decreases data.groups.len() - i,
    {
        let g = &data.groups[i];
        let ghost prev = export_targets(gs.take(i as int), cache@);
        assert(gs.take(i + 1).drop_last() =~= gs.take(i as int));
        assert(gs.take(i + 1).last() == gs[i as int]);
        let expanded = expand_group_paths_to_files(g.paths.as_slice(), cache);
        if expanded.len() > 0 {
            match generate_context_from_files(expanded.as_slice(), &data.file_tree, files, cache, &opts) {
                Ok(ctx) => {
                    let stem = sanitize_group_name(g.name.as_str());
                    let mut name = chars_of(stem.as_str());
                    push_str(&mut name, "_context.txt");
                    out.push((string_from_chars(&name), ctx));
                    assert(export_targets(gs.take(i + 1), cache@) == prev.push((group_export_name(g.name@), strs(expanded@))));
                },
                Err(_) => {},
            }
        }
        i = i + 1;
    }
    assert(gs.take(i as int) =~= gs);
    proof {
        let ts = export_targets(gs, cache@);
        assert forall|k: int| 0 <= k < ts.len() implies (#[trigger] out@[k]).0@ == ts[k].0 && exists|o: ExportOptions|
            export_options_spec(*data, o) && is_context_for(out@[k].1@, ts[k].1, data.file_tree, files@, cache@, o) by {
            assert(export_options_spec(*data, opts));
        }
    }
    out
}

/// The index of the group with id `id`.
pub fn find_group(groups: &Vec<Group>, id: &str) -> (r: Option<usize>)
    ensures
        match r {
            Some(i) => i < groups@.len() && groups@[i as int].id@ == id@,
            None => forall|i: int| 0 <= i < groups@.len() ==> (#[trigger] groups@[i]).id@ != id@,
        },
{
    let mut i: usize = 0;
    while i < groups.len()
        invariant
            i <= groups@.len(),
            forall|k: int| 0 <= k < i ==> (#[trigger] groups@[k]).id@ != id@,
        decreases groups.len() - i,
    {
        if text_eq(groups[i].id.as_str(), id) {
            return Some(i);
        }
        i = i + 1;
    }
    None
}

/// The files of the group with id `id`; the lookup fails for an unknown id.
pub fn get_expanded_files_for_group(groups: &Vec<Group>, cache: &FileCache, id: &str) -> (r: Result<Vec<String>, String>)
    ensures
        r is Err <==> forall|i: int| 0 <= i < groups@.len() ==> (#[trigger] groups@[i]).id@ != id@,
        r matches Ok(v) ==> exists|i: int|
            0 <= i < groups@.len() && groups@[i].id@ == id@ && strs(v@) == expansion(strs(groups@[i].paths@), cache@),
{
    match find_group(groups, id) {
        Some(i) => Ok(expand_group_paths_to_files(groups[i].paths.as_slice(), cache)),
        None => Err(string_from_chars(&chars_of("group.not_found"))),
    }
}

/// A group's paths after an edit: its files, less those to remove, then the paths to add that
/// are not there yet; each path once.
pub open spec fn edited_paths(
    files: Seq<Seq<char>>,
    add: Seq<Seq<char>>,
    remove: Seq<Seq<char>>,
) -> Seq<Seq<char>> {
    append_new(files.filter(|f: Seq<char>| !remove.contains(f)), add)
}

/// `base` followed by each element of `add` that is not already present, in order.
pub open spec fn append_new(base: Seq<Seq<char>>, add: Seq<Seq<char>>) -> Seq<Seq<char>>
    decreases add.len(),
{
    if add.len() == 0 {
        base
    } else {
        let r = append_new(base, add.drop_last());
        if r.contains(add.last()) {
            r
        } else {
            r.push(add.last())
        }
    }
}

/// Rewrites a group's paths as an explicit file list: its current files less `paths_to_remove`,
/// plus `paths_to_add`; its statistics are recomputed.
pub fn update_group_paths(group: &mut Group, cache: &FileCache, paths_to_add: &Vec<String>, paths_to_remove: &Vec<String>)
    ensures
        strs(final(group).paths@) == edited_paths(
            expansion(strs(old(group).paths@), cache@),
            strs(paths_to_add@),
            strs(paths_to_remove@),
        ),
        final(group).stats == stats_of(strs(final(group).paths@), cache@),
        final(group).id == old(group).id,
        final(group).name == old(group).name,
        final(group).cross_sync_enabled == old(group).cross_sync_enabled,
        final(group).token_limit == old(group).token_limit,
{
    let files = expand_group_paths_to_files(group.paths.as_slice(), cache);
    let ghost fv = strs(files@);
    let ghost rm = strs(paths_to_remove@);
    let ghost pred = |f: Seq<char>| !rm.contains(f);
    let mut kept: Vec<String> = Vec::new();
    let mut i: usize = 0;
    while i < files.len()
        invariant
            i <= files@.len(),
            fv == strs(files@),
            rm == strs(paths_to_remove@),
            pred == (|f: Seq<char>| !rm.contains(f)),
            strs(kept@) == fv.take(i as int).filter(pred),
        decreases files.len() - i,
    {
        proof {
            assert(fv.take(i + 1) =~= fv.take(i as int).push(fv[i as int]));
            fv.take(i as int).lemma_filter_push(fv[i as int], pred);
        }
        if !holds_text(paths_to_remove.as_slice(), files[i].as_str()) {
            let ghost before = strs(kept@);
            kept.push(files[i].clone());
            assert(strs(kept@) =~= before.push(fv[i as int]));
        }
        i = i + 1;
    }
    assert(fv.take(i as int) =~= fv);
    let ghost base = strs(kept@);
    let ghost ad = strs(paths_to_add@);
    let mut j: usize = 0;
    while j < paths_to_add.len()
        invariant
            j <= paths_to_add@.len(),
            ad == strs(paths_to_add@),
            strs(kept@) == append_new(base, ad.take(j as int)),
        decreases paths_to_add.len() - j,
    {
        assert(ad.take(j + 1).drop_last() =~= ad.take(j as int));
        assert(ad.take(j + 1).last() == ad[j as int]);
        if !holds_text(kept.as_slice(), paths_to_add[j].as_str()) {
            let ghost before = strs(kept@);
            kept.push(paths_to_add[j].clone());
            assert(strs(kept@) =~= before.push(ad[j as int]));
        }
        j = j + 1;
    }
    assert(ad.take(j as int) =~= ad);
    let stats = recalculate_stats_for_paths(kept.as_slice(), cache);
    group.paths = kept;
    group.stats = stats;
}

/// The ids of some groups, in order.
pub open spec fn ids_of(gs: Seq<Group>) -> Seq<Seq<char>> {
    gs.map_values(|g: Group| g.id@)
}

/// The exports of the old groups whose id no longer appears, in order.
pub open spec fn deleted_exports(old: Seq<Group>, new: Seq<Group>) -> Seq<Seq<char>>
    decreases old.len(),
{
    if old.len() == 0 {
        Seq::empty()
    } else {
        let rest = deleted_exports(old.drop_last(), new);
        if ids_of(new).contains(old.last().id@) {
            rest
        } else {
            rest.push(group_export_name(old.last().name@))
        }
    }
}

/// The name of the first group with id `id`.
pub open spec fn name_for_id(gs: Seq<Group>, id: Seq<char>) -> Option<Seq<char>>
    decreases gs.len(),
{
    if gs.len() == 0 {
        None
    } else if gs[0].id@ == id {
        Some(gs[0].name@)
    } else {
        name_for_id(gs.drop_first(), id)
    }
}

/// For each new group, in order, whose id had another name before: its export's old and new name.
pub open spec fn renamed_exports(old: Seq<Group>, new: Seq<Group>) -> Seq<(Seq<char>, Seq<char>)>
    decreases new.len(),
{
    if new.len() == 0 {
        Seq::empty()
    } else {
        let rest = renamed_exports(old, new.drop_last());
        match name_for_id(old, new.last().id@) {
            Some(n) => if n != new.last().name@ {
                rest.push((group_export_name(n), group_export_name(new.last().name@)))
            } else {
                rest
            },
            None => rest,
        }
    }
}

fn id_listed(gs: &Vec<Group>, id: &str) -> (r: bool)
    ensures
        r == ids_of(gs@).contains(id@),
{
    match find_group(gs, id) {
        Some(i) => {
            assert(ids_of(gs@)[i as int] == id@);
            true
        },
        None => {
            assert forall|k: int| 0 <= k < gs@.len() implies ids_of(gs@)[k] != id@ by {
                assert(gs@[k].id@ != id@);
            }
            false
        },
    }
}

fn name_for_id_exec<'a>(gs: &'a Vec<Group>, id: &str) -> (r: Option<&'a String>)
    ensures
        match name_for_id(gs@, id@) {
            Some(n) => r is Some && r->0@ == n,
            None => r is None,
        },
{
    let ghost g = gs@;
    let mut i: usize = 0;
    assert(g.skip(0) =~= g);
    while i < gs.len()
        invariant
            i <= g.len(),
            g == gs@,
            name_for_id(g, id@) == name_for_id(g.skip(i as int), id@),
        decreases g.len() - i,
    {
        assert(g.skip(i as int)[0] == g[i as int]);
        assert(g.skip(i as int).drop_first() =~= g.skip(i + 1));
        if text_eq(gs[i].id.as_str(), id) {
            return Some(&gs[i].name);
        }
        i = i + 1;
    }
    None
}

fn export_name(name: &str) -> (r: String)
    ensures
        r@ == group_export_name(name@),
{
    let stem = sanitize_group_name(name);
    let mut cs = chars_of(stem.as_str());
    push_str(&mut cs, "_context.txt");
    string_from_chars(&cs)
}

/// The export files that replacing the group list makes stale: those of removed groups, to
/// delete, and those of renamed groups, to move to the new name.
pub fn update_groups_in_project_data(old_groups: &Vec<Group>, new_groups: &Vec<Group>) -> (r: (
    Vec<String>,
    Vec<(String, String)>,
))
    ensures
        strs(r.0@) == deleted_exports(old_groups@, new_groups@),
        r.1@.map_values(|e: (String, String)| (e.0@, e.1@)) == renamed_exports(old_groups@, new_groups@),
{
    let mut deletes: Vec<String> = Vec::new();
    let mut i: usize = 0;
    while i < old_groups.len()
        invariant
            i <= old_groups@.len(),
            strs(deletes@) == deleted_exports(old_groups@.take(i as int), new_groups@),
        decreases old_groups.len() - i,
    {
        let g = &old_groups[i];
        assert(old_groups@.take(i + 1).drop_last() =~= old_groups@.take(i as int));
        assert(old_groups@.take(i + 1).last() == old_groups@[i as int]);
        if !id_listed(new_groups, g.id.as_str()) {
            let ghost before = strs(deletes@);
            let n = export_name(g.name.as_str());
            deletes.push(n);
            assert(strs(deletes@) =~= before.push(group_export_name(g.name@)));
        }
        i = i + 1;
    }
    assert(old_groups@.take(i as int) =~= old_groups@);
    let mut renames: Vec<(String, String)> = Vec::new();
    let mut j: usize = 0;
    while j < new_groups.len()
        invariant
            j <= new_groups@.len(),
            renames@.map_values(|e: (String, String)| (e.0@, e.1@)) == renamed_exports(old_groups@, new_groups@.take(j as int)),
        decreases new_groups.len() - j,
    {
        let g = &new_groups[j];
        assert(new_groups@.take(j + 1).drop_last() =~= new_groups@.take(j as int));
        assert(new_groups@.take(j + 1).last() == new_groups@[j as int]);
        match name_for_id_exec(old_groups, g.id.as_str()) {
            Some(old_name) => {
                if !text_eq(old_name.as_str(), g.name.as_str()) {
                    let ghost before = renames@.map_values(|e: (String, String)| (e.0@, e.1@));
                    let from = export_name(old_name.as_str());
                    let to = export_name(g.name.as_str());
                    renames.push((from, to));
                    assert(renames@.map_values(|e: (String, String)| (e.0@, e.1@)) =~= before.push(
                        (group_export_name(old_name@), group_export_name(g.name@)),
                    ));
                }
            },
            None => {},
        }
        j = j + 1;
    }
    assert(new_groups@.take(j as int) =~= new_groups@);
    (deletes, renames)
}

} // verus!
