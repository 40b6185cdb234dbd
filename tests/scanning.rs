use vfx_launcher::patterns::{compile_patterns, glob_to_regex};
use vfx_launcher::record::ProjectFile;
use vfx_launcher::scan::{scan_project, scan_snapshot, ScanError};
use vfx_launcher::shot::extract_shot_name;
use vfx_launcher::targets::find_targets;
use vfx_launcher::tree::DirTree;
use vfx_launcher::version::{parse_version, split_file_name};

fn strings(v: &[&str]) -> Vec<String> {
    v.iter().map(|s| s.to_string()).collect()
}

fn names(files: &[ProjectFile]) -> Vec<String> {
    let mut v: Vec<String> = files.iter().map(|f| f.relative_path.clone()).collect();
    v.sort();
    v
}

/// The tree of the end-to-end scenario: two compositing scripts and a render
/// folder of fifty frames under `shots/BALA_0010/comp`.
fn bala_tree() -> DirTree {
    let mut t = DirTree::new("proj");
    let shots = t.add_dir(0, "shots").unwrap();
    let shot = t.add_dir(shots, "BALA_0010").unwrap();
    let comp = t.add_dir(shot, "comp").unwrap();
    assert!(t.add_file(comp, "lighting_v001.nk", 1_700_000_000));
    assert!(t.add_file(comp, "lighting_v002.nk", 1_700_000_100));
    let render = t.add_dir(comp, "render").unwrap();
    for i in 0..50 {
        assert!(t.add_file(render, &format!("lighting.{:04}.exr", i), 1_700_000_000));
    }
    t
}

#[test]
fn version_extraction() {
    let (name, version) = parse_version("shotA_comp_v007");
    assert_eq!(name, "shotA_comp");
    assert_eq!(version, "007");
    let (name, version) = parse_version("shotA_comp");
    assert_eq!(name, "shotA_comp");
    assert_eq!(version, "1");
}

#[test]
fn version_edge_cases() {
    assert_eq!(parse_version("comp_v12"), ("comp".to_string(), "12".to_string()));
    assert_eq!(parse_version("v3"), ("".to_string(), "3".to_string()));
    assert_eq!(parse_version("comp_v"), ("comp_v".to_string(), "1".to_string()));
    assert_eq!(parse_version("comp__v2"), ("comp_".to_string(), "2".to_string()));
    assert_eq!(parse_version("comp_v2a"), ("comp_v2a".to_string(), "1".to_string()));
    assert_eq!(parse_version("comp_"), ("comp".to_string(), "1".to_string()));
}

#[test]
fn file_name_split() {
    assert_eq!(split_file_name("a_v001.nk"), ("a_v001".to_string(), Some("nk".to_string())));
    assert_eq!(split_file_name("archive.tar.gz"), ("archive.tar".to_string(), Some("gz".to_string())));
    assert_eq!(split_file_name(".hidden"), (".hidden".to_string(), None));
    assert_eq!(split_file_name("README"), ("README".to_string(), None));
    assert_eq!(split_file_name(".."), ("..".to_string(), None));
    assert_eq!(split_file_name("a."), ("a".to_string(), Some("".to_string())));
}

#[test]
fn shot_inference() {
    assert_eq!(extract_shot_name("shots/BALA_0010/comp"), Some("BALA_0010".to_string()));
    assert_eq!(extract_shot_name("comp"), None);
}

#[test]
fn shot_inference_strategies() {
    assert_eq!(extract_shot_name("SHOT/sh010/comp"), Some("sh010".to_string()));
    assert_eq!(extract_shot_name("seq\\Shots\\x_1"), Some("x_1".to_string()));
    assert_eq!(extract_shot_name("seq/AB_123/comp"), Some("AB_123".to_string()));
    assert_eq!(extract_shot_name("work/XYZ9_00123"), Some("XYZ9_0012".to_string()));
    assert_eq!(extract_shot_name("work/A_0010"), None);
    assert_eq!(extract_shot_name("work/AB_12"), None);
    assert_eq!(extract_shot_name("shots"), None);
    assert_eq!(extract_shot_name(""), None);
}

#[test]
fn glob_to_anchored_regex() {
    assert_eq!(glob_to_regex("*.nk"), "(?s)^.*\\.nk$");
    assert_eq!(glob_to_regex("a+b*"), "(?s)^a\\+b.*$");
    assert_eq!(glob_to_regex(""), "(?s)^$");
}

#[test]
fn pattern_fallback_defaults() {
    let p = compile_patterns(&Vec::new());
    assert_eq!(p.len(), 2);
    assert_eq!(p.source(0), "(?s)^.*\\.nk$");
    assert!(p.matches("shot_v001.nk"));
    assert!(p.matches("title_v3.aep"));
    assert!(!p.matches("notes.txt"));
    assert!(!p.matches("shot.nk.bak"));
}

#[test]
fn user_pattern_keeps_other_default() {
    let p = compile_patterns(&strings(&["*.txt", "", "comp_*.nk"]));
    // the user globs, then only the default for the extension they do not name
    assert_eq!(p.len(), 3);
    assert_eq!(p.source(2), "(?s)^.*\\.aep$");
    assert!(p.matches("notes.txt"));
    assert!(p.matches("comp_a.nk"));
    assert!(!p.matches("paint_a.nk"));
    assert!(p.matches("title.aep"));
}

#[test]
fn end_to_end_scenario() {
    let t = bala_tree();
    let files = scan_snapshot(1, "/proj", &t, &Vec::new(), &strings(&["comp"]), "now");
    assert_eq!(files.len(), 2);
    let mut versions: Vec<String> = files.iter().map(|f| f.version.clone()).collect();
    versions.sort();
    assert_eq!(versions, vec!["001".to_string(), "002".to_string()]);
    for f in &files {
        assert_eq!(f.filename, "lighting");
        assert_eq!(f.shot_name, Some("BALA_0010".to_string()));
        assert_eq!(f.parent_folder, "shots/BALA_0010/comp");
        assert_eq!(f.file_type, "nk");
        assert_eq!(f.project_id, 1);
        assert_eq!(f.created_at, "now");
        assert!(!f.relative_path.contains("render"));
    }
    assert_eq!(
        names(&files),
        vec![
            "shots/BALA_0010/comp/lighting_v001.nk".to_string(),
            "shots/BALA_0010/comp/lighting_v002.nk".to_string()
        ]
    );
    let first = files.iter().find(|f| f.version == "001").unwrap();
    assert_eq!(first.path, "/proj/shots/BALA_0010/comp/lighting_v001.nk");
}

#[test]
fn render_output_folder_skipped() {
    let mut t = DirTree::new("proj");
    let comp = t.add_dir(0, "comp").unwrap();
    let plates = t.add_dir(comp, "plates").unwrap();
    assert!(t.add_file(plates, "a.exr", 0));
    assert!(t.add_file(plates, "b.EXR", 0));
    assert!(t.add_file(plates, "keep_v001.nk", 0));
    let deeper = t.add_dir(plates, "scripts").unwrap();
    assert!(t.add_file(deeper, "deep_v001.nk", 0));
    let single = t.add_dir(comp, "single").unwrap();
    assert!(t.add_file(single, "one.exr", 0));
    assert!(t.add_file(single, "ok_v002.nk", 0));
    let files = scan_snapshot(3, "/p", &t, &Vec::new(), &strings(&["comp"]), "t");
    assert_eq!(names(&files), vec!["comp/single/ok_v002.nk".to_string()]);
}

#[test]
fn render_named_folder_skipped_in_any_case() {
    let mut t = DirTree::new("proj");
    let comp = t.add_dir(0, "comp").unwrap();
    let r = t.add_dir(comp, "Renders").unwrap();
    assert!(t.add_file(r, "hidden.nk", 0));
    assert!(t.add_file(comp, "main.nk", 0));
    let files = scan_snapshot(3, "/p", &t, &Vec::new(), &strings(&["comp"]), "t");
    assert_eq!(names(&files), vec!["comp/main.nk".to_string()]);
}

#[test]
fn root_fallback() {
    let mut t = DirTree::new("proj");
    let misc = t.add_dir(0, "misc").unwrap();
    assert!(t.add_file(misc, "a_v001.nk", 0));
    assert!(t.add_file(0, "top.aep", 0));
    let files = scan_snapshot(5, "/p", &t, &Vec::new(), &strings(&["does_not_exist"]), "t");
    assert_eq!(names(&files), vec!["misc/a_v001.nk".to_string(), "top.aep".to_string()]);
}

#[test]
fn targets_limit_the_walk() {
    let mut t = DirTree::new("proj");
    let comp = t.add_dir(0, "COMP").unwrap();
    assert!(t.add_file(comp, "in.nk", 0));
    let other = t.add_dir(0, "other").unwrap();
    assert!(t.add_file(other, "out.nk", 0));
    let shot = t.add_dir(0, "SH_010").unwrap();
    let anim = t.add_dir(shot, "anim").unwrap();
    assert!(t.add_file(anim, "walk_v003.aep", 0));
    let project = t.add_dir(shot, "project").unwrap();
    assert!(t.add_file(project, "p.nk", 0));
    let found = find_targets(&t, &strings(&["comp", "anim"]));
    assert_eq!(found.len(), 3);
    let files = scan_snapshot(5, "/p", &t, &Vec::new(), &strings(&["comp", "anim"]), "t");
    assert_eq!(
        names(&files),
        vec!["COMP/in.nk".to_string(), "SH_010/anim/walk_v003.aep".to_string(), "SH_010/project/p.nk".to_string()]
    );
    let aep = files.iter().find(|f| f.file_type == "aep").unwrap();
    assert_eq!(aep.version, "003");
    assert_eq!(aep.filename, "walk");
}

#[test]
fn empty_target_names_use_studio_defaults() {
    let mut t = DirTree::new("proj");
    let a = t.add_dir(0, "05_comp").unwrap();
    assert!(t.add_file(a, "x.nk", 0));
    let b = t.add_dir(0, "misc").unwrap();
    assert!(t.add_file(b, "y.nk", 0));
    let files = scan_snapshot(5, "/p", &t, &Vec::new(), &Vec::new(), "t");
    assert_eq!(names(&files), vec!["05_comp/x.nk".to_string()]);
}

#[test]
fn pattern_fallback_scan() {
    let mut t = DirTree::new("proj");
    let comp = t.add_dir(0, "comp").unwrap();
    assert!(t.add_file(comp, "a.nk", 0));
    assert!(t.add_file(comp, "b.aep", 0));
    assert!(t.add_file(comp, "c.txt", 0));
    let files = scan_snapshot(5, "/p", &t, &Vec::new(), &strings(&["comp"]), "t");
    assert_eq!(names(&files), vec!["comp/a.nk".to_string(), "comp/b.aep".to_string()]);
}

#[test]
fn modification_time_text() {
    let mut t = DirTree::new("proj");
    let comp = t.add_dir(0, "comp").unwrap();
    assert!(t.add_file(comp, "a.nk", 1431648000));
    assert!(t.add_file(comp, "b.nk", i64::MAX));
    let files = scan_snapshot(5, "/p", &t, &Vec::new(), &strings(&["comp"]), "t");
    let a = files.iter().find(|f| f.relative_path == "comp/a.nk").unwrap();
    assert_eq!(a.last_modified, "2015-05-15 00:00:00");
    let b = files.iter().find(|f| f.relative_path == "comp/b.nk").unwrap();
    assert_eq!(b.last_modified, "1970-01-01 00:00:00");
}

#[test]
fn file_type_is_lowered() {
    let mut t = DirTree::new("proj");
    let comp = t.add_dir(0, "comp").unwrap();
    assert!(t.add_file(comp, "Shot_v010.NK", 0));
    assert!(t.add_file(comp, "noext", 0));
    let files = scan_snapshot(5, "/p/", &t, &strings(&["*.NK", "noext"]), &strings(&["comp"]), "t");
    let a = files.iter().find(|f| f.relative_path == "comp/Shot_v010.NK").unwrap();
    assert_eq!(a.file_type, "nk");
    assert_eq!(a.version, "010");
    assert_eq!(a.path, "/p/comp/Shot_v010.NK");
    let b = files.iter().find(|f| f.relative_path == "comp/noext").unwrap();
    assert_eq!(b.file_type, "unknown");
}

#[test]
fn invalid_root_is_an_error() {
    let r = scan_project(1, "/missing", None, &Vec::new(), &Vec::new(), "t");
    assert_eq!(r.err(), Some(ScanError::InvalidRoot));
    let t = bala_tree();
    let r = scan_project(1, "/proj", Some(&t), &Vec::new(), &strings(&["comp"]), "t9").unwrap();
    assert_eq!(r.len(), 2);
    assert_eq!(r[0].created_at, "t9");
}

#[test]
fn rescanning_unchanged_tree_gives_same_records() {
    let t = bala_tree();
    let a = scan_snapshot(1, "/proj", &t, &Vec::new(), &strings(&["comp"]), "t0");
    let b = scan_snapshot(1, "/proj", &t, &Vec::new(), &strings(&["comp"]), "t0");
    assert_eq!(names(&a), names(&b));
    let va: Vec<(String, String)> = a.iter().map(|f| (f.filename.clone(), f.version.clone())).collect();
    let vb: Vec<(String, String)> = b.iter().map(|f| (f.filename.clone(), f.version.clone())).collect();
    assert_eq!(va, vb);
}

#[test]
fn tree_builders() {
    let mut t = DirTree::new("r");
    assert_eq!(t.add_dir(7, "x"), None);
    assert!(!t.add_file(3, "f", 0));
    let d = t.add_dir(0, "x").unwrap();
    assert_eq!(d, 1);
    assert_eq!(t.num_dirs(), 2);
    assert_eq!(t.dir(0).children, vec![1]);
    // names that are not proper path components, or already taken
    assert_eq!(t.add_dir(0, ".."), None);
    assert_eq!(t.add_dir(0, "."), None);
    assert_eq!(t.add_dir(0, ""), None);
    assert_eq!(t.add_dir(0, "a/b"), None);
    assert_eq!(t.add_dir(0, "a\\b"), None);
    assert_eq!(t.add_dir(0, "x"), None);
    assert!(t.add_file(0, "f.nk", 0));
    assert!(!t.add_file(0, "f.nk", 1));
    assert!(!t.add_file(0, "x", 1));
    assert_eq!(t.add_dir(0, "f.nk"), None);
    assert!(!t.add_file(1, "..", 0));
    assert_eq!(t.num_dirs(), 2);
}

#[test]
fn shot_folder_that_is_a_target_keeps_its_subtargets() {
    let mut t = DirTree::new("proj");
    let outer = t.add_dir(0, "05_comp").unwrap();
    let inner = t.add_dir(outer, "comp").unwrap();
    assert!(t.add_file(inner, "a_v001.nk", 0));
    assert!(t.add_file(outer, "b_v001.nk", 0));
    let dirs = strings(&["05_comp", "comp"]);
    let found = find_targets(&t, &dirs);
    let rels: Vec<String> = found.iter().map(|d| d.rel.iter().collect()).collect();
    assert_eq!(rels, strings(&["05_comp", "05_comp/comp"]));
    // the inner target lies inside the outer one: each file is listed once
    let files = scan_snapshot(5, "/p", &t, &Vec::new(), &dirs, "t");
    assert_eq!(names(&files), strings(&["05_comp/b_v001.nk", "05_comp/comp/a_v001.nk"]));
}
