use linepatch::manifest::{
    CopyPatch, CopyPosition, InsertPosition, Manifest, ModulePatch, Patch, PatchManifest,
    PatternPatch, RegexPatch,
};
use linepatch::router::{apply_copy_patches, merge_payloads, PatchRouter};

fn bundle(priority: usize, patches: Vec<Patch>) -> PatchManifest {
    PatchManifest {
        manifest: Manifest {
            version: "1".to_string(),
            dump_lua: false,
            priority,
        },
        patches,
        vars: Vec::new(),
        args: Vec::new(),
    }
}

fn pattern_patch(target: &str, pattern: &str, payload: &str) -> Patch {
    Patch::Pattern(PatternPatch {
        pattern: pattern.to_string(),
        position: InsertPosition::At,
        target: target.to_string(),
        payload: payload.to_string(),
        match_indent: false,
        times: None,
        overwrite: false,
    })
}

fn copy_patch(target: &str, position: CopyPosition, sources: Vec<&str>) -> Patch {
    Patch::Copy(CopyPatch {
        position,
        target: target.to_string(),
        sources: sources.into_iter().map(|s| s.to_string()).collect(),
    })
}

#[test]
fn merge_payloads_joins_contents_with_newlines() {
    let sources = vec!["A".to_string(), "B".to_string()];
    assert_eq!(merge_payloads(&sources), "A\nB");
    let one = vec!["solo".to_string()];
    assert_eq!(merge_payloads(&one), "solo");
    let none: Vec<String> = Vec::new();
    assert_eq!(merge_payloads(&none), "");
}

#[test]
fn copy_append_sources_a_then_b() {
    let patches = vec![CopyPatch {
        position: CopyPosition::Append,
        target: "t".to_string(),
        sources: vec!["a.lua".to_string(), "b.lua".to_string()],
    }];
    let contents = vec![vec!["A".to_string(), "B".to_string()]];
    let out = apply_copy_patches("orig", &patches, &contents);
    assert_eq!(out, "orig\nA\nB");
}

#[test]
fn copy_prepend_puts_payload_first() {
    let patches = vec![CopyPatch {
        position: CopyPosition::Prepend,
        target: "t".to_string(),
        sources: vec!["a.lua".to_string()],
    }];
    let contents = vec![vec!["head".to_string()]];
    let out = apply_copy_patches("orig", &patches, &contents);
    assert_eq!(out, "head\norig");
}

#[test]
fn is_patch_target_reflects_registered_names() {
    let router = PatchRouter::build(vec![bundle(0, vec![pattern_patch("game.lua", "x", "y")])]);
    assert!(router.is_patch_target("game.lua"));
    assert!(!router.is_patch_target("other.lua"));
}

#[test]
fn apply_returns_none_for_unregistered_target() {
    let router = PatchRouter::build(vec![bundle(0, vec![pattern_patch("game.lua", "x", "y")])]);
    let contents: Vec<Vec<String>> = Vec::new();
    assert!(router.apply("text", "other.lua", &contents).is_none());
}

#[test]
fn apply_folds_pattern_patches_in_declaration_order() {
    let router = PatchRouter::build(vec![bundle(
        0,
        vec![
            pattern_patch("t", "start", "step1"),
            pattern_patch("t", "step1", "step2"),
        ],
    )]);
    let contents: Vec<Vec<String>> = Vec::new();
    let out = router.apply("start\n", "t", &contents).unwrap();
    assert_eq!(out, "step2\n");
}

#[test]
fn apply_runs_pattern_patches_before_copy_patches() {
    let router = PatchRouter::build(vec![bundle(
        0,
        vec![
            copy_patch("t", CopyPosition::Append, vec!["x.lua"]),
            pattern_patch("t", "orig", "patched"),
        ],
    )]);
    let contents = vec![vec!["A".to_string()]];
    let out = router.apply("orig", "t", &contents).unwrap();
    // the copy payload is appended to the already pattern-patched text,
    // although the copy patch was declared first
    assert_eq!(out, "patched\n\nA");
}

#[test]
fn bundles_fold_in_priority_then_load_order() {
    let low = bundle(1, vec![pattern_patch("t", "begin", "low")]);
    let high = bundle(0, vec![pattern_patch("t", "low", "high")]);
    // loaded low-priority-number bundle second, but it sorts first: its
    // pattern "low" does not match "begin", then the priority-1 bundle
    // turns "begin" into "low". The other order would give "high".
    let router = PatchRouter::build(vec![low, high]);
    let contents: Vec<Vec<String>> = Vec::new();
    let out = router.apply("begin\n", "t", &contents).unwrap();
    assert_eq!(out, "low\n");
}

#[test]
fn equal_priorities_keep_load_order() {
    let first = bundle(2, vec![pattern_patch("t", "seed", "first")]);
    let second = bundle(2, vec![pattern_patch("t", "first", "second")]);
    let router = PatchRouter::build(vec![first, second]);
    let contents: Vec<Vec<String>> = Vec::new();
    let out = router.apply("seed\n", "t", &contents).unwrap();
    assert_eq!(out, "second\n");
}

#[test]
fn regex_and_module_patches_leave_text_unchanged_here() {
    let router = PatchRouter::build(vec![bundle(
        0,
        vec![
            Patch::Regex(RegexPatch {
                pattern: "a.*".to_string(),
                position: InsertPosition::At,
                target: "t".to_string(),
                payload: "z".to_string(),
                match_indent: false,
                times: None,
            }),
            Patch::Module(ModulePatch {
                target: "t".to_string(),
                source: "mod.lua".to_string(),
                name: "mod".to_string(),
            }),
        ],
    )]);
    assert!(router.is_patch_target("t"));
    let contents: Vec<Vec<String>> = Vec::new();
    let out = router.apply("abc", "t", &contents).unwrap();
    assert_eq!(out, "abc");
}
