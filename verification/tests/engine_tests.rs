use clir::path::{prefix_workdir, SegPath};
use clir::rules::{check_expansion, MatchedPath, PathKind, Pattern, Rules};
use clir::tree::PathTree;

fn mp(path: &str, size: u64, kind: PathKind) -> MatchedPath {
    MatchedPath::new(SegPath::parse(path), size, kind)
}

#[test]
fn scenario_directory_rule() {
    // One rule matching a directory with two 1024-byte files inside.
    let mut rules = Rules::new();
    rules.add(prefix_workdir("/w", &vec!["dir/".to_string()]));
    assert_eq!(rules.get(), &vec!["/w/dir".to_string()]);

    let patterns = vec![Pattern::new(
        "/w/dir".to_string(),
        vec![mp("/w/dir", 2048, PathKind::Dir)],
    )];
    assert!(check_expansion(&patterns));
    let mut tree = PathTree::new();
    let report = rules.expand_patterns(&mut tree, patterns);

    assert_eq!(report.len(), 1);
    assert_eq!(report[0].as_ref(), "/w/dir");
    assert_eq!(report[0].get_size_cached(), Some(2048));
    assert_eq!(report[0].num_dirs(), 1);
    assert_eq!(report[0].num_files(), 0);
    assert_eq!(tree.get_size(), Some(2048));
}

#[test]
fn scenario_overlapping_rules() {
    // A glob rule over two .tmp files, and a directory rule over the
    // directory holding them: the directory wins, the glob rule reports
    // empty and is hidden, and the total counts the bytes once.
    let mut rules = Rules::new();
    rules.add(vec!["/w/dir/**/*.tmp".to_string(), "/w/dir".to_string()]);

    let patterns = vec![
        Pattern::new(
            "/w/dir/**/*.tmp".to_string(),
            vec![
                mp("/w/dir/a.tmp", 1024, PathKind::File),
                mp("/w/dir/b.tmp", 1024, PathKind::File),
            ],
        ),
        Pattern::new("/w/dir".to_string(), vec![mp("/w/dir", 2048, PathKind::Dir)]),
    ];
    assert!(check_expansion(&patterns));
    let mut tree = PathTree::new();
    let report = rules.expand_patterns(&mut tree, patterns);

    assert_eq!(report.len(), 1);
    assert_eq!(report[0].as_ref(), "/w/dir");
    assert_eq!(report[0].get_size_cached(), Some(2048));
    assert_eq!(tree.get_size(), Some(2048));
}

#[test]
fn scenario_disjoint_rules() {
    // Two disjoint file rules: two entries, each counted in full.
    let rules = Rules::new();
    let patterns = vec![
        Pattern::new(
            "/w/a.tmp".to_string(),
            vec![mp("/w/a.tmp", 1024, PathKind::File)],
        ),
        Pattern::new(
            "/w/b.tmp".to_string(),
            vec![mp("/w/b.tmp", 1024, PathKind::File)],
        ),
    ];
    assert!(check_expansion(&patterns));
    let mut tree = PathTree::new();
    let report = rules.expand_patterns(&mut tree, patterns);

    assert_eq!(report.len(), 2);
    assert_eq!(report[0].as_ref(), "/w/a.tmp");
    assert_eq!(report[0].get_size_cached(), Some(1024));
    assert_eq!(report[0].num_files(), 1);
    assert_eq!(report[1].as_ref(), "/w/b.tmp");
    assert_eq!(report[1].get_size_cached(), Some(1024));
    assert_eq!(tree.get_size(), Some(2048));
}

#[test]
fn scenario_no_matches() {
    // A rule that matches nothing is hidden and the report is empty.
    let rules = Rules::new();
    let patterns = vec![Pattern::new("/w/missing/**/*".to_string(), vec![])];
    assert!(check_expansion(&patterns));
    let mut tree = PathTree::new();
    let report = rules.expand_patterns(&mut tree, patterns);

    assert_eq!(report.len(), 0);
    assert_eq!(tree.get_size(), None);
}

#[test]
fn report_sorts_ascending_by_size() {
    let rules = Rules::new();
    let patterns = vec![
        Pattern::new("/w/big".to_string(), vec![mp("/w/big", 4096, PathKind::Dir)]),
        Pattern::new(
            "/w/small".to_string(),
            vec![mp("/w/small", 512, PathKind::File)],
        ),
        Pattern::new("/w/mid".to_string(), vec![mp("/w/mid", 1024, PathKind::File)]),
    ];
    assert!(check_expansion(&patterns));
    let mut tree = PathTree::new();
    let report = rules.expand_patterns(&mut tree, patterns);

    assert_eq!(report.len(), 3);
    assert_eq!(report[0].as_ref(), "/w/small");
    assert_eq!(report[1].as_ref(), "/w/mid");
    assert_eq!(report[2].as_ref(), "/w/big");
    assert_eq!(tree.get_size(), Some(4096 + 512 + 1024));
}

#[test]
fn adding_same_pattern_twice_keeps_count() {
    let mut rules = Rules::new();
    rules.add(vec!["/w/dir".to_string()]);
    assert_eq!(rules.get().len(), 1);
    rules.add(vec!["/w/dir".to_string()]);
    assert_eq!(rules.get().len(), 1);
    // The same path written differently still normalizes to one rule.
    rules.add(vec!["/w//dir/".to_string(), "/w/x/../dir".to_string()]);
    assert_eq!(rules.get().len(), 1);
}

#[test]
fn listing_twice_gives_identical_reports() {
    let rules = Rules::new();
    let build = || {
        vec![
            Pattern::new(
                "/w/dir/**/*.tmp".to_string(),
                vec![
                    mp("/w/dir/a.tmp", 1024, PathKind::File),
                    mp("/w/dir/b.tmp", 1024, PathKind::File),
                ],
            ),
            Pattern::new("/w/dir".to_string(), vec![mp("/w/dir", 2048, PathKind::Dir)]),
            Pattern::new(
                "/w/c.tmp".to_string(),
                vec![mp("/w/c.tmp", 512, PathKind::File)],
            ),
        ]
    };
    let first_input = build();
    assert!(check_expansion(&first_input));
    let mut tree1 = PathTree::new();
    let report1 = rules.expand_patterns(&mut tree1, first_input);
    let mut tree2 = PathTree::new();
    let report2 = rules.expand_patterns(&mut tree2, build());

    assert_eq!(tree1.get_size(), tree2.get_size());
    assert_eq!(report1.len(), report2.len());
    for (a, b) in report1.iter().zip(report2.iter()) {
        assert_eq!(a.as_ref(), b.as_ref());
        assert_eq!(a.get_size_cached(), b.get_size_cached());
        assert_eq!(a.num_files(), b.num_files());
        assert_eq!(a.num_dirs(), b.num_dirs());
    }
}

#[test]
fn clean_plan_covers_every_path() {
    // The deletion plan lists every remaining path, so a failure on one
    // cannot change which others are attempted.
    let pattern = Pattern::new(
        "/w/dir/**/*.tmp".to_string(),
        vec![
            mp("/w/dir/a.tmp", 1024, PathKind::File),
            mp("/w/dir/sub", 2048, PathKind::Dir),
            mp("/w/dir/b.tmp", 1024, PathKind::File),
        ],
    );
    let plan = pattern.clean();
    assert_eq!(plan.len(), 3);
    assert_eq!(plan[0].path, "/w/dir/a.tmp");
    assert!(!plan[0].is_dir);
    assert_eq!(plan[1].path, "/w/dir/sub");
    assert!(plan[1].is_dir);
    assert_eq!(plan[2].path, "/w/dir/b.tmp");
    assert!(!plan[2].is_dir);
}

#[test]
fn clean_collects_all_patterns() {
    let rules = Rules::new();
    let patterns = vec![
        Pattern::new(
            "/w/a.tmp".to_string(),
            vec![mp("/w/a.tmp", 1024, PathKind::File)],
        ),
        Pattern::new("/w/d".to_string(), vec![mp("/w/d", 2048, PathKind::Dir)]),
    ];
    let plan = rules.clean(&patterns);
    assert_eq!(plan.len(), 2);
    assert_eq!(plan[0].path, "/w/a.tmp");
    assert_eq!(plan[1].path, "/w/d");
    assert!(plan[1].is_dir);
}

#[test]
fn rules_load_write_round_trip() {
    let mut rules = Rules::new();
    rules.load("\n/a/b\n\n/a/b\nrelative\n/c/../d\n");
    assert_eq!(rules.get(), &vec!["/a/b".to_string(), "/d".to_string()]);
    assert_eq!(rules.write(), "/a/b\n/d\n");

    let mut reloaded = Rules::new();
    reloaded.load(rules.write().as_str());
    assert_eq!(reloaded.get(), rules.get());
}

#[test]
fn rules_remove_matches_by_normalized_form() {
    let mut rules = Rules::new();
    rules.add(vec!["/a/b".to_string(), "/c".to_string()]);
    // Removal normalizes its argument the same way add does.
    rules.remove(vec!["/a//b/".to_string()]);
    assert_eq!(rules.get(), &vec!["/c".to_string()]);
    // The exact string a rule was added under removes it again, even
    // when it carries `..` segments.
    rules.add(vec!["/x/../y".to_string()]);
    assert_eq!(rules.get(), &vec!["/c".to_string(), "/y".to_string()]);
    rules.remove(vec!["/x/../y".to_string()]);
    assert_eq!(rules.get(), &vec!["/c".to_string()]);
    // A string naming no stored rule removes nothing.
    rules.remove(vec!["/a/b".to_string(), "unrooted".to_string()]);
    assert_eq!(rules.get(), &vec!["/c".to_string()]);
}

#[test]
fn check_expansion_refuses_overflowing_sizes() {
    // Inserting an ancestor that reports fewer bytes than a descendant
    // already inserted breaks the engine's size arithmetic; the check
    // refuses it.
    let shrinking = vec![
        Pattern::new(
            "/w/dir/a".to_string(),
            vec![mp("/w/dir/a", 4096, PathKind::File)],
        ),
        Pattern::new("/w/dir".to_string(), vec![mp("/w/dir", 1024, PathKind::Dir)]),
    ];
    assert!(!check_expansion(&shrinking));

    let overflowing = vec![
        Pattern::new("/w/a".to_string(), vec![mp("/w/a", u64::MAX, PathKind::File)]),
        Pattern::new("/w/b".to_string(), vec![mp("/w/b", 1, PathKind::File)]),
    ];
    assert!(!check_expansion(&overflowing));

    let fine = vec![Pattern::new(
        "/w/a".to_string(),
        vec![mp("/w/a", u64::MAX, PathKind::File)],
    )];
    assert!(check_expansion(&fine));
}

#[test]
fn pattern_resolves_subsumed_paths_to_zero() {
    // Both matched paths of the glob rule are subsumed by the directory
    // rule inserted after it: resolving leaves it empty.
    let glob_rule = Pattern::new(
        "/w/dir/**/*.tmp".to_string(),
        vec![
            mp("/w/dir/a.tmp", 1024, PathKind::File),
            mp("/w/dir/b.tmp", 1024, PathKind::File),
        ],
    );
    let dir_rule = Pattern::new("/w/dir".to_string(), vec![mp("/w/dir", 2048, PathKind::Dir)]);

    let mut tree = PathTree::new();
    glob_rule.insert(&mut tree);
    dir_rule.insert(&mut tree);

    let mut later = vec![dir_rule];
    let glob_resolved = glob_rule.filter_and_get_size(&tree, &later);
    assert!(glob_resolved.is_empty());
    assert_eq!(glob_resolved.get_size_cached(), Some(0));
    assert_eq!(glob_resolved.num_files(), 0);

    let dir_rule = later.remove(0);
    let dir_resolved = dir_rule.filter_and_get_size(&tree, &Vec::new());
    assert!(!dir_resolved.is_empty());
    assert_eq!(dir_resolved.get_size_cached(), Some(2048));
    assert_eq!(dir_resolved.num_dirs(), 1);
}

#[test]
fn shared_path_belongs_to_the_last_rule() {
    // Two rules matching the same concrete file: the later rule owns it,
    // the earlier one reports empty and is hidden, and the total counts
    // the bytes once — the surviving path lists stay disjoint.
    let rules = Rules::new();
    let patterns = vec![
        Pattern::new(
            "/w/**/*.tmp".to_string(),
            vec![mp("/w/a.tmp", 1024, PathKind::File)],
        ),
        Pattern::new(
            "/w/a.tmp".to_string(),
            vec![mp("/w/a.tmp", 1024, PathKind::File)],
        ),
    ];
    assert!(check_expansion(&patterns));
    let mut tree = PathTree::new();
    let report = rules.expand_patterns(&mut tree, patterns);

    assert_eq!(report.len(), 1);
    assert_eq!(report[0].as_ref(), "/w/a.tmp");
    assert_eq!(report[0].get_size_cached(), Some(1024));
    assert_eq!(report[0].num_files(), 1);
    assert_eq!(tree.get_size(), Some(1024));

    // The combined deletion plan names the shared path exactly once.
    let plan = rules.clean(&report);
    assert_eq!(plan.len(), 1);
    assert_eq!(plan[0].path, "/w/a.tmp");
}

#[test]
fn repeated_path_within_a_rule_counts_once() {
    // A rule whose expansion lists the same concrete path twice (e.g. two
    // glob alternatives hitting one file) keeps and counts it once.
    let rules = Rules::new();
    let patterns = vec![Pattern::new(
        "/w/*.tmp".to_string(),
        vec![
            mp("/w/a.tmp", 1024, PathKind::File),
            mp("/w/a.tmp", 1024, PathKind::File),
        ],
    )];
    assert!(check_expansion(&patterns));
    let mut tree = PathTree::new();
    let report = rules.expand_patterns(&mut tree, patterns);

    assert_eq!(report.len(), 1);
    assert_eq!(report[0].get_size_cached(), Some(1024));
    assert_eq!(report[0].num_files(), 1);
    assert_eq!(tree.get_size(), Some(1024));
}
