use servo_components::memory_reports::{
    group_reports_by_pid, handle_msg, summarizable, summarize_reports, webrender_memory_reports, ProfilerAction,
    ProfilerMsg, Report, ReportKind, ReportLine, ReporterRegistry, ReportsForest, ReportsTree, ReportsResponse,
};
use servo_components::text_util::is_bidi_control;

fn path(segs: &[&str]) -> Vec<String> {
    segs.iter().map(|s| s.to_string()).collect()
}

fn report(segs: &[&str], kind: ReportKind, size: usize) -> Report {
    Report { path: path(segs), kind, size }
}

fn node(line: &ReportLine) -> (usize, usize, String, u32) {
    match line {
        ReportLine::Node { depth, size, path_seg, count } => (*depth, *size, path_seg.clone(), *count),
        ReportLine::Blank => panic!("expected a node line"),
    }
}

#[test]
fn bidi_controls_are_recognized() {
    assert!(is_bidi_control('\u{202A}'));
    assert!(is_bidi_control('\u{202E}'));
    assert!(is_bidi_control('\u{2066}'));
    assert!(is_bidi_control('\u{2069}'));
    assert!(is_bidi_control('\u{200E}'));
    assert!(is_bidi_control('\u{200F}'));
    assert!(is_bidi_control('\u{061C}'));
    assert!(!is_bidi_control('a'));
    assert!(!is_bidi_control('\u{2029}'));
    assert!(!is_bidi_control('\u{206A}'));
}

#[test]
fn forest_prints_trees_with_children_first_and_sorted_by_size() {
    let reports = vec![
        report(&["b", "c"], ReportKind::ExplicitSystemHeapSize, 30),
        report(&["a"], ReportKind::ExplicitJemallocHeapSize, 100),
        report(&["resident"], ReportKind::NonExplicitSize, 1000),
    ];
    let mut forest = summarize_reports(&reports);
    let lines = forest.print();
    assert_eq!(lines.len(), 6);
    assert_eq!(node(&lines[0]), (0, 130, "explicit".to_string(), 0));
    assert_eq!(node(&lines[1]), (1, 100, "a".to_string(), 1));
    assert_eq!(node(&lines[2]), (1, 30, "b".to_string(), 0));
    assert_eq!(node(&lines[3]), (2, 30, "c".to_string(), 1));
    assert!(matches!(lines[4], ReportLine::Blank));
    assert_eq!(node(&lines[5]), (0, 1000, "resident".to_string(), 1));
}

#[test]
fn heap_unclassified_is_what_explicit_reports_leave() {
    let reports = vec![
        report(&["jemalloc-heap-allocated"], ReportKind::NonExplicitSize, 500),
        report(&["layout"], ReportKind::ExplicitJemallocHeapSize, 120),
        report(&["system-heap-allocated"], ReportKind::NonExplicitSize, 90),
        report(&["gl"], ReportKind::ExplicitSystemHeapSize, 40),
    ];
    let mut forest = summarize_reports(&reports);
    let lines = forest.print();
    assert_eq!(node(&lines[0]), (0, 590, "explicit".to_string(), 0));
    assert_eq!(node(&lines[1]), (1, 380, "jemalloc-heap-unclassified".to_string(), 1));
    assert_eq!(node(&lines[2]), (1, 120, "layout".to_string(), 1));
    assert_eq!(node(&lines[3]), (1, 50, "system-heap-unclassified".to_string(), 1));
    assert_eq!(node(&lines[4]), (1, 40, "gl".to_string(), 1));
    assert!(matches!(lines[5], ReportLine::Blank));
    assert_eq!(node(&lines[6]), (0, 500, "jemalloc-heap-allocated".to_string(), 1));
    assert_eq!(node(&lines[7]), (0, 90, "system-heap-allocated".to_string(), 1));
    assert_eq!(lines.len(), 8);
}

#[test]
fn repeated_paths_add_up_and_are_counted() {
    let mut forest = ReportsForest::new();
    forest.insert(&path(&["explicit", "dom"]), 10);
    forest.insert(&path(&["explicit", "dom"]), 15);
    let lines = forest.print();
    assert_eq!(node(&lines[0]), (0, 25, "explicit".to_string(), 0));
    assert_eq!(node(&lines[1]), (1, 25, "dom".to_string(), 2));
}

#[test]
fn webrender_reports_are_explicit_jemalloc_reports() {
    let v = webrender_memory_reports(1, 2, 3);
    assert_eq!(v.len(), 3);
    assert_eq!(v[0].path, path(&["webrender", "fonts"]));
    assert_eq!(v[1].path, path(&["webrender", "images"]));
    assert_eq!(v[2].path, path(&["webrender", "display-list"]));
    assert_eq!((v[0].size, v[1].size, v[2].size), (1, 2, 3));
    assert!(matches!(v[2].kind, ReportKind::ExplicitJemallocHeapSize));
}

#[test]
fn reports_are_grouped_by_process() {
    let responses = vec![
        ReportsResponse { pid: 7, reports: vec![report(&["a"], ReportKind::NonExplicitSize, 1)] },
        ReportsResponse { pid: 3, reports: vec![report(&["b"], ReportKind::NonExplicitSize, 2)] },
        ReportsResponse { pid: 7, reports: vec![report(&["c"], ReportKind::NonExplicitSize, 3)] },
    ];
    let grouped = group_reports_by_pid(responses, 3);
    assert_eq!(grouped.len(), 2);
    let seven = grouped.iter().find(|m| m.pid == 7).unwrap();
    assert_eq!(seven.reports.len(), 2);
    assert_eq!(seven.reports[0].size, 1);
    assert_eq!(seven.reports[1].size, 3);
    assert!(!seven.is_main_process);
    let three = grouped.iter().find(|m| m.pid == 3).unwrap();
    assert!(three.is_main_process);
    assert_eq!(three.reports.len(), 1);
}

#[test]
fn profiler_registers_and_unregisters_reporters() {
    let mut registry: ReporterRegistry<u32> = ReporterRegistry::new();
    let act = handle_msg(&mut registry, ProfilerMsg::<u32, ()>::RegisterReporter("layout".to_string(), 5));
    assert!(matches!(act, ProfilerAction::Continue));
    assert!(registry.contains(&"layout".to_string()));
    assert_eq!(registry.len(), 1);
    let act = handle_msg(&mut registry, ProfilerMsg::<u32, u8>::Report(9));
    assert!(matches!(act, ProfilerAction::SendReports(9)));
    let act = handle_msg(&mut registry, ProfilerMsg::<u32, ()>::Print);
    assert!(matches!(act, ProfilerAction::PrintReports));
    let act = handle_msg(&mut registry, ProfilerMsg::<u32, ()>::UnregisterReporter("layout".to_string()));
    assert!(matches!(act, ProfilerAction::Continue));
    assert!(!registry.contains(&"layout".to_string()));
    assert_eq!(registry.len(), 0);
    let act = handle_msg(&mut registry, ProfilerMsg::<u32, ()>::Exit);
    assert!(matches!(act, ProfilerAction::Exit));
}

#[test]
fn unregister_hands_back_the_reporter() {
    let mut registry: ReporterRegistry<u32> = ReporterRegistry::new();
    registry.register("a".to_string(), 1);
    registry.register("b".to_string(), 2);
    assert_eq!(registry.unregister(&"b".to_string()), 2);
    assert_eq!(registry.len(), 1);
}

#[test]
fn batches_that_cannot_be_summarized_are_recognized() {
    let ok = vec![report(&["a"], ReportKind::ExplicitJemallocHeapSize, 1)];
    assert!(summarizable(&ok));
    let empty_path = vec![report(&[], ReportKind::NonExplicitSize, 1)];
    assert!(!summarizable(&empty_path));
    // An explicit report with no segments still has a path ("explicit").
    assert!(summarizable(&vec![report(&[], ReportKind::ExplicitNonHeapSize, 1)]));
    let twice = vec![
        report(&["jemalloc-heap-allocated"], ReportKind::NonExplicitSize, 10),
        report(&["jemalloc-heap-allocated"], ReportKind::NonExplicitSize, 10),
    ];
    assert!(!summarizable(&twice));
    let too_little = vec![
        report(&["system-heap-allocated"], ReportKind::NonExplicitSize, 10),
        report(&["gl"], ReportKind::ExplicitSystemHeapSize, 11),
    ];
    assert!(!summarizable(&too_little));
    let overflow = vec![
        report(&["a"], ReportKind::NonExplicitSize, usize::MAX),
        report(&["b"], ReportKind::NonExplicitSize, 1),
    ];
    assert!(!summarizable(&overflow));
}

#[test]
fn forests_with_a_report_inside_another_cannot_be_printed() {
    let mut forest = ReportsForest::new();
    forest.insert(&path(&["a", "b"]), 5);
    assert!(forest.printable());
    forest.insert(&path(&["a", "b", "c"]), 7);
    assert!(!forest.printable());
    let mut counted = ReportsForest::new();
    counted.insert(&path(&["a"]), 0);
    counted.insert(&path(&["a", "b"]), 3);
    assert!(!counted.printable());
}

#[test]
fn new_children_come_after_their_siblings() {
    let mut tree = ReportsTree::new("root".to_string());
    tree.insert(&path(&["b"]), 5);
    tree.insert(&path(&["a"]), 7);
    tree.insert(&path(&["b", "c"]), 1);
    tree.insert(&path(&["b"]), 2);
    let segs: Vec<&str> = tree.children.iter().map(|c| c.path_seg.as_str()).collect();
    assert_eq!(segs, vec!["b", "a"]);
    assert_eq!((tree.children[0].size, tree.children[0].count), (7, 2));
    assert_eq!((tree.children[1].size, tree.children[1].count), (7, 1));
    assert_eq!(tree.children[0].children.len(), 1);
    assert_eq!(tree.children[0].children[0].path_seg, "c");
    assert_eq!((tree.size, tree.count), (0, 0));
}
