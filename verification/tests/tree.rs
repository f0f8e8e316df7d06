use disk_scanner::aggregate::SizeText;
use disk_scanner::{build_tree, finish_tree, ScanConfig, TopologyNode};

fn file(name: &str, size: u64) -> TopologyNode {
    TopologyNode::new_file(name.to_string(), format!("/r/{}", name), size)
}

fn dir(name: &str, children: Vec<TopologyNode>) -> TopologyNode {
    let mut d = TopologyNode::new_dir(name.to_string(), format!("/r/{}", name));
    d.children = children;
    d
}

fn sample() -> TopologyNode {
    dir("root", vec![file("a", 100), dir("sub", vec![file("b", 50), file("c", 30)]), file("d", 1)])
}

#[test]
fn constructors_fill_fields() {
    let f = file("x", 2048);
    assert_eq!(f.size_human, "2.00 KiB");
    assert_eq!((f.file_count, f.dir_count, f.is_dir, f.is_aggregated), (1, 0, false, false));
    let d = TopologyNode::new_dir("d".to_string(), "/d".to_string());
    assert_eq!((d.size, d.file_count, d.dir_count, d.is_dir), (0, 0, 1, true));
    assert_eq!(d.size_human, "");
    let a = TopologyNode::new_aggregated("[x]".to_string(), 10, 3, 2, 1);
    assert_eq!((a.size, a.aggregated_count, a.file_count, a.dir_count), (10, 3, 2, 1));
    assert!(a.is_aggregated && !a.is_dir && a.path.is_empty());
}

#[test]
fn sizes_and_counts_sum_children() {
    let mut t = sample();
    assert_eq!(t.calculate_size(), 181);
    assert_eq!(t.size_human, "181 B");
    assert_eq!(t.children[1].size, 80);
    assert_eq!(t.calculate_counts(), (4, 2));
    assert_eq!((t.children[1].file_count, t.children[1].dir_count), (2, 1));
}

#[test]
fn threshold_collapses_small_items() {
    let mut t = sample();
    t.calculate_size();
    t.calculate_counts();
    t.apply_threshold(60);
    let names: Vec<&str> = t.children.iter().map(|c| c.name.as_str()).collect();
    assert_eq!(names, vec!["a", "sub", "[1 items below 60 B]"]);
    let bucket = &t.children[2];
    assert!(bucket.is_aggregated);
    assert_eq!((bucket.size, bucket.aggregated_count, bucket.file_count), (1, 1, 1));
    let sub = &t.children[1];
    assert_eq!(sub.children.len(), 1);
    assert_eq!(sub.children[0].name, "[2 items below 60 B]");
    assert_eq!(sub.children[0].size, 80);
    // The totals of the children are kept.
    let total: u64 = t.children.iter().map(|c| c.size).sum();
    assert_eq!(total, 181);
}

#[test]
fn threshold_names_use_the_threshold_size() {
    let mut t = dir("root", vec![file("tiny", 5)]);
    t.calculate_size();
    t.apply_threshold(100 * 1024 * 1024);
    assert_eq!(t.children[0].name, "[1 items below 100.00 MiB]");
}

#[test]
fn threshold_sorts_largest_first() {
    let mut t = dir("root", vec![file("s", 10), file("l", 30), file("m", 20), file("l2", 30)]);
    t.calculate_size();
    t.apply_threshold(0);
    let names: Vec<&str> = t.children.iter().map(|c| c.name.as_str()).collect();
    assert_eq!(names, vec!["l", "l2", "m", "s"]);
}

fn flat(sizes: &[u64]) -> TopologyNode {
    let kids = sizes.iter().enumerate().map(|(i, s)| file(&format!("f{}", i), *s)).collect();
    let mut t = dir("root", kids);
    t.calculate_size();
    t.calculate_counts();
    t
}

#[test]
fn coverage_keeps_everything_when_needed() {
    let mut t = flat(&[50, 300, 500, 150]);
    t.apply_coverage(9700);
    let sizes: Vec<u64> = t.children.iter().map(|c| c.size).collect();
    assert_eq!(sizes, vec![500, 300, 150, 50]);
}

#[test]
fn coverage_aggregates_the_rest() {
    let mut t = flat(&[50, 300, 500, 150]);
    t.apply_coverage(8000);
    assert_eq!(t.children.len(), 3);
    assert_eq!(t.children[0].size, 500);
    assert_eq!(t.children[1].size, 300);
    let b = &t.children[2];
    assert_eq!(b.name, "[2 more, 20.0%]");
    assert_eq!((b.size, b.aggregated_count, b.file_count), (200, 2, 2));
}

#[test]
fn coverage_keeps_at_least_one_and_at_most_fifteen() {
    let mut t = flat(&[10, 20]);
    t.apply_coverage(0);
    assert_eq!(t.children[0].size, 20);
    assert_eq!(t.children[1].name, "[1 more, 33.3%]");
    let sizes: Vec<u64> = (1..=20).collect();
    let mut t = flat(&sizes);
    t.apply_coverage(10000);
    assert_eq!(t.children.len(), 16);
    assert_eq!(t.children[15].aggregated_count, 5);
    assert_eq!(t.children[15].size, 15);
}

#[test]
fn coverage_prunes_small_directories() {
    let mut big = vec![file("big", 1000)];
    big.push(dir("small", vec![file("x", 3), file("y", 2)]));
    let mut t = dir("root", big);
    t.calculate_size();
    t.calculate_counts();
    t.apply_coverage(10000);
    let small = &t.children[1];
    assert_eq!(small.name, "small");
    assert!(small.children.is_empty());
    assert_eq!((small.file_count, small.dir_count, small.size), (2, 1, 5));
}

#[test]
fn coverage_of_empty_tree_is_noop() {
    let mut t = dir("root", vec![file("z", 0)]);
    t.calculate_size();
    t.apply_coverage(9700);
    assert_eq!(t.children.len(), 1);
    assert_eq!(t.children[0].name, "z");
}

#[test]
fn depth_limit_collapses_deep_children() {
    let mut t = sample();
    t.calculate_size();
    t.calculate_counts();
    t.limit_depth(1, 0);
    let sub = &t.children[1];
    assert_eq!(sub.children.len(), 1);
    assert_eq!(sub.children[0].name, "[2 items, depth limit]");
    assert_eq!((sub.children[0].size, sub.children[0].aggregated_count), (80, 2));
    assert_eq!(t.children.len(), 3);
    let mut t = sample();
    t.calculate_size();
    t.limit_depth(0, 0);
    assert_eq!(t.children.len(), 1);
    assert_eq!(t.children[0].name, "[3 items, depth limit]");
    assert_eq!(t.children[0].size, 181);
}

#[test]
fn top_items_sorted_by_size() {
    let mut t = sample();
    t.calculate_size();
    t.calculate_counts();
    let items = t.collect_top_items();
    assert_eq!(items[0], ("a".to_string(), 100, 1, 0, false));
    assert_eq!(items[1], ("sub".to_string(), 80, 2, 1, false));
    assert_eq!(items[2], ("d".to_string(), 1, 1, 0, false));
}

#[test]
fn json_of_a_file() {
    let f = file("q\"x", 1536);
    let expected = "{\n  \"name\": \"q\\\"x\",\n  \"size\": 1536,\n  \"size_human\": \"1.50 KiB\",\n  \"is_dir\": false,\n  \"is_aggregated\": false,\n  \"file_count\": 1,\n  \"dir_count\": 0,\n  \"children\": []\n}";
    assert_eq!(f.to_json(0), expected);
}

#[test]
fn json_of_a_directory() {
    let mut t = dir("d", vec![file("a", 1024), file("b", 2)]);
    t.calculate_size();
    t.calculate_counts();
    let s = t.to_json(1);
    assert!(s.starts_with("  {\n    \"name\": \"d\",\n    \"size\": 1026,\n    \"size_human\": \"1.00 KiB\",\n"));
    assert!(s.contains("    \"children\": [\n      {\n        \"name\": \"a\""));
    assert!(s.contains("      },\n      {\n        \"name\": \"b\""));
    assert!(s.ends_with("      }\n    ]\n  }"));
}

#[test]
fn build_tree_moves_directories_under_parents() {
    let mut root = TopologyNode::new_dir("root".to_string(), "/r".to_string());
    root.children.push(file("f1", 10));
    let mut a = TopologyNode::new_dir("a".to_string(), "/r/a".to_string());
    a.children.push(file("f2", 20));
    let b = TopologyNode::new_dir("b".to_string(), "/r/a/b".to_string());
    let orphan = TopologyNode::new_dir("o".to_string(), "/elsewhere/o".to_string());
    let nodes = vec![root, a, b, orphan];
    let parent = vec![None, Some(0), Some(1), None];
    let depth = vec![2, 3, 4, 3];
    let t = build_tree(nodes, &parent, &depth, Some(0), "/r".to_string(), "/r".to_string());
    assert_eq!(t.name, "root");
    let names: Vec<&str> = t.children.iter().map(|c| c.name.as_str()).collect();
    assert_eq!(names, vec!["f1", "a"]);
    let names: Vec<&str> = t.children[1].children.iter().map(|c| c.name.as_str()).collect();
    assert_eq!(names, vec!["f2", "b"]);
}

#[test]
fn build_tree_without_root_gives_empty_directory() {
    let t = build_tree(Vec::new(), &Vec::new(), &Vec::new(), None, "/x".to_string(), "/x".to_string());
    assert!(t.is_dir && t.children.is_empty());
    assert_eq!((t.name.as_str(), t.dir_count), ("/x", 1));
}

#[test]
fn build_tree_drops_children_of_missing_parents() {
    let root = TopologyNode::new_dir("root".to_string(), "/r".to_string());
    let lost = TopologyNode::new_dir("lost".to_string(), "/r/gone/lost".to_string());
    let t = build_tree(vec![root, lost], &vec![None, Some(7)], &vec![2, 4], Some(0), "/r".to_string(), "/r".to_string());
    assert!(t.children.is_empty());
}

#[test]
fn finish_tree_default_configuration() {
    let c = ScanConfig::default();
    assert_eq!((c.num_workers, c.coverage_basis_points, c.threshold, c.max_depth), (12, Some(9700), None, 0));
    let t = finish_tree(sample(), &c);
    assert_eq!((t.size, t.file_count, t.dir_count), (181, 4, 2));
    let names: Vec<&str> = t.children.iter().map(|c| c.name.as_str()).collect();
    assert_eq!(names, vec!["a", "sub", "[1 more, 0.6%]"]);
}

#[test]
fn finish_tree_threshold_and_depth() {
    let c = ScanConfig {
        num_workers: 1,
        coverage_basis_points: None,
        threshold: Some(60),
        max_depth: 1,
        threshold_style: SizeText::Fixed,
    };
    let t = finish_tree(sample(), &c);
    assert_eq!(t.children.len(), 3);
    assert_eq!(t.children[1].children[0].name, "[1 items, depth limit]");
    assert_eq!(t.children[1].children[0].size, 80);
}

fn sums(t: &TopologyNode) -> (u64, u64, u64) {
    let size = t.children.iter().map(|c| c.size).sum();
    let files = t.children.iter().map(|c| c.file_count).sum();
    let dirs: u64 = t.children.iter().map(|c| c.dir_count).sum();
    (size, files, dirs + 1)
}

fn assert_adds_up(t: &TopologyNode) {
    if t.is_dir && !t.children.is_empty() {
        assert_eq!(sums(t), (t.size, t.file_count, t.dir_count), "in {}", t.name);
        for c in &t.children {
            assert_adds_up(c);
        }
    }
}

fn nested() -> TopologyNode {
    let deep = dir("deep", vec![file("x", 7), dir("deeper", vec![file("y", 3), file("z", 2)])]);
    let mid = dir("mid", vec![file("m1", 40), deep, file("m2", 1)]);
    dir("root", vec![file("big", 900), mid, dir("empty", vec![]), file("small", 5)])
}

#[test]
fn finished_scans_add_up() {
    let configs = vec![
        ScanConfig::default(),
        ScanConfig {
            num_workers: 2,
            coverage_basis_points: Some(9000),
            threshold: None,
            max_depth: 2,
            threshold_style: SizeText::Fixed,
        },
        ScanConfig {
            num_workers: 2,
            coverage_basis_points: None,
            threshold: Some(10),
            max_depth: 0,
            threshold_style: SizeText::Compact,
        },
        ScanConfig {
            num_workers: 2,
            coverage_basis_points: None,
            threshold: None,
            max_depth: 1,
            threshold_style: SizeText::Fixed,
        },
    ];
    for c in &configs {
        let t = finish_tree(nested(), c);
        assert_eq!((t.size, t.file_count, t.dir_count), (958, 7, 5));
        assert_adds_up(&t);
    }
}

#[test]
fn coverage_shows_until_target() {
    // Target: 75% of 1000 bytes. 400 + 300 = 700 is short of it, 400 + 300 + 150 is not.
    let mut t = flat(&[100, 400, 50, 300, 150]);
    t.apply_coverage(7500);
    let sizes: Vec<u64> = t.children.iter().map(|c| c.size).collect();
    assert_eq!(sizes, vec![400, 300, 150, 150]);
    assert_eq!(t.children[3].name, "[2 more, 15.0%]");
    assert_eq!(t.children[3].aggregated_count, 2);
}

#[test]
fn depth_limit_leaves_only_buckets_below() {
    let mut t = nested();
    t.calculate_size();
    t.calculate_counts();
    t.limit_depth(2, 0);
    let mid = &t.children[1];
    let deep = &mid.children[1];
    assert_eq!(deep.name, "deep");
    assert_eq!(deep.children.len(), 1);
    assert!(deep.children[0].is_aggregated && deep.children[0].children.is_empty());
    assert_eq!(deep.children[0].name, "[2 items, depth limit]");
    assert_eq!(deep.children[0].size, 12);
    assert!(t.children[2].children.is_empty());
}

#[test]
fn coverage_share_is_printed_as_doubles_give_it() {
    let mut t = flat(&[1997, 3]);
    t.apply_coverage(5000);
    assert_eq!(t.children[1].name, "[1 more, 0.1%]");
    let pairs: [(u64, u64); 8] = [(3, 2000), (1, 800), (1, 3), (5, 1000), (7, 6000), (999, 1000), (1, 1 << 40), (1 << 55, 1 << 60)];
    for &(part, whole) in pairs.iter() {
        let mut t = flat(&[whole - part, part]);
        t.apply_coverage(1);
        let pct = (part as f64 / whole as f64) * 100.0;
        let expected = format!("[1 more, {:.1}%]", pct);
        let bucket = t.children.last().unwrap();
        if whole - part >= part {
            assert_eq!(bucket.name, expected);
        }
    }
}

#[test]
fn json_escapes_names() {
    let f = file("a\\b\"c\nd\te\u{1}f\u{1f}", 1);
    let text = f.to_json(0);
    assert!(text.contains("\"name\": \"a\\\\b\\\"c\\nd\\te\\u0001f\\u001f\","));
}

#[test]
fn json_indentation_adds_spaces_to_every_line() {
    let mut t = dir("root", vec![file("a\nb", 1024), dir("sub", vec![file("c", 2)]), dir("e", vec![])]);
    t.calculate_size();
    t.calculate_counts();
    let flat_text = t.to_json(0);
    for k in 0..4usize {
        let expected: Vec<String> = flat_text.lines().map(|l| format!("{}{}", "  ".repeat(k), l)).collect();
        assert_eq!(t.to_json(k), expected.join("\n"));
    }
}

#[test]
fn coverage_target_is_computed_as_doubles_do() {
    // The exact 97% of the total equals the first file's size; the double
    // computation gives one byte more, so both files are kept.
    let mut t = flat(&[7_644_860_367_461_416, 236_438_980_436_952]);
    let total = t.size;
    assert!(((total as f64 * 97.0 / 100.0) as u64) > 7_644_860_367_461_416);
    t.apply_coverage(9700);
    assert_eq!(t.children.len(), 2);
    assert!(t.children.iter().all(|c| !c.is_aggregated));
}

#[test]
fn descend_limit_is_computed_as_doubles_do() {
    let root_size: u64 = 9_007_199_254_740_999;
    let small: u64 = 90_071_992_547_409;
    assert_eq!((root_size as f64 * 1.0 / 100.0) as u64, small + 1);
    let d = dir("d", vec![file("x", small - 9), file("y", 9)]);
    let mut t = dir("root", vec![file("big", root_size - small), d]);
    t.calculate_size();
    t.calculate_counts();
    assert_eq!(t.size, root_size);
    t.apply_coverage(10000);
    let d = &t.children[1];
    assert_eq!(d.name, "d");
    assert!(d.children.is_empty());
    assert_eq!((d.file_count, d.dir_count), (2, 1));
}

#[test]
fn checked_finish_refuses_overflowing_trees() {
    let c = ScanConfig::default();
    assert!(disk_scanner::scan::checked_finish_tree(dir("r", vec![file("a", u64::MAX), file("b", 1)]), &c).is_none());
    let bucket = TopologyNode::new_aggregated("[x]".to_string(), 1, 1, 1, 0);
    assert!(disk_scanner::scan::checked_finish_tree(dir("r", vec![bucket]), &c).is_none());
    let t = disk_scanner::scan::checked_finish_tree(sample(), &c).unwrap();
    assert_eq!((t.size, t.file_count, t.dir_count), (181, 4, 2));
}
