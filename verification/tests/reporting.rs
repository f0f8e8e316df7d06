use disk_scanner::aggregate::SizeText;
use disk_scanner::cli::{depth_label, effective_depth, parse_args, CliCommand, DEFAULT_MAX_DEPTH, DEFAULT_THRESHOLD};
use disk_scanner::json::indent_fits_exec;
use disk_scanner::report::{category_index_of_lowercase, category_of_lowercase, display_name, shortened_path, tail_total};
use disk_scanner::scan::{checked_totals, has_no_buckets, listing_fits};
use disk_scanner::{
    categorize_path, category_totals, directory_listing, DiskInfo, EntryInfo, EntryKind, TopologyNode,
};

fn file(name: &str, size: u64) -> TopologyNode {
    TopologyNode::new_file(name.to_string(), format!("/r/{}", name), size)
}

fn dir(name: &str, children: Vec<TopologyNode>) -> TopologyNode {
    let mut d = TopologyNode::new_dir(name.to_string(), format!("/r/{}", name));
    d.children = children;
    d
}

fn row(name: &str, size: u64) -> (String, u64, u64, u64, bool) {
    (name.to_string(), size, 0, 0, false)
}

fn args(list: &[&str]) -> Vec<String> {
    let mut v = vec!["disk_scanner".to_string()];
    v.extend(list.iter().map(|s| s.to_string()));
    v
}

#[test]
fn categories_follow_name_parts() {
    assert_eq!(categorize_path("Caches"), "Cache");
    assert_eq!(categorize_path(".cache"), "Cache");
    assert_eq!(categorize_path("Library"), "System/Library");
    assert_eq!(categorize_path("node_modules"), "Node.js/npm");
    assert_eq!(categorize_path(".npm"), "Node.js/npm");
    assert_eq!(categorize_path("target"), "Rust/Cargo");
    assert_eq!(categorize_path(".cargo"), "Rust/Cargo");
    assert_eq!(categorize_path(".rustup"), "Rust/Cargo");
    assert_eq!(categorize_path("HuggingFace"), "ML Models");
    assert_eq!(categorize_path("models"), "ML Models");
    assert_eq!(categorize_path("mlx-data"), "ML Models");
    assert_eq!(categorize_path("my-tauri-app"), "Tauri Apps");
    assert_eq!(categorize_path(".config"), "Hidden/Config");
    assert_eq!(categorize_path("Documents"), "User Data");
    assert_eq!(categorize_path("Downloads"), "User Data");
    assert_eq!(categorize_path("src"), "Projects");
    assert_eq!(categorize_path(""), "Projects");
}

#[test]
fn categories_are_checked_in_order() {
    // "cache" is tested before "library" and before the leading dot.
    assert_eq!(categorize_path("Library/Caches"), "Cache");
    assert_eq!(categorize_path(".documents"), "Hidden/Config");
    assert_eq!(categorize_path("target-models"), "Rust/Cargo");
    assert_eq!(category_index_of_lowercase("caches"), 0);
    assert_eq!(category_index_of_lowercase("Caches"), 8);
    assert_eq!(category_of_lowercase("downloads"), "User Data");
}

#[test]
fn category_totals_group_and_sort() {
    let rows = vec![row("src", 10), row("Caches", 40), row("docs", 5), row(".cache", 30), row("Documents", 7)];
    let totals = category_totals(&rows);
    assert_eq!(totals, vec![("Cache", 70), ("Projects", 15), ("User Data", 7)]);
    let sum: u64 = totals.iter().map(|t| t.1).sum();
    let rows_sum: u64 = rows.iter().map(|r| r.1).sum();
    assert_eq!(sum, rows_sum);
}

#[test]
fn category_totals_of_no_rows() {
    assert!(category_totals(&Vec::new()).is_empty());
}

#[test]
fn tail_total_counts_the_rest() {
    let rows: Vec<_> = (1..=18u64).map(|i| row("x", i)).collect();
    assert_eq!(tail_total(&rows, 15), (3, Some(16 + 17 + 18)));
    assert_eq!(tail_total(&rows, 18), (0, Some(0)));
    assert_eq!(tail_total(&rows, 30), (0, Some(0)));
    let big = vec![row("a", 1), row("b", u64::MAX), row("c", 1)];
    assert_eq!(tail_total(&big, 1), (2, None));
}

#[test]
fn listing_turns_files_into_children() {
    let entries = vec![
        EntryInfo { name: "a".to_string(), path: "/d/a".to_string(), kind: EntryKind::File(10) },
        EntryInfo { name: "sub".to_string(), path: "/d/sub".to_string(), kind: EntryKind::Dir },
        EntryInfo { name: "link".to_string(), path: "/d/link".to_string(), kind: EntryKind::Other },
        EntryInfo { name: "b".to_string(), path: "/d/b".to_string(), kind: EntryKind::File(2048) },
        EntryInfo { name: "sub2".to_string(), path: "/d/sub2".to_string(), kind: EntryKind::Dir },
    ];
    assert!(listing_fits(&entries));
    let l = directory_listing("d".to_string(), "/d".to_string(), entries);
    assert_eq!(l.subdirs, vec![1, 4]);
    assert_eq!((l.bytes, l.files), (2058, 2));
    assert_eq!(l.node.children.len(), 2);
    assert_eq!(l.node.children[1].name, "b");
    assert_eq!(l.node.children[1].size_human, "2.00 KiB");
    assert!(l.node.is_dir && l.node.dir_count == 1 && l.node.size == 0);
}

#[test]
fn listing_fits_detects_overflow() {
    let entries = vec![
        EntryInfo { name: "a".to_string(), path: "/a".to_string(), kind: EntryKind::File(u64::MAX) },
        EntryInfo { name: "b".to_string(), path: "/b".to_string(), kind: EntryKind::File(1) },
    ];
    assert!(!listing_fits(&entries));
}

#[test]
fn checked_totals_and_buckets() {
    let t = dir("root", vec![file("a", 100), dir("sub", vec![file("b", 50)])]);
    assert!(has_no_buckets(&t));
    assert_eq!(checked_totals(&t), Some((150, 2, 2)));
    let big = dir("root", vec![file("a", u64::MAX), file("b", 1)]);
    assert_eq!(checked_totals(&big), None);
    let with_bucket = dir("root", vec![TopologyNode::new_aggregated("[x]".to_string(), 5, 2, 2, 0)]);
    assert!(!has_no_buckets(&with_bucket));
}

#[test]
fn disk_info_from_blocks() {
    let d = DiskInfo::from_blocks(4096, 1000, 300, 400);
    assert_eq!((d.total_capacity, d.available, d.used), (4_096_000, 1_228_800, 2_457_600));
    assert_eq!(d.total_human, "3.91 MiB");
    assert!(DiskInfo::checked_from_blocks(4096, 10, 2, 11).is_none());
    assert!(DiskInfo::checked_from_blocks(u64::MAX, 2, 0, 0).is_none());
    let c = DiskInfo::checked_from_blocks(512, 8, 4, 2).unwrap();
    assert_eq!((c.total_capacity, c.available, c.used), (4096, 2048, 3072));
}

#[test]
fn arguments_are_read_in_order() {
    match parse_args(&args(&["-t", "1G", "-d", "3", "-j", "-c", "-w", "16", "/data"])) {
        CliCommand::Run(o) => {
            assert_eq!(o.threshold, 1024 * 1024 * 1024);
            assert_eq!(o.max_depth, 3);
            assert!(o.json && o.counts && !o.report);
            assert_eq!(o.workers, 16);
            assert_eq!(o.path.as_deref(), Some("/data"));
            assert!(o.coverage.is_none() && o.html.is_none());
        },
        CliCommand::Help => panic!("help not asked for"),
    }
}

#[test]
fn arguments_defaults_and_bad_values() {
    match parse_args(&args(&[])) {
        CliCommand::Run(o) => {
            assert_eq!((o.threshold, o.max_depth, o.workers), (DEFAULT_THRESHOLD, DEFAULT_MAX_DEPTH, 12));
            assert!(o.path.is_none());
        },
        CliCommand::Help => panic!("help not asked for"),
    }
    match parse_args(&args(&["-t", "lots", "-d", "x", "-w", "-1", "--unknown", "-p", "95", "--html", "out.html", "-r"])) {
        CliCommand::Run(o) => {
            assert_eq!((o.threshold, o.max_depth, o.workers), (DEFAULT_THRESHOLD, DEFAULT_MAX_DEPTH, 12));
            assert_eq!(o.coverage.as_deref(), Some("95"));
            assert_eq!(o.html.as_deref(), Some("out.html"));
            assert!(o.report);
            assert!(o.path.is_none());
        },
        CliCommand::Help => panic!("help not asked for"),
    }
    match parse_args(&args(&["/a", "/b", "-d"])) {
        CliCommand::Run(o) => {
            assert_eq!(o.path.as_deref(), Some("/b"));
            assert_eq!(o.max_depth, DEFAULT_MAX_DEPTH);
        },
        CliCommand::Help => panic!("help not asked for"),
    }
}

#[test]
fn help_stops_reading() {
    assert!(matches!(parse_args(&args(&["-j", "--help", "-t"])), CliCommand::Help));
    assert!(matches!(parse_args(&args(&["-h"])), CliCommand::Help));
    // A flag's value is never read as a flag.
    assert!(matches!(parse_args(&args(&["--html", "-h"])), CliCommand::Run(_)));
}

#[test]
fn depth_settings() {
    assert_eq!(effective_depth(true, DEFAULT_MAX_DEPTH), 0);
    assert_eq!(effective_depth(true, 6), 6);
    assert_eq!(effective_depth(false, DEFAULT_MAX_DEPTH), DEFAULT_MAX_DEPTH);
    assert_eq!(depth_label(true, 3), "unlimited (HTML)");
    assert_eq!(depth_label(false, 0), "unlimited");
    assert_eq!(depth_label(false, 12), "12");
}

#[test]
fn tree_rows_draw_the_tree() {
    let mut t = dir("root", vec![file("a", 100), dir("sub", vec![file("b", 50), file("c", 30)])]);
    t.calculate_size();
    t.calculate_counts();
    let rows = t.tree_rows("");
    let leads: Vec<&str> = rows.iter().map(|r| r.lead.as_str()).collect();
    assert_eq!(leads, vec!["├── ", "└── ", "    ├── ", "    └── "]);
    let names: Vec<&str> = rows.iter().map(|r| r.name.as_str()).collect();
    assert_eq!(names, vec!["a", "sub", "b", "c"]);
    assert_eq!(rows[1].indicator, "📁");
    assert_eq!(rows[0].indicator, "📄");
    assert_eq!((rows[0].parent_size, rows[2].parent_size), (180, 80));
    assert!(rows[1].shows_counts && !rows[0].shows_counts);
    let nested = t.tree_rows("│ ");
    assert_eq!(nested[3].lead, "│     └── ");
}

#[test]
fn bucket_rows_use_the_diamond() {
    let mut t = dir("root", vec![file("a", 100), file("b", 1)]);
    t.calculate_size();
    t.apply_threshold(50);
    let rows = t.tree_rows("");
    assert_eq!(rows[1].indicator, "◆");
    assert!(rows[1].shows_counts);
}

#[test]
fn compact_threshold_names() {
    let mut t = dir("root", vec![file("tiny", 5), file("huge", 200 * 1024 * 1024)]);
    t.calculate_size();
    t.calculate_counts();
    t.apply_threshold_with(100 * 1024 * 1024, &SizeText::Compact);
    assert_eq!(t.children[1].name, "[1 items below 100 MiB]");
    let mut u = dir("root", vec![file("tiny", 5)]);
    u.calculate_size();
    u.apply_threshold_with(1536, &SizeText::Compact);
    assert_eq!(u.children[0].name, "[1 items below 1.50 KiB]");
}

#[test]
fn json_size_human_comes_from_humansize() {
    let f = file("z", 1024);
    assert!(f.to_json(0).contains("\"size_human\": \"1 KiB\""));
}

#[test]
fn indentation_check() {
    let t = dir("root", vec![dir("a", vec![file("b", 1)])]);
    assert!(indent_fits_exec(&t, 0));
    assert!(!indent_fits_exec(&t, usize::MAX - 3));
    assert!(indent_fits_exec(&file("x", 1), usize::MAX - 2));
    assert!(!indent_fits_exec(&file("x", 1), usize::MAX - 1));
}

#[test]
fn names_are_cut_or_padded_to_twenty() {
    assert_eq!(display_name("short"), format!("{:<20}", "short"));
    assert_eq!(display_name("abcdefghijklmnopqrst"), "abcdefghijklmnopqrst");
    assert_eq!(display_name("abcdefghijklmnopqrstu"), "abcdefghijklmnopqrs…");
    let accented = "a\u{e9}\u{e9}\u{e9}\u{e9}\u{e9}\u{e9}\u{e9}\u{e9}\u{e9}\u{e9}";
    assert_eq!(accented.len(), 21);
    assert_eq!(display_name(accented), format!("{}…", &accented[..19]));
    let ten = "\u{e9}\u{e9}\u{e9}\u{e9}\u{e9}\u{e9}\u{e9}\u{e9}\u{e9}\u{e9}";
    assert_eq!(display_name(ten), format!("{:<20}", ten));
    assert_eq!(display_name(ten).chars().count(), 20);
}

#[test]
fn long_paths_keep_their_end() {
    assert_eq!(shortened_path("/short/path"), "/short/path");
    let fifty = "a".repeat(50);
    assert_eq!(shortened_path(&fifty), fifty);
    let long = format!("/very/long/prefix/{}", "b".repeat(60));
    let shown = shortened_path(&long);
    assert_eq!(shown, format!("...{}", &long[long.len() - 47..]));
    assert_eq!(shown.len(), 50);
}

#[test]
fn category_totals_need_only_each_category_to_fit() {
    let rows = vec![row("src", u64::MAX - 1), row("Caches", 10)];
    assert_eq!(category_totals(&rows), vec![("Projects", u64::MAX - 1), ("Cache", 10)]);
}
