use loc_stats::exclusion::ExclusionContext;
use loc_stats::get_stats::{
    accumulate, count_entry, get_stats_parallel, get_stats_sync, GetStatsOptions, LangStat,
    Language, PathEntry, Stats,
};
use loc_stats::lines::count_newlines;

fn file(path: &str, content: &str) -> PathEntry {
    PathEntry {
        path: path.as_bytes().to_vec(),
        is_dir: false,
        loc: count_newlines(content.as_bytes()),
    }
}

fn dir(path: &str) -> PathEntry {
    PathEntry { path: path.as_bytes().to_vec(), is_dir: true, loc: 0 }
}

fn rules(gitignore: bool, indexed: Option<Vec<&str>>, ignore_file: &str) -> ExclusionContext {
    let options = GetStatsOptions { gitignore };
    let indexed = indexed.map(|paths| paths.into_iter().map(|p| p.as_bytes().to_vec()).collect());
    ExclusionContext::build(&options, indexed, ignore_file.as_bytes())
}

fn sorted_langs(stats: &Stats) -> Vec<(String, LangStat)> {
    let mut langs: Vec<(String, LangStat)> =
        stats.by_lang.iter().map(|e| (e.lang.name().to_string(), e.stat)).collect();
    langs.sort_by(|a, b| a.0.cmp(&b.0));
    langs
}

#[test]
fn smoke_test() {
    let entries = vec![dir("."), file("./test.hs", "-- a\n -- b\n")];
    let stats = get_stats_parallel(&vec![entries], &rules(false, None, ""));
    assert_eq!(stats.total_loc, 2);
    assert_eq!(stats.number_of_files, 1);
    assert_eq!(
        sorted_langs(&stats),
        vec![("Haskell".to_string(), LangStat { loc: 2, percent_hundredths: 100 * 100 })]
    );
}

#[test]
fn deep_dir_tree() {
    let mut entries = vec![dir(".")];
    let mut path = String::from(".");
    for _ in 0..200 {
        path.push_str("/a");
        entries.push(dir(&path));
    }
    path.push_str("/main.rs");
    entries.push(file(&path, "// wowsers\n"));
    let stats = get_stats_parallel(&vec![entries], &rules(false, None, ""));
    assert_eq!(stats.total_loc, 1);
    assert_eq!(stats.number_of_files, 1);
    assert_eq!(
        sorted_langs(&stats),
        vec![("Rust".to_string(), LangStat { loc: 1, percent_hundredths: 100 * 100 })]
    );
}

#[test]
fn one_million_loc_codebase() {
    let content = ",.,.,.\n".repeat(10_000);
    let mut batches: Vec<Vec<PathEntry>> = vec![Vec::new(), Vec::new(), Vec::new()];
    for i in 1..=100 {
        batches[i % 3].push(file(&format!("./{}.bf", i), &content));
    }
    let stats = get_stats_parallel(&batches, &rules(false, None, ""));
    assert_eq!(stats.total_loc, 1_000_000);
    assert_eq!(stats.number_of_files, 100);
    assert_eq!(
        sorted_langs(&stats),
        vec![(
            "Brainfuck".to_string(),
            LangStat { loc: 1_000_000, percent_hundredths: 100 * 100 }
        )]
    );
}

#[test]
fn test_gitignore() {
    let entries = vec![
        file("./test.hs", "-- a\n-- b\n"),
        file("./test2.js", "// a\n// b\n"),
        file("./.gitignore", "/test2.js\n\n# this is a comment\n"),
    ];
    let ignore_file = "/test2.js\n\n# this is a comment\n";
    let filter = rules(true, Some(vec!["test.hs", "test2.js"]), ignore_file);
    let stats = get_stats_parallel(&vec![entries], &filter);
    assert_eq!(stats.total_loc, 4);
    assert_eq!(stats.number_of_files, 2);
    assert_eq!(
        sorted_langs(&stats),
        vec![
            ("Haskell".to_string(), LangStat { loc: 2, percent_hundredths: 50 * 100 }),
            ("JavaScript".to_string(), LangStat { loc: 2, percent_hundredths: 50 * 100 }),
        ]
    );
}

#[test]
fn gitignore_patterns_exclude_when_nothing_is_indexed() {
    let entries = vec![file("./test.hs", "-- a\n-- b\n"), file("./test2.js", "// a\n// b\n")];
    let filter = rules(true, None, "/test2.js\n\n# this is a comment\n");
    let stats = get_stats_sync(&entries, &filter);
    assert_eq!(stats.total_loc, 2);
    assert_eq!(stats.number_of_files, 1);
    assert_eq!(
        sorted_langs(&stats),
        vec![("Haskell".to_string(), LangStat { loc: 2, percent_hundredths: 10000 })]
    );
}

#[test]
fn disabling_exclusion_counts_ignored_files() {
    let entries = vec![file("./test.hs", "-- a\n-- b\n"), file("./test2.js", "// a\n// b\n")];
    let filter = rules(false, Some(vec!["test.hs"]), "/test2.js\n*.hs\n");
    let stats = get_stats_sync(&entries, &filter);
    assert_eq!(stats.total_loc, 4);
    assert_eq!(stats.number_of_files, 2);
    let half = LangStat { loc: 2, percent_hundredths: 5000 };
    assert_eq!(stats.get(Language::JavaScript), Some(half));
    assert_eq!(stats.get(Language::Haskell), Some(half));
}

#[test]
fn empty_directory_gives_empty_stats() {
    let stats = get_stats_sync(&vec![dir(".")], &rules(true, None, ""));
    assert_eq!(stats.total_loc, 0);
    assert_eq!(stats.number_of_files, 0);
    assert!(stats.by_lang.is_empty());
    let stats = get_stats_parallel(&Vec::new(), &rules(true, None, ""));
    assert_eq!(stats.total_loc, 0);
    assert_eq!(stats.number_of_files, 0);
    assert!(stats.by_lang.is_empty());
}

#[test]
fn files_without_lines_have_zero_share() {
    let entries = vec![file("a.rs", ""), file("b.py", "no terminator")];
    let stats = get_stats_sync(&entries, &rules(false, None, ""));
    assert_eq!(stats.total_loc, 0);
    assert_eq!(stats.number_of_files, 2);
    assert_eq!(stats.get(Language::Rust), Some(LangStat { loc: 0, percent_hundredths: 0 }));
    assert_eq!(stats.get(Language::Python), Some(LangStat { loc: 0, percent_hundredths: 0 }));
}

#[test]
fn shares_are_truncated_not_rounded() {
    let entries = vec![file("a.rs", "1\n2\n"), file("b.py", "1\n")];
    let stats = get_stats_sync(&entries, &rules(false, None, ""));
    assert_eq!(stats.total_loc, 3);
    assert_eq!(stats.get(Language::Rust), Some(LangStat { loc: 2, percent_hundredths: 6666 }));
    assert_eq!(stats.get(Language::Python), Some(LangStat { loc: 1, percent_hundredths: 3333 }));
    assert_eq!(stats.get(Language::Haskell), None);
}

#[test]
fn unknown_and_missing_extensions_are_other() {
    let entries = vec![file("Makefile", "all:\n"), file("x.qqq", "1\n2\n"), file(".profile", "\n")];
    let stats = get_stats_sync(&entries, &rules(false, None, ""));
    assert_eq!(stats.number_of_files, 3);
    assert_eq!(
        sorted_langs(&stats),
        vec![("Other".to_string(), LangStat { loc: 4, percent_hundredths: 10000 })]
    );
}

#[test]
fn total_is_the_sum_over_languages() {
    let entries = vec![
        file("a.rs", "1\n2\n3\n"),
        file("b.rs", "1\n"),
        file("c.hs", "1\n2\n"),
        dir("src"),
        file("src/d.js", "1\n2\n3\n4\n5\n"),
        file("README", "x\n"),
    ];
    let stats = get_stats_sync(&entries, &rules(false, None, ""));
    let sum: usize = stats.by_lang.iter().map(|e| e.stat.loc).sum();
    assert_eq!(stats.total_loc, 12);
    assert_eq!(sum, stats.total_loc);
    assert_eq!(stats.number_of_files, 5);
    assert_eq!(stats.get(Language::Rust).map(|s| s.loc), Some(4));
    assert_eq!(stats.get(Language::Rust).map(|s| s.percent_hundredths), Some(3333));
    assert_eq!(stats.get(Language::JavaScript).map(|s| s.percent_hundredths), Some(4166));
}

#[test]
fn order_and_split_do_not_change_the_result() {
    let texts = ["1\n", "1\n2\n", "1\n2\n3\n", "", "1\n2\n3\n4\n"];
    let names = ["a.rs", "b.hs", "c.rs", "d.py", "e.hs"];
    let forward: Vec<PathEntry> = (0..5).map(|i| file(names[i], texts[i])).collect();
    let backward: Vec<PathEntry> = (0..5).rev().map(|i| file(names[i], texts[i])).collect();
    let split: Vec<Vec<PathEntry>> = vec![
        vec![file(names[3], texts[3]), file(names[0], texts[0])],
        Vec::new(),
        vec![file(names[4], texts[4])],
        vec![file(names[2], texts[2]), file(names[1], texts[1])],
    ];
    let filter = rules(false, None, "");
    let one = get_stats_sync(&forward, &filter);
    let two = get_stats_sync(&backward, &filter);
    let three = get_stats_parallel(&split, &filter);
    assert_eq!(one.total_loc, 10);
    assert_eq!((one.total_loc, one.number_of_files), (two.total_loc, two.number_of_files));
    assert_eq!((one.total_loc, one.number_of_files), (three.total_loc, three.number_of_files));
    assert_eq!(sorted_langs(&one), sorted_langs(&two));
    assert_eq!(sorted_langs(&one), sorted_langs(&three));
    assert_eq!(one.get(Language::Haskell), Some(LangStat { loc: 6, percent_hundredths: 6000 }));
}

#[test]
fn accumulate_leaves_shares_for_finalize() {
    let mut stats = Stats::new();
    let filter = rules(false, None, "");
    accumulate(&mut stats, &vec![file("a.rs", "1\n"), file("b.hs", "1\n")], &filter);
    count_entry(&mut stats, &file("c.rs", "1\n2\n"), &filter);
    count_entry(&mut stats, &dir("d.rs"), &filter);
    assert_eq!(stats.total_loc, 4);
    assert_eq!(stats.number_of_files, 3);
    assert_eq!(stats.get(Language::Rust), Some(LangStat { loc: 3, percent_hundredths: 0 }));
    stats.finalize();
    assert_eq!(stats.get(Language::Rust), Some(LangStat { loc: 3, percent_hundredths: 7500 }));
    assert_eq!(stats.get(Language::Haskell), Some(LangStat { loc: 1, percent_hundredths: 2500 }));
}

#[test]
fn shares_add_up_to_nearly_one_hundred_percent() {
    let entries = vec![file("a.rs", "1\n"), file("b.hs", "1\n"), file("c.py", "1\n")];
    let stats = get_stats_sync(&entries, &rules(false, None, ""));
    let shares: u32 = stats.by_lang.iter().map(|e| e.stat.percent_hundredths).sum();
    assert_eq!(shares, 9999);
    assert!(shares <= 10000 && 10000 < shares + 3);
}
