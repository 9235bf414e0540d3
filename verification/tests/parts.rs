use loc_stats::bytes::{bytes_eq, continues_with, ends_with, starts_with};
use loc_stats::exclusion::{
    field_end, is_below, match_starts, parse_gitignore, parse_listing, strip_dot_slash,
    ExclusionContext, Pattern,
};
use loc_stats::get_stats::{get_file_lang, GetStatsOptions};
use loc_stats::langs::{extension_start, language_for_extension, Language};
use loc_stats::lines::{count_newlines, count_newlines_streamed};
use loc_stats::report::{column_widths, decimal_width, name_width, ranking};
use loc_stats::stats::{percent_hundredths, LangStat, Stats};
use loc_stats::walker::{child_path, decide, Visit, Walker};

fn pattern(anchored: bool, glob: &str) -> Pattern {
    Pattern { anchored, glob: glob.as_bytes().to_vec() }
}

#[test]
fn newlines_are_terminator_occurrences() {
    assert_eq!(count_newlines(b""), 0);
    assert_eq!(count_newlines(b"-- a\n -- b\n"), 2);
    assert_eq!(count_newlines(b"a\nb"), 1);
    assert_eq!(count_newlines(b"no terminator"), 0);
    assert_eq!(count_newlines(b"\n\n\n"), 3);
    assert_eq!(count_newlines(b"\r\n"), 1);
}

#[test]
fn streamed_count_adds_chunks() {
    let whole = b"one\ntwo\nthree\nfour";
    for cut in 0..=whole.len() {
        let first = count_newlines_streamed(0, &whole[..cut]).unwrap();
        let both = count_newlines_streamed(first, &whole[cut..]);
        assert_eq!(both, Some(3));
    }
    assert_eq!(count_newlines_streamed(usize::MAX, b"\n"), None);
    assert_eq!(count_newlines_streamed(usize::MAX, b"x"), Some(usize::MAX));
    assert_eq!(count_newlines_streamed(usize::MAX - 1, b"\n"), Some(usize::MAX));
}

#[test]
fn extension_is_what_follows_the_final_dot() {
    assert_eq!(extension_start(b"test.hs"), Some(5));
    assert_eq!(extension_start(b"a.tar.gz"), Some(6));
    assert_eq!(extension_start(b"dir.d/file"), None);
    assert_eq!(extension_start(b".profile"), None);
    assert_eq!(extension_start(b"dir/.profile"), None);
    assert_eq!(extension_start(b"dir/.profile.sh"), Some(13));
    assert_eq!(extension_start(b"name."), Some(5));
    assert_eq!(extension_start(b""), None);
    assert_eq!(extension_start(b"Makefile"), None);
}

#[test]
fn languages_by_extension() {
    assert_eq!(get_file_lang(b"test.hs"), Some(Language::Haskell));
    assert_eq!(get_file_lang(b"./a/a/main.rs"), Some(Language::Rust));
    assert_eq!(get_file_lang(b"1.bf"), Some(Language::Brainfuck));
    assert_eq!(get_file_lang(b"test2.js"), Some(Language::JavaScript));
    assert_eq!(get_file_lang(b"x.tar.py"), Some(Language::Python));
    assert_eq!(get_file_lang(b"main.RS"), None);
    assert_eq!(get_file_lang(b"main.rs.bak"), None);
    assert_eq!(get_file_lang(b"rs"), None);
    assert_eq!(get_file_lang(b".rs"), None);
    assert_eq!(get_file_lang(b"name."), None);
    assert_eq!(language_for_extension(b"hpp"), Some(Language::Cpp));
    assert_eq!(language_for_extension(b"yml"), Some(Language::Yaml));
    assert_eq!(language_for_extension(b""), None);
    assert_eq!(language_for_extension(b"r"), Some(Language::R));
    assert_eq!(language_for_extension(b"rss"), None);
}

#[test]
fn language_names() {
    assert_eq!(Language::Haskell.name(), "Haskell");
    assert_eq!(Language::Cpp.name(), "C++");
    assert_eq!(Language::CSharp.name(), "C#");
    assert_eq!(Language::JavaScript.name(), "JavaScript");
    assert_eq!(Language::Other.name(), "Other");
}

#[test]
fn share_formula() {
    assert_eq!(percent_hundredths(2, 3), 6666);
    assert_eq!(percent_hundredths(1, 3), 3333);
    assert_eq!(percent_hundredths(1, 1), 10000);
    assert_eq!(percent_hundredths(0, 0), 0);
    assert_eq!(percent_hundredths(0, 7), 0);
    assert_eq!(percent_hundredths(1, 8), 1250);
    assert_eq!(percent_hundredths(1, 100_000), 0);
    assert_eq!(percent_hundredths(usize::MAX, usize::MAX), 10000);
    assert_eq!(percent_hundredths(usize::MAX - 1, usize::MAX), 9999);
}

#[test]
fn record_and_finalize() {
    let mut stats = Stats::new();
    assert_eq!((stats.total_loc, stats.number_of_files, stats.by_lang.len()), (0, 0, 0));
    assert_eq!(stats.get(Language::Rust), None);
    stats.record(Language::Rust, 10);
    stats.record(Language::Go, 5);
    stats.record(Language::Rust, 0);
    stats.record(Language::Rust, 15);
    assert_eq!((stats.total_loc, stats.number_of_files, stats.by_lang.len()), (30, 4, 2));
    assert_eq!(stats.get(Language::Rust), Some(LangStat { loc: 25, percent_hundredths: 0 }));
    stats.finalize();
    assert_eq!(stats.get(Language::Rust), Some(LangStat { loc: 25, percent_hundredths: 8333 }));
    assert_eq!(stats.get(Language::Go), Some(LangStat { loc: 5, percent_hundredths: 1666 }));
    assert_eq!((stats.total_loc, stats.number_of_files, stats.by_lang.len()), (30, 4, 2));
    let fresh = Stats::default();
    assert_eq!((fresh.total_loc, fresh.number_of_files, fresh.by_lang.len()), (0, 0, 0));
    assert_eq!(LangStat::default(), LangStat { loc: 0, percent_hundredths: 0 });
}

#[test]
fn byte_string_comparisons() {
    assert!(bytes_eq(b"abc", b"abc"));
    assert!(!bytes_eq(b"abc", b"abd"));
    assert!(!bytes_eq(b"abc", b"ab"));
    assert!(bytes_eq(b"", b""));
    assert!(starts_with(b"abc", b"ab"));
    assert!(starts_with(b"abc", b""));
    assert!(!starts_with(b"ab", b"abc"));
    assert!(ends_with(b"abc", b"bc"));
    assert!(!ends_with(b"abc", b"ab"));
    assert!(!ends_with(b"c", b"bc"));
    assert!(continues_with(b"abcd", 1, b"bc"));
    assert!(!continues_with(b"abcd", 3, b"de"));
    assert!(continues_with(b"abcd", 4, b""));
}

#[test]
fn ignore_file_lines() {
    let patterns = parse_gitignore(b"/test2.js\n\n# this is a comment\n");
    assert_eq!(patterns.len(), 1);
    assert!(patterns[0].anchored);
    assert_eq!(patterns[0].glob, b"test2.js".to_vec());

    let patterns = parse_gitignore(b"target\n#x\n/build\n\n*.log");
    let read: Vec<(bool, Vec<u8>)> = patterns.into_iter().map(|p| (p.anchored, p.glob)).collect();
    assert_eq!(
        read,
        vec![(false, b"target".to_vec()), (true, b"build".to_vec()), (false, b"*.log".to_vec())]
    );
    assert!(parse_gitignore(b"").is_empty());
    assert!(parse_gitignore(b"\n\n\n").is_empty());
    let lone = parse_gitignore(b"/");
    assert_eq!(lone.len(), 1);
    assert!(lone[0].anchored && lone[0].glob.is_empty());
}

#[test]
fn glob_matching() {
    let mut first_only = vec![false; 7];
    first_only[0] = true;
    assert_eq!(match_starts(b"abc", b"abcdef"), first_only);
    assert_eq!(match_starts(b"abc", b"xabc"), vec![false, true, false, false, false]);
    assert_eq!(match_starts(b"", b"zz"), vec![true, true, true]);
    assert_eq!(match_starts(b"a*c", b"abbbc"), vec![true, false, false, false, false, false]);
    assert_eq!(match_starts(b"a*c", b"ac"), vec![true, false, false]);
    assert_eq!(match_starts(b"a*c", b"abbb"), vec![false; 5]);
    assert_eq!(match_starts(b"*.js", b"d/t.js"), vec![true, true, true, true, false, false, false]);
    assert_eq!(match_starts(b"*.js", b"d/t.hs"), vec![false; 7]);
    assert_eq!(match_starts(b"*", b""), vec![true]);
    assert_eq!(match_starts(b"a", b""), vec![false]);
    assert_eq!(match_starts(b"**", b"ab"), vec![true, true, true]);
    assert_eq!(match_starts(b"a*a*b", b"aaab"), vec![true, true, false, false, false]);
}

#[test]
fn many_wildcards_take_no_longer() {
    let text = vec![b'a'; 4000];
    let starts = match_starts(b"*a*a*a*a*a*a*a*a*a*a*a*a*a*a*a*a*b", &text);
    assert_eq!(starts, vec![false; 4001]);
    assert!(!pattern(false, "*a*a*a*a*a*a*a*a*a*a*a*a*a*a*a*a*b").matches(&text));
}

#[test]
fn anchored_and_floating_patterns() {
    assert!(pattern(true, "test2.js").matches(b"test2.js"));
    assert!(!pattern(true, "test2.js").matches(b"dir/test2.js"));
    assert!(pattern(false, "test2.js").matches(b"dir/test2.js"));
    assert!(pattern(true, "build").matches(b"build/out.o"));
    assert!(pattern(false, "target").matches(b"a/target/b.rs"));
    assert!(!pattern(false, "target").matches(b"a/targe/t.rs"));
    assert!(pattern(false, "*.log").matches(b"x/y.log"));
    assert!(!pattern(false, "").matches(b"anything"));
    assert!(!pattern(true, "").matches(b"anything"));
    assert!(!pattern(false, "abc").matches(b""));
}

#[test]
fn relative_names() {
    assert_eq!(strip_dot_slash(b"./a/b"), b"a/b");
    assert_eq!(strip_dot_slash(b"a/b"), b"a/b");
    assert_eq!(strip_dot_slash(b"."), b".");
    assert_eq!(strip_dot_slash(b"./"), b"");
    assert_eq!(strip_dot_slash(b".a"), b".a");
    assert!(is_below(b"a/b.rs", b"a"));
    assert!(is_below(b"a/b/c.rs", b"a/b"));
    assert!(!is_below(b"ab/c.rs", b"a"));
    assert!(!is_below(b"a", b"a"));
    assert!(!is_below(b"a/", b"a/b"));
}

#[test]
fn exclusion_strategies() {
    let on = GetStatsOptions::default();
    assert!(on.gitignore);
    let off = GetStatsOptions { gitignore: false };
    let listed: Vec<Vec<u8>> = vec![b"src/main.rs".to_vec(), b"./README.md".to_vec()];

    let indexed = ExclusionContext::build(&on, Some(listed.clone()), b"README.md\n");
    assert!(matches!(indexed, ExclusionContext::Indexed(_)));
    assert!(!indexed.excludes(b"./src/main.rs", false));
    assert!(!indexed.excludes(b"README.md", false));
    assert!(indexed.excludes(b"./new_file.rs", false));
    assert!(!indexed.excludes(b"./src", true));
    assert!(indexed.excludes(b"./target", true));
    assert!(indexed.excludes(b"./sr", true));
    assert!(!indexed.excludes(b".", true));

    let patterns = ExclusionContext::build(&on, None, b"/target\n*.log\n");
    assert!(matches!(patterns, ExclusionContext::Patterns(_)));
    assert!(patterns.excludes(b"./target", true));
    assert!(patterns.excludes(b"./a/b.log", false));
    assert!(!patterns.excludes(b"./src/target", true));
    assert!(!patterns.excludes(b"./src/main.rs", false));
    assert!(!patterns.excludes(b".", true));

    let none = ExclusionContext::build(&on, None, b"");
    assert!(!none.excludes(b"./anything", false));

    let disabled = ExclusionContext::build(&off, Some(listed), b"/target\n*\n");
    assert!(matches!(disabled, ExclusionContext::Disabled));
    assert!(!disabled.excludes(b"./target", true));
    assert!(!disabled.excludes(b"./new_file.rs", false));
    assert!(!disabled.excludes(b"./a/b.log", false));
}

#[test]
fn root_is_never_excluded() {
    let on = GetStatsOptions { gitignore: true };
    let everything = ExclusionContext::build(&on, None, b"*\n.\n");
    assert!(everything.excludes(b"./a", false));
    assert!(!everything.excludes(b".", true));
    assert!(!everything.excludes(b".", false));
    let nothing_listed = ExclusionContext::build(&on, Some(Vec::new()), b"");
    assert!(nothing_listed.excludes(b"./a", true));
    assert!(!nothing_listed.excludes(b".", true));
}

#[test]
fn decisions_of_the_walk() {
    let off = ExclusionContext::build(&GetStatsOptions { gitignore: false }, None, b"");
    let on = ExclusionContext::build(&GetStatsOptions { gitignore: true }, None, b"/target\n");
    assert_eq!(decide(&off, b"./.git", true), Visit::Skip);
    assert_eq!(decide(&off, b".git", true), Visit::Skip);
    assert_eq!(decide(&off, b"./sub/.git", true), Visit::Skip);
    assert_eq!(decide(&off, b"./.github", true), Visit::Descend);
    assert_eq!(decide(&off, b"./x.git", true), Visit::Descend);
    assert_eq!(decide(&off, b"./.git", false), Visit::Count);
    assert_eq!(decide(&on, b"./target", true), Visit::Skip);
    assert_eq!(decide(&on, b"./src", true), Visit::Descend);
    assert_eq!(decide(&on, b"./target.rs", false), Visit::Skip);
    assert_eq!(decide(&on, b"./main.rs", false), Visit::Count);
    assert_eq!(decide(&on, b".", true), Visit::Descend);
    assert_eq!(child_path(b".", b"src"), b"./src".to_vec());
    assert_eq!(child_path(b"./a", b""), b"./a/".to_vec());
}

#[test]
fn walk_of_a_deep_tree() {
    let filter = ExclusionContext::build(&GetStatsOptions { gitignore: true }, None, b"/skipped\n");
    let mut walker = Walker::new();
    let mut files: Vec<Vec<u8>> = Vec::new();
    let mut depth = 0;
    while let Some(dir) = walker.next_directory() {
        if depth == 0 {
            assert_eq!(walker.visit(&filter, &dir, b".git", true), None);
            assert_eq!(walker.visit(&filter, &dir, b"skipped", true), None);
            assert!(walker.is_done());
        }
        if depth < 200 {
            assert_eq!(walker.visit(&filter, &dir, b"a", true), None);
            assert!(!walker.is_done());
        } else if let Some(path) = walker.visit(&filter, &dir, b"main.rs", false) {
            files.push(path);
        }
        depth += 1;
    }
    assert!(walker.is_done());
    assert_eq!(walker.next_directory(), None);
    assert_eq!(depth, 201);
    assert_eq!(files.len(), 1);
    assert_eq!(files[0].len(), 1 + 200 * 2 + "/main.rs".len());
    assert!(files[0].starts_with(b"./a/a/a/"));
    assert!(files[0].ends_with(b"/a/main.rs"));
}

#[test]
fn ranking_by_falling_line_counts() {
    let mut stats = Stats::new();
    stats.record(Language::Go, 5);
    stats.record(Language::Rust, 100);
    stats.record(Language::C, 0);
    stats.record(Language::JavaScript, 1234);
    stats.record(Language::Go, 20);
    stats.finalize();
    let ranked: Vec<(Language, usize)> =
        ranking(&stats).into_iter().map(|e| (e.lang, e.stat.loc)).collect();
    assert_eq!(
        ranked,
        vec![
            (Language::JavaScript, 1234),
            (Language::Rust, 100),
            (Language::Go, 25),
            (Language::C, 0)
        ]
    );
    assert_eq!(column_widths(&stats), (10, 4));
    assert!(ranking(&Stats::new()).is_empty());
    assert_eq!(column_widths(&Stats::new()), (0, 0));
}

#[test]
fn widths_of_numbers_and_names() {
    assert_eq!(decimal_width(0), 1);
    assert_eq!(decimal_width(9), 1);
    assert_eq!(decimal_width(10), 2);
    assert_eq!(decimal_width(999), 3);
    assert_eq!(decimal_width(1_000_000), 7);
    assert_eq!(decimal_width(usize::MAX), format!("{}", usize::MAX).len());
    assert_eq!(name_width(Language::Rust), 4);
    assert_eq!(name_width(Language::Cpp), 3);
    assert_eq!(name_width(Language::Other), 5);
}

#[test]
fn listing_of_indexed_files() {
    let names = parse_listing(b"src/main.rs\0README.md\0\0a b\n.txt\0");
    assert_eq!(names, vec![b"src/main.rs".to_vec(), b"README.md".to_vec(), b"a b\n.txt".to_vec()]);
    assert_eq!(parse_listing(b"last"), vec![b"last".to_vec()]);
    assert!(parse_listing(b"").is_empty());
    assert!(parse_listing(b"\0\0").is_empty());
}

#[test]
fn fields_end_at_their_separator() {
    assert_eq!(field_end(b"ab\ncd", 0, b'\n'), 2);
    assert_eq!(field_end(b"ab\ncd", 2, b'\n'), 2);
    assert_eq!(field_end(b"ab\ncd", 3, b'\n'), 5);
    assert_eq!(field_end(b"ab\ncd", 5, b'\n'), 5);
    assert_eq!(field_end(b"", 0, 0), 0);
}
