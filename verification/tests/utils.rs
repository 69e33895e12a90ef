use finlibs::envs::{
    default_path_cache, default_path_diffout, default_path_out, default_prefix_diff,
    default_prefix_stocklist, default_suffix, init_envs,
};
use finlibs::settings::{canonicalize, Settings};
use finlibs::stamp::stamp_precedes;
use finlibs::text::{chars_of, contains, lines, precedes, replace_char, same_text};
use finlibs::utils::{absolute_path, change_extension, formatted_timestamp, stamped_name};

#[test]
fn test_ts() {
    println!("{}", formatted_timestamp());
}

#[test]
fn time_stamp_is_made_of_digits() {
    let ts = formatted_timestamp();
    assert_ne!(ts, "%Y%m%d%H%M%S");
    assert_eq!(ts.len(), 14);
    assert!(ts.chars().all(|c| c.is_ascii_digit()));
}

#[test]
fn stamped_name_joins_prefix_stamp_and_suffix() {
    assert_eq!(stamped_name("stocks", "20221031102807", ".txt"), "stocks20221031102807.txt");
    assert_eq!(stamped_name("diff", "20221106092936", ".txt"), "diff20221106092936.txt");
    assert_eq!(stamped_name("", "", ""), "");
}

#[test]
fn change_extension_replaces_the_extension() {
    assert_eq!(change_extension("symbol_cache.json", "bak"), "symbol_cache.bak");
    assert_eq!(
        change_extension("./cache_dir/symbol_cache.json", "20221031102807.json"),
        "./cache_dir/symbol_cache.20221031102807.json"
    );
    assert_eq!(
        change_extension("C:\\temp\\symbol_cache.json", "20221031102807.json"),
        "C:\\temp\\symbol_cache.20221031102807.json"
    );
    assert_eq!(change_extension("archive.tar.gz", "zip"), "archive.tar.zip");
    assert_eq!(change_extension("name.", "txt"), "name.txt");
    assert_eq!(change_extension("a.b/c.d", "e"), "a.b/c.e");
}

#[test]
fn change_extension_leaves_a_path_without_extension() {
    assert_eq!(change_extension("symbol_cache", "bak"), "symbol_cache");
    assert_eq!(change_extension("dir.d/symbol_cache", "bak"), "dir.d/symbol_cache");
    assert_eq!(change_extension(".hidden", "bak"), ".hidden");
    assert_eq!(change_extension("dir/.hidden", "bak"), "dir/.hidden");
    assert_eq!(change_extension("..", "bak"), "..");
    assert_eq!(change_extension("dir/..", "bak"), "dir/..");
    assert_eq!(change_extension("dir.d/", "bak"), "dir.d/");
    assert_eq!(change_extension("", "bak"), "");
}

#[test]
fn change_extension_to_nothing_drops_the_dot() {
    assert_eq!(change_extension("symbol_cache.json", ""), "symbol_cache");
    assert_eq!(change_extension("...", "x"), "...x");
}

#[test]
fn absolute_path_cleans_an_absolute_path() {
    if cfg_unix() {
        assert_eq!(absolute_path("/a/./b/../c", "/somewhere"), "/a/c");
        assert_eq!(absolute_path("/", "/somewhere"), "/");
    }
}

#[test]
fn absolute_path_takes_a_relative_path_from_the_current_directory() {
    if cfg_unix() {
        assert_eq!(absolute_path("x/y", "/base"), "/base/x/y");
        assert_eq!(absolute_path("./cache_dir/symbol_cache.json", "/home/u"), "/home/u/cache_dir/symbol_cache.json");
        assert_eq!(absolute_path("../x", "/base/dir"), "/base/x");
        assert_eq!(absolute_path("", "/base"), "/base");
    }
}

fn cfg_unix() -> bool {
    std::path::MAIN_SEPARATOR == '/'
}

#[test]
fn canonicalize_makes_the_default_paths_absolute() {
    let settings = canonicalize(Settings::default(), "/home/u");
    assert_eq!(settings.vars.prefix_diff, "diff");
    assert_eq!(settings.vars.prefix_stocklist, "stocks");
    assert_eq!(settings.vars.suffix, ".txt");
    if cfg_unix() {
        assert_eq!(settings.paths.cache_file, "/home/u/cache_dir/symbol_cache.json");
        assert_eq!(settings.paths.output_path, "/home/u/stocks");
        assert_eq!(settings.paths.output_path_diff, "/home/u/diffs");
    }
}

#[test]
fn default_settings() {
    let settings = Settings::default();
    assert_eq!(settings.paths.cache_file, "./cache_dir/symbol_cache.json");
    assert_eq!(settings.paths.output_path, "./stocks");
    assert_eq!(settings.paths.output_path_diff, "./diffs");
    assert_eq!(settings.vars.prefix_diff, "diff");
    assert_eq!(settings.vars.prefix_stocklist, "stocks");
    assert_eq!(settings.vars.suffix, ".txt");
}

#[test]
fn default_configuration() {
    assert_eq!(default_path_cache(), "C:\\temp\\symbol_cache.json");
    assert_eq!(default_path_out(), "C:\\temp");
    assert_eq!(default_path_diffout(), "C:\\temp\\diffs");
    assert_eq!(default_prefix_stocklist(), "stocks");
    assert_eq!(default_prefix_diff(), "diff");
    assert_eq!(default_suffix(), ".txt");
    let config = init_envs(None, None, None, None, None, None);
    assert_eq!(config.cache_file, "C:\\temp\\symbol_cache.json");
    assert_eq!(config.output_path, "C:\\temp");
    assert_eq!(config.output_path_diff, "C:\\temp\\diffs");
    assert_eq!(config.prefix_stocklist, "stocks");
    assert_eq!(config.prefix_diff, "diff");
    assert_eq!(config.suffix, ".txt");
}

#[test]
fn configured_values_win_over_defaults() {
    let config = init_envs(
        Some(String::from("/var/cache.json")),
        None,
        Some(String::from("/var/diffs")),
        Some(String::from("list")),
        None,
        Some(String::from(".csv")),
    );
    assert_eq!(config.cache_file, "/var/cache.json");
    assert_eq!(config.output_path, "C:\\temp");
    assert_eq!(config.output_path_diff, "/var/diffs");
    assert_eq!(config.prefix_stocklist, "list");
    assert_eq!(config.prefix_diff, "diff");
    assert_eq!(config.suffix, ".csv");
}

#[test]
fn lines_are_split_at_line_feeds() {
    assert_eq!(lines(""), Vec::<String>::new());
    assert_eq!(lines("a"), vec!["a"]);
    assert_eq!(lines("a\n"), vec!["a"]);
    assert_eq!(lines("a\nb"), vec!["a", "b"]);
    assert_eq!(lines("a\r\nb\r\n"), vec!["a", "b"]);
    assert_eq!(lines("\n"), vec![""]);
    assert_eq!(lines("a\n\nb\n"), vec!["a", "", "b"]);
    assert_eq!(lines("a\rb\nc\r"), vec!["a\rb", "c\r"]);
    assert_eq!(lines("\r\n\r\n"), vec!["", ""]);
    for text in ["", "a", "a\n", "a\r\nb", "\n\n", "x\r", "ä\nö\r\n", "a\rb\nc\r"] {
        let expected: Vec<String> = text.lines().map(String::from).collect();
        assert_eq!(lines(text), expected);
    }
}

#[test]
fn contains_finds_a_run_of_characters() {
    assert!(contains("US0378331005error", "error"));
    assert!(contains("error:AAPL", "error"));
    assert!(contains("xxerrorxx", "error"));
    assert!(contains("anything", ""));
    assert!(contains("", ""));
    assert!(!contains("NASDAQ:AAPL", "error"));
    assert!(!contains("erro", "error"));
    assert!(!contains("err-or", "error"));
    assert!(!contains("", "error"));
    assert!(!contains("ERROR", "error"));
}

#[test]
fn text_order_is_that_of_strings() {
    let words = ["", "A", "AB", "B", "a", "NASDAQ:AAPL", "NASDAQ:AAPM", "NYSE:", "Ä", "z"];
    for a in words {
        for b in words {
            assert_eq!(precedes(&chars_of(a), &chars_of(b)), a < b);
            assert_eq!(same_text(a, b), a == b);
        }
    }
}

#[test]
fn replace_char_replaces_every_occurrence() {
    assert_eq!(replace_char("BRK-B", '-', '.'), "BRK.B");
    assert_eq!(replace_char("---", '-', '.'), "...");
    assert_eq!(replace_char("", '-', '.'), "");
    assert_eq!(replace_char("AAPL", '-', '.'), "AAPL");
}

#[test]
fn stamps_are_ordered_as_numbers() {
    assert!(stamp_precedes("20220911095127", "20221031102807"));
    assert!(!stamp_precedes("20221031102807", "20220911095127"));
    assert!(!stamp_precedes("20221031102807", "20221031102807"));
    assert!(stamp_precedes("9", "10"));
    assert!(!stamp_precedes("10", "9"));
    assert!(stamp_precedes("0", "1"));
    assert!(stamp_precedes("", "1"));
    assert!(!stamp_precedes("", "000"));
    assert!(!stamp_precedes("000", ""));
    assert!(stamp_precedes("0099", "100"));
    assert!(!stamp_precedes("100", "0099"));
    assert!(!stamp_precedes("00123", "123"));
    assert!(!stamp_precedes("123", "00123"));
    for a in 0u64..120 {
        for b in 0u64..120 {
            assert_eq!(stamp_precedes(&a.to_string(), &b.to_string()), a < b);
            assert_eq!(stamp_precedes(&format!("{:05}", a), &b.to_string()), a < b);
        }
    }
}
