use finlibs::cache::SymbolMap;
use finlibs::finance::{
    compare, compare_files, convert_exchange, convert_symbol, extract_filenames,
    find_highest_filename, isin_of, pending_lookups, request_symbol, request_symbol_cached,
    request_symbols, stocklist_text, unknown_exchange, DiffInputError, DiffOrder, Lookup, Quote,
    Response,
};
use std::path::Path;

fn quote(exchange: &str, symbol: &str) -> Quote {
    Quote { exchange: String::from(exchange), symbol: String::from(symbol) }
}

fn found(isin: &str, exchange: &str, symbol: &str) -> Response {
    Response { isin: String::from(isin), lookup: Lookup::Found(vec![quote(exchange, symbol)]) }
}

fn map_from(pairs: &[(&str, &str)]) -> SymbolMap {
    let mut map = SymbolMap::new();
    for (isin, symbol) in pairs {
        map.insert(String::from(*isin), String::from(*symbol));
    }
    map
}

fn sorted(mut v: Vec<String>) -> Vec<String> {
    v.sort();
    v
}

// A provider that counts how often it is asked.
fn ask_all(pending: &[String], calls: &mut usize) -> Vec<Response> {
    let mut responses = Vec::new();
    for isin in pending {
        *calls += 1;
        responses.push(found(isin, "NMS", "AAPL"));
    }
    responses
}

#[test]
fn symbols() {
    let in_vec: Vec<&str> = vec!["US0378331005", "US26856L1035", "US6304021057"];
    let r = request_symbols(in_vec, SymbolMap::new(), &Vec::new());
    assert_eq!(r.symbols.len(), 3);
    assert_eq!(r.symbols.get("US0378331005").unwrap(), "US0378331005error");
    assert_eq!(r.symbols.get("US26856L1035").unwrap(), "US26856L1035error");
    assert_eq!(r.symbols.get("US6304021057").unwrap(), "US6304021057error");
    assert_eq!(r.cache.len(), 0);
}

#[test]
fn test_convert_exchange() {
    //let res = convert_exchange("BLA");
    assert_eq!(convert_exchange("NMS"), "NASDAQ");
}

#[test]
fn test_regexp() {
    println!("{}", extract_filenames("stocks234.txt").unwrap());
    if "20221031102807".parse::<u64>().unwrap() > "20221030133844".parse::<u64>().unwrap() {
        println!(
            "Yes! {} {}",
            "20221031102807".parse::<u64>().unwrap(),
            "20221030133844".parse::<u64>().unwrap()
        )
    }
}

#[test]
fn test_compare() {
    let in_vec: Vec<&str> = vec!["stocks20221031102807.txt", "stocks20220911095127.txt"];
    find_highest_filename(&in_vec);
    let in_vec: Vec<&str> = vec!["stocks20220911095127.txt", "stocks20221031102807.txt"];
    find_highest_filename(&in_vec);
    println!("{:?}", Path::new("a").join("b"));
}

#[test]
fn test_compare_files() {
    let p_high = Path::new("C:\\temp\\stocks20221106092936.txt").to_path_buf();
    let p_low = Path::new("C:\\temp\\stocks20221106092935.txt").to_path_buf();
    let names: Vec<&str> = vec![p_high.to_str().unwrap(), p_low.to_str().unwrap()];
    assert_eq!(compare(&names), Ok(DiffOrder { newer: 0, older: 1 }));
    let report = compare_files("NASDAQ:AAPL\nNYSE:IBM\n", "NYSE:IBM\nAMEX:TELL\n");
    assert_eq!(report.new_entries, vec![String::from("NASDAQ:AAPL")]);
    assert_eq!(report.gone_entries, vec![String::from("AMEX:TELL")]);
}

#[test]
fn exchange_table() {
    assert_eq!(convert_exchange("BTS"), "AMEX");
    assert_eq!(convert_exchange("NCM"), "NASDAQ");
    assert_eq!(convert_exchange("NMS"), "NASDAQ");
    assert_eq!(convert_exchange("NGM"), "NASDAQ");
    assert_eq!(convert_exchange("NYQ"), "NYSE");
}

#[test]
fn unknown_exchange_is_an_error() {
    assert_eq!(convert_exchange("ZZZ"), "error");
    assert_eq!(convert_exchange(""), "error");
    assert_eq!(convert_exchange("nms"), "error");
    assert_eq!(convert_exchange("NMSX"), "error");
    let r = request_symbol("US0378331005", &Lookup::Found(vec![quote("ZZZ", "AAPL")]));
    assert_eq!(r.1, "error:AAPL");
    assert!(r.1.contains("error"));
}

#[test]
fn ticker_dashes_become_dots() {
    let mut symbol = String::from("BRK-B");
    convert_symbol(&mut symbol);
    assert_eq!(symbol, "BRK.B");
    let mut symbol = String::from("-A--B-");
    convert_symbol(&mut symbol);
    assert_eq!(symbol, ".A..B.");
    let r = request_symbol("US0846707026", &Lookup::Found(vec![quote("NYQ", "BRK-B")]));
    assert_eq!(r, (String::from("US0846707026"), String::from("NYSE:BRK.B")));
}

#[test]
fn request_symbol_takes_the_first_candidate() {
    let lookup = Lookup::Found(vec![quote("NMS", "AAPL"), quote("NYQ", "OTHER")]);
    let r = request_symbol("US0378331005", &lookup);
    assert_eq!(r, (String::from("US0378331005"), String::from("NASDAQ:AAPL")));
}

#[test]
fn request_symbol_without_candidate_is_an_error_symbol() {
    let r = request_symbol("US0378331005", &Lookup::Found(Vec::new()));
    assert_eq!(r, (String::from("US0378331005"), String::from("US0378331005error")));
    let r = request_symbol("US0378331005", &Lookup::Failed);
    assert_eq!(r, (String::from("US0378331005"), String::from("US0378331005error")));
}

#[test]
fn request_symbol_cached_prefers_the_cache() {
    let cache = map_from(&[("US0378331005", "NASDAQ:AAPL")]);
    let lookup = Lookup::Found(vec![quote("NYQ", "ELSE")]);
    let hit = request_symbol_cached("US0378331005", &cache, &lookup);
    assert_eq!(hit, (String::from("US0378331005"), String::from("NASDAQ:AAPL")));
    let miss = request_symbol_cached("US26856L1035", &cache, &lookup);
    assert_eq!(miss, (String::from("US26856L1035"), String::from("NYSE:ELSE")));
}

#[test]
fn isin_is_the_first_field_of_twelve_characters() {
    assert_eq!(isin_of("US0378331005"), Some(String::from("US0378331005")));
    assert_eq!(isin_of("US0378331005;Apple;1"), Some(String::from("US0378331005")));
    assert_eq!(isin_of("US0378331005;"), Some(String::from("US0378331005")));
    assert_eq!(isin_of("BAD"), None);
    assert_eq!(isin_of(""), None);
    assert_eq!(isin_of(";US0378331005"), None);
    assert_eq!(isin_of("US03783310055"), None);
    assert_eq!(isin_of("US037833100;5"), None);
    assert_eq!(isin_of("ÄÖÜ456789012"), Some(String::from("ÄÖÜ456789012")));
}

#[test]
fn end_to_end_example() {
    let lines: Vec<&str> = vec!["US0378331005", "BAD"];
    let cache = SymbolMap::new();
    let pending = pending_lookups(&lines, &cache);
    assert_eq!(pending, vec![String::from("US0378331005")]);
    let responses = vec![found("US0378331005", "NMS", "AAPL")];
    let r = request_symbols(lines, cache, &responses);
    assert_eq!(r.symbols.len(), 1);
    assert_eq!(r.symbols.get("US0378331005").unwrap(), "NASDAQ:AAPL");
    assert!(!r.symbols.contains_key("BAD"));
    assert_eq!(r.cache.len(), 1);
    assert_eq!(r.cache.get("US0378331005").unwrap(), "NASDAQ:AAPL");
}

#[test]
fn cached_identifier_is_never_asked() {
    let cache = map_from(&[("US0378331005", "NASDAQ:AAPL")]);
    let lines: Vec<&str> = vec!["US0378331005", "US0378331005;again"];
    let mut calls = 0;
    let pending = pending_lookups(&lines, &cache);
    let responses = ask_all(&pending, &mut calls);
    assert_eq!(calls, 0);
    let r = request_symbols(lines, cache, &responses);
    assert_eq!(r.symbols.len(), 1);
    assert_eq!(r.symbols.get("US0378331005").unwrap(), "NASDAQ:AAPL");
}

#[test]
fn each_missing_identifier_is_asked_once() {
    let cache = map_from(&[("US0378331005", "NASDAQ:AAPL")]);
    let lines: Vec<&str> =
        vec!["US26856L1035", "US0378331005", "short", "US6304021057;x", "US26856L1035;twice"];
    let mut calls = 0;
    let pending = pending_lookups(&lines, &cache);
    let responses = ask_all(&pending, &mut calls);
    assert_eq!(calls, 2);
    assert_eq!(pending, vec![String::from("US26856L1035"), String::from("US6304021057")]);
    let r = request_symbols(lines, cache, &responses);
    assert_eq!(r.symbols.len(), 3);
}

#[test]
fn errors_are_returned_but_not_cached() {
    let cache = map_from(&[("US0378331005", "NASDAQ:AAPL")]);
    let lines: Vec<&str> = vec!["US26856L1035", "US6304021057", "US0846707026", "US87968A1043"];
    let responses = vec![
        found("US26856L1035", "ZZZ", "EPR"),
        Response { isin: String::from("US6304021057"), lookup: Lookup::Failed },
        found("US0846707026", "NYQ", "BRK-B"),
    ];
    let r = request_symbols(lines, cache, &responses);
    assert_eq!(r.symbols.len(), 4);
    assert_eq!(r.symbols.get("US26856L1035").unwrap(), "error:EPR");
    assert_eq!(r.symbols.get("US6304021057").unwrap(), "US6304021057error");
    assert_eq!(r.symbols.get("US0846707026").unwrap(), "NYSE:BRK.B");
    assert_eq!(r.symbols.get("US87968A1043").unwrap(), "US87968A1043error");
    assert_eq!(r.cache.len(), 2);
    assert_eq!(r.cache.get("US0378331005").unwrap(), "NASDAQ:AAPL");
    assert_eq!(r.cache.get("US0846707026").unwrap(), "NYSE:BRK.B");
    for record in finlibs::cache::sort_map(r.cache) {
        assert!(!record.symbol.contains("error"));
    }
}

#[test]
fn first_response_for_an_identifier_counts() {
    let lines: Vec<&str> = vec!["US0378331005"];
    let responses =
        vec![found("US0378331005", "NMS", "AAPL"), found("US0378331005", "NYQ", "LATER")];
    let r = request_symbols(lines, SymbolMap::new(), &responses);
    assert_eq!(r.symbols.get("US0378331005").unwrap(), "NASDAQ:AAPL");
}

#[test]
fn fresh_resolution_does_not_replace_a_cache_hit() {
    let cache = map_from(&[("US0378331005", "NASDAQ:OLD")]);
    let lines: Vec<&str> = vec!["US0378331005"];
    let responses = vec![found("US0378331005", "NMS", "NEW")];
    let r = request_symbols(lines, cache, &responses);
    assert_eq!(r.symbols.get("US0378331005").unwrap(), "NASDAQ:OLD");
    assert_eq!(r.cache.get("US0378331005").unwrap(), "NASDAQ:OLD");
}

#[test]
fn empty_batch_resolves_to_nothing() {
    let r = request_symbols(Vec::new(), map_from(&[("A", "b")]), &Vec::new());
    assert_eq!(r.symbols.len(), 0);
    assert_eq!(r.cache.len(), 1);
    assert!(pending_lookups(&Vec::new(), &SymbolMap::new()).is_empty());
}

#[test]
fn extract_filenames_finds_the_digits_after_the_prefix() {
    assert_eq!(extract_filenames("stocks234.txt"), Some("234"));
    assert_eq!(extract_filenames("stocks20221031102807.txt"), Some("20221031102807"));
    assert_eq!(extract_filenames("my_stocks1stocks22.txt"), Some("1"));
    assert_eq!(extract_filenames("stocks.txt"), None);
    assert_eq!(extract_filenames("stock123.txt"), None);
    assert_eq!(extract_filenames("diff20221031102807.txt"), None);
    assert_eq!(extract_filenames(""), None);
}

#[test]
fn find_highest_filename_tells_the_later_file() {
    let in_vec: Vec<&str> = vec!["stocks20221031102807.txt", "stocks20220911095127.txt"];
    assert_eq!(find_highest_filename(&in_vec), 1);
    let in_vec: Vec<&str> = vec!["stocks20220911095127.txt", "stocks20221031102807.txt"];
    assert_eq!(find_highest_filename(&in_vec), -1);
    let in_vec: Vec<&str> = vec!["stocks20220911095127.txt", "a/stocks20220911095127.csv"];
    assert_eq!(find_highest_filename(&in_vec), 0);
}

#[test]
fn time_stamps_are_compared_as_numbers() {
    let in_vec: Vec<&str> = vec!["stocks9.txt", "stocks10.txt"];
    assert_eq!(find_highest_filename(&in_vec), -1);
    let in_vec: Vec<&str> = vec!["stocks100.txt", "stocks99.txt"];
    assert_eq!(find_highest_filename(&in_vec), 1);
    let in_vec: Vec<&str> = vec!["stocks007.txt", "stocks7.txt"];
    assert_eq!(find_highest_filename(&in_vec), 0);
    let in_vec: Vec<&str> = vec!["stocks0010.txt", "stocks9.txt"];
    assert_eq!(find_highest_filename(&in_vec), 1);
    let in_vec: Vec<&str> = vec!["stocks000.txt", "stocks0.txt"];
    assert_eq!(find_highest_filename(&in_vec), 0);
}

#[test]
fn compare_wants_exactly_two_files() {
    assert_eq!(compare(&Vec::new()), Err(DiffInputError::FileCount));
    assert_eq!(compare(&vec!["stocks1.txt"]), Err(DiffInputError::FileCount));
    assert_eq!(
        compare(&vec!["stocks1.txt", "stocks2.txt", "stocks3.txt"]),
        Err(DiffInputError::FileCount)
    );
}

#[test]
fn compare_wants_a_time_stamp_in_each_name() {
    assert_eq!(compare(&vec!["stocks1.txt", "notes.txt"]), Err(DiffInputError::Timestamp));
    assert_eq!(compare(&vec!["stocks.txt", "stocks2.txt"]), Err(DiffInputError::Timestamp));
    assert_eq!(compare(&vec!["a", "b"]), Err(DiffInputError::Timestamp));
}

#[test]
fn compare_goes_by_the_time_stamp_not_by_the_order_given() {
    let newer = "stocks20221031102807.txt";
    let older = "stocks20220911095127.txt";
    assert_eq!(compare(&vec![newer, older]), Ok(DiffOrder { newer: 0, older: 1 }));
    assert_eq!(compare(&vec![older, newer]), Ok(DiffOrder { newer: 1, older: 0 }));
    assert_eq!(compare(&vec![older, older]), Ok(DiffOrder { newer: 0, older: 1 }));
}

#[test]
fn compare_is_symmetric() {
    let files = [
        ("stocks20221031102807.txt", "A\nB\nC\nB\n"),
        ("stocks20220911095127.txt", "B\nD\nD\nE"),
    ];
    let forward: Vec<&str> = vec![files[0].0, files[1].0];
    let backward: Vec<&str> = vec![files[1].0, files[0].0];
    let o1 = compare(&forward).unwrap();
    let o2 = compare(&backward).unwrap();
    let fwd = [files[0], files[1]];
    let bwd = [files[1], files[0]];
    let r1 = compare_files(fwd[o1.newer].1, fwd[o1.older].1);
    let r2 = compare_files(bwd[o2.newer].1, bwd[o2.older].1);
    assert_eq!(r1.new_entries, vec![String::from("A"), String::from("C")]);
    assert_eq!(r1.gone_entries, vec![String::from("D"), String::from("E")]);
    assert_eq!(sorted(r1.new_entries), sorted(r2.new_entries));
    assert_eq!(sorted(r1.gone_entries), sorted(r2.gone_entries));
}

#[test]
fn compare_files_takes_each_file_as_a_set_of_lines() {
    let report = compare_files("X\nX\nY\r\nZ\n\nX", "Y\nW\nW\n");
    assert_eq!(report.new_entries, vec![String::from("X"), String::from("Z"), String::from("")]);
    assert_eq!(report.gone_entries, vec![String::from("W")]);
    let same = compare_files("A\nB\n", "B\nA");
    assert!(same.new_entries.is_empty());
    assert!(same.gone_entries.is_empty());
    let empty = compare_files("", "");
    assert!(empty.new_entries.is_empty());
    assert!(empty.gone_entries.is_empty());
}

#[test]
fn report_contents_have_both_headings() {
    let report = compare_files("NASDAQ:AAPL\nNYSE:IBM\nNYSE:GE\n", "NYSE:IBM\nAMEX:TELL\n");
    assert_eq!(report.contents(), "###NEW\nNASDAQ:AAPL\nNYSE:GE\n###GONE\nAMEX:TELL\n");
    let nothing = compare_files("A\n", "A\n");
    assert_eq!(nothing.contents(), "###NEW\n###GONE\n");
}

#[test]
fn stocklist_has_one_symbol_per_identifier_line() {
    let map = map_from(&[("US0378331005", "NASDAQ:AAPL"), ("US0846707026", "NYSE:BRK.B")]);
    let lines: Vec<&str> =
        vec!["US0846707026", "BAD", "US0378331005", "US0378331005;Apple", "US6304021057", "US0846707026"];
    assert_eq!(stocklist_text(&lines, &map), "NYSE:BRK.B\nNASDAQ:AAPL\nNYSE:BRK.B\n");
    assert_eq!(stocklist_text(&Vec::new(), &map), "");
}

#[test]
fn unknown_exchange_is_reported() {
    let unknown = Lookup::Found(vec![quote("ZZZ", "AAPL"), quote("NMS", "AAPL")]);
    assert_eq!(unknown_exchange(&unknown), Some(&String::from("ZZZ")));
    let known = Lookup::Found(vec![quote("NMS", "AAPL"), quote("ZZZ", "AAPL")]);
    assert_eq!(unknown_exchange(&known), None);
    assert_eq!(unknown_exchange(&Lookup::Found(Vec::new())), None);
    assert_eq!(unknown_exchange(&Lookup::Failed), None);
}
