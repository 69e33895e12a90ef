//! Resolution of identifiers into symbols, and the comparison of two
//! exported symbol lists.

use crate::cache::{
    error_free, is_error_symbol, lemma_merge_error_free, merge_map, merged, SymbolMap,
};
use crate::stamp::{lemma_stamp_less_asymmetric, stamp_less, stamp_precedes};
use crate::text::{
    chars_of, first_field, lines, lines_of, occurs_at, replace_char, replaced, same_text, scan_to,
    string_of, texts,
};
use vstd::prelude::*;
use vstd::string::StringExecFns;

verus! {

/// The name of the exchange that the provider calls `code`; `error` for a
/// code that the table does not hold.
pub open spec fn exchange_name(code: Seq<char>) -> Seq<char> {
    if code == "BTS"@ {
        "AMEX"@
    } else if code == "NCM"@ || code == "NMS"@ || code == "NGM"@ {
        "NASDAQ"@
    } else if code == "NYQ"@ {
        "NYSE"@
    } else {
        "error"@
    }
}

/// The name of the exchange that the provider's code stands for.
pub fn convert_exchange(ex_in: &str) -> (ex_out: &'static str)
    ensures
        ex_out@ == exchange_name(ex_in@),
{
    if same_text(ex_in, "BTS") {
        "AMEX"
    } else if same_text(ex_in, "NCM") || same_text(ex_in, "NMS") || same_text(ex_in, "NGM") {
        "NASDAQ"
    } else if same_text(ex_in, "NYQ") {
        "NYSE"
    } else {
        "error"
    }
}

/// The ticker as it stands in a symbol: every `-` is a `.`.
pub open spec fn ticker_text(ticker: Seq<char>) -> Seq<char> {
    replaced(ticker, '-', '.')
}

/// Turns every `-` of the ticker into a `.`.
pub fn convert_symbol(symbol: &mut String)
    ensures
        final(symbol)@ == ticker_text(old(symbol)@),
{
    let converted = replace_char(symbol.as_str(), '-', '.');
    *symbol = converted;
}

/// One candidate of the provider's answer: where a security trades, and
/// under which ticker.
#[derive(Clone, Debug)]
pub struct Quote {
    pub exchange: String,
    pub symbol: String,
}

/// What came of asking the provider for one identifier.
#[derive(Clone, Debug)]
pub enum Lookup {
    /// The call failed or ran out of time.
    Failed,
    /// The provider answered with these candidates, which may be none.
    Found(Vec<Quote>),
}

/// The provider's outcome for one identifier.
#[derive(Clone, Debug)]
pub struct Response {
    pub isin: String,
    pub lookup: Lookup,
}

/// The candidate that counts: the first one, as (exchange code, ticker).
pub open spec fn first_candidate(lookup: Lookup) -> Option<(Seq<char>, Seq<char>)> {
    match lookup {
        Lookup::Failed => None,
        Lookup::Found(quotes) => if quotes@.len() == 0 {
            None
        } else {
            Some((quotes@[0].exchange@, quotes@[0].symbol@))
        },
    }
}

/// The symbol that a lookup gives for `isin`: `EXCHANGE:TICKER` of the
/// candidate, or the identifier followed by `error` where there is none.
pub open spec fn looked_up(isin: Seq<char>, candidate: Option<(Seq<char>, Seq<char>)>) -> Seq<char> {
    match candidate {
        None => isin + "error"@,
        Some((exchange, ticker)) => exchange_name(exchange) + ":"@ + ticker_text(ticker),
    }
}

/// The identifier and symbol for one identifier that the cache did not
/// hold, from the provider's outcome.
pub fn request_symbol(isin: &str, lookup: &Lookup) -> (r: (String, String))
    ensures
        r.0@ == isin@,
        r.1@ == looked_up(isin@, first_candidate(*lookup)),
{
    match lookup {
        Lookup::Found(quotes) => {
            if quotes.len() > 0 {
                let entry = &quotes[0];
                let exchange = convert_exchange(entry.exchange.as_str());
                let mut symbol = entry.symbol.clone();
                convert_symbol(&mut symbol);
                let mut combo = String::from_str(exchange);
                combo.append(":");
                combo.append(symbol.as_str());
                return (String::from_str(isin), combo);
            }
        },
        Lookup::Failed => {},
    }
    let mut failed = String::from_str(isin);
    failed.append("error");
    (String::from_str(isin), failed)
}

/// The exchange code of the candidate that counts, where the table does
/// not hold it: what there is to report of a lookup besides its symbol.
pub open spec fn unknown_code(lookup: Lookup) -> Option<Seq<char>> {
    match first_candidate(lookup) {
        Some((exchange, ticker)) => if exchange_name(exchange) == "error"@ {
            Some(exchange)
        } else {
            None
        },
        None => None,
    }
}

/// The exchange code that a lookup came with and that the table does not
/// hold, if there is one.
pub fn unknown_exchange(lookup: &Lookup) -> (r: Option<&String>)
    ensures
        match r {
            Some(code) => unknown_code(*lookup) == Some(code@),
            None => unknown_code(*lookup) is None,
        },
{
    match lookup {
        Lookup::Found(quotes) => {
            if quotes.len() > 0 && same_text(convert_exchange(quotes[0].exchange.as_str()), "error") {
                Some(&quotes[0].exchange)
            } else {
                None
            }
        },
        Lookup::Failed => None,
    }
}

/// The provider's candidate for `isin` among the responses: that of the
/// first response for it; none where no response is for it.
pub open spec fn answer_for(responses: Seq<Response>, isin: Seq<char>) -> Option<
    (Seq<char>, Seq<char>),
>
    decreases responses.len(),
{
    if responses.len() == 0 {
        None
    } else if responses[0].isin@ == isin {
        first_candidate(responses[0].lookup)
    } else {
        answer_for(responses.drop_first(), isin)
    }
}

/// The symbol of `isin`: the cached one where the cache holds it, else the
/// one looked up.
pub open spec fn symbol_of(
    isin: Seq<char>,
    cache: Map<Seq<char>, Seq<char>>,
    responses: Seq<Response>,
) -> Seq<char> {
    if cache.contains_key(isin) {
        cache[isin]
    } else {
        looked_up(isin, answer_for(responses, isin))
    }
}

/// The identifier and symbol for one identifier: from the cache where it
/// holds the identifier, else from the provider's outcome.
pub fn request_symbol_cached(isin: &str, isin_cache: &SymbolMap, lookup: &Lookup) -> (r: (
    String,
    String,
))
    ensures
        r.0@ == isin@,
        r.1@ == if isin_cache@.contains_key(isin@) {
            isin_cache@[isin@]
        } else {
            looked_up(isin@, first_candidate(*lookup))
        },
{
    match isin_cache.get(isin) {
        Some(symbol) => (String::from_str(isin), symbol.clone()),
        None => request_symbol(isin, lookup),
    }
}

/// The length of an identifier, in characters.
pub const ISIN_LENGTH: usize = 12;

/// The identifier of an input line: its first field, the text before the
/// first `;`, where that has the length of an identifier.
pub open spec fn identifier_of(line: Seq<char>) -> Option<Seq<char>> {
    let token = first_field(line, ';');
    if token.len() == ISIN_LENGTH {
        Some(token)
    } else {
        None
    }
}

/// The identifier of an input line, if it has one.
pub fn isin_of(line: &str) -> (r: Option<String>)
    ensures
        match r {
            Some(isin) => identifier_of(line@) == Some(isin@),
            None => identifier_of(line@) is None,
        },
{
    let v = chars_of(line);
    assert(v@.skip(0) =~= v@);
    let end = scan_to(&v, 0, ';');
    if end == ISIN_LENGTH {
        let isin = string_of(&v, 0, end);
        assert(v@.subrange(0, end as int) =~= v@.take(end as int));
        Some(isin)
    } else {
        None
    }
}

/// The character sequences of a list of string slices.
pub open spec fn line_texts(v: Seq<&str>) -> Seq<Seq<char>> {
    Seq::new(v.len(), |i: int| v[i]@)
}

/// Whether some line has the identifier `k`.
pub open spec fn names(lines: Seq<Seq<char>>, k: Seq<char>) -> bool {
    exists|i: int| 0 <= i < lines.len() && identifier_of(#[trigger] lines[i]) == Some(k)
}

/// The outcome of resolving a batch of lines: a symbol for each identifier
/// that a line has, and for nothing else.
pub open spec fn resolution(
    lines: Seq<Seq<char>>,
    cache: Map<Seq<char>, Seq<char>>,
    responses: Seq<Response>,
) -> Map<Seq<char>, Seq<char>> {
    Map::new(|k: Seq<char>| names(lines, k), |k: Seq<char>| symbol_of(k, cache, responses))
}

fn listed(v: &Vec<String>, s: &String) -> (r: bool)
    ensures
        r == texts(v@).contains(s@),
{
    let mut i: usize = 0;
    while i < v.len()
        invariant
            i <= v.len(),
            forall|j: int| 0 <= j < i ==> texts(v@)[j] != s@,
        decreases v.len() - i,
    {
        if v[i] == *s {
            assert(texts(v@)[i as int] == s@);
            return true;
        }
        i += 1;
    }
    false
}

/// The identifiers that have to be asked of the provider: those of the
/// lines that the cache does not hold, each once, in the order in which
/// the lines first have them.
pub open spec fn missing(lines: Seq<Seq<char>>, cache: Map<Seq<char>, Seq<char>>) -> Seq<Seq<char>>
    decreases lines.len(),
{
    if lines.len() == 0 {
        Seq::empty()
    } else {
        let rest = missing(lines.drop_last(), cache);
        match identifier_of(lines.last()) {
            Some(k) => if cache.contains_key(k) || rest.contains(k) {
                rest
            } else {
                rest.push(k)
            },
            None => rest,
        }
    }
}

/// An identifier is asked of the provider exactly if a line has it and the
/// cache does not hold it, and no identifier is asked twice. So an
/// identifier that the cache holds is never asked.
pub proof fn lemma_missing(lines: Seq<Seq<char>>, cache: Map<Seq<char>, Seq<char>>)
    ensures
        missing(lines, cache).no_duplicates(),
        forall|k: Seq<char>|
            #![trigger names(lines, k)]
            missing(lines, cache).contains(k) <==> names(lines, k) && !cache.contains_key(k),
    decreases lines.len(),
{
    if lines.len() > 0 {
        let front = lines.drop_last();
        let rest = missing(front, cache);
        let all = missing(lines, cache);
        lemma_missing(front, cache);
        assert forall|k: Seq<char>| #![trigger names(lines, k)]
            all.contains(k) <==> names(lines, k) && !cache.contains_key(k) by {
            if names(lines, k) {
                let i = choose|i: int| 0 <= i < lines.len() && identifier_of(#[trigger] lines[i]) == Some(k);
                if i < front.len() {
                    assert(front[i] == lines[i]);
                }
            }
            if names(front, k) {
                let i = choose|i: int| 0 <= i < front.len() && identifier_of(#[trigger] front[i]) == Some(k);
                assert(lines[i] == front[i]);
            }
            if identifier_of(lines.last()) == Some(k) {
                assert(lines[lines.len() - 1] == lines.last());
            }
            if rest.contains(k) {
                let i = choose|i: int| 0 <= i < rest.len() && rest[i] == k;
                if all != rest {
                    assert(all[i] == k);
                }
            }
            if all != rest {
                assert(all[rest.len() as int] == identifier_of(lines.last()).unwrap());
                if all.contains(k) {
                    let i = choose|i: int| 0 <= i < all.len() && all[i] == k;
                    if i < rest.len() {
                        assert(rest[i] == k);
                    }
                }
            }
        }
    }
}

/// The identifiers that have to be asked of the provider: those of the
/// lines that the cache does not hold, each once. An identifier that the
/// cache holds is never among them.
pub fn pending_lookups(symbols: &Vec<&str>, isin_cache: &SymbolMap) -> (pending: Vec<String>)
    ensures
        texts(pending@) == missing(line_texts(symbols@), isin_cache@),
        texts(pending@).no_duplicates(),
        forall|k: Seq<char>|
            #![trigger names(line_texts(symbols@), k)]
            texts(pending@).contains(k) <==> names(line_texts(symbols@), k)
                && !isin_cache@.contains_key(k),
{
    let ghost lines = line_texts(symbols@);
    let mut pending: Vec<String> = Vec::new();
    let mut i: usize = 0;
    assert(lines.take(0) =~= Seq::empty());
    while i < symbols.len()
        invariant
            i <= symbols.len(),
            lines == line_texts(symbols@),
            texts(pending@) == missing(lines.take(i as int), isin_cache@),
        decreases symbols.len() - i,
    {
        let ghost before = texts(pending@);
        proof {
            let next = lines.take(i + 1);
            assert(next.drop_last() =~= lines.take(i as int));
            assert(next.last() == symbols@[i as int]@);
        }
        match isin_of(symbols[i]) {
            Some(isin) => {
                if !isin_cache.contains_key(isin.as_str()) && !listed(&pending, &isin) {
                    pending.push(isin);
                    assert(texts(pending@) =~= before.push(isin@));
                }
            },
            None => {},
        }
        i += 1;
    }
    proof {
        assert(lines.take(symbols.len() as int) =~= lines);
        lemma_missing(lines, isin_cache@);
        let out = texts(pending@);
        assert forall|k: Seq<char>| out.contains(k) implies names(lines, k)
            && !isin_cache@.contains_key(k) by {
            assert(missing(lines, isin_cache@).contains(k));
        }
        assert forall|k: Seq<char>| names(lines, k) && !isin_cache@.contains_key(k) implies out.contains(
            k,
        ) by {
            assert(missing(lines, isin_cache@).contains(k));
        }
    }
    pending
}

fn find_lookup<'a>(responses: &'a Vec<Response>, isin: &String) -> (r: Option<&'a Lookup>)
    ensures
        match r {
            Some(lookup) => answer_for(responses@, isin@) == first_candidate(*lookup),
            None => answer_for(responses@, isin@) is None,
        },
{
    let mut i: usize = 0;
    assert(responses@.skip(0) =~= responses@);
    while i < responses.len()
        invariant
            i <= responses.len(),
            answer_for(responses@, isin@) == answer_for(responses@.skip(i as int), isin@),
        decreases responses.len() - i,
    {
        assert(responses@.skip(i as int).drop_first() =~= responses@.skip(i + 1));
        if responses[i].isin == *isin {
            return Some(&responses[i].lookup);
        }
        i += 1;
    }
    None
}

/// What resolving a batch gives: the symbols of the batch, and the cache
/// as it is to be stored afterwards.
#[derive(Clone, Debug)]
pub struct Resolution {
    /// A symbol for each identifier of the batch, error symbols among them.
    pub symbols: SymbolMap,
    /// The cache with the symbols of the batch merged into it.
    pub cache: SymbolMap,
}

/// Resolves a batch of input lines. Each line that has an identifier gets
/// its symbol: the cached one where the cache holds the identifier, else
/// the one that the provider's response gives. An identifier without a
/// response counts as one whose lookup failed. Lines without an identifier
/// are passed over. The symbols of the batch that are no error symbols are
/// merged into the cache; a cache without error symbols stays without.
pub fn request_symbols(symbols: Vec<&str>, isin_cache: SymbolMap, responses: &Vec<Response>) -> (r:
    Resolution)
    ensures
        r.symbols@ == resolution(line_texts(symbols@), isin_cache@, responses@),
        r.cache@ == merged(isin_cache@, r.symbols@),
        error_free(isin_cache@) ==> error_free(r.cache@),
{
    let ghost lines = line_texts(symbols@);
    let mut map = SymbolMap::new();
    let mut i: usize = 0;
    assert(map@ =~= resolution(lines.take(0), isin_cache@, responses@));
    while i < symbols.len()
        invariant
            i <= symbols.len(),
            lines == line_texts(symbols@),
            map@ == resolution(lines.take(i as int), isin_cache@, responses@),
        decreases symbols.len() - i,
    {
        let ghost seen = lines.take(i as int);
        let ghost next = lines.take(i + 1);
        let ghost before = map@;
        proof {
            assert(next[i as int] == symbols@[i as int]@);
            assert forall|k: Seq<char>| names(seen, k) implies names(next, k) by {
                let a = choose|a: int| 0 <= a < seen.len() && identifier_of(#[trigger] seen[a]) == Some(k);
                assert(next[a] == seen[a]);
            }
            assert forall|k: Seq<char>| names(next, k) implies names(seen, k) || identifier_of(
                next[i as int],
            ) == Some(k) by {
                let a = choose|a: int| 0 <= a < next.len() && identifier_of(#[trigger] next[a]) == Some(k);
                if a < i {
                    assert(seen[a] == next[a]);
                }
            }
        }
        match isin_of(symbols[i]) {
            Some(isin) => {
                let failed = Lookup::Failed;
                let lookup = match find_lookup(responses, &isin) {
                    Some(l) => l,
                    None => &failed,
                };
                let resolved = request_symbol_cached(isin.as_str(), &isin_cache, lookup);
                map.insert(isin, resolved.1);
                assert(map@ =~= resolution(next, isin_cache@, responses@));
            },
            None => {
                assert(before =~= resolution(next, isin_cache@, responses@));
            },
        }
        i += 1;
    }
    assert(lines.take(symbols.len() as int) =~= lines);
    proof {
        if error_free(isin_cache@) {
            lemma_merge_error_free(isin_cache@, map@);
        }
    }
    let cache = merge_map(isin_cache, &map);
    Resolution { symbols: map, cache }
}

/// A lookup that gave no candidate, or one with an exchange that the table
/// does not hold, leaves an error symbol, which no merge takes into the
/// cache.
pub proof fn lemma_failed_lookup_is_error(isin: Seq<char>, candidate: Option<(Seq<char>, Seq<char>)>)
    requires
        candidate is None || exchange_name(candidate.unwrap().0) == "error"@,
    ensures
        is_error_symbol(looked_up(isin, candidate)),
{
    let symbol = looked_up(isin, candidate);
    reveal_strlit("error");
    match candidate {
        None => {
            assert(symbol.subrange(isin.len() as int, isin.len() as int + 5) =~= "error"@);
            assert(occurs_at(symbol, "error"@, isin.len() as int));
        },
        Some((exchange, ticker)) => {
            assert(symbol.subrange(0, 5) =~= "error"@);
            assert(occurs_at(symbol, "error"@, 0));
        },
    }
}

/// What `first_group` returns: the text that the first capture group of
/// `pattern` took in the leftmost match of `pattern` in `text`. There is
/// none where `pattern` is no valid expression, where nothing in `text`
/// matches it, or where the group took no part in the match.
pub uninterp spec fn regex_first_group(pattern: Seq<char>, text: Seq<char>) -> Option<Seq<char>>;

/// The characters of an optional string slice.
pub open spec fn option_text(o: Option<&str>) -> Option<Seq<char>> {
    match o {
        Some(s) => Some(s@),
        None => None,
    }
}

/// Searches `text` with the regular expression `pattern`, through
/// `regex::Regex::new`, `Regex::captures`, `Captures::get(1)` and
/// `Match::as_str`. The contract only gives the outcome its name: the same
/// pattern and text always give the same outcome.
#[verifier::external_body]
fn first_group<'a>(pattern: &str, text: &'a str) -> (r: Option<&'a str>)
    ensures
        option_text(r) == regex_first_group(pattern@, text@),
{
    match regex::Regex::new(pattern) {
        Ok(re) => match re.captures(text) {
            Some(caps) => match caps.get(1) {
                Some(m) => Some(m.as_str()),
                None => None,
            },
            None => None,
        },
        Err(_) => None,
    }
}

/// The expression that finds the time stamp in the name of an exported
/// list: the digits that follow `stocks`.
pub const TIMESTAMP_PATTERN: &'static str = "stocks(\\d+)";

/// The time stamp in the name of an exported list, if the name has one.
pub open spec fn filename_stamp(name: Seq<char>) -> Option<Seq<char>> {
    regex_first_group(TIMESTAMP_PATTERN@, name)
}

/// The time stamp in the name of an exported list: the digits that follow
/// `stocks`.
pub fn extract_filenames(text: &str) -> (r: Option<&str>)
    ensures
        option_text(r) == filename_stamp(text@),
{
    first_group(TIMESTAMP_PATTERN, text)
}

/// Which of two exported lists is the later one, by the time stamps in
/// their names: 1 for the first, -1 for the second, 0 where the stamps
/// are the same.
pub fn find_highest_filename(fn_vec: &Vec<&str>) -> (r: i8)
    requires
        fn_vec.len() == 2,
        filename_stamp(fn_vec[0]@) is Some,
        filename_stamp(fn_vec[1]@) is Some,
    ensures
        r == if stamp_less(filename_stamp(fn_vec[1]@).unwrap(), filename_stamp(fn_vec[0]@).unwrap()) {
            1int
        } else if stamp_less(
            filename_stamp(fn_vec[0]@).unwrap(),
            filename_stamp(fn_vec[1]@).unwrap(),
        ) {
            -1int
        } else {
            0int
        },
{
    let filename1 = extract_filenames(fn_vec[0]).unwrap();
    let filename2 = extract_filenames(fn_vec[1]).unwrap();
    if stamp_precedes(filename2, filename1) {
        1
    } else if stamp_precedes(filename1, filename2) {
        -1
    } else {
        0
    }
}

/// Why two files cannot be compared.
#[derive(Clone, Copy, Debug, PartialEq, Eq, Structural)]
pub enum DiffInputError {
    /// Not exactly two files were given.
    FileCount,
    /// The name of a file holds no time stamp.
    Timestamp,
}

/// Which of the two files given is the later export and which the earlier,
/// by their positions.
#[derive(Clone, Copy, Debug, PartialEq, Eq, Structural)]
pub struct DiffOrder {
    pub newer: usize,
    pub older: usize,
}

/// The order in which two files with these time stamps are compared: the
/// first is the later one unless its stamp is the earlier.
pub open spec fn order_of(stamp1: Seq<char>, stamp2: Seq<char>) -> DiffOrder {
    if stamp_less(stamp1, stamp2) {
        DiffOrder { newer: 1, older: 0 }
    } else {
        DiffOrder { newer: 0, older: 1 }
    }
}

/// Decides how two exported lists are compared, from their file names:
/// the one with the larger time stamp is the later one. Fails unless there
/// are exactly two names and each holds a time stamp.
pub fn compare(fn_vec: &Vec<&str>) -> (r: Result<DiffOrder, DiffInputError>)
    ensures
        match r {
            Ok(order) => {
                &&& fn_vec.len() == 2
                &&& filename_stamp(fn_vec[0]@) is Some
                &&& filename_stamp(fn_vec[1]@) is Some
                &&& order == order_of(
                    filename_stamp(fn_vec[0]@).unwrap(),
                    filename_stamp(fn_vec[1]@).unwrap(),
                )
            },
            Err(DiffInputError::FileCount) => fn_vec.len() != 2,
            Err(DiffInputError::Timestamp) => fn_vec.len() == 2 && (filename_stamp(fn_vec[0]@) is None
                || filename_stamp(fn_vec[1]@) is None),
        },
{
    if fn_vec.len() != 2 {
        return Err(DiffInputError::FileCount);
    }
    if extract_filenames(fn_vec[0]).is_none() || extract_filenames(fn_vec[1]).is_none() {
        return Err(DiffInputError::Timestamp);
    }
    if find_highest_filename(fn_vec) > -1 {
        proof {
            let stamp1 = filename_stamp(fn_vec[0]@).unwrap();
            let stamp2 = filename_stamp(fn_vec[1]@).unwrap();
            if stamp_less(stamp2, stamp1) {
                lemma_stamp_less_asymmetric(stamp2, stamp1);
            }
        }
        Ok(DiffOrder { newer: 0, older: 1 })
    } else {
        Ok(DiffOrder { newer: 1, older: 0 })
    }
}

/// The lines of `a` that `b` does not hold, each once, in the order in
/// which `a` first has them.
pub open spec fn only_in(a: Seq<Seq<char>>, b: Seq<Seq<char>>) -> Seq<Seq<char>>
    decreases a.len(),
{
    if a.len() == 0 {
        Seq::empty()
    } else {
        let rest = only_in(a.drop_last(), b);
        if b.contains(a.last()) || rest.contains(a.last()) {
            rest
        } else {
            rest.push(a.last())
        }
    }
}

/// `only_in(a, b)` holds a line exactly if `a` holds it and `b` does not,
/// and holds no line twice.
pub proof fn lemma_only_in(a: Seq<Seq<char>>, b: Seq<Seq<char>>)
    ensures
        only_in(a, b).no_duplicates(),
        forall|x: Seq<char>| only_in(a, b).contains(x) <==> a.contains(x) && !b.contains(x),
    decreases a.len(),
{
    if a.len() > 0 {
        let front = a.drop_last();
        let rest = only_in(front, b);
        lemma_only_in(front, b);
        assert forall|x: Seq<char>| only_in(a, b).contains(x) <==> a.contains(x) && !b.contains(
            x,
        ) by {
            if a.contains(x) {
                let i = choose|i: int| 0 <= i < a.len() && a[i] == x;
                if i < front.len() {
                    assert(front[i] == x);
                }
            }
            if front.contains(x) {
                let i = choose|i: int| 0 <= i < front.len() && front[i] == x;
                assert(a[i] == x);
            }
            if x == a.last() {
                assert(a[a.len() - 1] == x);
            }
            if rest.contains(x) {
                let i = choose|i: int| 0 <= i < rest.len() && rest[i] == x;
                if only_in(a, b) != rest {
                    assert(only_in(a, b)[i] == x);
                }
            }
            if only_in(a, b) != rest {
                assert(only_in(a, b)[rest.len() as int] == a.last());
                if only_in(a, b).contains(x) {
                    let i = choose|i: int| 0 <= i < only_in(a, b).len() && only_in(a, b)[i] == x;
                    if i < rest.len() {
                        assert(rest[i] == x);
                    }
                }
            }
        }
    }
}

/// What changed between two exported lists.
#[derive(Clone, Debug)]
pub struct DiffReport {
    /// The lines that only the later list holds.
    pub new_entries: Vec<String>,
    /// The lines that only the earlier list holds.
    pub gone_entries: Vec<String>,
}

fn only_in_list(a: &Vec<String>, b: &Vec<String>) -> (out: Vec<String>)
    ensures
        texts(out@) == only_in(texts(a@), texts(b@)),
{
    let mut out: Vec<String> = Vec::new();
    let mut i: usize = 0;
    assert(texts(a@).take(0) =~= Seq::empty());
    while i < a.len()
        invariant
            i <= a.len(),
            texts(out@) == only_in(texts(a@).take(i as int), texts(b@)),
        decreases a.len() - i,
    {
        let ghost before = texts(out@);
        proof {
            let next = texts(a@).take(i + 1);
            assert(next.drop_last() =~= texts(a@).take(i as int));
            assert(next.last() == a@[i as int]@);
        }
        if !listed(b, &a[i]) && !listed(&out, &a[i]) {
            out.push(a[i].clone());
            assert(texts(out@) =~= before.push(a@[i as int]@));
        }
        i += 1;
    }
    assert(texts(a@).take(a.len() as int) =~= texts(a@));
    out
}

/// The two sets of lines of a report on a later and an earlier list: the
/// lines that are new, and the lines that are gone.
pub open spec fn report_sets(newer: Seq<Seq<char>>, older: Seq<Seq<char>>) -> (
    Set<Seq<char>>,
    Set<Seq<char>>,
) {
    (only_in(newer, older).to_set(), only_in(older, newer).to_set())
}

/// The sets of a report on two lists that are given with their time
/// stamps, in the order that `compare` decides.
pub open spec fn compared(
    stamp1: Seq<char>,
    lines1: Seq<Seq<char>>,
    stamp2: Seq<char>,
    lines2: Seq<Seq<char>>,
) -> (Set<Seq<char>>, Set<Seq<char>>) {
    if order_of(stamp1, stamp2).newer == 0 {
        report_sets(lines1, lines2)
    } else {
        report_sets(lines2, lines1)
    }
}

/// The new lines of a report are the lines of the later list that the
/// earlier one lacks, and the lines that are gone those of the earlier
/// list that the later one lacks.
pub proof fn lemma_report_sets(newer: Seq<Seq<char>>, older: Seq<Seq<char>>)
    ensures
        report_sets(newer, older).0 == newer.to_set().difference(older.to_set()),
        report_sets(newer, older).1 == older.to_set().difference(newer.to_set()),
{
    lemma_only_in(newer, older);
    lemma_only_in(older, newer);
    assert(only_in(newer, older).to_set() =~= newer.to_set().difference(older.to_set()));
    assert(only_in(older, newer).to_set() =~= older.to_set().difference(newer.to_set()));
}

/// Comparing two lists gives the same two sets of lines in whichever order
/// the lists are given. Where their time stamps differ, each set also
/// stands under the same heading; where the stamps are the same, the list
/// given first counts as the later one, so the two sets change places.
pub proof fn lemma_compare_symmetric(
    stamp1: Seq<char>,
    lines1: Seq<Seq<char>>,
    stamp2: Seq<char>,
    lines2: Seq<Seq<char>>,
)
    ensures
        stamp_less(stamp1, stamp2) || stamp_less(stamp2, stamp1) ==> compared(
            stamp1,
            lines1,
            stamp2,
            lines2,
        ) == compared(stamp2, lines2, stamp1, lines1),
        !stamp_less(stamp1, stamp2) && !stamp_less(stamp2, stamp1) ==> {
            &&& compared(stamp1, lines1, stamp2, lines2).0 == compared(stamp2, lines2, stamp1, lines1).1
            &&& compared(stamp1, lines1, stamp2, lines2).1 == compared(stamp2, lines2, stamp1, lines1).0
        },
{
    if stamp_less(stamp1, stamp2) {
        lemma_stamp_less_asymmetric(stamp1, stamp2);
    }
    if stamp_less(stamp2, stamp1) {
        lemma_stamp_less_asymmetric(stamp2, stamp1);
    }
}

/// Compares the contents of two exported lists, the later one first. Each
/// is taken as the set of its lines.
pub fn compare_files(file_content1: &str, file_content2: &str) -> (report: DiffReport)
    ensures
        texts(report.new_entries@) == only_in(lines_of(file_content1@), lines_of(file_content2@)),
        texts(report.gone_entries@) == only_in(lines_of(file_content2@), lines_of(file_content1@)),
{
    let fc1_col = lines(file_content1);
    let fc2_col = lines(file_content2);
    let new_entries = only_in_list(&fc1_col, &fc2_col);
    let gone_entries = only_in_list(&fc2_col, &fc1_col);
    DiffReport { new_entries, gone_entries }
}

/// The lines one after the other, each followed by a line feed.
pub open spec fn joined(ls: Seq<Seq<char>>) -> Seq<char>
    decreases ls.len(),
{
    if ls.len() == 0 {
        Seq::empty()
    } else {
        joined(ls.drop_last()) + ls.last() + seq!['\n']
    }
}

/// The text of a report: the heading `###NEW` and the new lines, then the
/// heading `###GONE` and the lines that are gone.
pub open spec fn report_text(new_entries: Seq<Seq<char>>, gone_entries: Seq<Seq<char>>) -> Seq<char> {
    "###NEW\n"@ + joined(new_entries) + "###GONE\n"@ + joined(gone_entries)
}

fn append_lines(contents: &mut String, ls: &Vec<String>)
    ensures
        final(contents)@ == old(contents)@ + joined(texts(ls@)),
{
    let ghost start = contents@;
    let mut i: usize = 0;
    assert(texts(ls@).take(0) =~= Seq::empty());
    assert(start + joined(Seq::empty()) =~= start);
    while i < ls.len()
        invariant
            i <= ls.len(),
            contents@ == start + joined(texts(ls@).take(i as int)),
        decreases ls.len() - i,
    {
        proof {
            let next = texts(ls@).take(i + 1);
            assert(next.drop_last() =~= texts(ls@).take(i as int));
            assert(next.last() == ls@[i as int]@);
        }
        let ghost before = contents@;
        contents.append(ls[i].as_str());
        contents.push('\n');
        assert(contents@ =~= before + ls@[i as int]@ + seq!['\n']);
        assert(contents@ =~= start + joined(texts(ls@).take(i + 1)));
        i += 1;
    }
    assert(texts(ls@).take(ls.len() as int) =~= texts(ls@));
}

impl DiffReport {
    /// The report as the text that is written to the report file.
    pub fn contents(&self) -> (r: String)
        ensures
            r@ == report_text(texts(self.new_entries@), texts(self.gone_entries@)),
    {
        let mut r = String::from_str("###NEW\n");
        append_lines(&mut r, &self.new_entries);
        r.append("###GONE\n");
        append_lines(&mut r, &self.gone_entries);
        r
    }
}

/// The symbols of an exported list: for each line that is an identifier
/// which the mapping holds, in the order of the lines, its symbol.
pub open spec fn stocklist(lines: Seq<Seq<char>>, m: Map<Seq<char>, Seq<char>>) -> Seq<Seq<char>>
    decreases lines.len(),
{
    if lines.len() == 0 {
        Seq::empty()
    } else {
        let head = stocklist(lines.drop_last(), m);
        let line = lines.last();
        if line.len() == ISIN_LENGTH && m.contains_key(line) {
            head.push(m[line])
        } else {
            head
        }
    }
}

/// The text of an exported list: one symbol on each line.
pub fn stocklist_text(lines: &Vec<&str>, map: &SymbolMap) -> (out_str: String)
    ensures
        out_str@ == joined(stocklist(line_texts(lines@), map@)),
{
    let ghost all = line_texts(lines@);
    let mut out_str = String::new();
    let mut i: usize = 0;
    assert(all.take(0) =~= Seq::empty());
    while i < lines.len()
        invariant
            i <= lines.len(),
            all == line_texts(lines@),
            out_str@ == joined(stocklist(all.take(i as int), map@)),
        decreases lines.len() - i,
    {
        let line = lines[i];
        proof {
            let next = all.take(i + 1);
            assert(next.drop_last() =~= all.take(i as int));
            assert(next.last() == line@);
        }
        if line.unicode_len() == ISIN_LENGTH {
            match map.get(line) {
                Some(symbol) => {
                    let ghost before = out_str@;
                    let ghost head = stocklist(all.take(i as int), map@);
                    out_str.append(symbol.as_str());
                    out_str.push('\n');
                    proof {
                        assert(head.push(symbol@).drop_last() =~= head);
                        assert(out_str@ =~= before + symbol@ + seq!['\n']);
                    }
                },
                None => {},
            }
        }
        i += 1;
    }
    assert(all.take(lines.len() as int) =~= all);
    out_str
}

} // verus!
