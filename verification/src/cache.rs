//! The cache of resolved symbols: a mapping from identifier to symbol, its
//! stored form (records sorted by symbol), and the merge of new resolutions.

use crate::text::{
    chars_of, contains, contains_text, lemma_lex_asymmetric, lemma_lex_irreflexive, lemma_lex_total,
    lemma_lex_transitive, lex_less, precedes,
};
use crate::utils::{change_extension, changed_extension, formatted_timestamp};
use vstd::string::StringExecFns;
use vstd::prelude::*;

verus! {

/// One stored record: an identifier and the symbol it resolved to.
#[derive(Clone, Debug)]
pub struct IsinNSymbol {
    pub isin: String,
    pub symbol: String,
}

impl View for IsinNSymbol {
    type V = (Seq<char>, Seq<char>);

    open spec fn view(&self) -> (Seq<char>, Seq<char>) {
        (self.isin@, self.symbol@)
    }
}

/// The (identifier, symbol) pairs of a list of records.
pub open spec fn pairs(v: Seq<IsinNSymbol>) -> Seq<(Seq<char>, Seq<char>)> {
    Seq::new(v.len(), |i: int| v[i]@)
}

/// The mapping that a list of pairs stands for; where an identifier occurs
/// more than once, its last pair counts.
pub open spec fn map_of(s: Seq<(Seq<char>, Seq<char>)>) -> Map<Seq<char>, Seq<char>>
    decreases s.len(),
{
    if s.len() == 0 {
        Map::empty()
    } else {
        map_of(s.drop_last()).insert(s.last().0, s.last().1)
    }
}

/// No identifier occurs in two pairs.
pub open spec fn distinct_keys(s: Seq<(Seq<char>, Seq<char>)>) -> bool {
    forall|i: int, j: int| 0 <= i < j < s.len() ==> s[i].0 != s[j].0
}

/// The identifiers of `map_of(s)` are those of the pairs of `s`.
pub proof fn lemma_map_of_keys(s: Seq<(Seq<char>, Seq<char>)>)
    ensures
        map_of(s).dom().finite(),
        forall|k: Seq<char>|
            map_of(s).contains_key(k) <==> exists|i: int| 0 <= i < s.len() && #[trigger] s[i].0 == k,
    decreases s.len(),
{
    if s.len() > 0 {
        let t = s.drop_last();
        lemma_map_of_keys(t);
        assert forall|k: Seq<char>|
            map_of(s).contains_key(k) <==> exists|i: int| 0 <= i < s.len() && #[trigger] s[i].0 == k by {
            if map_of(s).contains_key(k) {
                if k == s.last().0 {
                    assert(s[s.len() - 1].0 == k);
                } else {
                    let i = choose|i: int| 0 <= i < t.len() && #[trigger] t[i].0 == k;
                    assert(s[i].0 == k);
                }
            }
            if exists|i: int| 0 <= i < s.len() && #[trigger] s[i].0 == k {
                let i = choose|i: int| 0 <= i < s.len() && #[trigger] s[i].0 == k;
                if i < t.len() {
                    assert(t[i].0 == k);
                }
            }
        }
    }
}

/// Where no identifier occurs twice, `map_of(s)` holds each pair of `s`,
/// and as many identifiers as `s` has pairs.
pub proof fn lemma_map_of_distinct(s: Seq<(Seq<char>, Seq<char>)>)
    requires
        distinct_keys(s),
    ensures
        map_of(s).len() == s.len(),
        forall|i: int| 0 <= i < s.len() ==> map_of(s).contains_pair(#[trigger] s[i].0, s[i].1),
    decreases s.len(),
{
    if s.len() > 0 {
        let t = s.drop_last();
        lemma_map_of_distinct(t);
        lemma_map_of_keys(t);
        assert(!map_of(t).contains_key(s.last().0)) by {
            if map_of(t).contains_key(s.last().0) {
                let i = choose|i: int| 0 <= i < t.len() && #[trigger] t[i].0 == s.last().0;
                assert(s[i].0 == s[s.len() - 1].0);
            }
        }
        assert forall|i: int| 0 <= i < s.len() implies map_of(s).contains_pair(
            #[trigger] s[i].0,
            s[i].1,
        ) by {
            if i < t.len() {
                assert(map_of(t).contains_pair(t[i].0, t[i].1));
                assert(s[i].0 != s[s.len() - 1].0);
            }
        }
    }
}

/// Replacing the symbol of an identifier in the list replaces it in the
/// mapping.
pub proof fn lemma_map_of_update(s: Seq<(Seq<char>, Seq<char>)>, i: int, symbol: Seq<char>)
    requires
        distinct_keys(s),
        0 <= i < s.len(),
    ensures
        distinct_keys(s.update(i, (s[i].0, symbol))),
        map_of(s.update(i, (s[i].0, symbol))) == map_of(s).insert(s[i].0, symbol),
    decreases s.len(),
{
    let u = s.update(i, (s[i].0, symbol));
    assert(distinct_keys(u)) by {
        assert forall|a: int, b: int| 0 <= a < b < u.len() implies u[a].0 != u[b].0 by {
            assert(u[a].0 == s[a].0 && u[b].0 == s[b].0);
        }
    }
    let t = s.drop_last();
    if i == s.len() - 1 {
        assert(u.drop_last() =~= t);
        assert(map_of(u) =~= map_of(s).insert(s[i].0, symbol));
    } else {
        lemma_map_of_update(t, i, symbol);
        assert(u.drop_last() =~= t.update(i, (s[i].0, symbol)));
        assert(s[i].0 != s[s.len() - 1].0);
        assert(map_of(u) =~= map_of(s).insert(s[i].0, symbol));
    }
}

/// A mapping from identifier to symbol.
///
/// Its view is the mathematical map from the characters of an identifier to
/// the characters of its symbol.
#[derive(Debug)]
pub struct SymbolMap {
    entries: Vec<IsinNSymbol>,
}

impl View for SymbolMap {
    type V = Map<Seq<char>, Seq<char>>;

    closed spec fn view(&self) -> Map<Seq<char>, Seq<char>> {
        map_of(pairs(self.entries@))
    }
}

impl SymbolMap {
    #[verifier::type_invariant]
    spec fn well_formed(self) -> bool {
        distinct_keys(pairs(self.entries@))
    }

    /// The empty mapping.
    pub fn new() -> (r: SymbolMap)
        ensures
            r@ == Map::<Seq<char>, Seq<char>>::empty(),
    {
        let r = SymbolMap { entries: Vec::new() };
        assert(pairs(r.entries@) =~= Seq::empty());
        r
    }

    /// The number of identifiers in the mapping.
    pub fn len(&self) -> (n: usize)
        ensures
            self@.dom().finite(),
            n == self@.len(),
    {
        proof {
            use_type_invariant(self);
            lemma_map_of_keys(pairs(self.entries@));
            lemma_map_of_distinct(pairs(self.entries@));
        }
        self.entries.len()
    }

    fn position(&self, isin: &str) -> (r: Option<usize>)
        ensures
            match r {
                Some(i) => i < self.entries.len() && self.entries[i as int].isin@ == isin@,
                None => forall|j: int| 0 <= j < self.entries.len() ==> self.entries[j].isin@ != isin@,
            },
    {
        let key = String::from_str(isin);
        let mut i: usize = 0;
        while i < self.entries.len()
            invariant
                i <= self.entries.len(),
                key@ == isin@,
                forall|j: int| 0 <= j < i ==> self.entries[j].isin@ != isin@,
            decreases self.entries.len() - i,
        {
            if self.entries[i].isin == key {
                return Some(i);
            }
            i += 1;
        }
        None
    }

    /// The symbol of `isin`, if the mapping holds one.
    pub fn get(&self, isin: &str) -> (r: Option<&String>)
        ensures
            match r {
                Some(symbol) => self@.contains_key(isin@) && symbol@ == self@[isin@],
                None => !self@.contains_key(isin@),
            },
    {
        proof {
            use_type_invariant(self);
            lemma_map_of_keys(pairs(self.entries@));
            lemma_map_of_distinct(pairs(self.entries@));
        }
        match self.position(isin) {
            Some(i) => {
                assert(pairs(self.entries@)[i as int].0 == isin@);
                Some(&self.entries[i].symbol)
            },
            None => {
                assert forall|j: int| 0 <= j < pairs(self.entries@).len() implies pairs(
                    self.entries@,
                )[j].0 != isin@ by {}
                None
            },
        }
    }

    /// Whether the mapping holds a symbol for `isin`.
    pub fn contains_key(&self, isin: &str) -> (r: bool)
        ensures
            r == self@.contains_key(isin@),
    {
        self.get(isin).is_some()
    }

    /// Sets the symbol of `isin`, replacing the one it had.
    pub fn insert(&mut self, isin: String, symbol: String)
        ensures
            final(self)@ == old(self)@.insert(isin@, symbol@),
    {
        proof {
            use_type_invariant(&*self);
        }
        let found = self.position(isin.as_str());
        let mut taken = SymbolMap::new();
        core::mem::swap(self, &mut taken);
        let mut entries = taken.entries;
        let ghost before = pairs(entries@);
        match found {
            Some(i) => {
                proof {
                    assert(before[i as int].0 == isin@);
                    lemma_map_of_update(before, i as int, symbol@);
                }
                entries.set(i, IsinNSymbol { isin, symbol });
                assert(pairs(entries@) =~= before.update(i as int, (isin@, symbol@)));
            },
            None => {
                entries.push(IsinNSymbol { isin, symbol });
                proof {
                    let after = pairs(entries@);
                    assert(after.drop_last() =~= before);
                    assert(after.last() == (isin@, symbol@));
                    assert forall|a: int, b: int| 0 <= a < b < after.len() implies after[a].0
                        != after[b].0 by {
                        if b < before.len() {
                            assert(before[a].0 != before[b].0);
                        } else {
                            assert(before[a].0 == entries@[a].isin@);
                        }
                    }
                }
            },
        }
        *self = SymbolMap { entries };
    }
}

impl Clone for SymbolMap {
    /// A copy that holds the same mapping.
    fn clone(&self) -> (r: SymbolMap)
        ensures
            r@ == self@,
    {
        proof {
            use_type_invariant(self);
        }
        let mut entries: Vec<IsinNSymbol> = Vec::new();
        let mut i: usize = 0;
        while i < self.entries.len()
            invariant
                i <= self.entries.len(),
                pairs(entries@) == pairs(self.entries@).take(i as int),
            decreases self.entries.len() - i,
        {
            let ghost before = pairs(entries@);
            let e = &self.entries[i];
            let copy = IsinNSymbol { isin: e.isin.clone(), symbol: e.symbol.clone() };
            assert(copy@ == pairs(self.entries@)[i as int]);
            entries.push(copy);
            i += 1;
            assert(pairs(entries@) =~= before.push(copy@));
            assert(pairs(entries@) =~= pairs(self.entries@).take(i as int));
        }
        assert(pairs(entries@) =~= pairs(self.entries@));
        SymbolMap { entries }
    }
}

/// The mapping that a cache file holds, from what reading it gave: its
/// records, or nothing where the file is missing or cannot be understood.
pub open spec fn cache_of(parsed: Option<Vec<IsinNSymbol>>) -> Map<Seq<char>, Seq<char>> {
    match parsed {
        Some(entries) => map_of(pairs(entries@)),
        None => Map::empty(),
    }
}

/// The mapping that a cache file holds. A file that is missing or cannot
/// be understood counts as an empty cache. Where an identifier occurs in
/// more than one record, its last record counts.
pub fn read_map(parsed: Option<Vec<IsinNSymbol>>) -> (map: SymbolMap)
    ensures
        map@ == cache_of(parsed),
{
    let mut map = SymbolMap::new();
    let entries = match parsed {
        Some(entries) => entries,
        None => {
            return map;
        },
    };
    let mut i: usize = 0;
    assert(pairs(entries@).take(0) =~= Seq::empty());
    while i < entries.len()
        invariant
            i <= entries.len(),
            map@ == map_of(pairs(entries@).take(i as int)),
        decreases entries.len() - i,
    {
        let e = &entries[i];
        map.insert(e.isin.clone(), e.symbol.clone());
        proof {
            let next = pairs(entries@).take(i + 1);
            assert(next.drop_last() =~= pairs(entries@).take(i as int));
            assert(next.last() == (e.isin@, e.symbol@));
        }
        i += 1;
    }
    assert(pairs(entries@).take(entries.len() as int) =~= pairs(entries@));
    map
}

/// The order of stored records: by symbol, and among records of one symbol
/// by identifier.
pub open spec fn entry_less(a: (Seq<char>, Seq<char>), b: (Seq<char>, Seq<char>)) -> bool {
    lex_less(a.1, b.1) || (a.1 == b.1 && lex_less(a.0, b.0))
}

/// Every pair comes before all that follow it.
pub open spec fn sorted_by_symbol(s: Seq<(Seq<char>, Seq<char>)>) -> bool {
    forall|i: int, j: int| 0 <= i < j < s.len() ==> entry_less(s[i], s[j])
}

/// In a sorted list the symbols ascend: none comes before the symbol of an
/// earlier pair.
pub proof fn lemma_sorted_symbols_ascend(s: Seq<(Seq<char>, Seq<char>)>)
    requires
        sorted_by_symbol(s),
    ensures
        forall|i: int, j: int| 0 <= i < j < s.len() ==> !lex_less(#[trigger] s[j].1, #[trigger] s[i].1),
{
    assert forall|i: int, j: int| 0 <= i < j < s.len() implies !lex_less(
        #[trigger] s[j].1,
        #[trigger] s[i].1,
    ) by {
        assert(entry_less(s[i], s[j]));
        if lex_less(s[i].1, s[j].1) {
            lemma_lex_asymmetric(s[i].1, s[j].1);
        } else {
            lemma_lex_irreflexive(s[i].1);
        }
    }
}

/// `s` lists the mapping `m`: each pair of `m` once, and nothing else.
pub open spec fn lists(s: Seq<(Seq<char>, Seq<char>)>, m: Map<Seq<char>, Seq<char>>) -> bool {
    &&& distinct_keys(s)
    &&& forall|i: int| 0 <= i < s.len() ==> m.contains_pair(#[trigger] s[i].0, s[i].1)
    &&& forall|k: Seq<char>| m.contains_key(k) ==> exists|i: int| 0 <= i < s.len() && #[trigger] s[i].0 == k
}

/// Reading back a listing of a mapping gives that mapping: storing loses
/// nothing and adds nothing.
pub proof fn lemma_listing_round_trip(s: Seq<(Seq<char>, Seq<char>)>, m: Map<Seq<char>, Seq<char>>)
    requires
        lists(s, m),
    ensures
        map_of(s) == m,
        m.dom().finite(),
        s.len() == m.len(),
{
    lemma_map_of_keys(s);
    lemma_map_of_distinct(s);
    assert forall|k: Seq<char>| map_of(s).contains_key(k) implies m.contains_key(k) by {
        let i = choose|i: int| 0 <= i < s.len() && #[trigger] s[i].0 == k;
        assert(m.contains_pair(s[i].0, s[i].1));
    }
    assert forall|k: Seq<char>| m.contains_key(k) implies map_of(s).contains_key(k) && map_of(s)[k]
        == m[k] by {
        let i = choose|i: int| 0 <= i < s.len() && #[trigger] s[i].0 == k;
        assert(map_of(s).contains_pair(s[i].0, s[i].1));
        assert(m.contains_pair(s[i].0, s[i].1));
    }
    assert(map_of(s) =~= m);
}

proof fn lemma_entry_less_transitive(
    a: (Seq<char>, Seq<char>),
    b: (Seq<char>, Seq<char>),
    c: (Seq<char>, Seq<char>),
)
    requires
        entry_less(a, b),
        entry_less(b, c),
    ensures
        entry_less(a, c),
{
    if lex_less(a.1, b.1) && lex_less(b.1, c.1) {
        lemma_lex_transitive(a.1, b.1, c.1);
    } else if a.1 == b.1 && b.1 == c.1 {
        lemma_lex_transitive(a.0, b.0, c.0);
    }
}

proof fn lemma_entry_less_asymmetric(a: (Seq<char>, Seq<char>), b: (Seq<char>, Seq<char>))
    requires
        entry_less(a, b),
    ensures
        !entry_less(b, a),
{
    if entry_less(b, a) {
        lemma_entry_less_transitive(a, b, a);
        lemma_lex_irreflexive(a.1);
        lemma_lex_irreflexive(a.0);
    }
}

proof fn lemma_listing_tail(s: Seq<(Seq<char>, Seq<char>)>, m: Map<Seq<char>, Seq<char>>)
    requires
        lists(s, m),
        s.len() > 0,
    ensures
        lists(s.drop_first(), m.remove(s[0].0)),
{
    let t = s.drop_first();
    let rest = m.remove(s[0].0);
    assert forall|i: int, j: int| 0 <= i < j < t.len() implies t[i].0 != t[j].0 by {
        assert(s[i + 1].0 != s[j + 1].0);
    }
    assert forall|i: int| 0 <= i < t.len() implies rest.contains_pair(#[trigger] t[i].0, t[i].1) by {
        assert(m.contains_pair(s[i + 1].0, s[i + 1].1));
        assert(s[0].0 != s[i + 1].0);
    }
    assert forall|k: Seq<char>| rest.contains_key(k) implies exists|i: int|
        0 <= i < t.len() && #[trigger] t[i].0 == k by {
        let i = choose|i: int| 0 <= i < s.len() && #[trigger] s[i].0 == k;
        assert(t[i - 1].0 == k);
    }
}

/// A mapping has one stored form only: two sorted listings of one mapping
/// are the same list.
pub proof fn lemma_sorted_listing_unique(
    s: Seq<(Seq<char>, Seq<char>)>,
    t: Seq<(Seq<char>, Seq<char>)>,
    m: Map<Seq<char>, Seq<char>>,
)
    requires
        lists(s, m),
        sorted_by_symbol(s),
        lists(t, m),
        sorted_by_symbol(t),
    ensures
        s == t,
    decreases s.len(),
{
    lemma_listing_round_trip(s, m);
    lemma_listing_round_trip(t, m);
    if s.len() == 0 {
        assert(s =~= t);
    } else {
        // the first pair of each list stands somewhere in the other
        assert(m.contains_pair(s[0].0, s[0].1));
        assert(m.contains_pair(t[0].0, t[0].1));
        let j = choose|j: int| 0 <= j < t.len() && #[trigger] t[j].0 == s[0].0;
        let i = choose|i: int| 0 <= i < s.len() && #[trigger] s[i].0 == t[0].0;
        assert(m.contains_pair(t[j].0, t[j].1));
        assert(m.contains_pair(s[i].0, s[i].1));
        assert(t[j] == s[0]);
        assert(s[i] == t[0]);
        if j > 0 {
            assert(entry_less(t[0], t[j]));
            if i > 0 {
                assert(entry_less(s[0], s[i]));
                lemma_entry_less_asymmetric(s[0], s[i]);
            } else {
                assert(t[0].0 == t[j].0);
            }
        }
        assert(s[0] == t[0]);
        lemma_listing_tail(s, m);
        lemma_listing_tail(t, m);
        assert(sorted_by_symbol(s.drop_first())) by {
            assert forall|a: int, b: int| 0 <= a < b < s.drop_first().len() implies entry_less(
                s.drop_first()[a],
                s.drop_first()[b],
            ) by {
                assert(entry_less(s[a + 1], s[b + 1]));
            }
        }
        assert(sorted_by_symbol(t.drop_first())) by {
            assert forall|a: int, b: int| 0 <= a < b < t.drop_first().len() implies entry_less(
                t.drop_first()[a],
                t.drop_first()[b],
            ) by {
                assert(entry_less(t[a + 1], t[b + 1]));
            }
        }
        lemma_sorted_listing_unique(s.drop_first(), t.drop_first(), m.remove(s[0].0));
        assert(s =~= seq![s[0]] + s.drop_first());
        assert(t =~= seq![t[0]] + t.drop_first());
    }
}

proof fn lemma_entry_less_total(a: (Seq<char>, Seq<char>), b: (Seq<char>, Seq<char>))
    requires
        a.0 != b.0,
    ensures
        entry_less(a, b) || entry_less(b, a),
{
    lemma_lex_total(a.1, b.1);
    lemma_lex_total(a.0, b.0);
}

fn entry_precedes(a: &IsinNSymbol, b: &IsinNSymbol) -> (r: bool)
    ensures
        r == entry_less(a@, b@),
{
    let sa = chars_of(a.symbol.as_str());
    let sb = chars_of(b.symbol.as_str());
    if precedes(&sa, &sb) {
        true
    } else if precedes(&sb, &sa) {
        proof {
            lemma_lex_asymmetric(sb@, sa@);
            if sa@ == sb@ {
                lemma_lex_irreflexive(sa@);
            }
        }
        false
    } else {
        proof {
            lemma_lex_total(sa@, sb@);
        }
        let ia = chars_of(a.isin.as_str());
        let ib = chars_of(b.isin.as_str());
        precedes(&ia, &ib)
    }
}

/// The records of a mapping in their stored order: sorted by symbol, each
/// identifier once.
pub fn sort_map(map_in: SymbolMap) -> (out_vec: Vec<IsinNSymbol>)
    ensures
        lists(pairs(out_vec@), map_in@),
        sorted_by_symbol(pairs(out_vec@)),
        map_of(pairs(out_vec@)) == map_in@,
        out_vec.len() == map_in@.len(),
{
    proof {
        use_type_invariant(&map_in);
    }
    let ghost src = pairs(map_in.entries@);
    let mut out_vec: Vec<IsinNSymbol> = Vec::new();
    let mut i: usize = 0;
    assert(src.take(0) =~= Seq::empty());
    while i < map_in.entries.len()
        invariant
            i <= map_in.entries.len(),
            src == pairs(map_in.entries@),
            distinct_keys(src),
            lists(pairs(out_vec@), map_of(src.take(i as int))),
            sorted_by_symbol(pairs(out_vec@)),
        decreases map_in.entries.len() - i,
    {
        let e = &map_in.entries[i];
        let x = IsinNSymbol { isin: e.isin.clone(), symbol: e.symbol.clone() };
        let ghost old_out = pairs(out_vec@);
        let ghost m = map_of(src.take(i as int));
        proof {
            lemma_map_of_keys(src.take(i as int));
            assert(x@ == src[i as int]);
            if m.contains_key(x@.0) {
                let a = choose|a: int| 0 <= a < i && #[trigger] src.take(i as int)[a].0 == x@.0;
                assert(src[a].0 == src[i as int].0);
            }
            assert forall|a: int| 0 <= a < old_out.len() implies #[trigger] old_out[a].0 != x@.0 by {
                assert(m.contains_pair(old_out[a].0, old_out[a].1));
            }
        }
        let mut p: usize = 0;
        while p < out_vec.len() && entry_precedes(&out_vec[p], &x)
            invariant
                p <= out_vec.len(),
                old_out == pairs(out_vec@),
                forall|a: int| 0 <= a < p ==> entry_less(#[trigger] old_out[a], x@),
            decreases out_vec.len() - p,
        {
            p += 1;
        }
        out_vec.insert(p, x);
        proof {
            let new_out = pairs(out_vec@);
            let next = src.take(i + 1);
            assert(new_out =~= old_out.insert(p as int, x@));
            assert(next.drop_last() =~= src.take(i as int));
            assert(map_of(next) == m.insert(x@.0, x@.1));
            assert forall|a: int, b: int| 0 <= a < b < new_out.len() implies entry_less(
                new_out[a],
                new_out[b],
            ) by {
                if b < p {
                    assert(entry_less(old_out[a], old_out[b]));
                } else if b == p {
                    assert(entry_less(old_out[a], x@));
                } else if a == p {
                    // x before old_out[b - 1], which is at or after old_out[p]
                    assert(!entry_less(old_out[p as int], x@));
                    lemma_entry_less_total(old_out[p as int], x@);
                    if b - 1 > p {
                        assert(entry_less(old_out[p as int], old_out[b - 1]));
                        lemma_entry_less_transitive(x@, old_out[p as int], old_out[b - 1]);
                    }
                } else if a < p {
                    assert(entry_less(old_out[a], old_out[b - 1]));
                } else {
                    assert(entry_less(old_out[a - 1], old_out[b - 1]));
                }
            }
            assert forall|a: int, b: int| 0 <= a < b < new_out.len() implies new_out[a].0
                != new_out[b].0 by {
                let oa = if a < p { a } else { a - 1 };
                let ob = if b < p { b } else { b - 1 };
                if a != p && b != p {
                    assert(old_out[oa].0 != old_out[ob].0);
                } else if a == p {
                    assert(old_out[ob].0 != x@.0);
                } else {
                    assert(old_out[oa].0 != x@.0);
                }
            }
            assert forall|a: int| 0 <= a < new_out.len() implies map_of(next).contains_pair(
                #[trigger] new_out[a].0,
                new_out[a].1,
            ) by {
                if a != p {
                    let oa = if a < p { a } else { a - 1 };
                    assert(m.contains_pair(old_out[oa].0, old_out[oa].1));
                    assert(old_out[oa].0 != x@.0);
                }
            }
            assert forall|k: Seq<char>| map_of(next).contains_key(k) implies exists|a: int|
                0 <= a < new_out.len() && #[trigger] new_out[a].0 == k by {
                if k == x@.0 {
                    assert(new_out[p as int].0 == k);
                } else {
                    let oa = choose|oa: int| 0 <= oa < old_out.len() && #[trigger] old_out[oa].0 == k;
                    let a = if oa < p { oa } else { oa + 1 };
                    assert(new_out[a].0 == k);
                }
            }
        }
        i += 1;
    }
    proof {
        assert(src.take(map_in.entries.len() as int) =~= src);
        lemma_listing_round_trip(pairs(out_vec@), map_in@);
    }
    out_vec
}

/// A symbol that records a failed resolution: one that holds the text
/// `error`.
pub open spec fn is_error_symbol(symbol: Seq<char>) -> bool {
    contains_text(symbol, "error"@)
}

/// Whether `additions` holds a symbol for `k` that may be stored.
pub open spec fn accepted(additions: Map<Seq<char>, Seq<char>>, k: Seq<char>) -> bool {
    additions.contains_key(k) && !is_error_symbol(additions[k])
}

/// The cache after `additions` are merged into it: every addition that is
/// no error symbol is taken, in place of what the cache held for its
/// identifier; the rest of the cache stays.
pub open spec fn merged(
    cache: Map<Seq<char>, Seq<char>>,
    additions: Map<Seq<char>, Seq<char>>,
) -> Map<Seq<char>, Seq<char>> {
    Map::new(
        |k: Seq<char>| cache.contains_key(k) || accepted(additions, k),
        |k: Seq<char>|
            if accepted(additions, k) {
                additions[k]
            } else {
                cache[k]
            },
    )
}

/// No symbol of the mapping is an error symbol.
pub open spec fn error_free(m: Map<Seq<char>, Seq<char>>) -> bool {
    forall|k: Seq<char>| m.contains_key(k) ==> !is_error_symbol(#[trigger] m[k])
}

/// Merges `to_merge` into `cache_map`: error symbols are dropped, the
/// other additions win over what the cache held.
pub fn merge_map(cache_map: SymbolMap, to_merge: &SymbolMap) -> (map: SymbolMap)
    ensures
        map@ == merged(cache_map@, to_merge@),
{
    proof {
        use_type_invariant(to_merge);
    }
    let ghost src = pairs(to_merge.entries@);
    let mut map = cache_map;
    let mut i: usize = 0;
    assert(src.take(0) =~= Seq::empty());
    assert(map@ =~= merged(cache_map@, map_of(src.take(0))));
    while i < to_merge.entries.len()
        invariant
            i <= to_merge.entries.len(),
            src == pairs(to_merge.entries@),
            distinct_keys(src),
            map@ == merged(cache_map@, map_of(src.take(i as int))),
        decreases to_merge.entries.len() - i,
    {
        let e = &to_merge.entries[i];
        let ghost seen = map_of(src.take(i as int));
        let ghost before = map@;
        proof {
            let next = src.take(i + 1);
            lemma_map_of_keys(src.take(i as int));
            assert(next.drop_last() =~= src.take(i as int));
            assert(next.last() == e@);
            if seen.contains_key(e@.0) {
                let a = choose|a: int| 0 <= a < i && #[trigger] src.take(i as int)[a].0 == e@.0;
                assert(src[a].0 == src[i as int].0);
            }
        }
        if !contains(e.symbol.as_str(), "error") {
            map.insert(e.isin.clone(), e.symbol.clone());
            assert(map@ =~= merged(cache_map@, seen.insert(e@.0, e@.1)));
        } else {
            assert(before =~= merged(cache_map@, seen.insert(e@.0, e@.1)));
        }
        i += 1;
    }
    assert(src.take(to_merge.entries.len() as int) =~= src);
    map
}

/// Merging the same additions a second time changes nothing.
pub proof fn lemma_merge_idempotent(
    cache: Map<Seq<char>, Seq<char>>,
    additions: Map<Seq<char>, Seq<char>>,
)
    ensures
        merged(merged(cache, additions), additions) == merged(cache, additions),
{
    assert(merged(merged(cache, additions), additions) =~= merged(cache, additions));
}

/// A merge brings no error symbol into a cache that holds none.
pub proof fn lemma_merge_error_free(
    cache: Map<Seq<char>, Seq<char>>,
    additions: Map<Seq<char>, Seq<char>>,
)
    requires
        error_free(cache),
    ensures
        error_free(merged(cache, additions)),
{
}

/// What storing the cache takes: first the file that is there is renamed
/// to the backup path, which may fail where there is none; then the
/// records are written to the cache file.
#[derive(Debug)]
pub struct CacheWrite {
    /// The cache file.
    pub file_path: String,
    /// Where the cache file that is there goes before the new one is
    /// written.
    pub backup_path: String,
    /// The records to write, in their stored order.
    pub entries: Vec<IsinNSymbol>,
}

/// The backup path of a cache file for a write at `timestamp`: the path of
/// the cache file with its extension replaced by the time stamp and
/// `.json`.
pub open spec fn backup_path_of(file_path: Seq<char>, timestamp: Seq<char>) -> Seq<char> {
    changed_extension(file_path, timestamp + ".json"@)
}

/// Prepares the storing of `map` in the cache file `file_path` at the time
/// `timestamp`.
pub fn write_map_at(map: SymbolMap, file_path: &str, timestamp: &str) -> (plan: CacheWrite)
    ensures
        plan.file_path@ == file_path@,
        plan.backup_path@ == backup_path_of(file_path@, timestamp@),
        lists(pairs(plan.entries@), map@),
        sorted_by_symbol(pairs(plan.entries@)),
        map_of(pairs(plan.entries@)) == map@,
{
    let mut filename = String::from_str(timestamp);
    filename.append(".json");
    let backup_path = change_extension(file_path, filename.as_str());
    let entries = sort_map(map);
    CacheWrite { file_path: String::from_str(file_path), backup_path, entries }
}

/// Prepares the storing of `map` in the cache file `file_path` now. The
/// backup path carries the time stamp of the call, whatever the clock
/// gives.
pub fn write_map(map: SymbolMap, file_path: &str) -> (plan: CacheWrite)
    ensures
        plan.file_path@ == file_path@,
        exists|timestamp: Seq<char>| plan.backup_path@ == #[trigger] backup_path_of(file_path@, timestamp),
        lists(pairs(plan.entries@), map@),
        sorted_by_symbol(pairs(plan.entries@)),
        map_of(pairs(plan.entries@)) == map@,
{
    let timestamp = formatted_timestamp();
    let plan = write_map_at(map, file_path, timestamp.as_str());
    assert(plan.backup_path@ == backup_path_of(file_path@, timestamp@));
    plan
}

} // verus!
