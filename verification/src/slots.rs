//! The whole long table, split by symbol: for every symbol its options (parsed on its first row)
//! and its points.
use vstd::prelude::*;

use crate::config::{merged, options_of, ConfigSlot};
use crate::options::QuantstatsHtmlOptions;
use crate::series::SeriesPoint;
use crate::text::{lex_lt, lemma_lex_lt_total, lemma_lex_lt_transitive, lemma_lex_lt_irreflexive, text_eq, text_lt};

verus! {

/// What the table holds for one symbol: its options slot and its points, in arrival order.
pub type SlotView = (ConfigSlot, Seq<SeriesPoint>);

/// The slot of one symbol: its options and its points.
#[derive(Debug)]
pub struct SymbolSlot {
    options: ConfigSlot,
    points: Vec<SeriesPoint>,
}

impl SymbolSlot {
    /// The options slot.
    pub closed spec fn config(&self) -> ConfigSlot {
        self.options
    }

    /// The points, in arrival order.
    pub closed spec fn points_view(&self) -> Seq<SeriesPoint> {
        self.points@
    }

    /// Both views together.
    pub open spec fn slot_view(&self) -> SlotView {
        (self.config(), self.points_view())
    }

    /// This symbol's options, or all defaults when nothing was parsed.
    pub fn options_or_default(&self) -> (r: QuantstatsHtmlOptions)
        ensures
            r == options_of(self.config()),
    {
        self.options.get()
    }

    /// The points of this symbol.
    pub fn points(&self) -> (r: &[SeriesPoint])
        ensures
            r@ == self.points_view(),
    {
        self.points.as_slice()
    }

    fn duplicate(&self) -> (r: Self)
        ensures
            r.slot_view() == self.slot_view(),
    {
        let mut points: Vec<SeriesPoint> = Vec::new();
        points.extend_from_slice(self.points.as_slice());
        assert(points@ =~= self.points@);
        SymbolSlot { options: self.options.duplicate(), points }
    }
}

/// One symbol and its slot.
#[derive(Debug)]
struct SymbolEntry {
    symbol: String,
    slot: SymbolSlot,
}

/// The view of one entry.
spec fn entry_view(e: SymbolEntry) -> SlotView {
    e.slot.slot_view()
}

/// The symbol of one entry, by its characters.
spec fn entry_key(e: SymbolEntry) -> Seq<char> {
    e.symbol@
}

/// Whether the entries hold distinct, non-empty symbols.
spec fn keys_ok(es: Seq<SymbolEntry>) -> bool {
    &&& forall|i: int| 0 <= i < es.len() ==> #[trigger] entry_key(es[i]).len() > 0
    &&& forall|i: int, j: int|
        0 <= i < es.len() && 0 <= j < es.len() && i != j ==> entry_key(es[i]) != entry_key(es[j])
}

/// The map from symbols to slots that a sequence of entries with distinct symbols stands for.
spec fn map_of(es: Seq<SymbolEntry>) -> Map<Seq<char>, SlotView> {
    Map::new(
        |k: Seq<char>| exists|i: int| 0 <= i < es.len() && entry_key(es[i]) == k,
        |k: Seq<char>|
            {
                let i = choose|i: int| 0 <= i < es.len() && entry_key(es[i]) == k;
                entry_view(es[i])
            },
    )
}

proof fn lemma_map_of_at(es: Seq<SymbolEntry>, i: int)
    requires
        keys_ok(es),
        0 <= i < es.len(),
    ensures
        map_of(es).contains_key(entry_key(es[i])),
        map_of(es)[entry_key(es[i])] == entry_view(es[i]),
{
    let k = entry_key(es[i]);
    assert(map_of(es).dom().contains(k));
    let j = choose|j: int| 0 <= j < es.len() && entry_key(es[j]) == k;
    assert(j == i);
}

proof fn lemma_map_of_push(es: Seq<SymbolEntry>, e: SymbolEntry)
    requires
        keys_ok(es),
        keys_ok(es.push(e)),
    ensures
        map_of(es.push(e)) == map_of(es).insert(entry_key(e), entry_view(e)),
{
    let t = es.push(e);
    let a = map_of(t);
    let b = map_of(es).insert(entry_key(e), entry_view(e));
    assert forall|k: Seq<char>| #[trigger] a.contains_key(k) == b.contains_key(k) by {
        if a.contains_key(k) {
            let i = choose|i: int| 0 <= i < t.len() && entry_key(t[i]) == k;
            if i < es.len() {
                assert(es[i] == t[i]);
                assert(map_of(es).contains_key(k));
            }
        }
        if b.contains_key(k) && k != entry_key(e) {
            let i = choose|i: int| 0 <= i < es.len() && entry_key(es[i]) == k;
            assert(t[i] == es[i]);
        }
        if k == entry_key(e) {
            assert(t[es.len() as int] == e);
        }
    }
    assert forall|k: Seq<char>| #[trigger] a.contains_key(k) implies a[k] == b[k] by {
        let i = choose|i: int| 0 <= i < t.len() && entry_key(t[i]) == k;
        lemma_map_of_at(t, i);
        if i < es.len() {
            assert(es[i] == t[i]);
            lemma_map_of_at(es, i);
        }
    }
    assert(a =~= b);
}

proof fn lemma_map_of_update(es: Seq<SymbolEntry>, i: int, e: SymbolEntry)
    requires
        keys_ok(es),
        0 <= i < es.len(),
        entry_key(e) == entry_key(es[i]),
    ensures
        keys_ok(es.update(i, e)),
        map_of(es.update(i, e)) == map_of(es).insert(entry_key(e), entry_view(e)),
{
    let t = es.update(i, e);
    assert(forall|j: int| 0 <= j < es.len() && j != i ==> t[j] == es[j]);
    assert(keys_ok(t)) by {
        assert forall|j: int| 0 <= j < t.len() implies #[trigger] entry_key(t[j]).len() > 0 by {
            if j != i {
                assert(t[j] == es[j]);
            }
        }
    }
    let a = map_of(t);
    let b = map_of(es).insert(entry_key(e), entry_view(e));
    assert forall|k: Seq<char>| #[trigger] a.contains_key(k) == b.contains_key(k) by {
        if a.contains_key(k) {
            let j = choose|j: int| 0 <= j < t.len() && entry_key(t[j]) == k;
            if j != i {
                assert(map_of(es).contains_key(k));
            }
        }
        if b.contains_key(k) && k != entry_key(e) {
            let j = choose|j: int| 0 <= j < es.len() && entry_key(es[j]) == k;
            assert(t[j] == es[j]);
        }
        if k == entry_key(e) {
            assert(t[i] == e);
        }
    }
    assert forall|k: Seq<char>| #[trigger] a.contains_key(k) implies a[k] == b[k] by {
        let j = choose|j: int| 0 <= j < t.len() && entry_key(t[j]) == k;
        lemma_map_of_at(t, j);
        if j != i {
            assert(es[j] == t[j]);
            lemma_map_of_at(es, j);
        }
    }
    assert(a =~= b);
}

/// The table after one row: an empty symbol leaves it unchanged; a symbol seen before gets the
/// point appended and keeps its options; a new symbol gets the row's options and the point.
pub open spec fn pushed(
    m: Map<Seq<char>, SlotView>,
    symbol: Seq<char>,
    options: Option<QuantstatsHtmlOptions>,
    point: SeriesPoint,
) -> Map<Seq<char>, SlotView> {
    if symbol.len() == 0 {
        m
    } else if m.contains_key(symbol) {
        m.insert(symbol, (m[symbol].0, m[symbol].1.push(point)))
    } else {
        m.insert(symbol, (ConfigSlot::Resolved(options), seq![point]))
    }
}

/// The table that merges two partial tables: every symbol of either side, with the options merged
/// (the left side's win when it has any) and the points of the left side followed by those of the
/// right side.
pub open spec fn combined(a: Map<Seq<char>, SlotView>, b: Map<Seq<char>, SlotView>) -> Map<
    Seq<char>,
    SlotView,
> {
    Map::new(
        |k: Seq<char>| a.contains_key(k) || b.contains_key(k),
        |k: Seq<char>|
            if a.contains_key(k) && b.contains_key(k) {
                (merged(a[k].0, b[k].0), a[k].1 + b[k].1)
            } else if a.contains_key(k) {
                a[k]
            } else {
                b[k]
            },
    )
}

/// One row of the input: symbol, the row's options, and the point.
pub type Row = (Seq<char>, Option<QuantstatsHtmlOptions>, SeriesPoint);

/// The table that reading `rows` in order into an empty table gives.
pub open spec fn table_of_rows(rows: Seq<Row>) -> Map<Seq<char>, SlotView>
    decreases rows.len(),
{
    if rows.len() == 0 {
        Map::empty()
    } else {
        let r = rows.last();
        pushed(table_of_rows(rows.drop_last()), r.0, r.1, r.2)
    }
}

/// The whole long table, split by symbol.
#[derive(Debug)]
pub struct SymbolTable {
    entries: Vec<SymbolEntry>,
}

impl View for SymbolTable {
    type V = Map<Seq<char>, SlotView>;

    closed spec fn view(&self) -> Map<Seq<char>, SlotView> {
        map_of(self.entries@)
    }
}

impl SymbolTable {
    #[verifier::type_invariant]
    spec fn well_formed(self) -> bool {
        keys_ok(self.entries@)
    }

    /// An empty table.
    pub fn new() -> (r: Self)
        ensures
            r@ == Map::<Seq<char>, SlotView>::empty(),
    {
        let r = SymbolTable { entries: Vec::new() };
        assert(r@ =~= Map::<Seq<char>, SlotView>::empty());
        r
    }

    fn find(&self, symbol: &str) -> (r: Option<usize>)
        ensures
            r matches Some(i) ==> i < self.entries@.len() && entry_key(self.entries@[i as int])
                == symbol@,
            r is None ==> forall|i: int|
                0 <= i < self.entries@.len() ==> entry_key(self.entries@[i]) != symbol@,
    {
        let mut i: usize = 0;
        while i < self.entries.len()
            invariant
                i <= self.entries@.len(),
                forall|j: int| 0 <= j < i ==> entry_key(self.entries@[j]) != symbol@,
            decreases self.entries@.len() - i,
        {
            if text_eq(self.entries[i].symbol.as_str(), symbol) {
                return Some(i);
            }
            i = i + 1;
        }
        None
    }

    /// Whether the table holds no symbol at all.
    pub fn is_empty(&self) -> (r: bool)
        ensures
            r == (self@.dom() == Set::<Seq<char>>::empty()),
    {
        proof {
            use_type_invariant(self);
        }
        if self.entries.len() == 0 {
            assert(self@.dom() =~= Set::<Seq<char>>::empty());
            true
        } else {
            proof {
                lemma_map_of_at(self.entries@, 0);
                assert(self@.dom().contains(entry_key(self.entries@[0])));
            }
            false
        }
    }

    /// Whether the table holds `symbol`.
    pub fn contains(&self, symbol: &str) -> (r: bool)
        ensures
            r == self@.contains_key(symbol@),
    {
        proof {
            use_type_invariant(self);
        }
        match self.find(symbol) {
            Some(i) => {
                proof {
                    lemma_map_of_at(self.entries@, i as int);
                }
                true
            },
            None => false,
        }
    }

    /// The slot of one symbol (that is how the benchmark is fetched).
    pub fn get(&self, symbol: &str) -> (r: Option<&SymbolSlot>)
        ensures
            r is Some == self@.contains_key(symbol@),
            r matches Some(s) ==> s.slot_view() == self@[symbol@],
    {
        proof {
            use_type_invariant(self);
        }
        match self.find(symbol) {
            Some(i) => {
                proof {
                    lemma_map_of_at(self.entries@, i as int);
                }
                Some(&self.entries[i].slot)
            },
            None => None,
        }
    }

    /// Adds one row. An empty symbol is dropped; a symbol seen before gets the point appended and
    /// keeps the options of its first row (the `options` given here are then ignored); a new symbol
    /// is stored with `options` and the point.
    pub fn push(&mut self, symbol: &str, options: Option<QuantstatsHtmlOptions>, point: SeriesPoint)
        ensures
            final(self)@ == pushed(old(self)@, symbol@, options, point),
    {
        proof {
            use_type_invariant(&*self);
        }
        if symbol.is_empty() {
            return;
        }
        match self.find(symbol) {
            Some(i) => {
                proof {
                    lemma_map_of_at(self.entries@, i as int);
                }
                let ghost before = self.entries@;
                let mut entries: Vec<SymbolEntry> = Vec::new();
                std::mem::swap(&mut entries, &mut self.entries);
                entries[i].slot.points.push(point);
                proof {
                    assert(entries@ =~= before.update(i as int, entries@[i as int]));
                    lemma_map_of_update(before, i as int, entries@[i as int]);
                }
                self.entries = entries;
            },
            None => {
                let entry = SymbolEntry {
                    symbol: symbol.to_owned(),
                    slot: SymbolSlot { options: ConfigSlot::Resolved(options), points: vec![point] },
                };
                let ghost before = self.entries@;
                proof {
                    assert(!map_of(before).contains_key(symbol@));
                    assert(keys_ok(before.push(entry))) by {
                        let t = before.push(entry);
                        assert forall|i: int, j: int|
                            0 <= i < t.len() && 0 <= j < t.len() && i != j implies entry_key(t[i])
                            != entry_key(t[j]) by {
                            if i < before.len() && j < before.len() {
                                assert(t[i] == before[i] && t[j] == before[j]);
                            } else if i < before.len() {
                                assert(t[i] == before[i]);
                            } else {
                                assert(t[j] == before[j]);
                            }
                        }
                        assert forall|i: int| 0 <= i < t.len() implies #[trigger] entry_key(
                            t[i],
                        ).len() > 0 by {
                            if i < before.len() {
                                assert(t[i] == before[i]);
                            }
                        }
                    }
                    lemma_map_of_push(before, entry);
                    assert(entry_view(entry).1 =~= seq![point]);
                }
                let mut entries: Vec<SymbolEntry> = Vec::new();
                std::mem::swap(&mut entries, &mut self.entries);
                entries.push(entry);
                self.entries = entries;
            },
        }
    }

    /// Merges another partial table into this one: a symbol on both sides gets its options merged
    /// (never parsed again) and the other side's points appended; a symbol only on the other side
    /// is copied over.
    pub fn combine(&mut self, other: &Self)
        ensures
            final(self)@ == combined(old(self)@, other@),
    {
        proof {
            use_type_invariant(&*self);
            use_type_invariant(other);
        }
        let ghost start = self@;
        let ghost os = other.entries@;
        assert(map_of(os.take(0)) =~= Map::<Seq<char>, SlotView>::empty());
        assert(combined(start, Map::<Seq<char>, SlotView>::empty()) =~= start);
        let mut k: usize = 0;
        while k < other.entries.len()
            invariant
                k <= os.len(),
                os == other.entries@,
                keys_ok(os),
                self@ == combined(start, map_of(os.take(k as int))),
            decreases os.len() - k,
        {
            proof {
                use_type_invariant(&*self);
                assert(keys_ok(os.take(k as int)));
                assert(keys_ok(os.take(k + 1)));
                assert(os.take(k + 1) =~= os.take(k as int).push(os[k as int]));
                lemma_map_of_push(os.take(k as int), os[k as int]);
                assert(!map_of(os.take(k as int)).contains_key(entry_key(os[k as int])));
            }
            let e = &other.entries[k];
            let ghost b = map_of(os.take(k as int));
            let ghost key = entry_key(os[k as int]);
            match self.find(e.symbol.as_str()) {
                Some(i) => {
                    proof {
                        lemma_map_of_at(self.entries@, i as int);
                    }
                    let ghost before = self.entries@;
                    let mut entries: Vec<SymbolEntry> = Vec::new();
                    std::mem::swap(&mut entries, &mut self.entries);
                    entries[i].slot.options.merge(&e.slot.options);
                    entries[i].slot.points.extend_from_slice(e.slot.points.as_slice());
                    proof {
                        let ne = entries@[i as int];
                        assert(ne.slot.points@ =~= before[i as int].slot.points@
                            + e.slot.points@);
                        assert(entries@ =~= before.update(i as int, ne));
                        lemma_map_of_update(before, i as int, ne);
                        assert(combined(start, b.insert(key, entry_view(*e))) =~= combined(
                            start,
                            b,
                        ).insert(
                            key,
                            (
                                merged(combined(start, b)[key].0, entry_view(*e).0),
                                combined(start, b)[key].1 + entry_view(*e).1,
                            ),
                        ));
                    }
                    self.entries = entries;
                },
                None => {
                    let copy = SymbolEntry { symbol: e.symbol.clone(), slot: e.slot.duplicate() };
                    let ghost before = self.entries@;
                    proof {
                        assert(!map_of(before).contains_key(key));
                        assert(keys_ok(before.push(copy))) by {
                            let t = before.push(copy);
                            assert forall|i: int, j: int|
                                0 <= i < t.len() && 0 <= j < t.len() && i != j implies entry_key(
                                t[i],
                            ) != entry_key(t[j]) by {
                                if i < before.len() && j < before.len() {
                                    assert(t[i] == before[i] && t[j] == before[j]);
                                } else if i < before.len() {
                                    assert(t[i] == before[i]);
                                } else {
                                    assert(t[j] == before[j]);
                                }
                            }
                            assert forall|i: int| 0 <= i < t.len() implies #[trigger] entry_key(
                                t[i],
                            ).len() > 0 by {
                                if i < before.len() {
                                    assert(t[i] == before[i]);
                                }
                            }
                        }
                        lemma_map_of_push(before, copy);
                        assert(combined(start, b.insert(key, entry_view(*e))) =~= combined(
                            start,
                            b,
                        ).insert(key, entry_view(*e)));
                    }
                    let mut entries: Vec<SymbolEntry> = Vec::new();
                    std::mem::swap(&mut entries, &mut self.entries);
                    entries.push(copy);
                    self.entries = entries;
                },
            }
            k = k + 1;
        }
        assert(os.take(os.len() as int) =~= os);
    }

    /// The symbols with their slots, in ascending order of symbol: this is what fixes the order of
    /// the reports, independently of the order in which rows and partial tables arrived.
    pub fn iter_sorted(&self) -> (r: Vec<(&str, &SymbolSlot)>)
        ensures
            forall|k: int|
                0 <= k < r@.len() ==> self@.contains_key(#[trigger] r@[k].0@) && r@[k].1.slot_view()
                    == self@[r@[k].0@],
            forall|i: int, j: int| 0 <= i < j < r@.len() ==> lex_lt(r@[i].0@, r@[j].0@),
            forall|key: Seq<char>|
                self@.contains_key(key) ==> exists|k: int| 0 <= k < r@.len() && #[trigger] r@[k].0@ == key,
    {
        proof {
            use_type_invariant(self);
        }
        let n = self.entries.len();
        let ghost es = self.entries@;
        let mut order: Vec<usize> = Vec::new();
        let mut i: usize = 0;
        while i < n
            invariant
                n == es.len(),
                es == self.entries@,
                keys_ok(es),
                i <= n,
                forall|p: int| 0 <= p < order@.len() ==> #[trigger] order@[p] < i,
                forall|m: usize| m < i ==> #[trigger] order@.contains(m),
                forall|p: int, q: int|
                    0 <= p < q < order@.len() ==> lex_lt(
                        entry_key(es[order@[p] as int]),
                        entry_key(es[order@[q] as int]),
                    ),
            decreases n - i,
        {
            let mut j: usize = order.len();
            while j > 0 && text_lt(
                self.entries[i].symbol.as_str(),
                self.entries[order[j - 1]].symbol.as_str(),
            )
                invariant
                    n == es.len(),
                    es == self.entries@,
                    i < n,
                    j <= order@.len(),
                    forall|p: int| 0 <= p < order@.len() ==> #[trigger] order@[p] < i,
                    forall|q: int|
                        j <= q < order@.len() ==> lex_lt(
                            entry_key(es[i as int]),
                            entry_key(es[order@[q] as int]),
                        ),
                decreases j,
            {
                j = j - 1;
            }
            let ghost before = order@;
            proof {
                if j > 0 {
                    let last = before[j - 1] as int;
                    assert(last != i);
                    assert(entry_key(es[last]) != entry_key(es[i as int]));
                    lemma_lex_lt_total(entry_key(es[last]), entry_key(es[i as int]));
                    assert forall|p: int| 0 <= p < j implies lex_lt(
                        entry_key(es[before[p] as int]),
                        entry_key(es[i as int]),
                    ) by {
                        if p < j - 1 {
                            lemma_lex_lt_transitive(
                                entry_key(es[before[p] as int]),
                                entry_key(es[last]),
                                entry_key(es[i as int]),
                            );
                        }
                    }
                }
            }
            order.insert(j, i);
            proof {
                assert(order@ =~= before.take(j as int).push(i) + before.skip(j as int));
                assert forall|p: int| 0 <= p < order@.len() implies #[trigger] order@[p] < i + 1 by {
                    if p < j {
                        assert(order@[p] == before[p]);
                    } else if p > j {
                        assert(order@[p] == before[p - 1]);
                    }
                }
                assert forall|m: usize| m < i + 1 implies #[trigger] order@.contains(m) by {
                    if m < i {
                        assert(before.contains(m));
                        let p = choose|p: int| 0 <= p < before.len() && before[p] == m;
                        if p < j {
                            assert(order@[p] == m);
                        } else {
                            assert(order@[p + 1] == m);
                        }
                    } else {
                        assert(order@[j as int] == i);
                    }
                }
                assert forall|p: int, q: int| 0 <= p < q < order@.len() implies lex_lt(
                    entry_key(es[order@[p] as int]),
                    entry_key(es[order@[q] as int]),
                ) by {
                    if q < j {
                        assert(order@[p] == before[p] && order@[q] == before[q]);
                    } else if q == j {
                        assert(order@[p] == before[p]);
                    } else if p < j {
                        assert(order@[p] == before[p] && order@[q] == before[q - 1]);
                    } else if p == j {
                        assert(order@[q] == before[q - 1]);
                    } else {
                        assert(order@[p] == before[p - 1] && order@[q] == before[q - 1]);
                    }
                }
            }
            i = i + 1;
        }
        let mut r: Vec<(&str, &SymbolSlot)> = Vec::new();
        let mut k: usize = 0;
        while k < order.len()
            invariant
                n == es.len(),
                es == self.entries@,
                keys_ok(es),
                forall|p: int| 0 <= p < order@.len() ==> #[trigger] order@[p] < n,
                r@.len() == k,
                k <= order@.len(),
                forall|p: int|
                    0 <= p < k ==> #[trigger] r@[p].0@ == entry_key(es[order@[p] as int])
                        && r@[p].1.slot_view() == entry_view(es[order@[p] as int]),
            decreases order@.len() - k,
        {
            let m = order[k];
            r.push((self.entries[m].symbol.as_str(), &self.entries[m].slot));
            k = k + 1;
        }
        proof {
            assert forall|p: int| 0 <= p < r@.len() implies self@.contains_key(#[trigger] r@[p].0@)
                && r@[p].1.slot_view() == self@[r@[p].0@] by {
                lemma_map_of_at(es, order@[p] as int);
            }
            assert forall|key: Seq<char>| self@.contains_key(key) implies exists|p: int|
                0 <= p < r@.len() && #[trigger] r@[p].0@ == key by {
                let m = choose|m: int| 0 <= m < es.len() && entry_key(es[m]) == key;
                assert(order@.contains(m as usize));
                let p = choose|p: int| 0 <= p < order@.len() && order@[p] == m as usize;
                assert(order@[p] < n);
                assert(r@[p].0@ == key);
            }
        }
        r
    }
}

/// Merging partial tables is associative: however the engine groups its merges, the table that
/// comes out is the same.
pub proof fn lemma_combined_associative(
    a: Map<Seq<char>, SlotView>,
    b: Map<Seq<char>, SlotView>,
    c: Map<Seq<char>, SlotView>,
)
    ensures
        combined(combined(a, b), c) == combined(a, combined(b, c)),
{
    let l = combined(combined(a, b), c);
    let r = combined(a, combined(b, c));
    assert forall|k: Seq<char>| #[trigger] l.contains_key(k) implies l[k] == r[k] by {
        if a.contains_key(k) && b.contains_key(k) && c.contains_key(k) {
            assert(a[k].1 + b[k].1 + c[k].1 =~= a[k].1 + (b[k].1 + c[k].1));
        }
    }
    assert(l =~= r);
}

/// An empty partial table changes nothing when merged, on either side.
pub proof fn lemma_combined_empty(a: Map<Seq<char>, SlotView>)
    ensures
        combined(a, Map::empty()) == a,
        combined(Map::empty(), a) == a,
{
    assert(combined(a, Map::empty()) =~= a);
    assert(combined(Map::empty(), a) =~= a);
}

/// Whether every slot of a table holds resolved options.
pub open spec fn all_resolved(m: Map<Seq<char>, SlotView>) -> bool {
    forall|k: Seq<char>| #[trigger] m.contains_key(k) ==> m[k].0 is Resolved
}

proof fn lemma_rows_resolved(rows: Seq<Row>)
    ensures
        all_resolved(table_of_rows(rows)),
    decreases rows.len(),
{
    if rows.len() > 0 {
        lemma_rows_resolved(rows.drop_last());
    }
}

proof fn lemma_push_combined(
    a: Map<Seq<char>, SlotView>,
    b: Map<Seq<char>, SlotView>,
    row: Row,
)
    requires
        all_resolved(a),
    ensures
        pushed(combined(a, b), row.0, row.1, row.2) == combined(a, pushed(b, row.0, row.1, row.2)),
{
    let k = row.0;
    let l = pushed(combined(a, b), row.0, row.1, row.2);
    let r = combined(a, pushed(b, row.0, row.1, row.2));
    if k.len() == 0 {
        assert(l =~= r);
    } else {
        if a.contains_key(k) && b.contains_key(k) {
            assert(a[k].1 + b[k].1.push(row.2) =~= (a[k].1 + b[k].1).push(row.2));
        } else if a.contains_key(k) {
            assert(a[k].1 + seq![row.2] =~= a[k].1.push(row.2));
        }
        assert(l =~= r);
    }
}

/// Splitting the input rows between two partial tables and merging them gives the table that
/// reading all rows in one pass gives: the grouping, the options kept per symbol and the order of
/// every symbol's points do not depend on how the engine split the work.
pub proof fn lemma_rows_split(left: Seq<Row>, right: Seq<Row>)
    ensures
        table_of_rows(left + right) == combined(table_of_rows(left), table_of_rows(right)),
    decreases right.len(),
{
    if right.len() == 0 {
        assert(left + right =~= left);
        lemma_combined_empty(table_of_rows(left));
    } else {
        let rest = right.drop_last();
        lemma_rows_split(left, rest);
        assert((left + right).drop_last() =~= left + rest);
        assert((left + right).last() == right.last());
        lemma_rows_resolved(left);
        lemma_push_combined(table_of_rows(left), table_of_rows(rest), right.last());
    }
}


/// The points of the rows of symbol `s`, in row order.
pub open spec fn points_of(rows: Seq<Row>, s: Seq<char>) -> Seq<SeriesPoint>
    decreases rows.len(),
{
    if rows.len() == 0 {
        Seq::empty()
    } else {
        let r = rows.last();
        let rest = points_of(rows.drop_last(), s);
        if r.0 == s {
            rest.push(r.2)
        } else {
            rest
        }
    }
}

/// Whether some row has symbol `s`.
pub open spec fn has_symbol(rows: Seq<Row>, s: Seq<char>) -> bool {
    exists|i: int| 0 <= i < rows.len() && #[trigger] rows[i].0 == s
}

/// Whether all rows of one symbol carry the same options.
pub open spec fn options_agree(rows: Seq<Row>) -> bool {
    forall|i: int, j: int|
        0 <= i < rows.len() && 0 <= j < rows.len() && #[trigger] rows[i].0 == #[trigger] rows[j].0
            ==> rows[i].1 == rows[j].1
}

/// What the table of some rows holds: the non-empty symbols of the rows, each with the points of
/// its rows in order, and (when all rows of a symbol carry the same options) those options.
pub proof fn lemma_table_of_rows(rows: Seq<Row>, s: Seq<char>)
    ensures
        table_of_rows(rows).contains_key(s) <==> s.len() > 0 && has_symbol(rows, s),
        table_of_rows(rows).contains_key(s) ==> table_of_rows(rows)[s].1 == points_of(rows, s),
        !has_symbol(rows, s) ==> points_of(rows, s).len() == 0,
        options_agree(rows) ==> forall|i: int|
            0 <= i < rows.len() && #[trigger] rows[i].0 == s && s.len() > 0 ==> table_of_rows(
                rows,
            )[s].0 == ConfigSlot::Resolved(rows[i].1),
    decreases rows.len(),
{
    if rows.len() > 0 {
        let init = rows.drop_last();
        let r = rows.last();
        lemma_table_of_rows(init, s);
        assert(rows =~= init.push(r));
        assert(has_symbol(rows, s) <==> has_symbol(init, s) || r.0 == s) by {
            if has_symbol(rows, s) && r.0 != s {
                let i = choose|i: int| 0 <= i < rows.len() && #[trigger] rows[i].0 == s;
                assert(init[i] == rows[i]);
            }
            if has_symbol(init, s) {
                let i = choose|i: int| 0 <= i < init.len() && #[trigger] init[i].0 == s;
                assert(rows[i] == init[i]);
            }
            if r.0 == s {
                assert(rows[rows.len() - 1].0 == s);
            }
        }
        if options_agree(rows) {
            assert(options_agree(init)) by {
                assert forall|i: int, j: int|
                    0 <= i < init.len() && 0 <= j < init.len() && #[trigger] init[i].0
                        == #[trigger] init[j].0 implies init[i].1 == init[j].1 by {
                    assert(rows[i] == init[i] && rows[j] == init[j]);
                }
            }
            assert forall|i: int|
                0 <= i < rows.len() && #[trigger] rows[i].0 == s && s.len() > 0 implies table_of_rows(
                rows,
            )[s].0 == ConfigSlot::Resolved(rows[i].1) by {
                if has_symbol(init, s) {
                    let i0 = choose|i0: int| 0 <= i0 < init.len() && #[trigger] init[i0].0 == s;
                    assert(rows[i0] == init[i0]);
                    assert(rows[i0].0 == rows[i].0);
                } else if i < rows.len() - 1 {
                    assert(init[i] == rows[i]);
                }
            }
        }
    }
}

/// Rows with the same symbols and points on both sides count the same points for a symbol, when
/// every row of that symbol carries the options `o`.
proof fn lemma_points_count(rows: Seq<Row>, s: Seq<char>, o: Option<QuantstatsHtmlOptions>, p: SeriesPoint)
    requires
        forall|i: int| 0 <= i < rows.len() && #[trigger] rows[i].0 == s ==> rows[i].1 == o,
    ensures
        points_of(rows, s).to_multiset().count(p) == rows.to_multiset().count((s, o, p)),
    decreases rows.len(),
{
    broadcast use vstd::seq_lib::group_to_multiset_ensures, vstd::multiset::group_multiset_axioms;

    if rows.len() == 0 {
        assert(points_of(rows, s) =~= Seq::<SeriesPoint>::empty());
    } else {
        let init = rows.drop_last();
        let r = rows.last();
        assert(rows =~= init.push(r));
        assert forall|i: int| 0 <= i < init.len() && #[trigger] init[i].0 == s implies init[i].1 == o by {
            assert(rows[i] == init[i]);
        }
        lemma_points_count(init, s, o, p);
        if r.0 == s {
            assert(rows[rows.len() - 1].0 == s);
        }
    }
}

/// The rows of a symbol, read in any order, hold the same points: when two sequences of rows hold
/// the same rows and every row of `s` carries the options `o`, the points of `s` are the same
/// multiset.
pub proof fn lemma_points_of_permutation(
    rows1: Seq<Row>,
    rows2: Seq<Row>,
    s: Seq<char>,
    o: Option<QuantstatsHtmlOptions>,
)
    requires
        rows1.to_multiset() == rows2.to_multiset(),
        forall|i: int| 0 <= i < rows1.len() && #[trigger] rows1[i].0 == s ==> rows1[i].1 == o,
    ensures
        points_of(rows1, s).to_multiset() == points_of(rows2, s).to_multiset(),
{
    broadcast use vstd::seq_lib::group_to_multiset_ensures;

    assert forall|j: int| 0 <= j < rows2.len() && #[trigger] rows2[j].0 == s implies rows2[j].1
        == o by {
        assert(rows2.contains(rows2[j]));
        assert(rows2.to_multiset().count(rows2[j]) > 0);
        assert(rows1.to_multiset().count(rows2[j]) > 0);
        let q = choose|q: int| 0 <= q < rows1.len() && rows1[q] == rows2[j];
        assert(rows1[q].0 == s);
    }
    assert forall|p: SeriesPoint| #[trigger] points_of(rows1, s).to_multiset().count(p)
        == points_of(rows2, s).to_multiset().count(p) by {
        lemma_points_count(rows1, s, o, p);
        lemma_points_count(rows2, s, o, p);
    }
    assert(points_of(rows1, s).to_multiset() =~= points_of(rows2, s).to_multiset());
}

/// Two sequences holding the same rows, all rows of one symbol with the same options, give tables
/// with the same symbols, each with the same options and the same points up to their order.
pub proof fn lemma_rows_in_any_order(rows1: Seq<Row>, rows2: Seq<Row>)
    requires
        rows1.to_multiset() == rows2.to_multiset(),
        options_agree(rows1),
    ensures
        table_of_rows(rows1).dom() == table_of_rows(rows2).dom(),
        forall|s: Seq<char>|
            #[trigger] table_of_rows(rows1).contains_key(s) ==> options_of(table_of_rows(rows1)[s].0)
                == options_of(table_of_rows(rows2)[s].0) && table_of_rows(rows1)[s].1.to_multiset()
                == table_of_rows(rows2)[s].1.to_multiset(),
{
    broadcast use vstd::seq_lib::group_to_multiset_ensures;

    let t1 = table_of_rows(rows1);
    let t2 = table_of_rows(rows2);
    assert(options_agree(rows2)) by {
        assert forall|i: int, j: int|
            0 <= i < rows2.len() && 0 <= j < rows2.len() && #[trigger] rows2[i].0 == #[trigger] rows2[j].0
                implies rows2[i].1 == rows2[j].1 by {
            assert(rows2.contains(rows2[i]));
            assert(rows2.contains(rows2[j]));
            assert(rows2.to_multiset().count(rows2[i]) > 0);
            assert(rows2.to_multiset().count(rows2[j]) > 0);
            assert(rows1.to_multiset().count(rows2[i]) > 0);
            assert(rows1.to_multiset().count(rows2[j]) > 0);
            let p = choose|p: int| 0 <= p < rows1.len() && rows1[p] == rows2[i];
            let q = choose|q: int| 0 <= q < rows1.len() && rows1[q] == rows2[j];
            assert(rows1[p].0 == rows1[q].0);
        }
    }
    assert forall|s: Seq<char>| has_symbol(rows1, s) <==> has_symbol(rows2, s) by {
        if has_symbol(rows1, s) {
            let i = choose|i: int| 0 <= i < rows1.len() && #[trigger] rows1[i].0 == s;
            assert(rows1.contains(rows1[i]));
            assert(rows1.to_multiset().count(rows1[i]) > 0);
            assert(rows2.to_multiset().count(rows1[i]) > 0);
            let j = choose|j: int| 0 <= j < rows2.len() && rows2[j] == rows1[i];
            assert(rows2[j].0 == s);
        }
        if has_symbol(rows2, s) {
            let j = choose|j: int| 0 <= j < rows2.len() && #[trigger] rows2[j].0 == s;
            assert(rows2.contains(rows2[j]));
            assert(rows2.to_multiset().count(rows2[j]) > 0);
            assert(rows1.to_multiset().count(rows2[j]) > 0);
            let i = choose|i: int| 0 <= i < rows1.len() && rows1[i] == rows2[j];
            assert(rows1[i].0 == s);
        }
    }
    assert forall|s: Seq<char>| t1.contains_key(s) <==> t2.contains_key(s) by {
        lemma_table_of_rows(rows1, s);
        lemma_table_of_rows(rows2, s);
    }
    assert(t1.dom() =~= t2.dom());
    assert forall|s: Seq<char>| #[trigger] t1.contains_key(s) implies options_of(t1[s].0) == options_of(
        t2[s].0,
    ) && t1[s].1.to_multiset() == t2[s].1.to_multiset() by {
        lemma_table_of_rows(rows1, s);
        lemma_table_of_rows(rows2, s);
        let i = choose|i: int| 0 <= i < rows1.len() && #[trigger] rows1[i].0 == s;
        let j = choose|j: int| 0 <= j < rows2.len() && #[trigger] rows2[j].0 == s;
        let o = rows1[i].1;
        assert forall|k: int| 0 <= k < rows1.len() && #[trigger] rows1[k].0 == s implies rows1[k].1
            == o by {
            assert(rows1[k].0 == rows1[i].0);
        }
        lemma_points_of_permutation(rows1, rows2, s, o);
        assert(rows2.contains(rows2[j]));
        assert(rows2.to_multiset().count(rows2[j]) > 0);
        assert(rows1.to_multiset().count(rows2[j]) > 0);
        let q = choose|q: int| 0 <= q < rows1.len() && rows1[q] == rows2[j];
        assert(rows1[q].0 == rows1[i].0);
        assert(t1[s].0 == ConfigSlot::Resolved(o));
        assert(t2[s].0 == ConfigSlot::Resolved(rows2[j].1));
    }
}

} // verus!
