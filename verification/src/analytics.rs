//! Aggregate views over the ledger: the filtered transaction list, the
//! filtered total, per-category sums for one calendar month, and the
//! sorted list of distinct categories — every amount normalized into the
//! base currency through the conversion table.

use vstd::prelude::*;
use crate::data::spec_convert;
use crate::text::{contains_sub, is_substring, lex_lt, lemma_lex_trichotomy, lower_of, lowercase,
    str_eq, str_lt};
use crate::types::{AppState, Date, Transaction, TxView};

verus! {

/// Whether a transaction passes the search filter: an empty filter
/// matches everything, any other matches case-insensitively as a
/// substring of the description or of the category.
pub open spec fn tx_matches(t: TxView, q: Seq<char>) -> bool {
    ||| q.len() == 0
    ||| is_substring(lower_of(t.description), lower_of(q))
    ||| is_substring(lower_of(t.category), lower_of(q))
}

/// The subsequence of transactions that pass the search filter, in their
/// stored order.
pub open spec fn spec_filtered(ts: Seq<TxView>, q: Seq<char>) -> Seq<TxView>
    decreases ts.len(),
{
    if ts.len() == 0 {
        Seq::empty()
    } else {
        let rest = spec_filtered(ts.drop_last(), q);
        if tx_matches(ts.last(), q) {
            rest.push(ts.last())
        } else {
            rest
        }
    }
}

/// The converted amount of one transaction in the base currency.
pub open spec fn conv_of(t: TxView, rates: Map<(Currency, Currency), u64>, base: Currency) -> int {
    spec_convert(rates, t.amount, t.currency, base)
}

use crate::types::Currency;

/// The sum, in the base currency, of the transactions that pass the
/// search filter.
pub open spec fn spec_total(
    ts: Seq<TxView>,
    q: Seq<char>,
    rates: Map<(Currency, Currency), u64>,
    base: Currency,
) -> int
    decreases ts.len(),
{
    if ts.len() == 0 {
        0
    } else {
        spec_total(ts.drop_last(), q, rates, base) + if tx_matches(ts.last(), q) {
            conv_of(ts.last(), rates, base)
        } else {
            0
        }
    }
}

/// Whether every transaction's converted amount fits a 64-bit signed
/// value, which the aggregate views require of their inputs.
pub open spec fn all_conversions_fit(
    ts: Seq<TxView>,
    rates: Map<(Currency, Currency), u64>,
    base: Currency,
) -> bool {
    forall|i: int|
        0 <= i < ts.len() ==> i64::MIN <= conv_of(#[trigger] ts[i], rates, base) <= i64::MAX
}

/// A filtered sum stays within `len` 64-bit amounts.
proof fn lemma_total_bound(
    ts: Seq<TxView>,
    q: Seq<char>,
    rates: Map<(Currency, Currency), u64>,
    base: Currency,
)
    requires
        all_conversions_fit(ts, rates, base),
    ensures
        -(ts.len() as int * 0x8000_0000_0000_0000) <= spec_total(ts, q, rates, base) <= ts.len()
            as int * 0x7fff_ffff_ffff_ffff,
    decreases ts.len(),
{
    if ts.len() > 0 {
        assert(all_conversions_fit(ts.drop_last(), rates, base)) by {
            assert(forall|i: int|
                0 <= i < ts.len() - 1 ==> ts.drop_last()[i] == #[trigger] ts[i]);
        }
        lemma_total_bound(ts.drop_last(), q, rates, base);
        assert(ts.last() == ts[ts.len() - 1]);
    }
}

/// The categories of the transactions that fall in the reference date's
/// calendar month, in stored order, with repetitions.
pub open spec fn month_cats(ts: Seq<TxView>, reference: Date) -> Seq<Seq<char>>
    decreases ts.len(),
{
    if ts.len() == 0 {
        Seq::empty()
    } else {
        let rest = month_cats(ts.drop_last(), reference);
        if ts.last().date.spec_same_month(reference) {
            rest.push(ts.last().category)
        } else {
            rest
        }
    }
}

/// The sequence with later repetitions removed: each element at its first
/// occurrence.
pub open spec fn dedup_first(s: Seq<Seq<char>>) -> Seq<Seq<char>>
    decreases s.len(),
{
    if s.len() == 0 {
        Seq::empty()
    } else {
        let d = dedup_first(s.drop_last());
        if d.contains(s.last()) {
            d
        } else {
            d.push(s.last())
        }
    }
}

/// De-duplication keeps exactly the elements of the sequence, each once.
proof fn lemma_dedup_first(s: Seq<Seq<char>>)
    ensures
        forall|x: Seq<char>| dedup_first(s).contains(x) <==> s.contains(x),
        forall|p: int, q: int|
            0 <= p < q < dedup_first(s).len() ==> dedup_first(s)[p] != dedup_first(s)[q],
    decreases s.len(),
{
    if s.len() > 0 {
        lemma_dedup_first(s.drop_last());
        let d = dedup_first(s.drop_last());
        let ds = dedup_first(s);
        assert forall|x: Seq<char>| s.contains(x) implies ds.contains(x) by {
            let i = choose|i: int| 0 <= i < s.len() && s[i] == x;
            if i < s.len() - 1 {
                assert(s.drop_last()[i] == x);
                assert(s.drop_last().contains(x));
                let j = choose|j: int| 0 <= j < d.len() && d[j] == x;
                assert(ds[j] == x);
            } else {
                if d.contains(x) {
                    let j = choose|j: int| 0 <= j < d.len() && d[j] == x;
                    assert(ds[j] == x);
                } else {
                    assert(ds[d.len() as int] == x);
                }
            }
        };
        assert forall|x: Seq<char>| ds.contains(x) implies s.contains(x) by {
            let j = choose|j: int| 0 <= j < ds.len() && ds[j] == x;
            if j < d.len() {
                assert(d[j] == x);
                assert(d.contains(x));
                assert(s.drop_last().contains(x));
                let i = choose|i: int|
                    0 <= i < s.drop_last().len() && s.drop_last()[i] == x;
                assert(s[i] == x);
            } else {
                assert(x == s.last());
                assert(s[s.len() - 1] == x);
            }
        };
        assert forall|p: int, q: int| 0 <= p < q < ds.len() implies ds[p] != ds[q] by {
            if q < d.len() {
                assert(ds[p] == d[p] && ds[q] == d[q]);
            } else {
                assert(ds[p] == d[p] && ds[q] == s.last());
                if d[p] == s.last() {
                    assert(d.contains(s.last()));
                    assert(false);
                }
            }
        };
    }
}

/// The sum, in the base currency, of the transactions of one category
/// falling in the reference date's calendar month.
pub open spec fn month_sum(
    ts: Seq<TxView>,
    cat: Seq<char>,
    reference: Date,
    rates: Map<(Currency, Currency), u64>,
    base: Currency,
) -> int
    decreases ts.len(),
{
    if ts.len() == 0 {
        0
    } else {
        month_sum(ts.drop_last(), cat, reference, rates, base) + if ts.last(
        ).date.spec_same_month(reference) && ts.last().category == cat {
            conv_of(ts.last(), rates, base)
        } else {
            0
        }
    }
}

/// A category that never occurs in the month sums to zero.
proof fn lemma_month_sum_absent(
    ts: Seq<TxView>,
    cat: Seq<char>,
    reference: Date,
    rates: Map<(Currency, Currency), u64>,
    base: Currency,
)
    requires
        !month_cats(ts, reference).contains(cat),
    ensures
        month_sum(ts, cat, reference, rates, base) == 0,
    decreases ts.len(),
{
    if ts.len() > 0 {
        let rest = month_cats(ts.drop_last(), reference);
        assert forall|x: Seq<char>| rest.contains(x) implies month_cats(ts, reference).contains(
            x,
        ) by {
            let i = choose|i: int| 0 <= i < rest.len() && rest[i] == x;
            if ts.last().date.spec_same_month(reference) {
                assert(month_cats(ts, reference) == rest.push(ts.last().category));
                assert(month_cats(ts, reference)[i] == x);
            }
        };
        lemma_month_sum_absent(ts.drop_last(), cat, reference, rates, base);
        if ts.last().date.spec_same_month(reference) {
            assert(month_cats(ts, reference).last() == ts.last().category);
            assert(ts.last().category != cat);
        }
    }
}

/// A month sum stays within `len` 64-bit amounts.
proof fn lemma_month_sum_bound(
    ts: Seq<TxView>,
    cat: Seq<char>,
    reference: Date,
    rates: Map<(Currency, Currency), u64>,
    base: Currency,
)
    requires
        all_conversions_fit(ts, rates, base),
    ensures
        -(ts.len() as int * 0x8000_0000_0000_0000) <= month_sum(ts, cat, reference, rates, base)
            <= ts.len() as int * 0x7fff_ffff_ffff_ffff,
    decreases ts.len(),
{
    if ts.len() > 0 {
        assert(all_conversions_fit(ts.drop_last(), rates, base)) by {
            assert(forall|i: int|
                0 <= i < ts.len() - 1 ==> ts.drop_last()[i] == #[trigger] ts[i]);
        }
        lemma_month_sum_bound(ts.drop_last(), cat, reference, rates, base);
        assert(ts.last() == ts[ts.len() - 1]);
    }
}

/// Whether some transaction carries the category.
pub open spec fn has_category(ts: Seq<TxView>, x: Seq<char>) -> bool {
    exists|i: int| 0 <= i < ts.len() && (#[trigger] ts[i]).category == x
}

/// Whether some string of the sequence holds the characters.
pub open spec fn contains_str(s: Seq<String>, x: Seq<char>) -> bool {
    exists|j: int| 0 <= j < s.len() && (#[trigger] s[j])@ == x
}

impl AppState {
    /// Whether a transaction passes the current search filter.
    pub fn transaction_matches(&self, tx: &Transaction) -> (r: bool)
        ensures
            r == tx_matches(tx@, self.search_term@),
    {
        if self.search_term.as_str().is_empty() {
            return true;
        }
        let needle = lowercase(self.search_term.as_str());
        let desc = lowercase(tx.description.as_str());
        if contains_sub(desc.as_str(), needle.as_str()) {
            return true;
        }
        let cat = lowercase(tx.category.as_str());
        contains_sub(cat.as_str(), needle.as_str())
    }

    /// The transactions that pass the current search filter, in their
    /// stored order.
    pub fn filtered_transactions(&self) -> (r: Vec<Transaction>)
        ensures
            r@.map_values(|t: Transaction| t@) == spec_filtered(self.txs(), self.search_term@),
    {
        let mut r: Vec<Transaction> = Vec::new();
        let n = self.data.transactions.len();
        let mut i: usize = 0;
        while i < n
            invariant
                n == self.data.transactions@.len(),
                n == self.txs().len(),
                i <= n,
                r@.map_values(|t: Transaction| t@) == spec_filtered(
                    self.txs().subrange(0, i as int),
                    self.search_term@,
                ),
            decreases n - i,
        {
            let ghost prefix = self.txs().subrange(0, i as int);
            let tx = &self.data.transactions[i];
            proof {
                assert(self.txs().subrange(0, i + 1).drop_last() =~= prefix);
                assert(self.txs().subrange(0, i + 1).last() == self.txs()[i as int]);
                assert(tx@ == self.txs()[i as int]);
            }
            if self.transaction_matches(tx) {
                r.push(tx.clone());
                proof {
                    assert(r@.map_values(|t: Transaction| t@) =~= spec_filtered(
                        self.txs().subrange(0, i + 1),
                        self.search_term@,
                    ));
                }
            } else {
                proof {
                    assert(r@.map_values(|t: Transaction| t@) =~= spec_filtered(
                        self.txs().subrange(0, i + 1),
                        self.search_term@,
                    ));
                }
            }
            i = i + 1;
        }
        proof {
            assert(self.txs().subrange(0, n as int) =~= self.txs());
        }
        r
    }

    /// The sum of the filtered transactions, converted into the base
    /// currency; an empty selection sums to zero.
    pub fn total(&self) -> (r: i128)
        requires
            self.wf(),
            all_conversions_fit(self.txs(), self.exchange_rates@, self.base_currency),
        ensures
            r as int == spec_total(
                self.txs(),
                self.search_term@,
                self.exchange_rates@,
                self.base_currency,
            ),
    {
        let mut r: i128 = 0;
        let n = self.data.transactions.len();
        let mut i: usize = 0;
        while i < n
            invariant
                self.wf(),
                all_conversions_fit(self.txs(), self.exchange_rates@, self.base_currency),
                n == self.data.transactions@.len(),
                n == self.txs().len(),
                i <= n,
                r as int == spec_total(
                    self.txs().subrange(0, i as int),
                    self.search_term@,
                    self.exchange_rates@,
                    self.base_currency,
                ),
            decreases n - i,
        {
            let ghost prefix = self.txs().subrange(0, i as int);
            proof {
                assert(self.txs().subrange(0, i + 1).drop_last() =~= prefix);
                assert(self.txs().subrange(0, i + 1).last() == self.txs()[i as int]);
                assert(all_conversions_fit(prefix, self.exchange_rates@, self.base_currency)) by {
                    assert(forall|j: int| 0 <= j < i ==> prefix[j] == #[trigger] self.txs()[j]);
                }
                lemma_total_bound(prefix, self.search_term@, self.exchange_rates@,
                    self.base_currency);
            }
            let tx = &self.data.transactions[i];
            proof {
                assert(tx@ == self.txs()[i as int]);
            }
            if self.transaction_matches(tx) {
                let c = self.exchange_rates.convert(tx.amount, tx.currency, self.base_currency);
                r = r + (c as i128);
            }
            i = i + 1;
        }
        proof {
            assert(self.txs().subrange(0, n as int) =~= self.txs());
        }
        r
    }

    /// The per-category sums of the transactions falling in the
    /// reference date's calendar month, converted into the base
    /// currency; one entry per category, in order of first appearance,
    /// and none for categories without a transaction that month.
    pub fn category_sums_this_month(&self, reference: Date) -> (r: Vec<(String, i128)>)
        requires
            self.wf(),
            all_conversions_fit(self.txs(), self.exchange_rates@, self.base_currency),
        ensures
            r@.map_values(|e: (String, i128)| e.0@) == dedup_first(
                month_cats(self.txs(), reference),
            ),
            forall|j: int|
                0 <= j < r@.len() ==> (#[trigger] r@[j]).1 as int == month_sum(
                    self.txs(),
                    r@[j].0@,
                    reference,
                    self.exchange_rates@,
                    self.base_currency,
                ),
    {
        let ghost rates = self.exchange_rates@;
        let ghost base = self.base_currency;
        let mut r: Vec<(String, i128)> = Vec::new();
        let n = self.data.transactions.len();
        let mut i: usize = 0;
        while i < n
            invariant
                self.wf(),
                all_conversions_fit(self.txs(), rates, base),
                rates == self.exchange_rates@,
                base == self.base_currency,
                n == self.data.transactions@.len(),
                n == self.txs().len(),
                i <= n,
                r@.map_values(|e: (String, i128)| e.0@) == dedup_first(
                    month_cats(self.txs().subrange(0, i as int), reference),
                ),
                forall|j: int|
                    0 <= j < r@.len() ==> (#[trigger] r@[j]).1 as int == month_sum(
                        self.txs().subrange(0, i as int),
                        r@[j].0@,
                        reference,
                        rates,
                        base,
                    ),
                forall|p: int, q: int|
                    0 <= p < q < r@.len() ==> (#[trigger] r@[p]).0@ != (#[trigger] r@[q]).0@,
            decreases n - i,
        {
            let ghost prefix = self.txs().subrange(0, i as int);
            let ghost next = self.txs().subrange(0, i + 1);
            let ghost keys0 = r@.map_values(|e: (String, i128)| e.0@);
            let tx = &self.data.transactions[i];
            proof {
                assert(next.drop_last() =~= prefix);
                assert(next.last() == self.txs()[i as int]);
                assert(tx@ == self.txs()[i as int]);
                assert(all_conversions_fit(prefix, rates, base)) by {
                    assert(forall|j: int| 0 <= j < i ==> prefix[j] == #[trigger] self.txs()[j]);
                }
            }
            if tx.date.same_month(&reference) {
                let ghost cat = tx@.category;
                assert(month_cats(next, reference) == month_cats(prefix, reference).push(cat));
                let c = self.exchange_rates.convert(tx.amount, tx.currency, self.base_currency);
                let m = r.len();
                let mut k: usize = 0;
                while k < m
                    invariant
                        m == r@.len(),
                        k <= m,
                        cat == tx@.category,
                        tx@.category == self.data.transactions@[i as int]@.category,
                        i < n,
                        n == self.data.transactions@.len(),
                        forall|l: int| 0 <= l < k ==> (#[trigger] r@[l]).0@ != cat,
                    ensures
                        (k < m && r@[k as int].0@ == cat) || (k == m && forall|l: int|
                            0 <= l < m ==> (#[trigger] r@[l]).0@ != cat),
                    decreases m - k,
                {
                    if str_eq(r[k].0.as_str(), tx.category.as_str()) {
                        break ;
                    }
                    k = k + 1;
                }
                if k < r.len() {
                    // the category already has an entry: add to it
                    let ghost r0 = r@;
                    proof {
                        assert(keys0.contains(cat)) by {
                            assert(keys0[k as int] == cat);
                        }
                        assert(month_cats(next, reference).drop_last() =~= month_cats(
                            prefix,
                            reference,
                        ));
                        assert(dedup_first(month_cats(next, reference)) == keys0);
                        lemma_month_sum_bound(prefix, r0[k as int].0@, reference, rates, base);
                    }
                    let key = r[k].0.clone();
                    let v = r[k].1;
                    r[k] = (key, v + (c as i128));
                    proof {
                        assert(r@ =~= r0.update(k as int, r@[k as int]));
                        assert(r@[k as int].0@ == cat);
                        assert(r@[k as int].1 == v + c as i128);
                        assert(r@.map_values(|e: (String, i128)| e.0@) =~= keys0);
                        assert forall|j: int|
                            0 <= j < r@.len() implies (#[trigger] r@[j]).1 as int == month_sum(
                            next,
                            r@[j].0@,
                            reference,
                            rates,
                            base,
                        ) by {
                            if j == k {
                                assert(r@[j].0@ == cat);
                            } else {
                                assert(r@[j] == r0[j]);
                                assert(r@[j].0@ != cat);
                            }
                        };
                    }
                } else {
                    // first transaction of this category this month
                    proof {
                        if keys0.contains(cat) {
                            let l = choose|l: int| 0 <= l < keys0.len() && keys0[l] == cat;
                            assert(r@[l].0@ == cat);
                            assert(false);
                        }
                        assert(month_cats(next, reference).drop_last() =~= month_cats(
                            prefix,
                            reference,
                        ));
                        assert(dedup_first(month_cats(next, reference)) == keys0.push(cat));
                        lemma_dedup_first(month_cats(prefix, reference));
                        lemma_month_sum_absent(prefix, cat, reference, rates, base);
                    }
                    r.push((tx.category.clone(), c as i128));
                    proof {
                        assert(r@.map_values(|e: (String, i128)| e.0@) =~= keys0.push(cat));
                        assert forall|j: int|
                            0 <= j < r@.len() implies (#[trigger] r@[j]).1 as int == month_sum(
                            next,
                            r@[j].0@,
                            reference,
                            rates,
                            base,
                        ) by {
                            if j < r@.len() - 1 {
                                assert(r@[j].0@ != cat);
                            }
                        };
                        assert forall|p: int, q: int|
                            0 <= p < q < r@.len() implies (#[trigger] r@[p]).0@
                            != (#[trigger] r@[q]).0@ by {
                            if q == r@.len() - 1 {
                                assert(r@[p].0@ != cat);
                            }
                        };
                    }
                }
            } else {
                proof {
                    assert(month_cats(next, reference) == month_cats(prefix, reference));
                    assert forall|j: int|
                        0 <= j < r@.len() implies (#[trigger] r@[j]).1 as int == month_sum(
                        next,
                        r@[j].0@,
                        reference,
                        rates,
                        base,
                    ) by {};
                }
            }
            i = i + 1;
        }
        proof {
            assert(self.txs().subrange(0, n as int) =~= self.txs());
        }
        r
    }

    /// The category names seen across all transactions, sorted and
    /// de-duplicated: the result is strictly increasing and holds
    /// exactly the categories that occur.
    pub fn categories(&self) -> (r: Vec<String>)
        ensures
            forall|p: int| 0 <= p && p + 1 < r@.len() ==> lex_lt((#[trigger] r@[p])@, r@[p + 1]@),
            forall|x: Seq<char>| has_category(self.txs(), x) <==> contains_str(r@, x),
    {
        let mut r: Vec<String> = Vec::new();
        let n = self.data.transactions.len();
        let mut i: usize = 0;
        while i < n
            invariant
                n == self.data.transactions@.len(),
                n == self.txs().len(),
                i <= n,
                forall|p: int| 0 <= p && p + 1 < r@.len() ==> lex_lt((#[trigger] r@[p])@, r@[p + 1]@),
                forall|x: Seq<char>|
                    has_category(self.txs().subrange(0, i as int), x) <==> contains_str(r@, x),
            decreases n - i,
        {
            let ghost prefix = self.txs().subrange(0, i as int);
            let ghost next = self.txs().subrange(0, i + 1);
            let ghost r0 = r@;
            let tx = &self.data.transactions[i];
            let ghost cat = tx@.category;
            proof {
                assert(tx@ == self.txs()[i as int]);
                assert(next[i as int] == tx@);
                assert forall|x: Seq<char>|
                    has_category(next, x) <==> (has_category(prefix, x) || x == cat) by {
                    if has_category(next, x) {
                        let l = choose|l: int| 0 <= l < next.len() && (#[trigger] next[l]).category == x;
                        if l < i {
                            assert(prefix[l] == next[l]);
                            assert(has_category(prefix, x));
                        } else {
                            assert(x == cat);
                        }
                    }
                    if has_category(prefix, x) {
                        let l = choose|l: int|
                            0 <= l < prefix.len() && (#[trigger] prefix[l]).category == x;
                        assert(next[l] == prefix[l]);
                        assert(has_category(next, x));
                    }
                    if x == cat {
                        assert(has_category(next, x));
                    }
                };
            }
            let m = r.len();
            let mut j: usize = 0;
            while j < m
                invariant
                    m == r@.len(),
                    j <= m,
                    cat == tx@.category,
                    tx@.category == self.data.transactions@[i as int]@.category,
                    i < n,
                    n == self.data.transactions@.len(),
                    forall|l: int| 0 <= l < j ==> lex_lt((#[trigger] r@[l])@, cat),
                ensures
                    j <= m,
                    forall|l: int| 0 <= l < j ==> lex_lt((#[trigger] r@[l])@, cat),
                    j < m ==> !lex_lt(r@[j as int]@, cat),
                decreases m - j,
            {
                if !str_lt(r[j].as_str(), tx.category.as_str()) {
                    break ;
                }
                j = j + 1;
            }
            let mut already = false;
            if j < r.len() {
                if str_eq(r[j].as_str(), tx.category.as_str()) {
                    already = true;
                }
            }
            if already {
                proof {
                    assert(r@ == r0);
                    assert(r@[j as int]@ == cat);
                    assert(contains_str(r@, cat));
                    assert forall|x: Seq<char>|
                        has_category(next, x) <==> contains_str(r@, x) by {
                        if has_category(next, x) && x != cat {
                            assert(has_category(prefix, x));
                        }
                        if contains_str(r@, x) {
                            assert(contains_str(r0, x));
                            assert(has_category(prefix, x));
                        }
                    };
                }
            } else {
                proof {
                    if j < r0.len() {
                        lemma_lex_trichotomy(r0[j as int]@, cat);
                        assert(lex_lt(cat, r0[j as int]@));
                    }
                }
                r.insert(j, tx.category.clone());
                proof {
                    assert(r@ == r0.insert(j as int, r@[j as int]));
                    assert(r@[j as int]@ == cat);
                    assert forall|p: int|
                        0 <= p && p + 1 < r@.len() implies lex_lt((#[trigger] r@[p])@, r@[p + 1]@) by {
                        if p + 1 < j {
                            assert(r@[p] == r0[p] && r@[p + 1] == r0[p + 1]);
                        } else if p + 1 == j {
                            assert(r@[p] == r0[p]);
                        } else if p == j {
                            assert(r@[p + 1] == r0[p]);
                            assert(lex_lt(cat, r0[p]@));
                        } else {
                            assert(r@[p] == r0[p - 1] && r@[p + 1] == r0[p]);
                        }
                    };
                    assert forall|x: Seq<char>|
                        contains_str(r@, x) <==> (contains_str(r0, x) || x == cat) by {
                        if contains_str(r@, x) {
                            let l = choose|l: int|
                                0 <= l < r@.len() && (#[trigger] r@[l])@ == x;
                            if l < j {
                                assert(r0[l]@ == x);
                            } else if l > j {
                                assert(r0[l - 1]@ == x);
                            }
                        }
                        if contains_str(r0, x) {
                            let l = choose|l: int|
                                0 <= l < r0.len() && (#[trigger] r0[l])@ == x;
                            if l < j {
                                assert(r@[l]@ == x);
                            } else {
                                assert(r@[l + 1]@ == x);
                            }
                        }
                        if x == cat {
                            assert(r@[j as int]@ == x);
                        }
                    };
                    assert forall|x: Seq<char>|
                        has_category(next, x) <==> contains_str(r@, x) by {
                        if has_category(next, x) && x != cat {
                            assert(has_category(prefix, x));
                            assert(contains_str(r0, x));
                        }
                        if contains_str(r@, x) && x != cat {
                            assert(contains_str(r0, x));
                            assert(has_category(prefix, x));
                        }
                    };
                }
            }
            i = i + 1;
        }
        proof {
            assert(self.txs().subrange(0, n as int) =~= self.txs());
        }
        r
    }
}

} // verus!
