use vstd::multiset::Multiset;
use vstd::prelude::*;

verus! {

/// A term and how often it occurs.
#[derive(Debug)]
pub struct FrequencyEntry {
    /// The normalized term.
    pub term: String,
    /// The number of its occurrences.
    pub count: u64,
}

/// The occurrences of terms, one entry per term. Its view is the multiset
/// of the terms counted.
#[derive(Debug)]
pub struct FrequencyTable {
    /// The entries, in the order in which their terms were first seen.
    pub entries: Vec<FrequencyEntry>,
}

/// The multiset that holds `t` exactly `n` times.
pub open spec fn copies(t: Seq<char>, n: nat) -> Multiset<Seq<char>>
    decreases n,
{
    if n == 0 {
        Multiset::empty()
    } else {
        copies(t, (n - 1) as nat).insert(t)
    }
}

/// The multiset of the terms that the entries count.
pub open spec fn bag_of(es: Seq<FrequencyEntry>) -> Multiset<Seq<char>>
    decreases es.len(),
{
    if es.len() == 0 {
        Multiset::empty()
    } else {
        bag_of(es.drop_last()).add(copies(es.last().term@, es.last().count as nat))
    }
}

/// The sum of the multisets of `ms`.
pub open spec fn merged(ms: Seq<Multiset<Seq<char>>>) -> Multiset<Seq<char>>
    decreases ms.len(),
{
    if ms.len() == 0 {
        Multiset::empty()
    } else {
        merged(ms.drop_last()).add(ms.last())
    }
}

/// The views of the tables, in order.
pub open spec fn views(tables: Seq<FrequencyTable>) -> Seq<Multiset<Seq<char>>> {
    tables.map_values(|t: FrequencyTable| t@)
}

/// The views of the strings, in order.
pub open spec fn terms_of(tokens: Seq<String>) -> Seq<Seq<char>> {
    tokens.map_values(|t: String| t@)
}

impl View for FrequencyTable {
    type V = Multiset<Seq<char>>;

    open spec fn view(&self) -> Multiset<Seq<char>> {
        bag_of(self.entries@)
    }
}

/// `copies(t, n)` holds `t` exactly `n` times and nothing else.
pub proof fn lemma_copies(t: Seq<char>, n: nat)
    ensures
        copies(t, n).count(t) == n,
        forall|u: Seq<char>| u != t ==> copies(t, n).count(u) == 0,
        copies(t, n).len() == n,
    decreases n,
{
    if n > 0 {
        lemma_copies(t, (n - 1) as nat);
    }
}

/// The entries of two sequences put together count what the two count.
pub proof fn lemma_bag_concat(a: Seq<FrequencyEntry>, b: Seq<FrequencyEntry>)
    ensures
        bag_of(a + b) == bag_of(a).add(bag_of(b)),
    decreases b.len(),
{
    if b.len() == 0 {
        assert(a + b =~= a);
        assert(bag_of(a).add(bag_of(b)) =~= bag_of(a));
    } else {
        lemma_bag_concat(a, b.drop_last());
        assert((a + b).drop_last() =~= a + b.drop_last());
        assert((a + b).last() == b.last());
        assert(bag_of(a + b) =~= bag_of(a).add(bag_of(b)));
    }
}

/// A single entry counts its term as often as it says.
pub proof fn lemma_bag_single(e: FrequencyEntry)
    ensures
        bag_of(seq![e]) == copies(e.term@, e.count as nat),
{
    assert(seq![e].drop_last() =~= Seq::<FrequencyEntry>::empty());
    assert(bag_of(Seq::<FrequencyEntry>::empty()) =~= Multiset::empty());
    assert(seq![e].last() == e);
    assert(bag_of(seq![e]) =~= copies(e.term@, e.count as nat));
}

/// Raising the count of entry `i` by `n` adds `n` occurrences of its term.
pub proof fn lemma_bag_update(es: Seq<FrequencyEntry>, i: int, e: FrequencyEntry, n: nat)
    requires
        0 <= i < es.len(),
        e.term@ == es[i].term@,
        e.count == es[i].count + n,
    ensures
        bag_of(es.update(i, e)) == bag_of(es).add(copies(e.term@, n)),
{
    let a = es.take(i);
    let b = es.skip(i + 1);
    assert(es =~= a + seq![es[i]] + b);
    assert(es.update(i, e) =~= a + seq![e] + b);
    lemma_bag_concat(a + seq![es[i]], b);
    lemma_bag_concat(a, seq![es[i]]);
    lemma_bag_concat(a + seq![e], b);
    lemma_bag_concat(a, seq![e]);
    lemma_bag_single(es[i]);
    lemma_bag_single(e);
    lemma_copies(e.term@, n);
    lemma_copies(e.term@, es[i].count as nat);
    lemma_copies(e.term@, e.count as nat);
    assert(copies(e.term@, e.count as nat) =~= copies(e.term@, es[i].count as nat).add(
        copies(e.term@, n),
    ));
    assert(bag_of(es.update(i, e)) =~= bag_of(es).add(copies(e.term@, n)));
}

/// An entry's count is at most the occurrences of its term, and the
/// occurrences of a term that no entry holds are none.
pub proof fn lemma_bag_count(es: Seq<FrequencyEntry>, t: Seq<char>)
    ensures
        forall|i: int| 0 <= i < es.len() && es[i].term@ == t ==> es[i].count <= bag_of(es).count(t),
        (forall|i: int| 0 <= i < es.len() ==> es[i].term@ != t) ==> bag_of(es).count(t) == 0,
    decreases es.len(),
{
    if es.len() > 0 {
        let d = es.drop_last();
        lemma_bag_count(d, t);
        lemma_copies(es.last().term@, es.last().count as nat);
        assert forall|i: int| 0 <= i < es.len() && es[i].term@ == t implies es[i].count
            <= bag_of(es).count(t) by {
            if i < es.len() - 1 {
                assert(es[i] == d[i]);
            }
        }
        if forall|i: int| 0 <= i < es.len() ==> es[i].term@ != t {
            assert forall|i: int| 0 <= i < d.len() implies d[i].term@ != t by {
                assert(d[i] == es[i]);
            }
        }
    }
}

/// The sum over two sequences put together is the sum of the two sums.
pub proof fn lemma_merged_concat(a: Seq<Multiset<Seq<char>>>, b: Seq<Multiset<Seq<char>>>)
    ensures
        merged(a + b) == merged(a).add(merged(b)),
    decreases b.len(),
{
    if b.len() == 0 {
        assert(a + b =~= a);
        assert(merged(a).add(merged(b)) =~= merged(a));
    } else {
        lemma_merged_concat(a, b.drop_last());
        assert((a + b).drop_last() =~= a + b.drop_last());
        assert((a + b).last() == b.last());
        assert(merged(a + b) =~= merged(a).add(merged(b)));
    }
}

/// Merging is commutative: two tables merged in either order give the same
/// table.
pub proof fn lemma_merge_commutes(a: Multiset<Seq<char>>, b: Multiset<Seq<char>>)
    ensures
        merged(seq![a, b]) == merged(seq![b, a]),
{
    lemma_merged_concat(seq![a], seq![b]);
    lemma_merged_concat(seq![b], seq![a]);
    assert(seq![a] + seq![b] =~= seq![a, b]);
    assert(seq![b] + seq![a] =~= seq![b, a]);
    assert(merged(seq![a]).add(merged(seq![b])) =~= merged(seq![b]).add(merged(seq![a])));
}

/// Merging does not depend on the order of the tables: two sequences that
/// hold the same tables, each as often as the other, merge to the same
/// table.
pub proof fn lemma_merge_any_order(x: Seq<Multiset<Seq<char>>>, y: Seq<Multiset<Seq<char>>>)
    requires
        x.to_multiset() == y.to_multiset(),
    ensures
        merged(x) == merged(y),
    decreases x.len(),
{
    x.to_multiset_ensures();
    y.to_multiset_ensures();
    if x.len() == 0 {
        assert(y.len() == 0);
    } else {
        let last = x.last();
        assert(x[x.len() - 1] == last);
        assert(x.contains(last));
        assert(x.to_multiset().count(last) > 0);
        assert(y.to_multiset().count(last) > 0);
        assert(y.contains(last));
        let j = choose|j: int| 0 <= j < y.len() && y[j] == last;
        let rest = y.remove(j);
        assert(x.drop_last() =~= x.remove(x.len() - 1));
        assert(x.drop_last().to_multiset() =~= rest.to_multiset());
        lemma_merge_any_order(x.drop_last(), rest);
        assert(y =~= y.take(j) + seq![last] + y.skip(j + 1));
        assert(rest =~= y.take(j) + y.skip(j + 1));
        lemma_merged_concat(y.take(j) + seq![last], y.skip(j + 1));
        lemma_merged_concat(y.take(j), seq![last]);
        lemma_merged_concat(y.take(j), y.skip(j + 1));
        assert(seq![last].drop_last() =~= Seq::<Multiset<Seq<char>>>::empty());
        assert(merged(Seq::<Multiset<Seq<char>>>::empty()) =~= Multiset::empty());
        assert(merged(seq![last]) =~= last);
        assert(merged(y) =~= merged(rest).add(last));
    }
}

impl FrequencyTable {
    /// No entry counts nothing and no term has two entries.
    pub open spec fn wf(&self) -> bool {
        &&& forall|i: int| 0 <= i < self.entries.len() ==> (#[trigger] self.entries[i]).count >= 1
        &&& forall|i: int, j: int|
            0 <= i < j < self.entries.len() ==> (#[trigger] self.entries[i]).term@
                != (#[trigger] self.entries[j]).term@
    }

    /// The table that counts nothing.
    pub fn new() -> (r: Self)
        ensures
            r.wf(),
            r@ == Multiset::<Seq<char>>::empty(),
            r.entries@.len() == 0,
    {
        FrequencyTable { entries: Vec::new() }
    }

    /// The number of entries.
    pub fn len(&self) -> (r: usize)
        ensures
            r == self.entries@.len(),
    {
        self.entries.len()
    }

    /// The position of the first entry for `term`, if there is one.
    pub fn position(&self, term: &String) -> (r: Option<usize>)
        ensures
            match r {
                Some(i) => i < self.entries.len() && self.entries[i as int].term@ == term@
                    && forall|j: int| 0 <= j < i ==> self.entries[j].term@ != term@,
                None => forall|j: int| 0 <= j < self.entries.len() ==> self.entries[j].term@ != term@,
            },
    {
        let mut i: usize = 0;
        while i < self.entries.len()
            invariant
                i <= self.entries.len(),
                forall|j: int| 0 <= j < i ==> self.entries[j].term@ != term@,
            decreases self.entries.len() - i,
        {
            if self.entries[i].term == *term {
                return Some(i);
            }
            i += 1;
        }
        None
    }

    /// How often `term` has been counted.
    pub fn count(&self, term: &String) -> (r: u64)
        requires
            self.wf(),
        ensures
            r == self@.count(term@),
    {
        proof {
            lemma_bag_count(self.entries@, term@);
        }
        match self.position(term) {
            Some(i) => {
                proof {
                    lemma_count_unique(self.entries@, i as int);
                }
                self.entries[i].count
            },
            None => 0,
        }
    }

    /// Counts `n` more occurrences of `term`.
    pub fn record(&mut self, term: String, n: u64)
        requires
            n >= 1,
            old(self)@.count(term@) + n <= u64::MAX,
        ensures
            final(self)@ == old(self)@.add(copies(term@, n as nat)),
            old(self).wf() ==> final(self).wf(),
    {
        proof {
            lemma_bag_count(self.entries@, term@);
        }
        match self.position(&term) {
            Some(i) => {
                let e = FrequencyEntry { term, count: self.entries[i].count + n };
                proof {
                    lemma_bag_update(self.entries@, i as int, e, n as nat);
                }
                self.entries.set(i, e);
            },
            None => {
                let e = FrequencyEntry { term, count: n };
                proof {
                    lemma_bag_concat(self.entries@, seq![e]);
                    lemma_bag_single(e);
                    assert(self.entries@.push(e) =~= self.entries@ + seq![e]);
                }
                self.entries.push(e);
            },
        }
    }
}

/// Where no term has two entries, the entry for a term holds all of its
/// occurrences.
pub proof fn lemma_count_unique(es: Seq<FrequencyEntry>, i: int)
    requires
        0 <= i < es.len(),
        forall|a: int, b: int|
            0 <= a < b < es.len() ==> (#[trigger] es[a]).term@ != (#[trigger] es[b]).term@,
    ensures
        bag_of(es).count(es[i].term@) == es[i].count,
{
    let t = es[i].term@;
    let a = es.take(i);
    let b = es.skip(i + 1);
    assert(es =~= a + seq![es[i]] + b);
    lemma_bag_concat(a + seq![es[i]], b);
    lemma_bag_concat(a, seq![es[i]]);
    lemma_bag_single(es[i]);
    lemma_copies(t, es[i].count as nat);
    lemma_bag_count(a, t);
    lemma_bag_count(b, t);
    assert forall|j: int| 0 <= j < a.len() implies a[j].term@ != t by {
        assert(a[j] == es[j]);
    }
    assert forall|j: int| 0 <= j < b.len() implies b[j].term@ != t by {
        assert(b[j] == es[i + 1 + j]);
    }
}

/// Counts the occurrences of each token.
pub fn count_values(tokens: &Vec<String>) -> (r: FrequencyTable)
    ensures
        r.wf(),
        r@ == terms_of(tokens@).to_multiset(),
{
    let mut table = FrequencyTable::new();
    let mut i: usize = 0;
    proof {
        assert(terms_of(tokens@).take(0) =~= Seq::<Seq<char>>::empty());
        Seq::<Seq<char>>::empty().to_multiset_ensures();
        assert(Seq::<Seq<char>>::empty().to_multiset() =~= Multiset::empty());
    }
    while i < tokens.len()
        invariant
            i <= tokens.len(),
            table.wf(),
            table@ == terms_of(tokens@).take(i as int).to_multiset(),
        decreases tokens.len() - i,
    {
        let ghost done = terms_of(tokens@).take(i as int);
        proof {
            done.to_multiset_ensures();
            assert(terms_of(tokens@).take(i + 1) =~= done.push(tokens@[i as int]@));
            lemma_copies(tokens@[i as int]@, 1);
            assert(copies(tokens@[i as int]@, 1) =~= Multiset::<Seq<char>>::empty().insert(
                tokens@[i as int]@,
            ));
            assert(table@.count(tokens@[i as int]@) <= table@.len());
        }
        table.record(tokens[i].clone(), 1);
        proof {
            assert(table@ =~= done.to_multiset().insert(tokens@[i as int]@));
        }
        i += 1;
    }
    proof {
        assert(terms_of(tokens@).take(tokens.len() as int) =~= terms_of(tokens@));
    }
    table
}

/// The sum over the first `k + 1` multisets is the sum over the first `k`
/// and the next one, and is no larger than the sum over all.
pub proof fn lemma_merged_prefix(ms: Seq<Multiset<Seq<char>>>, k: int)
    requires
        0 <= k < ms.len(),
    ensures
        merged(ms.take(k + 1)) == merged(ms.take(k)).add(ms[k]),
        merged(ms.take(k + 1)).len() <= merged(ms).len(),
{
    assert(ms.take(k + 1).drop_last() =~= ms.take(k));
    assert(ms.take(k + 1).last() == ms[k]);
    assert(ms =~= ms.take(k + 1) + ms.skip(k + 1));
    lemma_merged_concat(ms.take(k + 1), ms.skip(k + 1));
}

/// The first `j + 1` entries count what the first `j` and the next one
/// count, and no more than all the entries.
pub proof fn lemma_bag_prefix(es: Seq<FrequencyEntry>, j: int)
    requires
        0 <= j < es.len(),
    ensures
        bag_of(es.take(j + 1)) == bag_of(es.take(j)).add(copies(es[j].term@, es[j].count as nat)),
        bag_of(es.take(j + 1)).len() <= bag_of(es).len(),
{
    assert(es.take(j + 1).drop_last() =~= es.take(j));
    assert(es.take(j + 1).last() == es[j]);
    assert(es =~= es.take(j + 1) + es.skip(j + 1));
    lemma_bag_concat(es.take(j + 1), es.skip(j + 1));
}

/// Whether the occurrences that the tables count fit, taken together, in
/// one count.
pub fn total_fits(tables: &Vec<FrequencyTable>) -> (r: bool)
    ensures
        r == (merged(views(tables@)).len() <= u64::MAX),
{
    let ghost ms = views(tables@);
    let mut total: u64 = 0;
    let mut k: usize = 0;
    proof {
        assert(ms.take(0) =~= Seq::<Multiset<Seq<char>>>::empty());
    }
    while k < tables.len()
        invariant
            k <= tables.len(),
            ms == views(tables@),
            total == merged(ms.take(k as int)).len(),
        decreases tables.len() - k,
    {
        let es = &tables[k].entries;
        let mut j: usize = 0;
        proof {
            assert(es@.take(0) =~= Seq::<FrequencyEntry>::empty());
            assert(ms[k as int] == bag_of(es@));
            lemma_merged_prefix(ms, k as int);
        }
        while j < es.len()
            invariant
                j <= es.len(),
                k < tables.len(),
                ms == views(tables@),
                ms[k as int] == bag_of(es@),
                merged(ms.take(k + 1)) == merged(ms.take(k as int)).add(ms[k as int]),
                merged(ms.take(k + 1)).len() <= merged(ms).len(),
                total == merged(ms.take(k as int)).len() + bag_of(es@.take(j as int)).len(),
            decreases es.len() - j,
        {
            proof {
                lemma_bag_prefix(es@, j as int);
                lemma_copies(es@[j as int].term@, es@[j as int].count as nat);
            }
            if es[j].count > u64::MAX - total {
                return false;
            }
            total = total + es[j].count;
            j += 1;
        }
        proof {
            assert(es@.take(es.len() as int) =~= es@);
        }
        k += 1;
    }
    proof {
        assert(ms.take(tables.len() as int) =~= ms);
    }
    true
}

impl FrequencyTable {
    /// Counts what `other` counts as well.
    pub fn absorb(&mut self, other: &FrequencyTable)
        requires
            old(self)@.len() + other@.len() <= u64::MAX,
        ensures
            final(self)@ == old(self)@.add(other@),
            old(self).wf() ==> final(self).wf(),
    {
        let es = &other.entries;
        let ghost start = self@;
        let ghost was_wf = self.wf();
        let mut j: usize = 0;
        proof {
            assert(es@.take(0) =~= Seq::<FrequencyEntry>::empty());
            assert(self@ =~= start.add(bag_of(es@.take(0))));
        }
        while j < es.len()
            invariant
                j <= es.len(),
                es@ == other.entries@,
                start.len() + bag_of(es@).len() <= u64::MAX,
                was_wf ==> self.wf(),
                self@ == start.add(bag_of(es@.take(j as int))),
            decreases es.len() - j,
        {
            let ghost t = es@[j as int].term@;
            let ghost before = self@;
            proof {
                lemma_bag_prefix(es@, j as int);
                lemma_copies(t, es@[j as int].count as nat);
                assert(self@.count(t) <= self@.len());
            }
            if es[j].count > 0 {
                self.record(es[j].term.clone(), es[j].count);
            }
            proof {
                assert(self@ =~= before.add(copies(t, es@[j as int].count as nat)));
                assert(self@ =~= start.add(bag_of(es@.take(j + 1))));
            }
            j += 1;
        }
        proof {
            assert(es@.take(es.len() as int) =~= es@);
        }
    }
}

/// Merges the tables into one: the occurrences of each term are summed over
/// all of them, whatever their order, and a term that none of them counts
/// has no entry.
pub fn merge_chunk_word_mapping(tables: &Vec<FrequencyTable>) -> (r: FrequencyTable)
    requires
        merged(views(tables@)).len() <= u64::MAX,
    ensures
        r.wf(),
        r@ == merged(views(tables@)),
{
    let ghost ms = views(tables@);
    let mut out = FrequencyTable::new();
    let mut k: usize = 0;
    proof {
        assert(ms.take(0) =~= Seq::<Multiset<Seq<char>>>::empty());
    }
    while k < tables.len()
        invariant
            k <= tables.len(),
            ms == views(tables@),
            merged(ms).len() <= u64::MAX,
            out.wf(),
            out@ == merged(ms.take(k as int)),
        decreases tables.len() - k,
    {
        proof {
            lemma_merged_prefix(ms, k as int);
        }
        out.absorb(&tables[k]);
        k += 1;
    }
    proof {
        assert(ms.take(tables.len() as int) =~= ms);
    }
    out
}

/// Merges the tables where the occurrences that they count fit, taken
/// together, in one count; gives none where they do not.
pub fn try_merge(tables: &Vec<FrequencyTable>) -> (r: Option<FrequencyTable>)
    ensures
        match r {
            Some(t) => t.wf() && t@ == merged(views(tables@)),
            None => merged(views(tables@)).len() > u64::MAX,
        },
        r is Some <==> merged(views(tables@)).len() <= u64::MAX,
{
    if total_fits(tables) {
        Some(merge_chunk_word_mapping(tables))
    } else {
        None
    }
}

} // verus!
