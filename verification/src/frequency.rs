use crate::assoc::{
    assign, has_symbol, lemma_assign, lemma_lookup_finds, locate, lookup, strictly_sorted,
};
use vstd::prelude::*;

verus! {

/// How often each symbol of a text occurs, kept in the order of the symbols.
pub struct FrequencyTable {
    entries: Vec<(char, u64)>,
}

impl View for FrequencyTable {
    type V = Seq<(char, u64)>;

    closed spec fn view(&self) -> Seq<(char, u64)> {
        self.entries@
    }
}

/// The count that the entries hold for `symbol`, zero where they hold none.
pub open spec fn count_in(s: Seq<(char, u64)>, symbol: char) -> u64 {
    match lookup(s, symbol) {
        Some(count) => count,
        None => 0,
    }
}

/// The frequency table of a text: each symbol is counted where it is met,
/// starting at one on first sight.
pub open spec fn frequencies(text: Seq<char>) -> Seq<(char, u64)>
    decreases text.len(),
{
    if text.len() == 0 {
        Seq::empty()
    } else {
        let before = frequencies(text.drop_last());
        assign(before, text.last(), (count_in(before, text.last()) + 1) as u64)
    }
}

/// The sum of the counts.
pub open spec fn total_count(s: Seq<(char, u64)>) -> nat
    decreases s.len(),
{
    if s.len() == 0 {
        0
    } else {
        total_count(s.drop_last()) + s.last().1 as nat
    }
}

/// The table of a text is sorted, holds the symbols that occur in the text
/// and no others, and gives each the number of its occurrences.
pub proof fn lemma_frequencies_count(text: Seq<char>)
    requires
        text.len() <= u64::MAX,
    ensures
        strictly_sorted(frequencies(text)),
        forall|symbol: char| #[trigger]
            count_in(frequencies(text), symbol) == text.to_multiset().count(symbol),
        forall|symbol: char| #[trigger]
            has_symbol(frequencies(text), symbol) <==> text.contains(symbol),
    decreases text.len(),
{
    broadcast use vstd::seq_lib::group_to_multiset_ensures;

    if text.len() == 0 {
        assert(text.to_multiset() =~= vstd::multiset::Multiset::empty());
        assert forall|symbol: char| !(#[trigger] has_symbol(frequencies(text), symbol)) by {}
    } else {
        let front = text.drop_last();
        let last = text.last();
        let before = frequencies(front);
        lemma_frequencies_count(front);
        assert(text =~= front.push(last));
        assert(text.to_multiset() =~= front.to_multiset().insert(last));
        assert(front.to_multiset().count(last) <= front.to_multiset().len());
        lemma_assign(before, last, (count_in(before, last) + 1) as u64);
        let after = frequencies(text);
        assert forall|symbol: char| #[trigger]
            has_symbol(after, symbol) <==> text.contains(symbol) by {
            lemma_lookup_finds(after, symbol);
            lemma_lookup_finds(before, symbol);
            assert(has_symbol(before, symbol) <==> front.contains(symbol));
            if symbol != last {
                assert(lookup(after, symbol) == lookup(before, symbol));
                if text.contains(symbol) {
                    let i = choose|i: int| 0 <= i < text.len() && text[i] == symbol;
                    assert(front[i] == symbol);
                }
                if front.contains(symbol) {
                    let i = choose|i: int| 0 <= i < front.len() && front[i] == symbol;
                    assert(text[i] == symbol);
                }
            } else {
                assert(text[text.len() - 1] == symbol);
            }
        }
        assert forall|symbol: char| #[trigger]
            count_in(after, symbol) == text.to_multiset().count(symbol) by {
            if symbol != last {
                assert(lookup(after, symbol) == lookup(before, symbol));
                assert(count_in(before, symbol) == front.to_multiset().count(symbol));
            } else {
                assert(count_in(before, last) == front.to_multiset().count(last));
            }
        }
    }
}

/// A new entry adds its count to the sum.
pub proof fn lemma_total_count_insert(s: Seq<(char, u64)>, at: int, entry: (char, u64))
    requires
        0 <= at <= s.len(),
    ensures
        total_count(s.insert(at, entry)) == total_count(s) + entry.1,
    decreases s.len(),
{
    let t = s.insert(at, entry);
    if at == s.len() {
        assert(t.drop_last() =~= s);
    } else {
        lemma_total_count_insert(s.drop_last(), at, entry);
        assert(t.drop_last() =~= s.drop_last().insert(at, entry));
        assert(t.last() == s.last());
    }
}

/// A changed entry changes the sum by as much as its count changes.
pub proof fn lemma_total_count_update(s: Seq<(char, u64)>, at: int, entry: (char, u64))
    requires
        0 <= at < s.len(),
    ensures
        total_count(s.update(at, entry)) + s[at].1 == total_count(s) + entry.1,
    decreases s.len(),
{
    let t = s.update(at, entry);
    if at == s.len() - 1 {
        assert(t.drop_last() =~= s.drop_last());
    } else {
        lemma_total_count_update(s.drop_last(), at, entry);
        assert(t.drop_last() =~= s.drop_last().update(at, entry));
        assert(t.last() == s.last());
    }
}

/// The counts of the first entries add up to no more than all counts.
pub proof fn lemma_total_count_grows(s: Seq<(char, u64)>, upto: int)
    requires
        0 <= upto <= s.len(),
    ensures
        total_count(s.take(upto)) <= total_count(s),
    decreases s.len(),
{
    if upto == s.len() {
        assert(s.take(upto) =~= s);
    } else {
        lemma_total_count_grows(s.drop_last(), upto);
        assert(s.drop_last().take(upto) =~= s.take(upto));
    }
}

/// The counts of a text's table add up to the length of the text.
pub proof fn lemma_frequencies_total(text: Seq<char>)
    requires
        text.len() <= u64::MAX,
    ensures
        total_count(frequencies(text)) == text.len(),
    decreases text.len(),
{
    broadcast use vstd::seq_lib::group_to_multiset_ensures;

    if text.len() > 0 {
        let front = text.drop_last();
        let last = text.last();
        let before = frequencies(front);
        lemma_frequencies_total(front);
        lemma_frequencies_count(front);
        assert(count_in(before, last) == front.to_multiset().count(last));
        assert(front.to_multiset().count(last) <= front.to_multiset().len());
        let count = (count_in(before, last) + 1) as u64;
        let at = crate::assoc::rank(before, last);
        crate::assoc::lemma_rank_bounds(before, last);
        if at < before.len() && before[at].0 == last {
            lemma_total_count_update(before, at, (last, count));
        } else {
            lemma_total_count_insert(before, at, (last, count));
        }
    }
}

impl FrequencyTable {
    #[verifier::type_invariant]
    spec fn ordered(self) -> bool {
        strictly_sorted(self.entries@)
    }

    /// A table without symbols.
    pub fn new() -> (table: FrequencyTable)
        ensures
            table@ == Seq::<(char, u64)>::empty(),
    {
        FrequencyTable { entries: Vec::new() }
    }

    /// The number of symbols.
    pub fn len(&self) -> (len: usize)
        ensures
            len == self@.len(),
            strictly_sorted(self@),
    {
        proof {
            use_type_invariant(self);
        }
        self.entries.len()
    }

    /// The count of `symbol`, if the table holds it.
    pub fn get(&self, symbol: char) -> (count: Option<u64>)
        ensures
            count == lookup(self@, symbol),
    {
        proof {
            use_type_invariant(self);
        }
        let (at, here) = locate(&self.entries, symbol);
        if here {
            Some(self.entries[at].1)
        } else {
            None
        }
    }

    /// Sets the count of `symbol` and returns the one it had.
    pub fn insert(&mut self, symbol: char, count: u64) -> (before: Option<u64>)
        ensures
            final(self)@ == assign(old(self)@, symbol, count),
            before == lookup(old(self)@, symbol),
            strictly_sorted(final(self)@),
    {
        proof {
            use_type_invariant(&*self);
            lemma_assign(self.entries@, symbol, count);
        }
        let mut entries: Vec<(char, u64)> = Vec::new();
        core::mem::swap(&mut self.entries, &mut entries);
        let (at, here) = locate(&entries, symbol);
        let before = if here {
            let before = entries[at].1;
            entries.set(at, (symbol, count));
            Some(before)
        } else {
            entries.insert(at, (symbol, count));
            None
        };
        self.entries = entries;
        before
    }

    /// The sum of the counts, unless it is too large for a `u64`.
    pub fn total(&self) -> (sum: Option<u64>)
        ensures
            match sum {
                Some(sum) => sum == total_count(self@),
                None => total_count(self@) > u64::MAX,
            },
    {
        let mut sum: u64 = 0;
        let mut next: usize = 0;
        while next < self.entries.len()
            invariant
                0 <= next <= self.entries@.len(),
                sum == total_count(self.entries@.take(next as int)),
            decreases self.entries@.len() - next,
        {
            let ghost seen = self.entries@.take(next as int);
            let count = self.entries[next].1;
            proof {
                let more = self.entries@.take(next + 1);
                assert(more.drop_last() =~= seen);
                assert(more.last() == self.entries@[next as int]);
                lemma_total_count_grows(self.entries@, next + 1);
            }
            if count > u64::MAX - sum {
                return None;
            }
            sum = sum + count;
            next = next + 1;
        }
        assert(self.entries@.take(next as int) =~= self.entries@);
        Some(sum)
    }

    /// The symbol and count at place `index`, counted in the order of the symbols.
    pub fn entry(&self, index: usize) -> (entry: (char, u64))
        requires
            index < self@.len(),
        ensures
            entry == self@[index as int],
    {
        self.entries[index]
    }
}

} // verus!
