use vstd::prelude::*;

verus! {

/// The symbols of the entries rise strictly from one entry to the next.
pub open spec fn strictly_sorted<V>(s: Seq<(char, V)>) -> bool {
    forall|i: int, j: int| 0 <= i < j < s.len() ==> s[i].0 < s[j].0
}

/// The number of entries whose symbol lies below `symbol`.
pub open spec fn rank<V>(s: Seq<(char, V)>, symbol: char) -> int
    decreases s.len(),
{
    if s.len() == 0 {
        0
    } else {
        rank(s.drop_last(), symbol) + if s.last().0 < symbol {
            1int
        } else {
            0int
        }
    }
}

/// Whether some entry holds `symbol`.
pub open spec fn has_symbol<V>(s: Seq<(char, V)>, symbol: char) -> bool {
    exists|i: int| 0 <= i < s.len() && #[trigger] s[i].0 == symbol
}

/// The value that the entries hold for `symbol`, if any: in a sorted
/// sequence it stands at the symbol's rank.
pub open spec fn lookup<V>(s: Seq<(char, V)>, symbol: char) -> Option<V> {
    let at = rank(s, symbol);
    if at < s.len() && s[at].0 == symbol {
        Some(s[at].1)
    } else {
        None
    }
}

/// The entries after `symbol` has been given `value`: the entry of that
/// symbol is replaced, or a new one is put where the order asks for it.
pub open spec fn assign<V>(s: Seq<(char, V)>, symbol: char, value: V) -> Seq<(char, V)> {
    let at = rank(s, symbol);
    if at < s.len() && s[at].0 == symbol {
        s.update(at, (symbol, value))
    } else {
        s.insert(at, (symbol, value))
    }
}

/// The rank never leaves the sequence.
pub proof fn lemma_rank_bounds<V>(s: Seq<(char, V)>, symbol: char)
    ensures
        0 <= rank(s, symbol) <= s.len(),
    decreases s.len(),
{
    if s.len() > 0 {
        lemma_rank_bounds(s.drop_last(), symbol);
    }
}

/// In a sorted sequence the rank of a symbol is the one place that parts
/// the smaller symbols from the others.
pub proof fn lemma_rank_is_split<V>(s: Seq<(char, V)>, symbol: char, at: int)
    requires
        strictly_sorted(s),
        0 <= at <= s.len(),
        forall|i: int| 0 <= i < at ==> (#[trigger] s[i]).0 < symbol,
        forall|i: int| at <= i < s.len() ==> (#[trigger] s[i]).0 >= symbol,
    ensures
        rank(s, symbol) == at,
    decreases s.len(),
{
    if s.len() > 0 {
        let front = s.drop_last();
        if at == s.len() {
            assert(s.last() == s[at - 1]);
            lemma_rank_is_split(front, symbol, at - 1);
        } else {
            assert(s.last() == s[s.len() - 1]);
            lemma_rank_is_split(front, symbol, at);
        }
    }
}

/// What the rank says of the entries on either side of it.
pub proof fn lemma_rank_splits<V>(s: Seq<(char, V)>, symbol: char)
    requires
        strictly_sorted(s),
    ensures
        0 <= rank(s, symbol) <= s.len(),
        forall|i: int| 0 <= i < rank(s, symbol) ==> (#[trigger] s[i]).0 < symbol,
        forall|i: int| rank(s, symbol) <= i < s.len() ==> (#[trigger] s[i]).0 >= symbol,
    decreases s.len(),
{
    if s.len() > 0 {
        let front = s.drop_last();
        lemma_rank_splits(front, symbol);
        assert forall|i: int| 0 <= i < rank(s, symbol) implies (#[trigger] s[i]).0 < symbol by {
            if i < front.len() {
                if i >= rank(front, symbol) {
                    assert(front[i].0 >= symbol);
                    assert(s[i].0 < s[s.len() - 1].0 || i == s.len() - 1);
                }
            }
        }
        assert forall|i: int| rank(s, symbol) <= i < s.len() implies (#[trigger] s[i]).0
            >= symbol by {
            if i < front.len() {
                assert(front[i] == s[i]);
                if s.last().0 < symbol {
                    assert(s[i].0 < s[s.len() - 1].0);
                    assert(rank(front, symbol) <= i);
                }
            }
        }
    }
}

/// A symbol is held exactly where `lookup` finds it.
pub proof fn lemma_lookup_finds<V>(s: Seq<(char, V)>, symbol: char)
    requires
        strictly_sorted(s),
    ensures
        has_symbol(s, symbol) <==> lookup(s, symbol) is Some,
        forall|i: int|
            0 <= i < s.len() && (#[trigger] s[i]).0 == symbol ==> lookup(s, symbol) == Some(
                s[i].1,
            ),
{
    lemma_rank_splits(s, symbol);
    let at = rank(s, symbol);
    assert forall|i: int| 0 <= i < s.len() && (#[trigger] s[i]).0 == symbol implies i == at by {
        if i < at {
            assert(s[i].0 < symbol);
        } else if i > at {
            assert(s[at].0 >= symbol);
            assert(s[at].0 < s[i].0);
        }
    }
    if lookup(s, symbol) is Some {
        assert(s[at].0 == symbol);
    }
}

/// Giving a symbol a value keeps the order, sets that symbol and leaves
/// the others as they were.
pub proof fn lemma_assign<V>(s: Seq<(char, V)>, symbol: char, value: V)
    requires
        strictly_sorted(s),
    ensures
        strictly_sorted(assign(s, symbol, value)),
        lookup(assign(s, symbol, value), symbol) == Some(value),
        forall|other: char|
            other != symbol ==> #[trigger] lookup(assign(s, symbol, value), other) == lookup(
                s,
                other,
            ),
        assign(s, symbol, value).len() == s.len() + if lookup(s, symbol) is Some {
            0int
        } else {
            1int
        },
{
    lemma_rank_splits(s, symbol);
    let at = rank(s, symbol);
    let t = assign(s, symbol, value);
    if at < s.len() && s[at].0 == symbol {
        assert forall|i: int, j: int| 0 <= i < j < t.len() implies t[i].0 < t[j].0 by {
            assert(t[i].0 == s[i].0 && t[j].0 == s[j].0);
        }
        assert forall|other: char| rank(t, other) == #[trigger] rank(s, other) by {
            lemma_rank_splits(s, other);
            let r = rank(s, other);
            assert forall|i: int| 0 <= i < r implies (#[trigger] t[i]).0 < other by {
                assert(t[i].0 == s[i].0);
            }
            assert forall|i: int| r <= i < t.len() implies (#[trigger] t[i]).0 >= other by {
                assert(t[i].0 == s[i].0);
            }
            lemma_rank_is_split(t, other, r);
        }
        assert forall|other: char| other != symbol implies #[trigger] lookup(t, other) == lookup(
            s,
            other,
        ) by {
            let r = rank(s, other);
            lemma_rank_bounds(s, other);
            assert(rank(t, other) == r);
            if r < s.len() && r != at {
                assert(t[r] == s[r]);
            }
        }
        assert(rank(t, symbol) == at);
    } else {
        assert forall|i: int, j: int| 0 <= i < j < t.len() implies t[i].0 < t[j].0 by {
            if j < at {
                assert(t[i] == s[i] && t[j] == s[j]);
            } else if j == at {
                assert(t[i] == s[i]);
            } else if i < at {
                assert(t[i] == s[i] && t[j] == s[j - 1]);
                if i == j - 1 {
                } else {
                    assert(s[i].0 < s[j - 1].0);
                }
            } else if i == at {
                assert(t[j] == s[j - 1]);
                assert(s[j - 1].0 >= symbol);
                if at < j - 1 {
                    assert(s[at].0 < s[j - 1].0);
                }
            } else {
                assert(t[i] == s[i - 1] && t[j] == s[j - 1]);
            }
        }
        assert forall|i: int| 0 <= i < at implies (#[trigger] t[i]).0 < symbol by {
            assert(t[i] == s[i]);
        }
        assert forall|i: int| at <= i < t.len() implies (#[trigger] t[i]).0 >= symbol by {
            if i > at {
                assert(t[i] == s[i - 1]);
            }
        }
        lemma_rank_is_split(t, symbol, at);
        assert forall|other: char| other != symbol implies #[trigger] lookup(t, other) == lookup(
            s,
            other,
        ) by {
            lemma_rank_splits(s, other);
            let r = rank(s, other);
            let r2 = if other < symbol {
                r
            } else {
                r + 1
            };
            if other < symbol {
                if r > at {
                    assert(s[at].0 < other);
                }
            } else {
                if r < at {
                    assert(s[r].0 >= other);
                    assert(s[r].0 < symbol);
                }
            }
            assert forall|i: int| 0 <= i < r2 implies (#[trigger] t[i]).0 < other by {
                if i < at {
                    assert(t[i] == s[i]);
                } else if i > at {
                    assert(t[i] == s[i - 1]);
                }
            }
            assert forall|i: int| r2 <= i < t.len() implies (#[trigger] t[i]).0 >= other by {
                if i < at {
                    assert(t[i] == s[i]);
                } else if i > at {
                    assert(t[i] == s[i - 1]);
                }
            }
            lemma_rank_is_split(t, other, r2);
            if other < symbol {
                if r < s.len() {
                    if r < at {
                        assert(t[r] == s[r]);
                    } else {
                        assert(r == at);
                    }
                }
            } else {
                if r < s.len() {
                    assert(t[r + 1] == s[r]);
                }
            }
        }
    }
}

/// Sorted entries are determined by what they hold: two sorted sequences
/// that give every symbol the same value are one sequence.
pub proof fn lemma_sorted_same<V>(s: Seq<(char, V)>, t: Seq<(char, V)>)
    requires
        strictly_sorted(s),
        strictly_sorted(t),
        forall|symbol: char| #[trigger] lookup(s, symbol) == lookup(t, symbol),
    ensures
        s == t,
    decreases s.len() + t.len(),
{
    if s.len() == 0 || t.len() == 0 {
        if s.len() > 0 {
            lemma_lookup_finds(s, s[0].0);
            lemma_lookup_finds(t, s[0].0);
            assert(has_symbol(s, s[0].0));
        }
        if t.len() > 0 {
            lemma_lookup_finds(s, t[0].0);
            lemma_lookup_finds(t, t[0].0);
            assert(has_symbol(t, t[0].0));
        }
        assert(s =~= t);
    } else {
        let a = s.last();
        let b = t.last();
        lemma_lookup_finds(s, a.0);
        lemma_lookup_finds(t, a.0);
        lemma_lookup_finds(s, b.0);
        lemma_lookup_finds(t, b.0);
        assert(s[s.len() - 1] == a);
        assert(t[t.len() - 1] == b);
        assert(has_symbol(t, a.0));
        assert(has_symbol(s, b.0));
        let i = choose|i: int| 0 <= i < t.len() && (#[trigger] t[i]).0 == a.0;
        let j = choose|j: int| 0 <= j < s.len() && (#[trigger] s[j]).0 == b.0;
        if i < t.len() - 1 {
            assert(t[i].0 < t[t.len() - 1].0);
        }
        if j < s.len() - 1 {
            assert(s[j].0 < s[s.len() - 1].0);
        }
        assert(a.0 == b.0);
        assert(a == b);
        let front = s.drop_last();
        let back = t.drop_last();
        assert forall|symbol: char| #[trigger] lookup(front, symbol) == lookup(back, symbol) by {
            lemma_lookup_finds(front, symbol);
            lemma_lookup_finds(back, symbol);
            lemma_lookup_finds(s, symbol);
            lemma_lookup_finds(t, symbol);
            assert(lookup(s, symbol) == lookup(t, symbol));
            if has_symbol(front, symbol) {
                let k = choose|k: int| 0 <= k < front.len() && (#[trigger] front[k]).0 == symbol;
                assert(s[k] == front[k]);
                assert(s[k].0 < s[s.len() - 1].0);
                assert(has_symbol(t, symbol));
                let m = choose|m: int| 0 <= m < t.len() && (#[trigger] t[m]).0 == symbol;
                assert(back[m] == t[m]);
                assert(lookup(front, symbol) == Some(s[k].1));
                assert(lookup(back, symbol) == Some(t[m].1));
            }
            if has_symbol(back, symbol) {
                let k = choose|k: int| 0 <= k < back.len() && (#[trigger] back[k]).0 == symbol;
                assert(t[k] == back[k]);
                assert(t[k].0 < t[t.len() - 1].0);
                assert(has_symbol(s, symbol));
                let m = choose|m: int| 0 <= m < s.len() && (#[trigger] s[m]).0 == symbol;
                assert(front[m] == s[m]);
            }
        }
        lemma_sorted_same(front, back);
        assert(s =~= front.push(a));
        assert(t =~= back.push(b));
    }
}

/// The order in which two symbols are given their values does not show
/// in the result.
pub proof fn lemma_assign_commutes<V>(
    s: Seq<(char, V)>,
    first: char,
    value: V,
    second: char,
    other: V,
)
    requires
        strictly_sorted(s),
        first != second,
    ensures
        assign(assign(s, first, value), second, other) == assign(
            assign(s, second, other),
            first,
            value,
        ),
{
    let a = assign(s, first, value);
    let b = assign(s, second, other);
    lemma_assign(s, first, value);
    lemma_assign(s, second, other);
    lemma_assign(a, second, other);
    lemma_assign(b, first, value);
    let ab = assign(a, second, other);
    let ba = assign(b, first, value);
    assert forall|symbol: char| #[trigger] lookup(ab, symbol) == lookup(ba, symbol) by {
        if symbol == first {
            assert(lookup(ab, symbol) == lookup(a, symbol));
        } else if symbol == second {
            assert(lookup(ba, symbol) == lookup(b, symbol));
        } else {
            assert(lookup(ab, symbol) == lookup(a, symbol));
            assert(lookup(a, symbol) == lookup(s, symbol));
            assert(lookup(ba, symbol) == lookup(b, symbol));
            assert(lookup(b, symbol) == lookup(s, symbol));
        }
    }
    lemma_sorted_same(ab, ba);
}

/// The scalar value of a character lies below 0x110000.
pub proof fn lemma_char_range(symbol: char)
    ensures
        0 <= symbol as int <= 0x10FFFF,
{
}

/// A sorted sequence holds no more entries than there are symbols.
pub proof fn lemma_sorted_len<V>(s: Seq<(char, V)>)
    requires
        strictly_sorted(s),
    ensures
        s.len() <= 0x110000,
        forall|i: int| 0 <= i < s.len() ==> i <= (#[trigger] s[i]).0 as int,
    decreases s.len(),
{
    if s.len() > 0 {
        let front = s.drop_last();
        lemma_sorted_len(front);
        assert(front.len() == s.len() - 1);
        assert forall|i: int| 0 <= i < s.len() implies i <= (#[trigger] s[i]).0 as int by {
            lemma_char_range(s[i].0);
            if i < front.len() {
                assert(front[i] == s[i]);
            } else if i > 0 {
                let j = i - 1;
                assert(front[j] == s[j]);
                assert(s[j].0 < s[i].0);
            }
        }
        lemma_char_range(s[s.len() - 1].0);
    }
}

/// The place of `symbol` among sorted entries, and whether it stands there.
pub fn locate<V>(entries: &Vec<(char, V)>, symbol: char) -> (found: (usize, bool))
    requires
        strictly_sorted(entries@),
    ensures
        found.0 == rank(entries@, symbol),
        found.0 <= entries@.len(),
        found.1 == (found.0 < entries@.len() && entries@[found.0 as int].0 == symbol),
{
    let mut low: usize = 0;
    let mut high: usize = entries.len();
    while low < high
        invariant
            0 <= low <= high <= entries@.len(),
            strictly_sorted(entries@),
            forall|i: int| 0 <= i < low ==> (#[trigger] entries@[i]).0 < symbol,
            forall|i: int| high <= i < entries@.len() ==> (#[trigger] entries@[i]).0 >= symbol,
        decreases high - low,
    {
        let mid = low + (high - low) / 2;
        if entries[mid].0 < symbol {
            assert forall|i: int| 0 <= i < mid + 1 implies (#[trigger] entries@[i]).0 < symbol by {
                if i < mid {
                    assert(entries@[i].0 < entries@[mid as int].0);
                }
            }
            low = mid + 1;
        } else {
            assert forall|i: int| mid <= i < entries@.len() implies (#[trigger] entries@[i]).0
                >= symbol by {
                if i > mid {
                    assert(entries@[mid as int].0 < entries@[i].0);
                }
            }
            high = mid;
        }
    }
    proof {
        lemma_rank_is_split(entries@, symbol, low as int);
    }
    let here = low < entries.len() && entries[low].0 == symbol;
    (low, here)
}

} // verus!
