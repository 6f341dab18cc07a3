use crate::assoc::{
    assign, lemma_assign, lemma_lookup_finds, lemma_rank_bounds, locate, lookup, rank,
    strictly_sorted,
};
use crate::node::HuffNode;
use crate::tree::Tree;
use crate::text::string_push;
use vstd::prelude::*;

verus! {

/// The code of each symbol, kept in the order of the symbols. A code is a
/// string of bits: `false` stands for the bit 0, `true` for the bit 1.
pub struct CodeTable {
    entries: Vec<(char, Vec<bool>)>,
}

/// An entry with its code as a sequence.
pub open spec fn entry_view(entry: (char, Vec<bool>)) -> (char, Seq<bool>) {
    (entry.0, entry.1@)
}

/// The entries with their codes as sequences.
pub open spec fn entries_view(entries: Seq<(char, Vec<bool>)>) -> Seq<(char, Seq<bool>)> {
    Seq::new(entries.len(), |i: int| entry_view(entries[i]))
}

impl View for CodeTable {
    type V = Seq<(char, Seq<bool>)>;

    closed spec fn view(&self) -> Seq<(char, Seq<bool>)> {
        entries_view(self.entries@)
    }
}

/// The rank of a symbol does not depend on how the codes are held.
pub proof fn lemma_entries_view_rank(entries: Seq<(char, Vec<bool>)>, symbol: char)
    ensures
        rank(entries_view(entries), symbol) == rank(entries, symbol),
    decreases entries.len(),
{
    let viewed = entries_view(entries);
    if entries.len() > 0 {
        lemma_entries_view_rank(entries.drop_last(), symbol);
        assert(viewed.drop_last() =~= entries_view(entries.drop_last()));
        assert(viewed.last() == entry_view(entries.last()));
    }
}

/// Nor does the order of the entries.
pub proof fn lemma_entries_view_sorted(entries: Seq<(char, Vec<bool>)>)
    ensures
        strictly_sorted(entries) <==> strictly_sorted(entries_view(entries)),
{
    let viewed = entries_view(entries);
    if strictly_sorted(entries) {
        assert forall|i: int, j: int| 0 <= i < j < viewed.len() implies viewed[i].0
            < viewed[j].0 by {
            assert(entries[i].0 < entries[j].0);
        }
    }
    if strictly_sorted(viewed) {
        assert forall|i: int, j: int| 0 <= i < j < entries.len() implies entries[i].0
            < entries[j].0 by {
            assert(viewed[i].0 < viewed[j].0);
        }
    }
}

/// The table after the leaves of `tree` have been given their codes, from
/// left to right: the code of a leaf is `prefix`, then a 0 for each step
/// to the left and a 1 for each step to the right on the way down to it.
pub open spec fn assign_codes(tree: Tree, prefix: Seq<bool>, table: Seq<(char, Seq<bool>)>) -> Seq<
    (char, Seq<bool>),
>
    decreases tree,
{
    match tree {
        Tree::Leaf { symbol, .. } => assign(table, symbol, prefix),
        Tree::Node { left, right, .. } => assign_codes(
            *right,
            prefix.push(true),
            assign_codes(*left, prefix.push(false), table),
        ),
    }
}

/// The code table of a tree.
pub open spec fn code_table(tree: Tree) -> Seq<(char, Seq<bool>)> {
    assign_codes(tree, Seq::empty(), Seq::empty())
}

/// No code of the table is the beginning of the code of another entry.
pub open spec fn prefix_free(table: Seq<(char, Seq<bool>)>) -> bool {
    forall|i: int, j: int|
        0 <= i < table.len() && 0 <= j < table.len() && i != j ==> !(
        #[trigger] table[i]).1.is_prefix_of((#[trigger] table[j]).1)
}

/// The code `code` of `symbol` spells, after `prefix`, a way down `tree`
/// that ends at a leaf with that symbol.
pub open spec fn code_leads_to(
    tree: Tree,
    prefix: Seq<bool>,
    symbol: char,
    code: Seq<bool>,
) -> bool {
    exists|path: Seq<bool>| #[trigger] tree.leaf_at(path) == Some(symbol) && code == prefix + path
}

/// What giving the leaves of a tree their codes does to a sorted table:
/// it stays sorted, each symbol of the tree gets a code that leads to one
/// of its leaves, and the other symbols keep what they had.
pub proof fn lemma_assign_codes(tree: Tree, prefix: Seq<bool>, table: Seq<(char, Seq<bool>)>)
    requires
        strictly_sorted(table),
    ensures
        strictly_sorted(assign_codes(tree, prefix, table)),
        forall|symbol: char| #[trigger]
            tree.holds(symbol) ==> match lookup(assign_codes(tree, prefix, table), symbol) {
                Some(code) => code_leads_to(tree, prefix, symbol, code),
                None => false,
            },
        forall|symbol: char|
            !tree.holds(symbol) ==> #[trigger] lookup(assign_codes(tree, prefix, table), symbol)
                == lookup(table, symbol),
    decreases tree,
{
    let out = assign_codes(tree, prefix, table);
    match tree {
        Tree::Leaf { symbol: own, .. } => {
            lemma_assign(table, own, prefix);
            assert(tree.leaf_at(Seq::empty()) == Some(own));
            assert(prefix =~= prefix + Seq::<bool>::empty());
        },
        Tree::Node { left, right, .. } => {
            let mid = assign_codes(*left, prefix.push(false), table);
            lemma_assign_codes(*left, prefix.push(false), table);
            lemma_assign_codes(*right, prefix.push(true), mid);
            assert forall|symbol: char| #[trigger] tree.holds(symbol) implies match lookup(
                out,
                symbol,
            ) {
                Some(code) => code_leads_to(tree, prefix, symbol, code),
                None => false,
            } by {
                if right.holds(symbol) {
                    let code = lookup(out, symbol).unwrap();
                    let path = choose|path: Seq<bool>| #[trigger]
                        right.leaf_at(path) == Some(symbol) && code == prefix.push(true) + path;
                    let whole = seq![true] + path;
                    assert(whole.drop_first() =~= path);
                    assert(tree.leaf_at(whole) == Some(symbol));
                    assert(code =~= prefix + whole);
                } else {
                    assert(left.holds(symbol));
                    assert(lookup(out, symbol) == lookup(mid, symbol));
                    let code = lookup(mid, symbol).unwrap();
                    let path = choose|path: Seq<bool>| #[trigger]
                        left.leaf_at(path) == Some(symbol) && code == prefix.push(false) + path;
                    let whole = seq![false] + path;
                    assert(whole.drop_first() =~= path);
                    assert(tree.leaf_at(whole) == Some(symbol));
                    assert(code =~= prefix + whole);
                }
            }
            assert forall|symbol: char| !tree.holds(symbol) implies #[trigger] lookup(
                out,
                symbol,
            ) == lookup(table, symbol) by {
                assert(lookup(out, symbol) == lookup(mid, symbol));
            }
        },
    }
}

/// The code table of a tree is sorted, holds a code for each symbol of
/// the tree and for no other, and is prefix-free.
pub proof fn lemma_code_table(tree: Tree)
    ensures
        strictly_sorted(code_table(tree)),
        prefix_free(code_table(tree)),
        forall|symbol: char| #[trigger]
            tree.holds(symbol) <==> lookup(code_table(tree), symbol) is Some,
        forall|symbol: char|
            (#[trigger] lookup(code_table(tree), symbol)) matches Some(code) ==> tree.leaf_at(code)
                == Some(symbol),
{
    let table = code_table(tree);
    let none = Seq::<(char, Seq<bool>)>::empty();
    lemma_assign_codes(tree, Seq::empty(), none);
    assert forall|symbol: char| (#[trigger] lookup(table, symbol)) is Some implies tree.leaf_at(
        lookup(table, symbol).unwrap(),
    ) == Some(symbol) by {
        let code = lookup(table, symbol).unwrap();
        if !tree.holds(symbol) {
            assert(lookup(table, symbol) == lookup(none, symbol));
        }
        assert(tree.holds(symbol));
        let path = choose|path: Seq<bool>| #[trigger]
            tree.leaf_at(path) == Some(symbol) && code == Seq::<bool>::empty() + path;
        assert(code =~= path);
    }
    assert forall|symbol: char| #[trigger]
        tree.holds(symbol) <==> lookup(table, symbol) is Some by {
        if !tree.holds(symbol) {
            assert(lookup(table, symbol) == lookup(none, symbol));
        }
    }
    assert forall|i: int, j: int|
        0 <= i < table.len() && 0 <= j < table.len() && i != j implies !(
    #[trigger] table[i]).1.is_prefix_of((#[trigger] table[j]).1) by {
        lemma_lookup_finds(table, table[i].0);
        lemma_lookup_finds(table, table[j].0);
        assert(lookup(table, table[i].0) == Some(table[i].1));
        assert(lookup(table, table[j].0) == Some(table[j].1));
        assert(tree.leaf_at(table[i].1) == Some(table[i].0));
        assert(tree.leaf_at(table[j].1) == Some(table[j].0));
        if table[i].1.is_prefix_of(table[j].1) {
            crate::tree::lemma_leaf_paths_differ(tree, table[i].1, table[j].1);
            if i < j {
                assert(table[i].0 < table[j].0);
            } else {
                assert(table[j].0 < table[i].0);
            }
        }
    }
}

impl CodeTable {
    #[verifier::type_invariant]
    spec fn ordered(self) -> bool {
        strictly_sorted(self.entries@)
    }

    /// A table without symbols.
    pub fn new() -> (table: CodeTable)
        ensures
            table@ == Seq::<(char, Seq<bool>)>::empty(),
    {
        let table = CodeTable { entries: Vec::new() };
        assert(table@ =~= Seq::<(char, Seq<bool>)>::empty());
        table
    }

    /// The number of symbols.
    pub fn len(&self) -> (len: usize)
        ensures
            len == self@.len(),
            strictly_sorted(self@),
    {
        proof {
            use_type_invariant(self);
            lemma_entries_view_sorted(self.entries@);
        }
        self.entries.len()
    }

    /// The code of `symbol`, if the table holds one.
    pub fn get(&self, symbol: char) -> (code: Option<&Vec<bool>>)
        ensures
            match code {
                Some(bits) => lookup(self@, symbol) == Some(bits@),
                None => lookup(self@, symbol) is None,
            },
    {
        proof {
            use_type_invariant(self);
            lemma_entries_view_rank(self.entries@, symbol);
        }
        let (at, here) = locate(&self.entries, symbol);
        if here {
            Some(&self.entries[at].1)
        } else {
            None
        }
    }

    /// Gives `symbol` the code `code`, in place of the one it had, if any.
    pub fn insert(&mut self, symbol: char, code: Vec<bool>)
        ensures
            final(self)@ == assign(old(self)@, symbol, code@),
            strictly_sorted(final(self)@),
    {
        proof {
            use_type_invariant(&*self);
            lemma_entries_view_rank(self.entries@, symbol);
            lemma_assign(self.entries@, symbol, code);
            lemma_rank_bounds(self.entries@, symbol);
        }
        let ghost before = self.entries@;
        let mut entries: Vec<(char, Vec<bool>)> = Vec::new();
        core::mem::swap(&mut self.entries, &mut entries);
        let (at, here) = locate(&entries, symbol);
        if here {
            entries.set(at, (symbol, code));
        } else {
            entries.insert(at, (symbol, code));
        }
        self.entries = entries;
        proof {
            assert(self.entries@ == assign(before, symbol, code));
            assert(entries_view(self.entries@) =~= assign(entries_view(before), symbol, code@));
            lemma_entries_view_sorted(self.entries@);
        }
    }

    /// Whether every code is short enough for the one byte that says its
    /// length in a container: 255 bits at most.
    pub fn fits(&self) -> (fit: bool)
        ensures
            fit == crate::format::codes_fit(self@),
    {
        let count = self.len();
        let mut next: usize = 0;
        while next < count
            invariant
                0 <= next <= count,
                count == self@.len(),
                forall|i: int| 0 <= i < next ==> (#[trigger] self@[i]).1.len() <= 255,
            decreases count - next,
        {
            let (_, code) = self.entry(next);
            if code.len() > 255 {
                return false;
            }
            next = next + 1;
        }
        true
    }

    /// The symbol and code at place `index`, counted in the order of the symbols.
    pub fn entry(&self, index: usize) -> (entry: (char, &Vec<bool>))
        requires
            index < self@.len(),
        ensures
            entry.0 == self@[index as int].0,
            entry.1@ == self@[index as int].1,
    {
        let entry = &self.entries[index];
        (entry.0, &entry.1)
    }
}

/// The character that shows a bit: `0` or `1`.
pub open spec fn bit_char(bit: bool) -> char {
    if bit {
        '1'
    } else {
        '0'
    }
}

/// A code written out, a `0` or a `1` for each bit.
pub fn code_string(code: &Vec<bool>) -> (text: String)
    ensures
        text@ == Seq::new(code@.len(), |i: int| bit_char(code@[i])),
{
    let mut text = String::new();
    let mut next: usize = 0;
    while next < code.len()
        invariant
            0 <= next <= code@.len(),
            text@ == Seq::new(next as nat, |i: int| bit_char(code@[i])),
        decreases code@.len() - next,
    {
        let symbol = if code[next] { '1' } else { '0' };
        string_push(&mut text, symbol);
        next = next + 1;
        assert(text@ =~= Seq::new(next as nat, |i: int| bit_char(code@[i])));
    }
    text
}

/// Walks the tree under `root` depth first and records the code of each
/// leaf in `map`. `bits` holds the way from the top down to `root` and is
/// handed back as it came.
pub fn dfs(root: &HuffNode, map: &mut CodeTable, bits: &mut Vec<bool>)
    ensures
        final(map)@ == assign_codes(root@, old(bits)@, old(map)@),
        final(bits)@ == old(bits)@,
    decreases root@,
{
    match root.as_internal() {
        None => {
            let leaf = root.as_leaf().unwrap();
            map.insert(leaf.value(), bits.clone());
        },
        Some(node) => {
            bits.push(false);
            dfs(node.left(), map, bits);
            bits.pop();
            assert(bits@ =~= old(bits)@);
            bits.push(true);
            dfs(node.right(), map, bits);
            bits.pop();
            assert(bits@ =~= old(bits)@);
        },
    }
}

} // verus!
