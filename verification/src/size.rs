// Sizes of sets of symbols: what bounds the FIRST and FOLLOW sets, so that
// working them out comes to an end.

use crate::token::Symbol;
use vstd::prelude::*;

verus! {

/// The terminals of a vocabulary as symbols, and `extra` with them.
pub open spec fn alphabet(terminals: Seq<Seq<char>>, extra: Symbol) -> Set<Symbol> {
    terminals.map_values(|t: Seq<char>| Symbol::Terminal(t)).to_set().insert(extra)
}

/// An alphabet is finite, with at most one symbol more than there are
/// terminals.
pub proof fn lemma_alphabet_size(terminals: Seq<Seq<char>>, extra: Symbol)
    ensures
        alphabet(terminals, extra).finite(),
        alphabet(terminals, extra).len() <= terminals.len() + 1,
{
    let symbols = terminals.map_values(|t: Seq<char>| Symbol::Terminal(t));
    vstd::seq_lib::seq_to_set_is_finite(symbols);
    symbols.lemma_cardinality_of_set();
}

/// A terminal of the vocabulary is in the alphabet.
pub proof fn lemma_alphabet_terminal(terminals: Seq<Seq<char>>, extra: Symbol, t: Seq<char>)
    requires
        terminals.contains(t),
    ensures
        alphabet(terminals, extra).contains(Symbol::Terminal(t)),
{
    let symbols = terminals.map_values(|t: Seq<char>| Symbol::Terminal(t));
    let i = choose|i: int| 0 <= i < terminals.len() && terminals[i] == t;
    assert(symbols[i] == Symbol::Terminal(t));
}

/// A set within an alphabet is finite and no larger than it.
pub proof fn lemma_size_in_alphabet(set: Set<Symbol>, terminals: Seq<Seq<char>>, extra: Symbol)
    requires
        set.subset_of(alphabet(terminals, extra)),
    ensures
        set.finite(),
        set.len() <= terminals.len() + 1,
{
    lemma_alphabet_size(terminals, extra);
    vstd::set_lib::lemma_len_subset(set, alphabet(terminals, extra));
}

/// The sizes of the sets of a list, added up.
pub open spec fn total_len(sets: Seq<Set<Symbol>>) -> nat
    decreases sets.len(),
{
    if sets.len() == 0 {
        0
    } else {
        total_len(sets.drop_last()) + sets.last().len()
    }
}

/// Replacing one set changes the total by the difference of the sizes.
pub proof fn lemma_total_update(sets: Seq<Set<Symbol>>, i: int, set: Set<Symbol>)
    requires
        0 <= i < sets.len(),
    ensures
        total_len(sets.update(i, set)) == total_len(sets) - sets[i].len() + set.len(),
    decreases sets.len(),
{
    let updated = sets.update(i, set);
    if i == sets.len() - 1 {
        assert(updated.drop_last() =~= sets.drop_last());
    } else {
        assert(updated.drop_last() =~= sets.drop_last().update(i, set));
        lemma_total_update(sets.drop_last(), i, set);
    }
}

/// Sets of at most `c` members each have at most `c` times their number
/// in total.
pub proof fn lemma_total_bound(sets: Seq<Set<Symbol>>, c: nat)
    requires
        forall|i: int| 0 <= i < sets.len() ==> (#[trigger] sets[i]).len() <= c,
    ensures
        total_len(sets) <= sets.len() * c,
    decreases sets.len(),
{
    if sets.len() > 0 {
        lemma_total_bound(sets.drop_last(), c);
        assert((sets.len() - 1) * c + c == sets.len() * c) by (nonlinear_arith);
    }
}

} // verus!
