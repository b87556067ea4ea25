// The rules for FIRST sets, and what it means for the FIRST sets of a
// grammar to be their least solution.

use crate::grammar::GrammarView;
use crate::production::ProductionView;
use crate::size::{alphabet, lemma_alphabet_terminal, lemma_size_in_alphabet, lemma_total_bound, total_len};
use crate::token::{in_vocabulary, Symbol};
use vstd::prelude::*;

verus! {

impl GrammarView {
    /// The FIRST set held for `variable`: that of the production that
    /// stands for it, and the empty set where there is none.
    pub open spec fn first_of(self, variable: char) -> Set<Symbol> {
        match self.lookup(variable) {
            Some(i) => self.productions[i].firsts,
            None => Set::empty(),
        }
    }

    /// Whether `symbol` can vanish: it is a variable whose FIRST set holds
    /// epsilon.
    pub open spec fn nullable(self, symbol: Symbol) -> bool {
        symbol matches Symbol::Variable(v) && self.first_of(v).contains(Symbol::Epsilon)
    }

    /// Whether each of the first `k` symbols of `alt` can vanish.
    pub open spec fn nullable_prefix(self, alt: Seq<Symbol>, k: int) -> bool {
        forall|j: int| 0 <= j < k ==> self.nullable(#[trigger] alt[j])
    }

    /// Whether `symbol`, standing where a derivation may begin, lets it
    /// begin with `s`: a terminal offers itself, a variable what its FIRST
    /// set holds but epsilon.
    pub open spec fn offers(self, symbol: Symbol, s: Symbol) -> bool {
        match symbol {
            Symbol::Terminal(_) => s == symbol,
            Symbol::Variable(v) => s != Symbol::Epsilon && self.first_of(v).contains(s),
            _ => false,
        }
    }

    /// Whether the symbol at place `k` of `alt` is reached, everything
    /// before it being able to vanish, and offers `s`.
    pub open spec fn reached(self, alt: Seq<Symbol>, k: int, s: Symbol) -> bool {
        0 <= k < alt.len() && self.nullable_prefix(alt, k) && self.offers(alt[k], s)
    }

    /// Whether one of the first `k` symbols of `alt` is reached and offers
    /// `s`.
    pub open spec fn reached_before(self, alt: Seq<Symbol>, k: int, s: Symbol) -> bool {
        exists|j: int| 0 <= j < k && self.reached(alt, j, s)
    }
    /// Whether the whole alternative can vanish: it is the epsilon marker
    /// alone, or it is not empty and each of its symbols can vanish.
    pub open spec fn vanishes(self, alt: Seq<Symbol>) -> bool {
        alt == seq![Symbol::Epsilon] || (alt.len() > 0 && self.nullable_prefix(
            alt,
            alt.len() as int,
        ))
    }

    /// Whether the alternative `alt` gives `s` to the FIRST set of its
    /// production.
    pub open spec fn alternative_first(self, alt: Seq<Symbol>, s: Symbol) -> bool {
        ||| exists|k: int| self.reached(alt, k, s)
        ||| s == Symbol::Epsilon && self.vanishes(alt)
    }

    /// Whether some alternative of `derivation` gives `s`.
    pub open spec fn derivation_first(self, derivation: Seq<char>, s: Symbol) -> bool {
        exists|a: int|
            0 <= a < self.symbols(derivation).len() && self.alternative_first(
                #[trigger] self.symbols(derivation)[a],
                s,
            )
    }

    /// What the FIRST rules give for a production with this derivation,
    /// from the FIRST sets that the grammar holds now.
    pub open spec fn first_rule(self, derivation: Seq<char>) -> Set<Symbol> {
        Set::new(|s: Symbol| self.derivation_first(derivation, s))
    }

    /// Whether every FIRST set is within the one that `other` holds at the
    /// same place.
    pub open spec fn firsts_within(self, other: GrammarView) -> bool {
        forall|i: int|
            0 <= i < self.productions.len() ==> (#[trigger] self.productions[i]).firsts.subset_of(
                other.productions[i].firsts,
            )
    }

    /// Whether `set` is the least FIRST set for `derivation`: what the
    /// rules give for it from the least solution of the grammar's rules.
    pub open spec fn least_first(self, derivation: Seq<char>, set: Set<Symbol>) -> bool {
        exists|solved: GrammarView|
            solved.same_rules(self) && #[trigger] solved.firsts_solved() && set
                == solved.first_rule(derivation)
    }

    /// Whether taking `variable` in, with the FIRST sets held now, turns
    /// the set `before` into `after` and gives `go_on`: `go_on` says whether
    /// the set held for the variable holds epsilon, and `after` is `before`
    /// with that set, epsilon left out unless the variable can vanish and is
    /// the `last` symbol of its alternative.
    pub open spec fn takes_variable(
        self,
        variable: char,
        last: bool,
        go_on: bool,
        before: Set<Symbol>,
        after: Set<Symbol>,
    ) -> bool {
        &&& go_on == self.first_of(variable).contains(Symbol::Epsilon)
        &&& after == before.union(
            if go_on && last {
                self.first_of(variable)
            } else {
                self.first_of(variable).remove(Symbol::Epsilon)
            },
        )
    }

    /// `takes_variable` over the least FIRST sets of the grammar's rules.
    pub open spec fn least_takes_variable(
        self,
        variable: char,
        last: bool,
        go_on: bool,
        before: Set<Symbol>,
        after: Set<Symbol>,
    ) -> bool {
        exists|solved: GrammarView|
            solved.same_rules(self) && #[trigger] solved.firsts_solved() && solved.takes_variable(
                variable,
                last,
                go_on,
                before,
                after,
            )
    }

    /// Whether `other` holds the same FIRST sets.
    pub open spec fn same_firsts(self, other: GrammarView) -> bool {
        forall|i: int|
            0 <= i < self.productions.len() ==> (#[trigger] self.productions[i]).firsts
                == other.productions[i].firsts
    }
    /// Whether the FIRST sets hold all that the rules give from them.
    pub open spec fn firsts_closed(self) -> bool {
        forall|i: int|
            0 <= i < self.productions.len() ==> self.first_rule(
                (#[trigger] self.productions[i]).derivation,
            ).subset_of(self.productions[i].firsts)
    }

    /// Whether each member of each FIRST set is given by the rules.
    pub open spec fn firsts_founded(self) -> bool {
        forall|i: int|
            0 <= i < self.productions.len() ==> (#[trigger] self.productions[i]).firsts.subset_of(
                self.first_rule(self.productions[i].derivation),
            )
    }

    /// Whether the FIRST sets are within those of every grammar with the
    /// same rules whose FIRST sets are closed.
    pub open spec fn firsts_least(self) -> bool {
        forall|other: GrammarView|
            other.same_rules(self) && #[trigger] other.firsts_closed() ==> self.firsts_within(
                other,
            )
    }

    /// Whether the FIRST sets are the least solution of the rules: each is
    /// exactly what the rules give, and no closed choice of sets is smaller.
    pub open spec fn firsts_solved(self) -> bool {
        self.firsts_closed() && self.firsts_founded() && self.firsts_least()
    }

    /// What can stand in a FIRST set: epsilon and the grammar's terminals.
    pub open spec fn in_first_alphabet(self, s: Symbol) -> bool {
        s == Symbol::Epsilon || (s matches Symbol::Terminal(t) && self.terminals.contains(t))
    }

    /// Whether every FIRST set holds only epsilon and terminals of the
    /// grammar.
    pub open spec fn firsts_in_alphabet(self) -> bool {
        forall|i: int, s: Symbol|
            0 <= i < self.productions.len() && (#[trigger] self.productions[i]).firsts.contains(s)
                ==> #[trigger] self.in_first_alphabet(s)
    }

    /// The FIRST sets, production by production.
    pub open spec fn first_sets(self) -> Seq<Set<Symbol>> {
        self.productions.map_values(|p: ProductionView| p.firsts)
    }

    /// Whether `other` is this grammar with the FIRST set of production
    /// `i` replaced by what the rules give for it.
    pub open spec fn first_step(self, i: int, other: GrammarView) -> bool {
        &&& 0 <= i < self.productions.len()
        &&& other == (GrammarView {
            productions: self.productions.update(
                i,
                ProductionView {
                    firsts: self.first_rule(self.productions[i].derivation),
                    ..self.productions[i]
                },
            ),
            ..self
        })
    }
    /// With the same rules and larger FIRST sets, a variable's FIRST set is
    /// larger.
    pub proof fn lemma_first_of_grows(self, other: GrammarView, variable: char)
        requires
            self.same_rules(other),
            self.firsts_within(other),
        ensures
            self.first_of(variable).subset_of(other.first_of(variable)),
    {
        self.lemma_same_rules_lookup(other, variable, 0);
        self.lemma_lookup(variable);
        if let Some(i) = self.lookup(variable) {
            assert(self.productions[i].firsts.subset_of(other.productions[i].firsts));
        }
    }

    /// With the same rules and larger FIRST sets, a symbol offers all that
    /// it offered, and can vanish if it could.
    pub proof fn lemma_offers_grows(self, other: GrammarView, symbol: Symbol, s: Symbol)
        requires
            self.same_rules(other),
            self.firsts_within(other),
        ensures
            self.offers(symbol, s) ==> other.offers(symbol, s),
            self.nullable(symbol) ==> other.nullable(symbol),
    {
        if let Symbol::Variable(v) = symbol {
            self.lemma_first_of_grows(other, v);
        }
    }
    /// With the same rules and larger FIRST sets, an alternative gives all
    /// that it gave.
    pub proof fn lemma_alternative_first_grows(
        self,
        other: GrammarView,
        alt: Seq<Symbol>,
        s: Symbol,
    )
        requires
            self.same_rules(other),
            self.firsts_within(other),
            self.alternative_first(alt, s),
        ensures
            other.alternative_first(alt, s),
    {
        assert forall|j: int| 0 <= j < alt.len() && self.nullable(#[trigger] alt[j]) implies other.nullable(
            alt[j],
        ) by {
            if let Symbol::Variable(v) = alt[j] {
                self.lemma_first_of_grows(other, v);
            }
        }
        if exists|k: int| self.reached(alt, k, s) {
            let k = choose|k: int| self.reached(alt, k, s);
            if let Symbol::Variable(v) = alt[k] {
                self.lemma_first_of_grows(other, v);
            }
            assert(other.reached(alt, k, s));
        } else {
            assert(other.vanishes(alt));
        }
    }

    /// With the same rules and larger FIRST sets, the rules give all that
    /// they gave.
    pub proof fn lemma_first_rule_grows(self, other: GrammarView, derivation: Seq<char>)
        requires
            self.same_rules(other),
            self.firsts_within(other),
        ensures
            self.first_rule(derivation).subset_of(other.first_rule(derivation)),
    {
        assert forall|s: Symbol| self.derivation_first(derivation, s) implies other.derivation_first(
            derivation,
            s,
        ) by {
            let a = choose|a: int|
                0 <= a < self.symbols(derivation).len() && self.alternative_first(
                    #[trigger] self.symbols(derivation)[a],
                    s,
                );
            self.lemma_alternative_first_grows(other, self.symbols(derivation)[a], s);
            assert(other.symbols(derivation) == self.symbols(derivation));
        }
    }

    /// From FIRST sets of epsilon and terminals, the rules give only
    /// epsilon and terminals.
    pub proof fn lemma_first_rule_alphabet(self, derivation: Seq<char>, s: Symbol)
        requires
            self.firsts_in_alphabet(),
            self.derivation_first(derivation, s),
        ensures
            self.in_first_alphabet(s),
    {
        let a = choose|a: int|
            0 <= a < self.symbols(derivation).len() && self.alternative_first(
                #[trigger] self.symbols(derivation)[a],
                s,
            );
        let alt = self.symbols(derivation)[a];
        self.lemma_symbols_vocabulary(derivation);
        if exists|k: int| self.reached(alt, k, s) {
            let k = choose|k: int| self.reached(alt, k, s);
            assert(in_vocabulary(self.variables, self.terminals, self.symbols(derivation)[a][k]));
            if let Symbol::Variable(v) = alt[k] {
                self.lemma_lookup(v);
            }
        }
    }

    /// Replacing a FIRST set by what the rules give keeps the sets founded,
    /// below every closed choice, and within the alphabet, and makes none
    /// of them smaller.
    pub proof fn lemma_first_step(self, i: int, other: GrammarView)
        requires
            self.first_step(i, other),
            self.firsts_founded(),
            self.firsts_least(),
            self.firsts_in_alphabet(),
        ensures
            other.same_rules(self),
            self.firsts_within(other),
            other.firsts_founded(),
            other.firsts_least(),
            other.firsts_in_alphabet(),
    {
        let given = self.first_rule(self.productions[i].derivation);
        assert(other.same_rules(self));
        assert(self.same_rules(other));
        assert(self.firsts_within(other)) by {
            assert forall|j: int| 0 <= j < self.productions.len() implies (
            #[trigger] self.productions[j]).firsts.subset_of(other.productions[j].firsts) by {}
        }
        assert(other.firsts_founded()) by {
            assert forall|j: int| 0 <= j < other.productions.len() implies (
            #[trigger] other.productions[j]).firsts.subset_of(
                other.first_rule(other.productions[j].derivation),
            ) by {
                self.lemma_first_rule_grows(other, self.productions[j].derivation);
                assert(self.productions[j].firsts.subset_of(
                    self.first_rule(self.productions[j].derivation),
                ));
            }
        }
        assert(other.firsts_least()) by {
            assert forall|top: GrammarView|
                top.same_rules(other) && #[trigger] top.firsts_closed() implies other.firsts_within(
                top,
            ) by {
                assert(top.same_rules(self));
                assert(self.firsts_within(top));
                assert(self.same_rules(top));
                self.lemma_first_rule_grows(top, self.productions[i].derivation);
                assert(top.first_rule(top.productions[i].derivation).subset_of(
                    top.productions[i].firsts,
                ));
                assert forall|j: int| 0 <= j < other.productions.len() implies (
                #[trigger] other.productions[j]).firsts.subset_of(top.productions[j].firsts) by {
                    assert(self.productions[j].firsts.subset_of(top.productions[j].firsts));
                }
            }
        }
        assert(other.firsts_in_alphabet()) by {
            assert forall|j: int, s: Symbol|
                0 <= j < other.productions.len() && (#[trigger] other.productions[j]).firsts.contains(
                    s,
                ) implies #[trigger] other.in_first_alphabet(s) by {
                if j == i {
                    self.lemma_first_rule_alphabet(self.productions[i].derivation, s);
                } else {
                    assert(self.productions[j].firsts.contains(s));
                    assert(self.in_first_alphabet(s));
                }
            }
        }
    }

    /// FIRST sets within the alphabet are finite, each with at most one
    /// member more than there are terminals.
    pub proof fn lemma_first_sizes(self)
        requires
            self.firsts_in_alphabet(),
        ensures
            forall|i: int|
                0 <= i < self.productions.len() ==> (#[trigger] self.productions[i]).firsts.finite()
                    && self.productions[i].firsts.len() <= self.terminals.len() + 1,
            total_len(self.first_sets()) <= self.productions.len() * (self.terminals.len() + 1),
    {
        assert forall|i: int| 0 <= i < self.productions.len() implies (
        #[trigger] self.productions[i]).firsts.finite() && self.productions[i].firsts.len()
            <= self.terminals.len() + 1 by {
            let set = self.productions[i].firsts;
            assert forall|s: Symbol| set.contains(s) implies alphabet(
                self.terminals,
                Symbol::Epsilon,
            ).contains(s) by {
                assert(self.in_first_alphabet(s));
                if let Symbol::Terminal(t) = s {
                    lemma_alphabet_terminal(self.terminals, Symbol::Epsilon, t);
                }
            }
            lemma_size_in_alphabet(set, self.terminals, Symbol::Epsilon);
        }
        assert forall|i: int| 0 <= i < self.first_sets().len() implies (
        #[trigger] self.first_sets()[i]).len() <= self.terminals.len() + 1 by {
            assert(self.first_sets()[i] == self.productions[i].firsts);
        }
        lemma_total_bound(self.first_sets(), self.terminals.len() + 1);
    }

    /// A grammar with the same rules and the same FIRST sets as one whose
    /// FIRST sets are the least solution has the least solution too.
    pub proof fn lemma_firsts_carry(self, other: GrammarView)
        requires
            self.same_rules(other),
            self.same_firsts(other),
            self.firsts_solved(),
            self.firsts_in_alphabet(),
        ensures
            other.firsts_solved(),
            other.firsts_in_alphabet(),
    {
        assert(other.same_rules(self));
        assert(self.firsts_within(other));
        assert(other.firsts_within(self));
        assert forall|i: int| 0 <= i < other.productions.len() implies other.first_rule(
            (#[trigger] other.productions[i]).derivation,
        ).subset_of(other.productions[i].firsts) by {
            other.lemma_first_rule_grows(self, self.productions[i].derivation);
            assert(self.first_rule(self.productions[i].derivation).subset_of(
                self.productions[i].firsts,
            ));
        }
        assert forall|i: int| 0 <= i < other.productions.len() implies (
        #[trigger] other.productions[i]).firsts.subset_of(
            other.first_rule(other.productions[i].derivation),
        ) by {
            self.lemma_first_rule_grows(other, self.productions[i].derivation);
            assert(self.productions[i].firsts.subset_of(
                self.first_rule(self.productions[i].derivation),
            ));
        }
        assert forall|top: GrammarView|
            top.same_rules(other) && #[trigger] top.firsts_closed() implies other.firsts_within(
            top,
        ) by {
            assert(top.same_rules(self));
            assert(self.firsts_within(top));
            assert forall|i: int| 0 <= i < other.productions.len() implies (
            #[trigger] other.productions[i]).firsts.subset_of(top.productions[i].firsts) by {
                assert(self.productions[i].firsts.subset_of(top.productions[i].firsts));
            }
        }
        assert forall|i: int, s: Symbol|
            0 <= i < other.productions.len() && (#[trigger] other.productions[i]).firsts.contains(
                s,
            ) implies #[trigger] other.in_first_alphabet(s) by {
            assert(self.productions[i].firsts.contains(s));
            assert(self.in_first_alphabet(s));
        }
    }
}

} // verus!
