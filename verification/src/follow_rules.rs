// The rules for FOLLOW sets, and what it means for the FOLLOW sets of a
// grammar to be their least solution.

use crate::grammar::GrammarView;
use crate::production::ProductionView;
use crate::size::{alphabet, lemma_alphabet_terminal, lemma_size_in_alphabet, lemma_total_bound, lemma_total_update, total_len};
use crate::token::{in_vocabulary, Symbol};
use vstd::prelude::*;

verus! {

/// What an item gives, as a mathematical value.
pub enum GivenView {
    Symbol(Symbol),
    FollowOf(char),
}

/// An item as a mathematical value.
pub struct ItemView {
    pub variable: char,
    pub given: GivenView,
}

impl GrammarView {
    /// The FOLLOW set held for `variable`: that of the production that
    /// stands for it, and the empty set where there is none.
    pub open spec fn follow_of(self, variable: char) -> Set<Symbol> {
        match self.lookup(variable) {
            Some(i) => self.productions[i].follows,
            None => Set::empty(),
        }
    }

    /// Whether the variable at place `k` of `alt`, an alternative of a
    /// production for `head`, yields the item `x`. A variable with a symbol
    /// after it is given what that symbol offers. A variable at the end of
    /// the alternative, or with nothing after it but one variable that can
    /// vanish, is given the FOLLOW set of `head`.
    pub open spec fn produces(self, alt: Seq<Symbol>, k: int, head: char, x: ItemView) -> bool {
        &&& 0 <= k < alt.len()
        &&& alt[k] == Symbol::Variable(x.variable)
        &&& match x.given {
            GivenView::Symbol(s) => k + 1 < alt.len() && self.offers(alt[k + 1], s),
            GivenView::FollowOf(h) => h == head && (k + 1 == alt.len() || (k + 2 == alt.len()
                && self.nullable(alt[k + 1]))),
        }
    }

    /// Whether `x` gives `variable` something that `next`, the symbol
    /// after it, offers.
    pub open spec fn hands_on(self, variable: char, next: Symbol, x: ItemView) -> bool {
        x.variable == variable && match x.given {
            GivenView::Symbol(s) => self.offers(next, s),
            GivenView::FollowOf(_) => false,
        }
    }

    /// Whether some place of `alt` yields `x`.
    pub open spec fn alternative_produces(self, alt: Seq<Symbol>, head: char, x: ItemView) -> bool {
        exists|k: int| self.produces(alt, k, head, x)
    }

    /// Whether one of the first `k` places of `alt` yields `x`.
    pub open spec fn produces_before(
        self,
        alt: Seq<Symbol>,
        k: int,
        head: char,
        x: ItemView,
    ) -> bool {
        exists|j: int| 0 <= j < k && self.produces(alt, j, head, x)
    }

    /// Whether a production for `head` with the alternatives `alts` yields
    /// `x`: a production for the start symbol gives the end marker to its
    /// own variable, and every alternative yields what its places yield.
    pub open spec fn yields(self, alts: Seq<Seq<Symbol>>, head: char, x: ItemView) -> bool {
        ||| head == self.initial_symbol && x == (ItemView {
            variable: head,
            given: GivenView::Symbol(Symbol::EndMarker),
        })
        ||| exists|a: int|
            0 <= a < alts.len() && self.alternative_produces(#[trigger] alts[a], head, x)
    }

    /// How many of the first `k` places of `alt` yield `x`.
    pub open spec fn produce_count(
        self,
        alt: Seq<Symbol>,
        k: int,
        head: char,
        x: ItemView,
    ) -> nat
        decreases k,
    {
        if k <= 0 {
            0
        } else {
            self.produce_count(alt, k - 1, head, x) + if self.produces(alt, k - 1, head, x) {
                1nat
            } else {
                0nat
            }
        }
    }

    /// How many places of the first `n` alternatives of `alts` yield `x`.
    pub open spec fn alternatives_count(
        self,
        alts: Seq<Seq<Symbol>>,
        n: int,
        head: char,
        x: ItemView,
    ) -> nat
        decreases n,
    {
        if n <= 0 {
            0
        } else {
            self.alternatives_count(alts, n - 1, head, x) + self.produce_count(
                alts[n - 1],
                alts[n - 1].len() as int,
                head,
                x,
            )
        }
    }

    /// How often a production for `head` with the alternatives `alts`
    /// yields `x`: once for each place that yields it, and once more for the
    /// end marker that a production for the start symbol gives to its own
    /// variable.
    pub open spec fn yield_count(self, alts: Seq<Seq<Symbol>>, head: char, x: ItemView) -> nat {
        self.alternatives_count(alts, alts.len() as int, head, x) + if head == self.initial_symbol
            && x == (ItemView { variable: head, given: GivenView::Symbol(Symbol::EndMarker) }) {
            1nat
        } else {
            0nat
        }
    }

    /// Whether the production `p` yields `x`.
    pub open spec fn production_produces(self, p: ProductionView, x: ItemView) -> bool {
        self.yields(self.symbols(p.derivation), p.variable, x)
    }

    /// Whether some production of the grammar yields `x`.
    pub open spec fn produced(self, x: ItemView) -> bool {
        exists|i: int|
            0 <= i < self.productions.len() && self.production_produces(
                #[trigger] self.productions[i],
                x,
            )
    }

    /// Whether the item `x` gives `s`, with the FOLLOW sets held now.
    pub open spec fn gives(self, x: ItemView, s: Symbol) -> bool {
        match x.given {
            GivenView::Symbol(t) => s == t,
            GivenView::FollowOf(h) => self.follow_of(h).contains(s),
        }
    }

    /// All that the item `x` gives, with the FOLLOW sets held now.
    pub open spec fn given(self, x: ItemView) -> Set<Symbol> {
        Set::new(|s: Symbol| self.gives(x, s))
    }

    /// All that the FOLLOW rules give to `variable`.
    pub open spec fn follow_rule_set(self, variable: char) -> Set<Symbol> {
        Set::new(|s: Symbol| self.follow_rule(variable, s))
    }

    /// Whether the FOLLOW rules give `s` to `variable`, from the FIRST and
    /// FOLLOW sets held now.
    pub open spec fn follow_rule(self, variable: char, s: Symbol) -> bool {
        exists|x: ItemView| x.variable == variable && #[trigger] self.produced(x) && self.gives(x, s)
    }

    /// The FOLLOW sets, production by production.
    pub open spec fn follow_sets(self) -> Seq<Set<Symbol>> {
        self.productions.map_values(|p: ProductionView| p.follows)
    }

    /// Whether every FOLLOW set is within the one that `other` holds at
    /// the same place.
    pub open spec fn follows_within(self, other: GrammarView) -> bool {
        forall|i: int|
            0 <= i < self.productions.len() ==> (#[trigger] self.productions[i]).follows.subset_of(
                other.productions[i].follows,
            )
    }

    /// Whether production `j` stands for its variable: it is the first
    /// with its head.
    pub open spec fn stands(self, j: int) -> bool {
        0 <= j < self.productions.len() && self.lookup(self.productions[j].variable) == Some(j)
    }

    /// Whether the FOLLOW set of `x`'s variable holds all that `x` gives.
    /// An item for a variable without a production asks for nothing.
    pub open spec fn satisfied(self, x: ItemView) -> bool {
        match self.lookup(x.variable) {
            Some(j) => self.given(x).subset_of(self.productions[j].follows),
            None => true,
        }
    }

    /// Whether the FOLLOW set of each variable with a production holds all
    /// that the rules give to the variable.
    pub open spec fn follows_closed(self) -> bool {
        forall|j: int|
            self.stands(j) ==> self.follow_rule_set(
                (#[trigger] self.productions[j]).variable,
            ).subset_of(self.productions[j].follows)
    }

    /// Whether each member of each FOLLOW set is given by the rules to the
    /// variable that the production stands for. A production that stands
    /// for no variable, a later one with the same head, has an empty set.
    pub open spec fn follows_founded(self) -> bool {
        forall|j: int|
            0 <= j < self.productions.len() ==> (#[trigger] self.productions[j]).follows.subset_of(
                if self.stands(j) {
                    self.follow_rule_set(self.productions[j].variable)
                } else {
                    Set::empty()
                },
            )
    }

    /// Whether the FOLLOW sets are within those of every grammar with the
    /// same rules and FIRST sets whose FOLLOW sets are closed.
    pub open spec fn follows_least(self) -> bool {
        forall|other: GrammarView|
            other.same_rules(self) && other.same_firsts(self) && #[trigger] other.follows_closed()
                ==> self.follows_within(other)
    }

    /// Whether the FOLLOW sets are the least solution of the rules.
    pub open spec fn follows_solved(self) -> bool {
        self.follows_closed() && self.follows_founded() && self.follows_least()
    }

    /// What can stand in a FOLLOW set: the end marker and the grammar's
    /// terminals.
    pub open spec fn in_follow_alphabet(self, s: Symbol) -> bool {
        s == Symbol::EndMarker || (s matches Symbol::Terminal(t) && self.terminals.contains(t))
    }

    /// Whether every FOLLOW set holds only the end marker and terminals of
    /// the grammar.
    pub open spec fn follows_in_alphabet(self) -> bool {
        forall|i: int, s: Symbol|
            0 <= i < self.productions.len() && (#[trigger] self.productions[i]).follows.contains(s)
                ==> #[trigger] self.in_follow_alphabet(s)
    }

    /// Whether `other` is this grammar after the item `x` was taken in:
    /// the FOLLOW set of the production that stands for `x`'s variable has
    /// grown by what `x` gives, and nothing else has changed.
    pub open spec fn follow_step(self, x: ItemView, other: GrammarView) -> bool {
        match self.lookup(x.variable) {
            Some(j) => other == (GrammarView {
                productions: self.productions.update(
                    j,
                    ProductionView {
                        follows: self.productions[j].follows.union(self.given(x)),
                        ..self.productions[j]
                    },
                ),
                ..self
            }),
            None => other == self,
        }
    }
    /// With the same rules and larger FOLLOW sets, a variable's FOLLOW set
    /// is larger.
    pub proof fn lemma_follow_of_grows(self, other: GrammarView, variable: char)
        requires
            self.same_rules(other),
            self.follows_within(other),
        ensures
            self.lookup(variable) == other.lookup(variable),
            self.follow_of(variable).subset_of(other.follow_of(variable)),
    {
        self.lemma_same_rules_lookup(other, variable, 0);
        self.lemma_lookup(variable);
        if let Some(i) = self.lookup(variable) {
            assert(self.productions[i].follows.subset_of(other.productions[i].follows));
        }
    }

    /// With the same rules and larger FIRST sets, every item yielded is
    /// yielded still.
    pub proof fn lemma_produced_grows(self, other: GrammarView, x: ItemView)
        requires
            self.same_rules(other),
            self.firsts_within(other),
            self.produced(x),
        ensures
            other.produced(x),
    {
        let i = choose|i: int|
            0 <= i < self.productions.len() && self.production_produces(
                #[trigger] self.productions[i],
                x,
            );
        let p = self.productions[i];
        let q = other.productions[i];
        assert(q.variable == p.variable && q.derivation == p.derivation);
        let alts = self.symbols(p.derivation);
        assert(other.symbols(q.derivation) == alts);
        if !(p.variable == self.initial_symbol && x == (ItemView {
            variable: p.variable,
            given: GivenView::Symbol(Symbol::EndMarker),
        })) {
            let a = choose|a: int|
                0 <= a < alts.len() && self.alternative_produces(#[trigger] alts[a], p.variable, x);
            let k = choose|k: int| self.produces(alts[a], k, p.variable, x);
            if k + 1 < alts[a].len() {
                match x.given {
                    GivenView::Symbol(s) => {
                        self.lemma_offers_grows(other, alts[a][k + 1], s);
                    },
                    GivenView::FollowOf(_) => {
                        self.lemma_offers_grows(other, alts[a][k + 1], Symbol::Epsilon);
                    },
                }
            }
            assert(other.produces(alts[a], k, q.variable, x));
            assert(other.alternative_produces(alts[a], q.variable, x));
        }
        assert(other.production_produces(other.productions[i], x));
    }

    /// With the same rules and larger FIRST and FOLLOW sets, the rules
    /// give a variable all that they gave.
    pub proof fn lemma_follow_rule_grows(self, other: GrammarView, variable: char, s: Symbol)
        requires
            self.same_rules(other),
            self.firsts_within(other),
            self.follows_within(other),
            self.follow_rule(variable, s),
        ensures
            other.follow_rule(variable, s),
    {
        let x = choose|x: ItemView|
            x.variable == variable && #[trigger] self.produced(x) && self.gives(x, s);
        self.lemma_produced_grows(other, x);
        if let GivenView::FollowOf(h) = x.given {
            self.lemma_follow_of_grows(other, h);
        }
        assert(other.gives(x, s));
    }

    /// From FIRST sets of epsilon and terminals, the symbols that items
    /// give are terminals of the grammar or the end marker.
    pub proof fn lemma_produced_alphabet(self, x: ItemView)
        requires
            self.firsts_in_alphabet(),
            self.produced(x),
        ensures
            x.given matches GivenView::Symbol(s) ==> self.in_follow_alphabet(s),
    {
        if let GivenView::Symbol(s) = x.given {
            let i = choose|i: int|
                0 <= i < self.productions.len() && self.production_produces(
                    #[trigger] self.productions[i],
                    x,
                );
            let p = self.productions[i];
            let alts = self.symbols(p.derivation);
            if s != Symbol::EndMarker {
                let a = choose|a: int|
                    0 <= a < alts.len() && self.alternative_produces(
                        #[trigger] alts[a],
                        p.variable,
                        x,
                    );
                let k = choose|k: int| self.produces(alts[a], k, p.variable, x);
                self.lemma_symbols_vocabulary(p.derivation);
                assert(in_vocabulary(
                    self.variables,
                    self.terminals,
                    self.symbols(p.derivation)[a][k + 1],
                ));
                if let Symbol::Variable(w) = alts[a][k + 1] {
                    self.lemma_lookup(w);
                    let j = self.lookup(w)->Some_0;
                    assert(self.productions[j].firsts.contains(s));
                    assert(self.in_first_alphabet(s));
                }
            }
        }
    }

    /// Taking an item in keeps the FOLLOW sets founded, below every closed
    /// choice, and within the alphabet, and makes none of them smaller.
    pub proof fn lemma_follow_step(self, x: ItemView, other: GrammarView)
        requires
            self.follow_step(x, other),
            self.produced(x),
            self.firsts_in_alphabet(),
            self.follows_founded(),
            self.follows_least(),
            self.follows_in_alphabet(),
        ensures
            other.same_rules(self),
            other.same_firsts(self),
            self.follows_within(other),
            other.follows_founded(),
            other.follows_least(),
            other.follows_in_alphabet(),
    {
        self.lemma_lookup(x.variable);
        if let Some(j) = self.lookup(x.variable) {
            let given = self.given(x);
            assert(other.same_rules(self));
            assert(self.same_rules(other));
            assert(other.same_firsts(self));
            assert(self.firsts_within(other));
            assert(self.follows_within(other)) by {
                assert forall|i: int| 0 <= i < self.productions.len() implies (
                #[trigger] self.productions[i]).follows.subset_of(other.productions[i].follows) by {}
            }
            assert forall|i: int| other.stands(i) == self.stands(i) by {
                if 0 <= i < self.productions.len() {
                    self.lemma_same_rules_lookup(other, self.productions[i].variable, 0);
                }
            }
            assert(self.stands(j)) by {
                self.lemma_lookup(self.productions[j].variable);
            }
            assert(other.follows_founded()) by {
                assert forall|i: int, s: Symbol|
                    0 <= i < other.productions.len() && other.productions[i].follows.contains(
                        s,
                    ) implies other.stands(i) && other.follow_rule(
                    other.productions[i].variable,
                    s,
                ) by {
                    if self.productions[i].follows.contains(s) {
                        assert(self.productions[i].follows.subset_of(
                            if self.stands(i) {
                                self.follow_rule_set(self.productions[i].variable)
                            } else {
                                Set::empty()
                            },
                        ));
                        assert(self.stands(i));
                        assert(self.follow_rule_set(self.productions[i].variable).contains(s));
                    } else {
                        assert(i == j && given.contains(s));
                        assert(self.produced(x) && self.gives(x, s));
                    }
                    self.lemma_follow_rule_grows(other, self.productions[i].variable, s);
                }
                assert forall|i: int| 0 <= i < other.productions.len() implies (
                #[trigger] other.productions[i]).follows.subset_of(
                    if other.stands(i) {
                        other.follow_rule_set(other.productions[i].variable)
                    } else {
                        Set::empty()
                    },
                ) by {
                    assert forall|s: Symbol|
                        other.productions[i].follows.contains(s) implies other.stands(i)
                        && other.follow_rule_set(other.productions[i].variable).contains(s) by {
                        assert(other.follow_rule(other.productions[i].variable, s));
                    }
                }
            }
            assert(other.follows_least()) by {
                assert forall|top: GrammarView|
                    top.same_rules(other) && top.same_firsts(other)
                        && #[trigger] top.follows_closed() implies other.follows_within(top) by {
                    assert(top.same_rules(self) && top.same_firsts(self));
                    assert(self.follows_within(top));
                    assert(self.same_rules(top));
                    assert(self.firsts_within(top));
                    self.lemma_same_rules_lookup(top, self.productions[j].variable, 0);
                    assert(top.stands(j));
                    assert forall|i: int| 0 <= i < other.productions.len() implies (
                    #[trigger] other.productions[i]).follows.subset_of(
                        top.productions[i].follows,
                    ) by {
                        assert(self.productions[i].follows.subset_of(top.productions[i].follows));
                        if i == j {
                            assert forall|s: Symbol| given.contains(s) implies top.productions[j].follows.contains(
                                s,
                            ) by {
                                assert(self.produced(x) && self.gives(x, s));
                                assert(self.follow_rule(x.variable, s));
                                self.lemma_follow_rule_grows(top, x.variable, s);
                                assert(top.follow_rule_set(top.productions[j].variable).contains(
                                    s,
                                ));
                                assert(top.follow_rule_set(top.productions[j].variable).subset_of(
                                    top.productions[j].follows,
                                ));
                            }
                        }
                    }
                }
            }
            assert(other.follows_in_alphabet()) by {
                assert forall|i: int, s: Symbol|
                    0 <= i < other.productions.len() && (
                    #[trigger] other.productions[i]).follows.contains(
                        s,
                    ) implies #[trigger] other.in_follow_alphabet(s) by {
                    if self.productions[i].follows.contains(s) {
                        assert(self.in_follow_alphabet(s));
                    } else {
                        assert(i == j && given.contains(s));
                        match x.given {
                            GivenView::Symbol(t) => {
                                self.lemma_produced_alphabet(x);
                            },
                            GivenView::FollowOf(h) => {
                                self.lemma_lookup(h);
                                let b = self.lookup(h)->Some_0;
                                assert(self.productions[b].follows.contains(s));
                                assert(self.in_follow_alphabet(s));
                            },
                        }
                    }
                }
            }
        }
    }

    /// FOLLOW sets within the alphabet are finite, each with at most one
    /// member more than there are terminals.
    pub proof fn lemma_follow_sizes(self)
        requires
            self.follows_in_alphabet(),
        ensures
            forall|i: int|
                0 <= i < self.productions.len() ==> (
                #[trigger] self.productions[i]).follows.finite()
                    && self.productions[i].follows.len() <= self.terminals.len() + 1,
            total_len(self.follow_sets()) <= self.productions.len() * (self.terminals.len() + 1),
    {
        assert forall|i: int| 0 <= i < self.productions.len() implies (
        #[trigger] self.productions[i]).follows.finite() && self.productions[i].follows.len()
            <= self.terminals.len() + 1 by {
            let set = self.productions[i].follows;
            assert forall|s: Symbol| set.contains(s) implies alphabet(
                self.terminals,
                Symbol::EndMarker,
            ).contains(s) by {
                assert(self.in_follow_alphabet(s));
                if let Symbol::Terminal(t) = s {
                    lemma_alphabet_terminal(self.terminals, Symbol::EndMarker, t);
                }
            }
            lemma_size_in_alphabet(set, self.terminals, Symbol::EndMarker);
        }
        assert forall|i: int| 0 <= i < self.follow_sets().len() implies (
        #[trigger] self.follow_sets()[i]).len() <= self.terminals.len() + 1 by {
            assert(self.follow_sets()[i] == self.productions[i].follows);
        }
        lemma_total_bound(self.follow_sets(), self.terminals.len() + 1);
    }

    /// Taking an item in makes the FOLLOW sets larger in total if the item
    /// asked for something new, and changes nothing if it did not.
    pub proof fn lemma_follow_step_total(self, x: ItemView, other: GrammarView)
        requires
            self.follow_step(x, other),
            self.follows_in_alphabet(),
            other.follows_in_alphabet(),
        ensures
            self.satisfied(x) ==> other == self,
            !self.satisfied(x) ==> total_len(self.follow_sets()) < total_len(other.follow_sets()),
    {
        self.lemma_lookup(x.variable);
        if let Some(j) = self.lookup(x.variable) {
            let held = self.productions[j].follows;
            let grown = held.union(self.given(x));
            assert(other.productions[j].follows == grown);
            if self.satisfied(x) {
                assert(grown =~= held);
                assert(other.productions =~= self.productions);
            } else {
                self.lemma_follow_sizes();
                other.lemma_follow_sizes();
                assert(other.follow_sets() =~= self.follow_sets().update(j, grown));
                lemma_total_update(self.follow_sets(), j, grown);
                vstd::set_lib::lemma_len_subset(held, grown);
                if held.len() == grown.len() {
                    vstd::set_lib::lemma_subset_equality(held, grown);
                    assert(self.given(x).subset_of(held));
                }
            }
        }
    }

    /// Closed FOLLOW sets hold the end marker for the start symbol.
    pub proof fn lemma_end_marker_follows_start(self, j: int)
        requires
            self.follows_closed(),
            self.stands(j),
            self.productions[j].variable == self.initial_symbol,
        ensures
            self.productions[j].follows.contains(Symbol::EndMarker),
    {
        let p = self.productions[j];
        let x = ItemView { variable: p.variable, given: GivenView::Symbol(Symbol::EndMarker) };
        assert(self.production_produces(self.productions[j], x));
        assert(self.produced(x) && self.gives(x, Symbol::EndMarker));
        assert(self.follow_rule(p.variable, Symbol::EndMarker));
        assert(self.follow_rule_set(p.variable).contains(Symbol::EndMarker));
        assert(self.follow_rule_set(p.variable).subset_of(p.follows));
    }
}

} // verus!
