// Laws of the FIRST and FOLLOW sets.

use crate::follow_rules::{GivenView, ItemView};
use crate::grammar::GrammarView;
use crate::production::ProductionView;
use crate::token::Symbol;
use vstd::prelude::*;

verus! {

/// The least FIRST sets hold nothing but epsilon and terminals of the
/// grammar: no variable, and not the end marker.
pub proof fn lemma_least_firsts_in_alphabet(g: GrammarView)
    requires
        g.firsts_least(),
    ensures
        g.firsts_in_alphabet(),
{
    let full = Set::new(|s: Symbol| g.in_first_alphabet(s));
    let top = GrammarView {
        productions: g.productions.map_values(|p: ProductionView| ProductionView { firsts: full, ..p }),
        ..g
    };
    assert(top.same_rules(g));
    assert(top.firsts_in_alphabet()) by {
        assert forall|i: int, s: Symbol|
            0 <= i < top.productions.len() && (#[trigger] top.productions[i]).firsts.contains(
                s,
            ) implies #[trigger] top.in_first_alphabet(s) by {
            assert(full.contains(s));
        }
    }
    assert(top.firsts_closed()) by {
        assert forall|i: int| 0 <= i < top.productions.len() implies top.first_rule(
            (#[trigger] top.productions[i]).derivation,
        ).subset_of(top.productions[i].firsts) by {
            assert forall|s: Symbol|
                top.first_rule(top.productions[i].derivation).contains(s) implies full.contains(
                s,
            ) by {
                top.lemma_first_rule_alphabet(top.productions[i].derivation, s);
            }
        }
    }
    assert(g.firsts_within(top));
    assert forall|i: int, s: Symbol|
        0 <= i < g.productions.len() && (#[trigger] g.productions[i]).firsts.contains(
            s,
        ) implies #[trigger] g.in_first_alphabet(s) by {
        assert(g.productions[i].firsts.subset_of(top.productions[i].firsts));
        assert(full.contains(s));
    }
}

/// The least FOLLOW sets over FIRST sets of epsilon and terminals hold
/// nothing but the end marker and terminals of the grammar: no variable,
/// and not epsilon.
pub proof fn lemma_least_follows_in_alphabet(g: GrammarView)
    requires
        g.firsts_in_alphabet(),
        g.follows_least(),
    ensures
        g.follows_in_alphabet(),
{
    let full = Set::new(|s: Symbol| g.in_follow_alphabet(s));
    let top = GrammarView {
        productions: g.productions.map_values(
            |p: ProductionView| ProductionView { follows: full, ..p },
        ),
        ..g
    };
    assert(top.same_rules(g));
    assert(top.same_firsts(g));
    assert(top.firsts_in_alphabet()) by {
        assert forall|i: int, s: Symbol|
            0 <= i < top.productions.len() && (#[trigger] top.productions[i]).firsts.contains(
                s,
            ) implies #[trigger] top.in_first_alphabet(s) by {
            assert(g.productions[i].firsts.contains(s));
            assert(g.in_first_alphabet(s));
        }
    }
    assert(top.follows_closed()) by {
        assert forall|j: int| top.stands(j) implies top.follow_rule_set(
            (#[trigger] top.productions[j]).variable,
        ).subset_of(top.productions[j].follows) by {
            let v = top.productions[j].variable;
            assert forall|s: Symbol| top.follow_rule(v, s) implies full.contains(s) by {
                let x = choose|x: ItemView|
                    x.variable == v && #[trigger] top.produced(x) && top.gives(x, s);
                match x.given {
                    GivenView::Symbol(t) => {
                        top.lemma_produced_alphabet(x);
                    },
                    GivenView::FollowOf(h) => {
                        top.lemma_lookup(h);
                        let b = top.lookup(h)->Some_0;
                        assert(top.productions[b].follows == full);
                    },
                }
            }
        }
    }
    assert(g.follows_within(top));
    assert forall|i: int, s: Symbol|
        0 <= i < g.productions.len() && (#[trigger] g.productions[i]).follows.contains(
            s,
        ) implies #[trigger] g.in_follow_alphabet(s) by {
        assert(g.productions[i].follows.subset_of(top.productions[i].follows));
        assert(full.contains(s));
    }
}

/// The least solution of the FIRST rules is unique: two grammars with the
/// same rules whose FIRST sets are both the least solution hold the same
/// FIRST sets.
pub proof fn lemma_firsts_unique(a: GrammarView, b: GrammarView)
    requires
        a.same_rules(b),
        a.firsts_solved(),
        b.firsts_solved(),
    ensures
        a.same_firsts(b),
{
    assert(b.same_rules(a));
    assert(a.firsts_within(b));
    assert(b.firsts_within(a));
    assert forall|i: int| 0 <= i < a.productions.len() implies (#[trigger] a.productions[i]).firsts
        == b.productions[i].firsts by {
        assert(a.productions[i].firsts.subset_of(b.productions[i].firsts));
        assert(b.productions[i].firsts.subset_of(a.productions[i].firsts));
        assert(a.productions[i].firsts =~= b.productions[i].firsts);
    }
}

/// With the same rules and the same FIRST sets, the rules give the same for
/// a derivation.
pub proof fn lemma_first_rule_same(a: GrammarView, b: GrammarView, derivation: Seq<char>)
    requires
        a.same_rules(b),
        a.same_firsts(b),
    ensures
        a.first_rule(derivation) == b.first_rule(derivation),
{
    assert(b.same_rules(a));
    assert(a.firsts_within(b));
    assert(b.firsts_within(a));
    a.lemma_first_rule_grows(b, derivation);
    b.lemma_first_rule_grows(a, derivation);
    assert(a.first_rule(derivation) =~= b.first_rule(derivation));
}

/// The least FIRST set for a derivation is unique: what `fetch_firsts`
/// returns is one set, fixed by the grammar's rules and the derivation.
pub proof fn lemma_least_first_unique(
    g: GrammarView,
    derivation: Seq<char>,
    a: Set<Symbol>,
    b: Set<Symbol>,
)
    requires
        g.least_first(derivation, a),
        g.least_first(derivation, b),
    ensures
        a == b,
{
    let x = choose|x: GrammarView|
        x.same_rules(g) && #[trigger] x.firsts_solved() && a == x.first_rule(derivation);
    let y = choose|y: GrammarView|
        y.same_rules(g) && #[trigger] y.firsts_solved() && b == y.first_rule(derivation);
    assert(x.same_rules(y));
    lemma_firsts_unique(x, y);
    lemma_first_rule_same(x, y, derivation);
}

/// The least FIRST set for a derivation is what the rules give for it in
/// any grammar with the same rules whose FIRST sets are the least solution.
pub proof fn lemma_least_first_is(
    g: GrammarView,
    solved: GrammarView,
    derivation: Seq<char>,
    set: Set<Symbol>,
)
    requires
        solved.same_rules(g),
        solved.firsts_solved(),
    ensures
        g.least_first(derivation, set) <==> set == solved.first_rule(derivation),
{
    if g.least_first(derivation, set) {
        lemma_least_first_unique(g, derivation, set, solved.first_rule(derivation));
    }
}

/// The least FIRST set for a derivation does not depend on the FIRST or
/// FOLLOW sets that a grammar holds: two grammars with the same rules have
/// the same.
pub proof fn lemma_least_first_same_rules(
    g: GrammarView,
    h: GrammarView,
    derivation: Seq<char>,
    set: Set<Symbol>,
)
    requires
        g.same_rules(h),
        g.least_first(derivation, set),
    ensures
        h.least_first(derivation, set),
{
    let x = choose|x: GrammarView|
        x.same_rules(g) && #[trigger] x.firsts_solved() && set == x.first_rule(derivation);
    assert(x.same_rules(h));
}

/// Where the FIRST sets are the least solution, the set that a production
/// holds is the least FIRST set for its derivation, and so is the set held
/// for a variable that has a production.
pub proof fn lemma_solved_firsts_are_least(g: GrammarView, i: int)
    requires
        g.firsts_solved(),
        0 <= i < g.productions.len(),
    ensures
        g.productions[i].firsts == g.first_rule(g.productions[i].derivation),
        g.least_first(g.productions[i].derivation, g.productions[i].firsts),
{
    let d = g.productions[i].derivation;
    assert(g.first_rule(d).subset_of(g.productions[i].firsts));
    assert(g.productions[i].firsts.subset_of(g.first_rule(d)));
    assert(g.productions[i].firsts =~= g.first_rule(d));
    assert(g.same_rules(g));
}

/// The FIRST set that `process_variable` takes for a variable with a
/// production is the one that `fetch_firsts` returns for the production
/// that stands for the variable: in a grammar with the same rules whose
/// FIRST sets are the least solution, the set held for the variable is the
/// least FIRST set for that production's derivation.
pub proof fn lemma_least_first_of_variable(g: GrammarView, solved: GrammarView, variable: char)
    requires
        solved.same_rules(g),
        solved.firsts_solved(),
        g.lookup(variable) is Some,
    ensures
        g.least_first(
            g.productions[g.lookup(variable)->Some_0].derivation,
            solved.first_of(variable),
        ),
{
    let i = g.lookup(variable)->Some_0;
    g.lemma_lookup(variable);
    solved.lemma_same_rules_lookup(g, variable, 0);
    lemma_solved_firsts_are_least(solved, i);
    assert(solved.productions[i].derivation == g.productions[i].derivation);
}

/// What `process_variable` returns and makes of the set is fixed by the
/// grammar's rules, the variable, `last` and the set before.
pub proof fn lemma_least_takes_variable_unique(
    g: GrammarView,
    variable: char,
    last: bool,
    before: Set<Symbol>,
    go1: bool,
    after1: Set<Symbol>,
    go2: bool,
    after2: Set<Symbol>,
)
    requires
        g.least_takes_variable(variable, last, go1, before, after1),
        g.least_takes_variable(variable, last, go2, before, after2),
    ensures
        go1 == go2,
        after1 == after2,
{
    let x = choose|x: GrammarView|
        x.same_rules(g) && #[trigger] x.firsts_solved() && x.takes_variable(
            variable,
            last,
            go1,
            before,
            after1,
        );
    let y = choose|y: GrammarView|
        y.same_rules(g) && #[trigger] y.firsts_solved() && y.takes_variable(
            variable,
            last,
            go2,
            before,
            after2,
        );
    assert(x.same_rules(y));
    lemma_firsts_unique(x, y);
    x.lemma_same_rules_lookup(y, variable, 0);
    x.lemma_lookup(variable);
    assert(x.first_of(variable) == y.first_of(variable));
}

/// The least solution of the FOLLOW rules is unique: two grammars with the
/// same rules and FIRST sets whose FOLLOW sets are both the least solution
/// hold the same FOLLOW sets.
pub proof fn lemma_follows_unique(a: GrammarView, b: GrammarView)
    requires
        a.same_rules(b),
        a.same_firsts(b),
        a.follows_solved(),
        b.follows_solved(),
    ensures
        forall|i: int|
            0 <= i < a.productions.len() ==> (#[trigger] a.productions[i]).follows
                == b.productions[i].follows,
{
    assert(b.same_rules(a));
    assert(b.same_firsts(a));
    assert(a.follows_within(b));
    assert(b.follows_within(a));
    assert forall|i: int| 0 <= i < a.productions.len() implies (#[trigger] a.productions[i]).follows
        == b.productions[i].follows by {
        assert(a.productions[i].follows.subset_of(b.productions[i].follows));
        assert(b.productions[i].follows.subset_of(a.productions[i].follows));
        assert(a.productions[i].follows =~= b.productions[i].follows);
    }
}

/// Working out the FIRST sets twice changes nothing the second time: if
/// `once` is what `compute_firsts` makes of `before`, and `twice` what it
/// makes of `once`, then `twice` is `once`.
pub proof fn lemma_compute_firsts_idempotent(
    before: GrammarView,
    once: GrammarView,
    twice: GrammarView,
)
    requires
        once.same_rules(before),
        once.firsts_solved(),
        twice.same_rules(once),
        twice.firsts_solved(),
        forall|i: int|
            0 <= i < twice.productions.len() ==> (#[trigger] twice.productions[i]).follows
                == once.productions[i].follows,
    ensures
        twice == once,
{
    lemma_firsts_unique(twice, once);
    assert forall|i: int| 0 <= i < twice.productions.len() implies twice.productions[i]
        == once.productions[i] by {
        assert(twice.productions[i].variable == once.productions[i].variable);
        assert(twice.productions[i].firsts == once.productions[i].firsts);
        assert(twice.productions[i].follows == once.productions[i].follows);
    }
    assert(twice.productions =~= once.productions);
}

/// Working out the FOLLOW sets twice changes nothing the second time: if
/// `once` is what `compute_follows` makes of `before`, and `twice` what it
/// makes of `once`, then `twice` is `once`.
pub proof fn lemma_compute_follows_idempotent(
    before: GrammarView,
    once: GrammarView,
    twice: GrammarView,
)
    requires
        once.same_rules(before),
        once.firsts_solved(),
        once.follows_solved(),
        twice.same_rules(once),
        twice.firsts_solved(),
        twice.follows_solved(),
    ensures
        twice == once,
{
    lemma_firsts_unique(twice, once);
    lemma_follows_unique(twice, once);
    assert forall|i: int| 0 <= i < twice.productions.len() implies twice.productions[i]
        == once.productions[i] by {
        assert(twice.productions[i].variable == once.productions[i].variable);
        assert(twice.productions[i].firsts == once.productions[i].firsts);
        assert(twice.productions[i].follows == once.productions[i].follows);
    }
    assert(twice.productions =~= once.productions);
}

/// A FIRST set that is exactly what the rules give holds epsilon if and
/// only if one of the production's alternatives can vanish as a whole.
pub proof fn lemma_first_holds_epsilon(g: GrammarView, i: int)
    requires
        g.firsts_closed(),
        g.firsts_founded(),
        0 <= i < g.productions.len(),
    ensures
        g.productions[i].firsts.contains(Symbol::Epsilon) <==> exists|a: int|
            0 <= a < g.symbols(g.productions[i].derivation).len() && g.vanishes(
                #[trigger] g.symbols(g.productions[i].derivation)[a],
            ),
{
    let d = g.productions[i].derivation;
    let alts = g.symbols(d);
    assert(g.first_rule(d).subset_of(g.productions[i].firsts));
    assert(g.productions[i].firsts.subset_of(g.first_rule(d)));
    if g.productions[i].firsts.contains(Symbol::Epsilon) {
        assert(g.first_rule(d).contains(Symbol::Epsilon));
        let a = choose|a: int|
            0 <= a < alts.len() && g.alternative_first(#[trigger] alts[a], Symbol::Epsilon);
        assert(g.vanishes(alts[a]));
    }
    if exists|a: int| 0 <= a < alts.len() && g.vanishes(#[trigger] alts[a]) {
        let a = choose|a: int| 0 <= a < alts.len() && g.vanishes(#[trigger] alts[a]);
        assert(g.alternative_first(alts[a], Symbol::Epsilon));
        assert(g.derivation_first(d, Symbol::Epsilon));
        assert(g.first_rule(d).contains(Symbol::Epsilon));
    }
}

/// Let a variable that can vanish stand at place `k` of an alternative,
/// after nothing but symbols that can vanish. If it is the last symbol, the
/// alternative can vanish. If the symbol after it cannot vanish, neither
/// can the alternative.
pub proof fn lemma_vanishes_through(g: GrammarView, alt: Seq<Symbol>, k: int)
    requires
        0 <= k < alt.len(),
        g.nullable(alt[k]),
        g.nullable_prefix(alt, k),
    ensures
        k + 1 == alt.len() ==> g.vanishes(alt),
        k + 1 < alt.len() && !g.nullable(alt[k + 1]) ==> !g.vanishes(alt),
{
    if k + 1 == alt.len() {
        assert(g.nullable_prefix(alt, alt.len() as int));
    }
    assert(seq![Symbol::Epsilon][0] == Symbol::Epsilon);
}

/// Nullability propagation. Let the production `i` have one alternative
/// only, in which a variable that can vanish stands at place `k`, after
/// nothing but symbols that can vanish, and with no symbol that can vanish
/// right after it. Then the production's FIRST set holds epsilon if and
/// only if that variable is the alternative's last symbol.
pub proof fn lemma_nullability_propagation(g: GrammarView, i: int, k: int)
    requires
        g.firsts_closed(),
        g.firsts_founded(),
        0 <= i < g.productions.len(),
        g.symbols(g.productions[i].derivation).len() == 1,
        0 <= k < g.symbols(g.productions[i].derivation)[0].len(),
        g.nullable(g.symbols(g.productions[i].derivation)[0][k]),
        g.nullable_prefix(g.symbols(g.productions[i].derivation)[0], k),
        k + 1 < g.symbols(g.productions[i].derivation)[0].len() ==> !g.nullable(
            g.symbols(g.productions[i].derivation)[0][k + 1],
        ),
    ensures
        g.productions[i].firsts.contains(Symbol::Epsilon) <==> k + 1 == g.symbols(
            g.productions[i].derivation,
        )[0].len(),
{
    let alts = g.symbols(g.productions[i].derivation);
    lemma_first_holds_epsilon(g, i);
    lemma_vanishes_through(g, alts[0], k);
    if g.productions[i].firsts.contains(Symbol::Epsilon) {
        let a = choose|a: int| 0 <= a < alts.len() && g.vanishes(#[trigger] alts[a]);
        assert(a == 0);
    }
}

} // verus!
