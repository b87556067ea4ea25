// Working out the FOLLOW sets.

use crate::count::{
    count_of, lemma_count_add, lemma_count_contains, lemma_count_empty, lemma_count_push,
};
use crate::follow_rules::{GivenView, ItemView};
use crate::grammar::{Grammar, GrammarView};
use crate::production::{Production, ProductionView};
use crate::size::total_len;
use crate::token::{slices_of, symbols_of, Symbol, Token, TokenProcessor};
use crate::token_set::TokenSet;
use vstd::prelude::*;

verus! {

/// What an item gives to a FOLLOW set: one token, or all that the FOLLOW
/// set of another variable holds.
#[derive(Debug, PartialEq, Eq)]
pub enum Given {
    Token(Token),
    FollowOf(char),
}

impl View for Given {
    type V = GivenView;

    open spec fn view(&self) -> GivenView {
        match self {
            Given::Token(t) => GivenView::Symbol(t@),
            Given::FollowOf(h) => GivenView::FollowOf(*h),
        }
    }
}

impl Clone for Given {
    fn clone(&self) -> (r: Given)
        ensures
            r == *self,
    {
        match self {
            Given::Token(t) => Given::Token(t.clone()),
            Given::FollowOf(h) => Given::FollowOf(*h),
        }
    }
}

/// One result of the scan for FOLLOW sets: something that the FOLLOW set
/// of `variable` has to hold.
#[derive(Debug, PartialEq, Eq)]
pub struct Item {
    pub variable: char,
    pub given: Given,
}

impl View for Item {
    type V = ItemView;

    open spec fn view(&self) -> ItemView {
        ItemView { variable: self.variable, given: self.given@ }
    }
}

impl Clone for Item {
    fn clone(&self) -> (r: Item)
        ensures
            r == *self,
    {
        Item { variable: self.variable, given: self.given.clone() }
    }
}

impl Item {
    /// The item that gives `given` to the FOLLOW set of `variable`.
    pub fn new(variable: char, given: Given) -> (r: Item)
        ensures
            r == (Item { variable, given }),
    {
        Item { variable, given }
    }
}

/// The items of a list as mathematical values.
pub open spec fn items_of(items: Seq<Item>) -> Seq<ItemView> {
    items.map_values(|x: Item| x@)
}

/// The views of a list of items with one more item at its end.
pub proof fn lemma_items_push(items: Seq<Item>, x: Item)
    ensures
        items_of(items.push(x)) == items_of(items).push(x@),
{
    assert(items_of(items.push(x)) =~= items_of(items).push(x@));
}

impl Production {
    /// What the variable `variable` offers to a variable that stands right
    /// before it: the FIRST set that `grammar` holds for it, without
    /// epsilon. The FOLLOW rules go by the FIRST sets as the grammar holds
    /// them; `compute_follows` works them out first.
    pub fn process_follow_rule2(variable: char, grammar: &Grammar) -> (r: TokenSet)
        ensures
            r@ == grammar@.first_of(variable).remove(Symbol::Epsilon),
    {
        match grammar.get_production_by_var(variable) {
            Some(p) => p.firsts.without(&Token::Epsilon),
            None => {
                let r = TokenSet::new();
                assert(r@ =~= Set::<Symbol>::empty().remove(Symbol::Epsilon));
                r
            },
        }
    }

    /// Whether `next_token` is a variable that can vanish: one for which
    /// `grammar` holds a FIRST set with epsilon in it.
    pub fn process_follow_rule3(next_token: Option<&Token>, grammar: &Grammar) -> (r: bool)
        ensures
            r == (next_token matches Some(t) && grammar@.nullable(t@)),
    {
        match next_token {
            Some(Token::Variable(ch)) => {
                match grammar.get_production_by_var(*ch) {
                    Some(p) => p.firsts.contains(&Token::Epsilon),
                    None => false,
                }
            },
            _ => false,
        }
    }

    /// The items that give `variable` what the symbol after it offers: for
    /// a terminal that one terminal, for a variable each member but epsilon
    /// of the FIRST set that `grammar` holds for it, once, and nothing where
    /// no symbol follows or another one does.
    pub fn process_follow_variable(
        variable: char,
        grammar: &Grammar,
        next_token: Option<&Token>,
    ) -> (r: Vec<Item>)
        ensures
            forall|x: ItemView|
                items_of(r@).contains(x) <==> (next_token is Some && grammar@.hands_on(
                    variable,
                    next_token->Some_0@,
                    x,
                )),
            items_of(r@).no_duplicates(),
            match next_token {
                Some(Token::Terminal(_)) => items_of(r@) == seq![
                    (ItemView { variable, given: GivenView::Symbol(next_token->Some_0@) }),
                ],
                Some(Token::Variable(_)) => true,
                _ => r@.len() == 0,
            },
    {
        let mut items: Vec<Item> = Vec::new();
        match next_token {
            Some(Token::Variable(ch)) => {
                let offered = Production::process_follow_rule2(*ch, grammar);
                let tokens = offered.items();
                let mut i: usize = 0;
                while i < tokens.len()
                    invariant
                        i <= tokens.len(),
                        symbols_of(tokens@).to_set() == offered@,
                        symbols_of(tokens@).no_duplicates(),
                        items.len() == i,
                        forall|j: int|
                            0 <= j < i ==> (#[trigger] items_of(items@)[j]) == (ItemView {
                                variable,
                                given: GivenView::Symbol(symbols_of(tokens@)[j]),
                            }),
                    decreases tokens.len() - i,
                {
                    let item = Item::new(variable, Given::Token(tokens[i].clone()));
                    proof {
                        lemma_items_push(items@, item);
                    }
                    items.push(item);
                    i += 1;
                }
                proof {
                    let views = items_of(items@);
                    let syms = symbols_of(tokens@);
                    assert forall|a: int, b: int|
                        0 <= a < views.len() && 0 <= b < views.len() && a != b implies views[a]
                        != views[b] by {
                        assert(syms[a] != syms[b]);
                    }
                    assert forall|x: ItemView|
                        views.contains(x) <==> grammar@.hands_on(
                            variable,
                            Symbol::Variable(*ch),
                            x,
                        ) by {
                        if views.contains(x) {
                            let j = choose|j: int| 0 <= j < views.len() && views[j] == x;
                            assert(syms.to_set().contains(syms[j]));
                        }
                        if grammar@.hands_on(variable, Symbol::Variable(*ch), x) {
                            let s = x.given->Symbol_0;
                            assert(syms.to_set().contains(s));
                            let j = choose|j: int| 0 <= j < syms.len() && syms[j] == s;
                            assert(views[j] == x);
                        }
                    }
                }
            },
            Some(Token::Terminal(_)) => {
                let token = next_token.unwrap();
                items.push(Item::new(variable, Given::Token(token.clone())));
                proof {
                    let views = items_of(items@);
                    assert(views[0] == (ItemView { variable, given: GivenView::Symbol(token@) }));
                    assert(views =~= seq![
                        (ItemView { variable, given: GivenView::Symbol(token@) }),
                    ]);
                    assert forall|x: ItemView|
                        views.contains(x) <==> grammar@.hands_on(variable, token@, x) by {
                        if views.contains(x) {
                            let j = choose|j: int| 0 <= j < views.len() && views[j] == x;
                            assert(j == 0);
                        }
                    }
                }
            },
            _ => {
                proof {
                    let views = items_of(items@);
                    assert forall|x: ItemView| !views.contains(x) by {}
                }
            },
        }
        items
    }

    /// Adds to `items` what the alternative `tokens` of a production for
    /// `head` yields: for each place of a variable the items that it yields,
    /// each once, from the FIRST sets that `grammar` holds.
    pub fn fetch_alternative_follows(
        tokens: &Vec<Token>,
        head: char,
        grammar: &Grammar,
        items: &mut Vec<Item>,
    )
        ensures
            forall|x: ItemView|
                items_of(final(items)@).contains(x) <==> (items_of(old(items)@).contains(x)
                    || grammar@.alternative_produces(symbols_of(tokens@), head, x)),
            forall|x: ItemView|
                count_of(items_of(final(items)@), x) == count_of(items_of(old(items)@), x)
                    + grammar@.produce_count(
                    symbols_of(tokens@),
                    tokens@.len() as int,
                    head,
                    x,
                ),
    {
        let n = tokens.len();
        let ghost alt = symbols_of(tokens@);
        let ghost g = grammar@;
        let mut k: usize = 0;
        while k < n
            invariant
                k <= n,
                n == tokens.len(),
                n == alt.len(),
                alt == symbols_of(tokens@),
                g == grammar@,
                forall|x: ItemView|
                    items_of(items@).contains(x) <==> (items_of(old(items)@).contains(x)
                        || g.produces_before(alt, k as int, head, x)),
                forall|x: ItemView|
                    count_of(items_of(items@), x) == count_of(items_of(old(items)@), x)
                        + g.produce_count(alt, k as int, head, x),
            decreases n - k,
        {
            let ghost before = items_of(items@);
            let ghost mut offered: Seq<ItemView> = Seq::empty();
            let ghost mut passed: Seq<ItemView> = Seq::empty();
            assert(alt[k as int] == tokens@[k as int]@);
            match &tokens[k] {
                Token::Variable(ch) => {
                    let next = if k + 1 < n {
                        assert(alt[k + 1] == tokens@[k + 1]@);
                        Some(&tokens[k + 1])
                    } else {
                        None
                    };
                    let mut found = Production::process_follow_variable(*ch, grammar, next);
                    proof {
                        offered = items_of(found@);
                        assert(items_of(items@ + found@) =~= before + offered);
                        assert(offered.no_duplicates());
                    }
                    items.append(&mut found);
                    let tail = k + 1 == n || (k + 2 == n && Production::process_follow_rule3(
                        next,
                        grammar,
                    ));
                    if tail {
                        let item = Item::new(*ch, Given::FollowOf(head));
                        proof {
                            lemma_items_push(items@, item);
                            passed = seq![item@];
                        }
                        items.push(item);
                    }
                    proof {
                        assert(items_of(items@) =~= before + offered + passed);
                        assert forall|x: ItemView|
                            (offered.contains(x) || passed.contains(x)) <==> g.produces(
                                alt,
                                k as int,
                                head,
                                x,
                            ) by {
                            if passed.contains(x) {
                                assert(passed[0] == x);
                            }
                            if g.produces(alt, k as int, head, x) {
                                if x.given is FollowOf {
                                    assert(passed[0] == x);
                                }
                            }
                        }
                    }
                },
                _ => {
                    proof {
                        assert(items_of(items@) =~= before + offered + passed);
                    }
                },
            }
            proof {
                let now = items_of(items@);
                assert(now == before + offered + passed);
                assert(offered.no_duplicates());
                assert(passed.no_duplicates());
                assert forall|x: ItemView|
                    count_of(now, x) == count_of(items_of(old(items)@), x) + g.produce_count(
                        alt,
                        k + 1,
                        head,
                        x,
                    ) by {
                    lemma_count_add(before, offered, x);
                    lemma_count_add(before + offered, passed, x);
                    lemma_count_contains(offered, x);
                    lemma_count_contains(passed, x);
                    assert((offered.contains(x) || passed.contains(x)) <==> g.produces(
                        alt,
                        k as int,
                        head,
                        x,
                    ));
                    if offered.contains(x) && passed.contains(x) {
                        assert(passed[0] == x);
                        assert(x.given is FollowOf);
                    }
                }
                assert forall|x: ItemView|
                    now.contains(x) <==> (items_of(old(items)@).contains(x) || g.produces_before(
                        alt,
                        k + 1,
                        head,
                        x,
                    )) by {
                    assert(now.contains(x) <==> (before.contains(x) || offered.contains(x)
                        || passed.contains(x))) by {
                        vstd::seq_lib::lemma_seq_concat_contains_all_elements(before, offered, x);
                        vstd::seq_lib::lemma_seq_concat_contains_all_elements(
                            before + offered,
                            passed,
                            x,
                        );
                    }
                    assert((offered.contains(x) || passed.contains(x)) <==> g.produces(
                        alt,
                        k as int,
                        head,
                        x,
                    ));
                    if g.produces_before(alt, k + 1, head, x) {
                        let j = choose|j: int| 0 <= j < k + 1 && g.produces(alt, j, head, x);
                        if j < k {
                            assert(g.produces_before(alt, k as int, head, x));
                        }
                    }
                    if g.produces_before(alt, k as int, head, x) {
                        let j = choose|j: int| 0 <= j < k && g.produces(alt, j, head, x);
                        assert(0 <= j < k + 1 && g.produces(alt, j, head, x));
                    }
                    if g.produces(alt, k as int, head, x) {
                        assert(0 <= k < k + 1 && g.produces(alt, k as int, head, x));
                    }
                }
            }
            k += 1;
        }
        proof {
            assert forall|x: ItemView|
                g.produces_before(alt, k as int, head, x) <==> g.alternative_produces(
                    alt,
                    head,
                    x,
                ) by {
                if g.alternative_produces(alt, head, x) {
                    let j = choose|j: int| g.produces(alt, j, head, x);
                    assert(0 <= j < k && g.produces(alt, j, head, x));
                }
                if g.produces_before(alt, k as int, head, x) {
                    let j = choose|j: int| 0 <= j < k && g.produces(alt, j, head, x);
                    assert(g.produces(alt, j, head, x));
                }
            }
        }
    }

    /// The items that `production` yields: what the FOLLOW rules say of
    /// each variable in its alternatives, read by `token_processor`, and of
    /// its own variable if that is the start symbol. Each place of a
    /// variable gives its items once; the FIRST sets are those that
    /// `grammar` holds.
    pub fn fetch_follows(
        production: &Production,
        grammar: &Grammar,
        token_processor: &TokenProcessor,
    ) -> (r: Vec<Item>)
        ensures
            forall|x: ItemView|
                items_of(r@).contains(x) <==> grammar@.yields(
                    token_processor.grammar().symbols(production@.derivation),
                    production@.variable,
                    x,
                ),
            forall|x: ItemView|
                count_of(items_of(r@), x) == grammar@.yield_count(
                    token_processor.grammar().symbols(production@.derivation),
                    production@.variable,
                    x,
                ),
    {
        let mut items: Vec<Item> = Vec::new();
        let head = production.variable;
        let ghost g = grammar@;
        let ghost start = ItemView { variable: head, given: GivenView::Symbol(Symbol::EndMarker) };
        if grammar.production_is_initial(production) {
            let item = Item::new(head, Given::Token(Token::DollarSign));
            proof {
                lemma_items_push(items@, item);
            }
            items.push(item);
            assert(items_of(items@)[0] == start);
        }
        proof {
            assert forall|x: ItemView|
                count_of(items_of(items@), x) == if head == g.initial_symbol && x == start {
                    1nat
                } else {
                    0nat
                } by {
                lemma_count_empty(x);
                if head == g.initial_symbol {
                    assert(items_of(items@) =~= Seq::<ItemView>::empty().push(start));
                    lemma_count_push(Seq::<ItemView>::empty(), start, x);
                } else {
                    assert(items_of(items@) =~= Seq::<ItemView>::empty());
                }
            }
        }
        let slices = token_processor.process_derivation(&production.derivation);
        let ghost alts = token_processor.grammar().symbols(production@.derivation);
        let mut a: usize = 0;
        while a < slices.len()
            invariant
                a <= slices.len(),
                alts == slices_of(slices@),
                g == grammar@,
                head == production@.variable,
                start == (ItemView { variable: head, given: GivenView::Symbol(Symbol::EndMarker) }),
                forall|x: ItemView|
                    items_of(items@).contains(x) <==> ((head == g.initial_symbol && x == start)
                        || exists|b: int|
                        0 <= b < a && g.alternative_produces(#[trigger] alts[b], head, x)),
                forall|x: ItemView|
                    count_of(items_of(items@), x) == g.alternatives_count(
                        alts,
                        a as int,
                        head,
                        x,
                    ) + if head == g.initial_symbol && x == start {
                        1nat
                    } else {
                        0nat
                    },
            decreases slices.len() - a,
        {
            let ghost before = items_of(items@);
            assert(alts[a as int] == symbols_of(slices@[a as int].tokens@));
            Production::fetch_alternative_follows(&slices[a].tokens, head, grammar, &mut items);
            proof {
                assert forall|x: ItemView|
                    items_of(items@).contains(x) <==> ((head == g.initial_symbol && x == start)
                        || exists|b: int|
                        0 <= b < a + 1 && g.alternative_produces(#[trigger] alts[b], head, x)) by {
                    if exists|b: int|
                        0 <= b < a + 1 && g.alternative_produces(#[trigger] alts[b], head, x) {
                        let b = choose|b: int|
                            0 <= b < a + 1 && g.alternative_produces(#[trigger] alts[b], head, x);
                        if b < a {
                            assert(before.contains(x));
                        }
                    }
                    if before.contains(x) && !(head == g.initial_symbol && x == start) {
                        let b = choose|b: int|
                            0 <= b < a && g.alternative_produces(#[trigger] alts[b], head, x);
                        assert(0 <= b < a + 1 && g.alternative_produces(alts[b], head, x));
                    }
                }
            }
            a += 1;
        }
        items
    }
}

impl Grammar {
    /// Takes `item` in: the FOLLOW set of the production that stands for
    /// its variable grows by what the item gives. Returns whether the set
    /// grew.
    pub fn apply_follow_item(&mut self, item: &Item) -> (grew: bool)
        ensures
            old(self)@.follow_step(item@, final(self)@),
            grew == !old(self)@.satisfied(item@),
    {
        let ghost g = self@;
        let ghost x = item@;
        let ghost given = g.given(x);
        match self.index_of(item.variable) {
            None => false,
            Some(j) => {
                let before = self.productions[j].follows.len();
                let ghost held = self.productions[j as int].follows@;
                proof {
                    assert(g.productions[j as int] == self.productions[j as int]@);
                }
                match &item.given {
                    Given::Token(t) => {
                        self.productions[j].follows.insert(t.clone());
                        proof {
                            assert(held.insert(t@) =~= held.union(given));
                        }
                    },
                    Given::FollowOf(h) => {
                        match self.index_of(*h) {
                            Some(i) => {
                                proof {
                                    assert(g.productions[i as int] == self.productions[i as int]@);
                                }
                                let source = self.productions[i].follows.clone();
                                self.productions[j].follows.union_with(&source);
                                proof {
                                    assert(held.union(source@) =~= held.union(given));
                                }
                            },
                            None => {
                                proof {
                                    assert(held =~= held.union(given));
                                }
                            },
                        }
                    },
                }
                let after = self.productions[j].follows.len();
                proof {
                    let grown = self.productions[j as int].follows@;
                    assert(grown == held.union(given));
                    assert(self@.productions =~= g.productions.update(
                        j as int,
                        ProductionView { follows: grown, ..g.productions[j as int] },
                    ));
                    if after == before {
                        vstd::set_lib::lemma_subset_equality(held, grown);
                        assert(given.subset_of(held));
                    } else {
                        if g.satisfied(x) {
                            assert(grown =~= held);
                        }
                    }
                }
                after != before
            },
        }
    }

    /// Works out the FIRST sets, and from them the FOLLOW set of every
    /// variable that has a production: the least sets that hold all that
    /// the rules give from them. The set is kept in the production that
    /// stands for the variable.
    pub fn compute_follows(&mut self)
        ensures
            final(self)@.same_rules(old(self)@),
            final(self)@.firsts_solved(),
            final(self)@.firsts_in_alphabet(),
            final(self)@.follows_solved(),
            final(self)@.follows_in_alphabet(),
            old(self)@.wf() ==> final(self)@.wf(),
            forall|j: int|
                final(self)@.stands(j) && (#[trigger] final(self)@.productions[j]).variable
                    == final(self)@.initial_symbol
                    ==> final(self)@.productions[j].follows.contains(Symbol::EndMarker),
    {
        self.compute_firsts();
        let n = self.productions.len();
        let ghost g1 = self@;
        let mut items: Vec<Item> = Vec::new();
        let processor = TokenProcessor::new(&*self);
        let mut i: usize = 0;
        while i < n
            invariant
                i <= n,
                n == self.productions.len(),
                self@ == g1,
                processor.grammar() == g1,
                forall|x: ItemView|
                    items_of(items@).contains(x) <==> exists|b: int|
                        0 <= b < i && g1.production_produces(#[trigger] g1.productions[b], x),
            decreases n - i,
        {
            let ghost before = items_of(items@);
            let mut part = Production::fetch_follows(&self.productions[i], &*self, &processor);
            proof {
                let found = items_of(part@);
                assert(g1.productions[i as int] == self.productions[i as int]@);
                assert(items_of(items@ + part@) =~= before + found);
                assert forall|x: ItemView|
                    (before + found).contains(x) <==> exists|b: int|
                        0 <= b < i + 1 && g1.production_produces(#[trigger] g1.productions[b], x) by {
                    vstd::seq_lib::lemma_seq_concat_contains_all_elements(before, found, x);
                    if exists|b: int|
                        0 <= b < i + 1 && g1.production_produces(#[trigger] g1.productions[b], x) {
                        let b = choose|b: int|
                            0 <= b < i + 1 && g1.production_produces(
                                #[trigger] g1.productions[b],
                                x,
                            );
                        if b < i {
                            assert(before.contains(x));
                        } else {
                            assert(found.contains(x));
                        }
                    }
                    if before.contains(x) {
                        let b = choose|b: int|
                            0 <= b < i && g1.production_produces(#[trigger] g1.productions[b], x);
                        assert(0 <= b < i + 1 && g1.production_produces(g1.productions[b], x));
                    }
                    if found.contains(x) {
                        assert(g1.production_produces(g1.productions[i as int], x));
                    }
                }
            }
            items.append(&mut part);
            i += 1;
        }
        let ghost found = items_of(items@);
        proof {
            assert forall|y: int| 0 <= y < found.len() implies g1.produced(#[trigger] found[y]) by {
                assert(found.contains(found[y]));
            }
            assert forall|x: ItemView| #[trigger] g1.produced(x) implies found.contains(x) by {}
        }
        i = 0;
        while i < n
            invariant
                i <= n,
                n == self.productions.len(),
                self@.same_rules(g1),
                self@.same_firsts(g1),
                forall|j: int| 0 <= j < i ==> (#[trigger] self@.productions[j]).follows.is_empty(),
            decreases n - i,
        {
            let ghost g = self@;
            proof {
                assert(g.productions[i as int] == self.productions[i as int]@);
            }
            self.productions[i].set_follows(TokenSet::new());
            proof {
                assert(self@.productions =~= g.productions.update(
                    i as int,
                    ProductionView { follows: Set::empty(), ..g.productions[i as int] },
                ));
            }
            i += 1;
        }
        let ghost bound: int = n * (self.terminals.len() + 1);
        let mut changed = true;
        proof {
            let g = self@;
            assert(g.follows_founded());
            assert(g.follows_in_alphabet());
            assert(g.follows_least()) by {
                assert forall|top: GrammarView|
                    top.same_rules(g) && top.same_firsts(g)
                        && #[trigger] top.follows_closed() implies g.follows_within(top) by {}
            }
        }
        while changed
            invariant
                n == self.productions.len(),
                bound == n * (self.terminals.len() + 1),
                old(self)@.wf() ==> g1.wf(),
                g1.same_rules(old(self)@),
                g1.firsts_solved(),
                found == items_of(items@),
                self@.same_rules(g1),
                self@.same_firsts(g1),
                g1.firsts_in_alphabet(),
                forall|y: int| 0 <= y < found.len() ==> g1.produced(#[trigger] found[y]),
                self@.follows_founded(),
                self@.follows_least(),
                self@.follows_in_alphabet(),
                !changed ==> forall|y: int| 0 <= y < found.len() ==> self@.satisfied(#[trigger] found[y]),
            decreases bound - total_len(self@.follow_sets()), if changed { 1int } else { 0int },
        {
            let ghost start = self@;
            proof {
                start.lemma_follow_sizes();
            }
            changed = false;
            let mut y: usize = 0;
            while y < items.len()
                invariant
                    y <= items.len(),
                    n == self.productions.len(),
                    bound == n * (self.terminals.len() + 1),
                    found == items_of(items@),
                    self@.same_rules(g1),
                    self@.same_firsts(g1),
                    g1.firsts_in_alphabet(),
                    forall|y: int| 0 <= y < found.len() ==> g1.produced(#[trigger] found[y]),
                    self@.follows_founded(),
                    self@.follows_least(),
                    self@.follows_in_alphabet(),
                    total_len(start.follow_sets()) <= total_len(self@.follow_sets()) <= bound,
                    changed ==> total_len(start.follow_sets()) < total_len(self@.follow_sets()),
                    !changed ==> forall|z: int|
                        0 <= z < y ==> self@.satisfied(#[trigger] found[z]),
                decreases items.len() - y,
            {
                let ghost g = self@;
                let grew = self.apply_follow_item(&items[y]);
                proof {
                    let h = self@;
                    let x = found[y as int];
                    assert(x == items@[y as int]@);
                    assert(g1.same_rules(g));
                    assert(g1.firsts_within(g));
                    g1.lemma_produced_grows(g, x);
                    assert(g.firsts_in_alphabet()) by {
                        assert forall|i: int, s: Symbol|
                            0 <= i < g.productions.len() && (
                            #[trigger] g.productions[i]).firsts.contains(
                                s,
                            ) implies #[trigger] g.in_first_alphabet(s) by {
                            assert(g1.productions[i].firsts.contains(s));
                            assert(g1.in_first_alphabet(s));
                        }
                    }
                    g.lemma_follow_step(x, h);
                    g.lemma_follow_step_total(x, h);
                    h.lemma_follow_sizes();
                }
                if grew {
                    changed = true;
                }
                y += 1;
            }
        }
        proof {
            let g = self@;
            assert(g.same_rules(g1));
            assert(g1.same_rules(g));
            assert(g1.same_firsts(g));
            if old(self)@.wf() {
                g1.lemma_same_rules_wf(g);
            }
            g1.lemma_firsts_carry(g);
            assert(g.firsts_within(g1));
            assert(g.follows_closed()) by {
                assert forall|j: int| g.stands(j) implies g.follow_rule_set(
                    (#[trigger] g.productions[j]).variable,
                ).subset_of(g.productions[j].follows) by {
                    let v = g.productions[j].variable;
                    assert forall|s: Symbol|
                        g.follow_rule(v, s) implies g.productions[j].follows.contains(s) by {
                        let x = choose|x: ItemView|
                            x.variable == v && #[trigger] g.produced(x) && g.gives(x, s);
                        g.lemma_produced_grows(g1, x);
                        assert(found.contains(x));
                        let y = choose|y: int| 0 <= y < found.len() && found[y] == x;
                        assert(g.satisfied(found[y]));
                        assert(g.given(x).contains(s));
                    }
                }
            }
            assert forall|j: int|
                g.stands(j) && (#[trigger] g.productions[j]).variable
                    == g.initial_symbol implies g.productions[j].follows.contains(
                Symbol::EndMarker,
            ) by {
                g.lemma_end_marker_follows_start(j);
            }
        }
    }
}

} // verus!
