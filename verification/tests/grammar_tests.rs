use lib::language::grammar::{Grammar, GrammarRule};
use lib::symbol::{Symbol, SymbolDomain, SymbolSet, SymbolType};

fn nt(id: u32) -> Symbol {
    Symbol { symbol_type: SymbolType::Nonterminal, id }
}

fn t(id: u32) -> Symbol {
    Symbol { symbol_type: SymbolType::Terminal, id }
}

fn ids(set: &SymbolSet, domain: &SymbolDomain) -> Vec<u32> {
    set.iter(domain).iter().map(|s| s.id).collect()
}

// symbols: epsilon 0, eof 1, S 2, a 3, b 4
fn two_rule_domain() -> SymbolDomain {
    SymbolDomain::new(vec![
        (String::from("S"), SymbolType::Nonterminal),
        (String::from("a"), SymbolType::Terminal),
        (String::from("b"), SymbolType::Terminal),
    ])
}

fn two_rule_grammar(d: &SymbolDomain) -> Grammar<u32> {
    Grammar::new(
        nt(2),
        vec![
            (GrammarRule::new(nt(2), vec![t(3)]), vec![10, 11]),
            (GrammarRule::new(nt(2), vec![t(4)]), vec![20]),
        ],
        d,
    )
}

#[test]
fn get_rule_counts_from_zero() {
    let d = two_rule_domain();
    let g = two_rule_grammar(&d);
    assert!(g.get_rule(0) == Some(GrammarRule::new(nt(2), vec![t(3)])));
    assert!(g.get_rule(1) == Some(GrammarRule::new(nt(2), vec![t(4)])));
    assert!(g.get_rule(2).is_none());
}

#[test]
fn rule_indexes_list_the_rules_by_head_and_body() {
    let d = two_rule_domain();
    let g = two_rule_grammar(&d);
    let by_head = g.rule_by_head(nt(2));
    assert_eq!(by_head.len(), 2);
    assert!(by_head[0] == GrammarRule::new(nt(2), vec![t(3)]));
    assert!(by_head[1] == GrammarRule::new(nt(2), vec![t(4)]));
    let by_a = g.rule_by_body(t(3));
    assert_eq!(by_a.len(), 1);
    assert!(by_a[0] == GrammarRule::new(nt(2), vec![t(3)]));
    let by_b = g.rule_by_body(t(4));
    assert_eq!(by_b.len(), 1);
    assert!(by_b[0] == GrammarRule::new(nt(2), vec![t(4)]));
    assert!(g.rule_by_head(t(3)).is_empty());
    assert!(g.rule_by_body(nt(2)).is_empty());
}

#[test]
fn rule_by_body_lists_a_rule_once_per_occurrence() {
    let d = two_rule_domain();
    let g: Grammar<u32> = Grammar::new(nt(2), vec![(GrammarRule::new(nt(2), vec![t(3), t(3)]), vec![])], &d);
    assert_eq!(g.rule_by_body(t(3)).len(), 2);
}

#[test]
fn routines_are_filed_under_their_rule() {
    let d = two_rule_domain();
    let g = two_rule_grammar(&d);
    assert_eq!(g.get_routines(GrammarRule::new(nt(2), vec![t(3)])), vec![10, 11]);
    assert_eq!(g.get_routines(GrammarRule::new(nt(2), vec![t(4)])), vec![20]);
    assert_eq!(g.get_routines(GrammarRule::new(nt(2), vec![])), Vec::<u32>::new());
}

#[test]
fn routines_of_a_repeated_rule_share_one_list() {
    let d = two_rule_domain();
    let g: Grammar<u32> = Grammar::new(
        nt(2),
        vec![
            (GrammarRule::new(nt(2), vec![t(3)]), vec![1]),
            (GrammarRule::new(nt(2), vec![t(4)]), vec![2]),
            (GrammarRule::new(nt(2), vec![t(3)]), vec![3, 4]),
        ],
        &d,
    );
    assert_eq!(g.get_routines(GrammarRule::new(nt(2), vec![t(3)])), vec![1, 3, 4]);
    assert_eq!(g.get_routines(GrammarRule::new(nt(2), vec![t(4)])), vec![2]);
}

#[test]
fn first_sets_of_terminals_are_themselves() {
    let d = two_rule_domain();
    let g = two_rule_grammar(&d);
    assert_eq!(ids(&g.first_set(t(3)), &d), vec![3]);
    assert_eq!(ids(&g.first_set(t(4)), &d), vec![4]);
    assert_eq!(ids(&g.first_set(Symbol::epsilon()), &d), vec![0]);
    assert_eq!(ids(&g.first_set(Symbol::eof()), &d), vec![1]);
}

#[test]
fn first_and_follow_sets_of_the_start_symbol() {
    let d = two_rule_domain();
    let g = two_rule_grammar(&d);
    assert_eq!(ids(&g.first_set(nt(2)), &d), vec![3, 4]);
    assert_eq!(ids(&g.follow_set(nt(2)), &d), vec![1]);
    assert_eq!(ids(&g.follow_set(t(4)), &d), vec![1]);
    assert_eq!(ids(&g.follow_set(t(3)), &d), vec![1]);
}

// symbols: epsilon 0, eof 1, S 2, A 3, x 4, y 5
fn chain_domain() -> SymbolDomain {
    SymbolDomain::new(vec![
        (String::from("S"), SymbolType::Nonterminal),
        (String::from("A"), SymbolType::Nonterminal),
        (String::from("x"), SymbolType::Terminal),
        (String::from("y"), SymbolType::Terminal),
    ])
}

#[test]
fn first_sets_through_a_nullable_nonterminal() {
    let d = chain_domain();
    // S -> y | A x, A -> (empty) | y
    let g: Grammar<u32> = Grammar::new(
        nt(2),
        vec![
            (GrammarRule::new(nt(2), vec![t(5)]), vec![]),
            (GrammarRule::new(nt(2), vec![nt(3), t(4)]), vec![]),
            (GrammarRule::new(nt(3), vec![]), vec![]),
            (GrammarRule::new(nt(3), vec![t(5)]), vec![]),
        ],
        &d,
    );
    assert_eq!(ids(&g.first_set(nt(3)), &d), vec![0, 5]);
    assert_eq!(ids(&g.first_set(nt(2)), &d), vec![4, 5]);
    assert_eq!(ids(&g.follow_set(nt(2)), &d), vec![1]);
    assert_eq!(ids(&g.follow_set(nt(3)), &d), vec![4]);
    assert_eq!(ids(&g.follow_set(t(4)), &d), vec![1]);
    assert_eq!(ids(&g.follow_set(t(5)), &d), vec![1, 4]);
}

#[test]
fn grammar_without_rules() {
    let d = two_rule_domain();
    let g: Grammar<u32> = Grammar::new(nt(2), vec![], &d);
    assert!(g.first_set(nt(2)).is_empty());
    assert_eq!(ids(&g.follow_set(nt(2)), &d), vec![1]);
    assert!(g.rule_by_head(nt(2)).is_empty());
    assert!(g.get_rule(0).is_none());
}

#[test]
fn terminal_start_symbol() {
    let d = two_rule_domain();
    let g = Grammar::new(t(3), vec![(GrammarRule::new(nt(2), vec![t(3)]), vec![7u32])], &d);
    assert_eq!(ids(&g.first_set(t(3)), &d), vec![3]);
    assert_eq!(ids(&g.follow_set(t(3)), &d), vec![1]);
    assert!(g.follow_set(nt(2)).is_empty());
}

#[test]
fn unreachable_nonterminal_keeps_empty_sets() {
    // symbols: epsilon 0, eof 1, S 2, a 3, b 4, B 5
    let d = SymbolDomain::new(vec![
        (String::from("S"), SymbolType::Nonterminal),
        (String::from("a"), SymbolType::Terminal),
        (String::from("b"), SymbolType::Terminal),
        (String::from("B"), SymbolType::Nonterminal),
    ]);
    let g: Grammar<u32> = Grammar::new(
        nt(2),
        vec![
            (GrammarRule::new(nt(5), vec![t(4)]), vec![]),
            (GrammarRule::new(nt(2), vec![t(3)]), vec![]),
            (GrammarRule::new(nt(5), vec![t(3), nt(2)]), vec![]),
            (GrammarRule::new(nt(2), vec![t(4)]), vec![]),
        ],
        &d,
    );
    assert_eq!(g.rule_by_head(nt(2)).len(), 2);
    assert!(g.first_set(nt(5)).is_empty());
    assert!(g.follow_set(nt(5)).is_empty());
    assert_eq!(ids(&g.first_set(nt(2)), &d), vec![3, 4]);
    assert_eq!(ids(&g.follow_set(nt(2)), &d), vec![1]);
    assert_eq!(ids(&g.follow_set(t(3)), &d), vec![1]);
    assert_eq!(ids(&g.follow_set(t(4)), &d), vec![1]);
}

#[test]
fn first_sets_reach_nonterminals_after_a_terminal() {
    // symbols: epsilon 0, eof 1, a 2, b 3, S 4, B 5
    let d = SymbolDomain::new(vec![
        (String::from("a"), SymbolType::Terminal),
        (String::from("b"), SymbolType::Terminal),
        (String::from("S"), SymbolType::Nonterminal),
        (String::from("B"), SymbolType::Nonterminal),
    ]);
    let g: Grammar<u32> = Grammar::new(
        nt(4),
        vec![
            (GrammarRule::new(nt(4), vec![t(2), nt(5)]), vec![]),
            (GrammarRule::new(nt(5), vec![t(3)]), vec![9]),
        ],
        &d,
    );
    assert_eq!(ids(&g.first_set(nt(4)), &d), vec![2]);
    assert_eq!(ids(&g.first_set(nt(5)), &d), vec![3]);
    assert_eq!(ids(&g.follow_set(nt(4)), &d), vec![1]);
    assert_eq!(ids(&g.follow_set(nt(5)), &d), vec![1]);
    assert_eq!(ids(&g.follow_set(t(2)), &d), vec![3]);
    let by_head = g.rule_by_head(nt(4));
    assert_eq!(by_head.len(), 1);
    assert!(by_head[0] == GrammarRule::new(nt(4), vec![t(2), nt(5)]));
    let by_a = g.rule_by_body(t(2));
    assert_eq!(by_a.len(), 1);
    assert!(by_a[0] == GrammarRule::new(nt(4), vec![t(2), nt(5)]));
    assert_eq!(g.get_routines(GrammarRule::new(nt(5), vec![t(3)])), vec![9]);
}
