use lib::symbol::{Symbol, SymbolDomain, SymbolSet, SymbolType};

fn domain() -> SymbolDomain {
    SymbolDomain::new(vec![
        (String::from("expr"), SymbolType::Nonterminal),
        (String::from("plus"), SymbolType::Terminal),
        (String::from("term"), SymbolType::Nonterminal),
        (String::from("id"), SymbolType::Terminal),
    ])
}

fn sym(symbol_type: SymbolType, id: u32) -> Symbol {
    Symbol { symbol_type, id }
}

#[test]
fn reserved_symbols() {
    let e = Symbol::epsilon();
    let f = Symbol::eof();
    assert_eq!(e, sym(SymbolType::Epsilon, 0));
    assert_eq!(f, sym(SymbolType::Epsilon, 1));
    assert!(!e.is_terrminal());
    assert!(!e.is_nonterrminal());
    assert!(sym(SymbolType::Terminal, 5).is_terrminal());
    assert!(sym(SymbolType::Nonterminal, 5).is_nonterrminal());
}

#[test]
fn domain_numbers_symbols_after_reserved_ones() {
    let d = domain();
    assert_eq!(d.len(), 6);
    let all = d.iter();
    assert_eq!(
        all,
        vec![
            Symbol::epsilon(),
            Symbol::eof(),
            sym(SymbolType::Nonterminal, 2),
            sym(SymbolType::Terminal, 3),
            sym(SymbolType::Nonterminal, 4),
            sym(SymbolType::Terminal, 5),
        ]
    );
    assert_eq!(d.symbol_name(Symbol::epsilon()), "epsilon");
    assert_eq!(d.symbol_name(Symbol::eof()), "eof");
    assert_eq!(d.symbol_name(sym(SymbolType::Terminal, 3)), "plus");
}

#[test]
fn domain_terminals_and_nonterminals() {
    let d = domain();
    assert_eq!(d.terminals(), vec![sym(SymbolType::Terminal, 3), sym(SymbolType::Terminal, 5)]);
    assert_eq!(
        d.nonterminals(),
        vec![sym(SymbolType::Nonterminal, 2), sym(SymbolType::Nonterminal, 4)]
    );
}

#[test]
fn domain_by_name() {
    let d = domain();
    assert_eq!(d.by_name("term"), Some(sym(SymbolType::Nonterminal, 4)));
    assert_eq!(d.by_name("epsilon"), Some(Symbol::epsilon()));
    assert_eq!(d.by_name("eof"), Some(Symbol::eof()));
    assert_eq!(d.by_name("missing"), None);
}

#[test]
fn domain_by_name_takes_the_last_declaration() {
    let d = SymbolDomain::new(vec![
        (String::from("x"), SymbolType::Terminal),
        (String::from("eof"), SymbolType::Nonterminal),
        (String::from("x"), SymbolType::Nonterminal),
    ]);
    assert_eq!(d.by_name("x"), Some(sym(SymbolType::Nonterminal, 4)));
    assert_eq!(d.by_name("eof"), Some(sym(SymbolType::Nonterminal, 3)));
}

#[test]
fn empty_domain_has_reserved_symbols_only() {
    let d = SymbolDomain::new(vec![]);
    assert_eq!(d.len(), 2);
    assert_eq!(d.terminals(), vec![]);
    assert_eq!(d.nonterminals(), vec![]);
}

#[test]
fn set_insert_remove_contains() {
    let mut s = SymbolSet::new();
    assert!(s.is_empty());
    s.insert(sym(SymbolType::Terminal, 3));
    s.insert(sym(SymbolType::Terminal, 200));
    assert!(s.contains(sym(SymbolType::Terminal, 3)));
    assert!(s.contains(sym(SymbolType::Nonterminal, 200)));
    assert!(!s.contains(sym(SymbolType::Terminal, 4)));
    assert!(!s.contains(sym(SymbolType::Terminal, 100000)));
    assert!(!s.is_empty());
    s.remove(sym(SymbolType::Terminal, 3));
    assert!(!s.contains(sym(SymbolType::Terminal, 3)));
    s.remove(sym(SymbolType::Terminal, 200));
    assert!(s.is_empty());
}

#[test]
fn set_with_capacity_holds_large_ids() {
    let mut s = SymbolSet::with_capacity(1000);
    s.insert(sym(SymbolType::Terminal, 999));
    assert!(s.contains(sym(SymbolType::Terminal, 999)));
    s.clear();
    assert!(s.is_empty());
    let small = SymbolSet::with_capacity(10);
    assert!(small.is_empty());
}

#[test]
fn set_algebra() {
    let a = SymbolSet::new().plus(sym(SymbolType::Terminal, 1)).plus(sym(SymbolType::Terminal, 70));
    let b = SymbolSet::new().plus(sym(SymbolType::Terminal, 70)).plus(sym(SymbolType::Terminal, 130));
    let u = a.union(&b);
    let i = a.intersection(&b);
    let d = a.difference(&b);
    for id in [1u32, 70, 130] {
        assert!(u.contains(sym(SymbolType::Terminal, id)));
    }
    assert!(i.contains(sym(SymbolType::Terminal, 70)));
    assert!(!i.contains(sym(SymbolType::Terminal, 1)));
    assert!(!i.contains(sym(SymbolType::Terminal, 130)));
    assert!(d.contains(sym(SymbolType::Terminal, 1)));
    assert!(!d.contains(sym(SymbolType::Terminal, 70)));
    assert!(i.is_subset(&a));
    assert!(i.is_subset(&b));
    assert!(!a.is_subset(&b));
    assert!(u.is_superset(&a));
    assert!(!a.is_superset(&u));
    let m = u.minus(sym(SymbolType::Terminal, 70));
    assert!(!m.contains(sym(SymbolType::Terminal, 70)));
    assert!(u.contains(sym(SymbolType::Terminal, 70)));
}

#[test]
fn set_union_grows_to_the_larger_capacity() {
    let mut big = SymbolSet::with_capacity(600);
    big.insert(sym(SymbolType::Terminal, 500));
    let small = SymbolSet::new().plus(sym(SymbolType::Terminal, 2));
    let u = small.union(&big);
    assert!(u.contains(sym(SymbolType::Terminal, 500)));
    assert!(u.contains(sym(SymbolType::Terminal, 2)));
    let mut e = SymbolSet::new();
    e.extend(&big);
    assert!(e.contains(sym(SymbolType::Terminal, 500)));
    let d = small.difference(&big);
    assert!(d.contains(sym(SymbolType::Terminal, 2)));
    assert!(!d.contains(sym(SymbolType::Terminal, 500)));
    let i = small.intersection(&big);
    assert!(i.is_empty());
}

#[test]
fn set_iter_lists_domain_members_in_order() {
    let d = domain();
    let s = SymbolSet::new().plus(sym(SymbolType::Terminal, 5)).plus(Symbol::epsilon()).plus(sym(SymbolType::Terminal, 40));
    assert_eq!(s.iter(&d), vec![Symbol::epsilon(), sym(SymbolType::Terminal, 5)]);
}

#[test]
fn set_clone_is_equal_and_independent() {
    let a = SymbolSet::with_capacity(300).plus(sym(SymbolType::Terminal, 299));
    let mut b = a.clone();
    assert!(b.contains(sym(SymbolType::Terminal, 299)));
    b.clear();
    assert!(a.contains(sym(SymbolType::Terminal, 299)));
}

#[test]
fn name_round_trip() {
    let d = domain();
    for s in d.iter() {
        let name = d.symbol_name(s);
        assert_eq!(d.by_name(&name), Some(s));
    }
}

#[test]
fn terminals_and_nonterminals_split_the_declared_symbols() {
    let d = domain();
    let ts = d.terminals();
    let ns = d.nonterminals();
    for s in d.iter() {
        let in_t = ts.contains(&s);
        let in_n = ns.contains(&s);
        assert_eq!(in_t != in_n, s.id >= 2);
        assert!(!(in_t && in_n));
    }
}

#[test]
fn emptiness_and_inclusion_for_inline_and_heap_sets() {
    assert!(SymbolSet::with_capacity(1000).is_empty());
    let s = SymbolSet::new().plus(Symbol::eof());
    assert!(!s.is_empty());
    assert!(s.is_subset(&s));
    let big = SymbolSet::with_capacity(1000).plus(sym(SymbolType::Terminal, 900)).plus(Symbol::eof());
    assert!(s.is_subset(&big));
    assert!(big.is_superset(&s));
    assert!(!big.is_subset(&s));
}
